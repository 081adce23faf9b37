//! The decisions of the watcher that keeps a project indexed: which
//! filesystem events are worth a reindex, what a finished reindex
//! leaves behind, and how the watches are listed.

use vstd::prelude::*;

use crate::graph::model::IndexStats;
use crate::graph::walk::{blacklist_dirs, is_ignored_path};
use crate::sort::{keyed, sort_by_key, stable_sort, text_key, text_key_of};
use crate::text::{chars_of, pieces};

verus! {

/// One entry of the watcher's status.
#[derive(Clone, Debug)]
pub struct WatchStatus {
    pub project: String,
    pub root: String,
    /// Reindexes triggered by file changes since watching began; the
    /// one that runs when watching starts is not counted.
    pub reindexes: u64,
    pub last_stats: Option<IndexStats>,
    pub last_error: Option<String>,
}

/// What the last triggered reindex of a watch left behind.
#[derive(Clone, Debug)]
pub struct LastRun {
    pub reindexes: u64,
    pub last_stats: Option<IndexStats>,
    pub last_error: Option<String>,
}

impl LastRun {
    /// Nothing has run yet.
    pub fn new() -> (r: Self)
        ensures
            r.reindexes == 0,
            r.last_stats is None,
            r.last_error is None,
    {
        LastRun { reindexes: 0, last_stats: None, last_error: None }
    }

    /// Records a finished reindex. A failed one keeps the stats of the
    /// last that succeeded and does not stop the watch: the usual cause
    /// is a file that vanished mid-walk, and the next event is moments
    /// away.
    pub fn record(&mut self, outcome: Result<IndexStats, String>)
        requires
            old(self).reindexes < u64::MAX,
        ensures
            final(self).reindexes == old(self).reindexes + 1,
            match outcome {
                Ok(s) => final(self).last_stats == Some(s) && final(self).last_error is None,
                Err(e) => final(self).last_stats == old(self).last_stats && final(self).last_error
                    == Some(e),
            },
    {
        self.reindexes = self.reindexes + 1;
        match outcome {
            Ok(s) => {
                self.last_stats = Some(s);
                self.last_error = None;
            },
            Err(e) => {
                self.last_error = Some(e);
            },
        }
    }
}

/// Whether a `/`-separated path lies under an always-skipped directory.
pub open spec fn ignored(path: Seq<char>) -> bool {
    exists|i: int|
        0 <= i < pieces(path, '/').len() && blacklist_dirs().contains(#[trigger] pieces(path, '/')[i])
}

/// Whether a filesystem event is worth a reindex: not a mere read
/// (every read the indexer performs would otherwise schedule the
/// next), and touching some path outside the skipped directories.
pub fn is_interesting(access: bool, paths: &[String]) -> (r: bool)
    ensures
        r == (!access && exists|i: int| 0 <= i < paths@.len() && !ignored(#[trigger] paths@[i]@)),
{
    if access {
        return false;
    }
    let mut i: usize = 0;
    while i < paths.len()
        invariant
            !access,
            i <= paths@.len(),
            forall|j: int| 0 <= j < i ==> ignored(#[trigger] paths@[j]@),
        decreases paths@.len() - i,
    {
        if !is_ignored_path(paths[i].as_str()) {
            assert(!ignored(paths@[i as int]@));
            return true;
        }
        i = i + 1;
    }
    false
}

/// The statuses keyed by project.
pub open spec fn by_project(v: Seq<WatchStatus>) -> Seq<(Seq<u64>, WatchStatus)> {
    v.map_values(|w: WatchStatus| (text_key(w.project@), w))
}

/// The statuses in project order.
pub fn sort_statuses(v: Vec<WatchStatus>) -> (r: Vec<WatchStatus>)
    ensures
        r@ == stable_sort(by_project(v@)).map_values(|e: (Seq<u64>, WatchStatus)| e.1),
{
    let ghost input = v@;
    let mut v = v;
    let mut entries: Vec<(Vec<u64>, WatchStatus)> = Vec::new();
    let mut consumed: usize = 0;
    let n = v.len();
    while v.len() > 0
        invariant
            v@.len() + consumed == n,
            n == input.len(),
            v@ == input.skip(consumed as int),
            keyed(entries@) == by_project(input.take(consumed as int)),
        decreases v@.len(),
    {
        let w = v.remove(0);
        let p = chars_of(w.project.as_str());
        let k = text_key_of(p.as_slice());
        let ghost before = keyed(entries@);
        entries.push((k, w));
        assert(keyed(entries@) =~= before.push((text_key(w.project@), w)));
        assert(input.skip(consumed as int)[0] == w);
        assert(input.take(consumed + 1) =~= input.take(consumed as int).push(w));
        assert(v@ =~= input.skip(consumed + 1));
        consumed = consumed + 1;
    }
    assert(input.take(consumed as int) =~= input);
    let sorted = sort_by_key(entries);
    let ghost sv = keyed(sorted@);
    let mut sorted = sorted;
    let mut out: Vec<WatchStatus> = Vec::new();
    let total = sorted.len();
    let mut taken: usize = 0;
    while sorted.len() > 0
        invariant
            sorted@.len() + taken == total,
            total == sv.len(),
            keyed(sorted@) == sv.skip(taken as int),
            out@ == sv.take(taken as int).map_values(|e: (Seq<u64>, WatchStatus)| e.1),
        decreases sorted@.len(),
    {
        let ghost s0 = sorted@;
        let e = sorted.remove(0);
        assert(keyed(s0)[0] == sv[taken as int]);
        assert(keyed(sorted@) =~= sv.skip(taken + 1)) by {
            assert forall|j: int| 0 <= j < sorted@.len() implies keyed(sorted@)[j] == sv.skip(
                taken + 1,
            )[j] by {
                assert(sorted@[j] == s0[j + 1]);
                assert(keyed(s0)[j + 1] == sv.skip(taken as int)[j + 1]);
            }
        }
        out.push(e.1);
        assert(out@ =~= sv.take(taken + 1).map_values(|e: (Seq<u64>, WatchStatus)| e.1));
        taken = taken + 1;
    }
    assert(sv.take(taken as int) =~= sv);
    out
}

} // verus!
