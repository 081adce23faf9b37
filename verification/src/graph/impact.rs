//! What a change reaches: files that import a changed file, directly
//! or through a chain, and how many hops away each is.

use vstd::prelude::*;
use crate::sort::{keyed, lemma_stable_sort, lemma_stable_sort_map_payload, lemma_stable_sort_members, map_payload, push_text_key, sort_by_key, stable_sort, text_key};
use crate::text::{pair_views, string_pairs_chars, views, char_views, chars_eq, chars_of, chars_start_with, pair_char_views, slice_chars, starts_with, string_of_vec};

verus! {

/// How far to follow reverse dependencies by default.
pub const IMPACT_DEFAULT_DEPTH: usize = 3;

/// The farthest an analysis may be asked to look.
pub const MAX_DEPTH: usize = 10;

/// A file that imports something that changed.
#[derive(Clone, Debug)]
pub struct Impacted {
    pub path: String,
    /// 1 = imports a changed file directly.
    pub distance: usize,
}

impl View for Impacted {
    type V = (Seq<char>, nat);

    open spec fn view(&self) -> (Seq<char>, nat) {
        (self.path@, self.distance as nat)
    }
}

/// `s` without any trailing `c`: `str::trim_end_matches(c)`.
pub open spec fn strip_trailing(s: Seq<char>, c: char) -> Seq<char>
    decreases s.len(),
{
    if s.len() > 0 && s.last() == c {
        strip_trailing(s.drop_last(), c)
    } else {
        s
    }
}

/// Whether `path` sits inside the directory `dir`, compared by whole
/// segments, so `features/auth` does not claim `features/authz`. A
/// trailing slash on the directory is ignored.
pub open spec fn within(path: Seq<char>, dir: Seq<char>) -> bool {
    let d = strip_trailing(dir, '/');
    path == d || (starts_with(path, d) && path.len() > d.len() && path[d.len() as int] == '/')
}

proof fn lemma_strip_trailing(s: Seq<char>, c: char, k: int)
    requires
        0 <= k <= s.len(),
        forall|j: int| k <= j < s.len() ==> s[j] == c,
        k == 0 || s[k - 1] != c,
    ensures
        strip_trailing(s, c) == s.take(k),
    decreases s.len(),
{
    if s.len() > 0 && s.last() == c {
        assert(k < s.len()) by {
            if k == s.len() {
                assert(s[k - 1] != c);
            }
        }
        let t = s.drop_last();
        assert forall|j: int| k <= j < t.len() implies t[j] == c by {
            assert(t[j] == s[j]);
        }
        if k > 0 {
            assert(t[k - 1] == s[k - 1]);
        }
        lemma_strip_trailing(t, c, k);
        assert(t.take(k) =~= s.take(k));
    } else {
        if k < s.len() {
            assert(s[s.len() - 1] == c);
        }
        assert(s.take(k) =~= s);
    }
}

/// Whether a path sits inside a module's directory.
pub fn is_within(path: &str, directory: &str) -> (r: bool)
    ensures
        r == within(path@, directory@),
{
    let p = chars_of(path);
    let dir = chars_of(directory);
    let mut k = dir.len();
    while k > 0 && dir[k - 1] == '/'
        invariant
            k <= dir@.len(),
            forall|j: int| k <= j < dir@.len() ==> dir@[j] == '/',
        decreases k,
    {
        k = k - 1;
    }
    proof {
        lemma_strip_trailing(dir@, '/', k as int);
    }
    let d = slice_chars(dir.as_slice(), 0, k);
    chars_eq(p.as_slice(), d.as_slice()) || (chars_start_with(p.as_slice(), d.as_slice()) && p.len()
        > d.len() && p[d.len()] == '/')
}

/// Import edges as (importer, imported).
pub type Edges = Seq<(Seq<char>, Seq<char>)>;

/// `p`, plus every file importing a member of `p`.
pub open spec fn importers_step(edges: Edges, p: Set<Seq<char>>) -> Set<Seq<char>> {
    p.union(
        Set::new(
            |v: Seq<char>|
                exists|i: int|
                    0 <= i < edges.len() && #[trigger] edges[i].0 == v && p.contains(edges[i].1),
        ),
    )
}

/// Files within `k` reverse-import hops of `seeds`.
pub open spec fn reach(edges: Edges, seeds: Set<Seq<char>>, k: nat) -> Set<Seq<char>>
    decreases k,
{
    if k == 0 {
        seeds
    } else {
        importers_step(edges, reach(edges, seeds, (k - 1) as nat))
    }
}

/// The path recorded for `id`; the last entry naming it wins, as when
/// the pairs are collected into a map.
pub open spec fn lookup_last(pairs: Edges, id: Seq<char>) -> Option<Seq<char>>
    decreases pairs.len(),
{
    if pairs.len() == 0 {
        None
    } else if pairs.last().0 == id {
        Some(pairs.last().1)
    } else {
        lookup_last(pairs.drop_last(), id)
    }
}

/// The sort key of an impacted file: distance, then path.
pub open spec fn impact_key(path: Seq<char>, d: nat) -> Seq<u64> {
    seq![d as u64] + text_key(path)
}

/// The keyed report for files reached, in the order given: those
/// with a recorded path, each at its distance.
pub open spec fn reported(ids: Seq<Seq<char>>, ds: Seq<nat>, paths: Edges) -> Seq<
    (Seq<u64>, (Seq<char>, nat)),
>
    decreases ids.len(),
{
    if ids.len() == 0 {
        Seq::empty()
    } else {
        let rest = reported(ids.drop_last(), ds.drop_last(), paths);
        match lookup_last(paths, ids.last()) {
            Some(p) => rest.push((impact_key(p, ds.last()), (p, ds.last()))),
            None => rest,
        }
    }
}

/// `ids` are exactly the files within `depth` hops that are not
/// seeds, each once, and `ds[i]` is the shortest distance of `ids[i]`.
pub open spec fn reached_exactly(
    edges: Edges,
    seeds: Set<Seq<char>>,
    depth: nat,
    ids: Seq<Seq<char>>,
    ds: Seq<nat>,
) -> bool {
    &&& ids.len() == ds.len()
    &&& ids.no_duplicates()
    &&& forall|v: Seq<char>|
        ids.contains(v) <==> (reach(edges, seeds, depth).contains(v) && !seeds.contains(v))
    &&& forall|i: int|
        0 <= i < ids.len() ==> 1 <= #[trigger] ds[i] <= depth && reach(edges, seeds, ds[i]).contains(
            ids[i],
        ) && !reach(edges, seeds, (ds[i] - 1) as nat).contains(ids[i])
}

proof fn lemma_reach_grows(edges: Edges, seeds: Set<Seq<char>>, j: nat, k: nat)
    requires
        j <= k,
    ensures
        reach(edges, seeds, j).subset_of(reach(edges, seeds, k)),
    decreases k,
{
    if j < k {
        lemma_reach_grows(edges, seeds, j, (k - 1) as nat);
    }
}

proof fn lemma_reach_fixpoint(edges: Edges, seeds: Set<Seq<char>>, k: nat, m: nat)
    requires
        k <= m,
        reach(edges, seeds, k + 1) == reach(edges, seeds, k),
    ensures
        reach(edges, seeds, m) == reach(edges, seeds, k),
    decreases m,
{
    if k < m {
        lemma_reach_fixpoint(edges, seeds, k, (m - 1) as nat);
    }
}

pub(crate) fn lookup_path(pairs: &Vec<(Vec<char>, Vec<char>)>, id: &Vec<char>) -> (r: Option<Vec<char>>)
    ensures
        match r {
            Some(p) => lookup_last(pair_char_views(pairs@), id@)
                == Some(p@),
            None => lookup_last(pair_char_views(pairs@), id@)
                is None,
        },
{
    let ghost pv = pair_char_views(pairs@);
    let mut i = pairs.len();
    assert(pv.take(pv.len() as int) =~= pv);
    while i > 0
        invariant
            i <= pairs@.len(),
            pv == pair_char_views(pairs@),
            lookup_last(pv, id@) == lookup_last(pv.take(i as int), id@),
        decreases i,
    {
        let ghost t = pv.take(i as int);
        assert(t.drop_last() =~= pv.take(i - 1));
        assert(t.last() == pv[i - 1]);
        if chars_eq(pairs[i - 1].0.as_slice(), id.as_slice()) {
            return Some(slice_chars(pairs[i - 1].1.as_slice(), 0, pairs[i - 1].1.len()));
        }
        i = i - 1;
    }
    assert(pv.take(0) =~= Seq::<(Seq<char>, Seq<char>)>::empty());
    None
}

fn member(list: &Vec<Vec<char>>, x: &Vec<char>) -> (r: bool)
    ensures
        r == char_views(list@).contains(x@),
{
    let mut i: usize = 0;
    while i < list.len()
        invariant
            i <= list@.len(),
            forall|j: int| 0 <= j < i ==> list@[j]@ != x@,
        decreases list@.len() - i,
    {
        if chars_eq(list[i].as_slice(), x.as_slice()) {
            assert(char_views(list@)[i as int] == x@);
            return true;
        }
        i = i + 1;
    }
    assert forall|j: int| 0 <= j < list@.len() implies #[trigger] char_views(list@)[j] != x@ by {
        assert(list@[j]@ != x@);
    }
    false
}

/// Breadth-first over reverse imports.
///
/// `imports` holds (importer, imported) pairs and `path_of` (id, path)
/// pairs. Every file within `depth` hops of a seed, and not a seed
/// itself, is reported once at its shortest distance — a changed file
/// reached from another changed file is not reported again — if it
/// has a recorded path; the report is ordered by distance, then path.
pub fn spread(
    seeds: &[String],
    imports: &[(String, String)],
    path_of: &[(String, String)],
    depth: usize,
) -> (r: Vec<Impacted>)
    ensures
        exists|ids: Seq<Seq<char>>, ds: Seq<nat>|
            {
                &&& reached_exactly(
                    pair_views(imports@),
                    views(seeds@).to_set(),
                    depth as nat,
                    ids,
                    ds,
                )
                &&& r@.map_values(|i: Impacted| i@) == stable_sort(
                    reported(ids, ds, pair_views(path_of@)),
                ).map_values(|e: (Seq<u64>, (Seq<char>, nat))| e.1)
            },
        forall|a: int, b: int|
            0 <= a < b < r@.len() ==> !crate::sort::key_lt(
                #[trigger] impact_key(r@[b].path@, r@[b].distance as nat),
                #[trigger] impact_key(r@[a].path@, r@[a].distance as nat),
            ),
{
    let ghost edges = pair_views(imports@);
    let ghost seedset = views(seeds@).to_set();
    let ghost paths = pair_views(path_of@);
    let ev = string_pairs_chars(imports);
    let pv = string_pairs_chars(path_of);
    let mut seen: Vec<Vec<char>> = Vec::new();
    let mut i: usize = 0;
    while i < seeds.len()
        invariant
            i <= seeds@.len(),
            seen@.len() == i,
            forall|j: int| 0 <= j < i ==> #[trigger] char_views(seen@)[j] == views(seeds@)[j],
        decreases seeds@.len() - i,
    {
        let ghost s0 = seen@;
        seen.push(chars_of(seeds[i].as_str()));
        assert forall|j: int| 0 <= j < i + 1 implies #[trigger] char_views(seen@)[j] == views(
            seeds@,
        )[j] by {
            if j < i {
                assert(seen@[j] == s0[j]);
                assert(char_views(s0)[j] == views(seeds@)[j]);
            }
        }
        i = i + 1;
    }
    assert(char_views(seen@) =~= views(seeds@));
    let mut frontier: Vec<Vec<char>> = seen.clone();
    assert(char_views(frontier@) =~= char_views(seen@));
    let mut out: Vec<(Vec<u64>, Impacted)> = Vec::new();
    let ghost mut ids: Seq<Seq<char>> = Seq::empty();
    let ghost mut ds: Seq<nat> = Seq::empty();
    let mut level: usize = 0;
    assert(map_payload(keyed(out@), |i: Impacted| i@) =~= reported(ids, ds, paths));
    while level < depth && frontier.len() > 0
        invariant
            edges == pair_char_views(ev@),
            paths == pair_char_views(pv@),
            seedset == views(seeds@).to_set(),
            level <= depth,
            forall|v: Seq<char>|
                char_views(seen@).contains(v) <==> #[trigger] reach(
                    edges,
                    seedset,
                    level as nat,
                ).contains(v),
            forall|v: Seq<char>|
                char_views(frontier@).contains(v) <==> (reach(
                    edges,
                    seedset,
                    level as nat,
                ).contains(v) && (level == 0 || !reach(
                    edges,
                    seedset,
                    (level - 1) as nat,
                ).contains(v))),
            reached_exactly(edges, seedset, level as nat, ids, ds),
            map_payload(keyed(out@), |i: Impacted| i@) == reported(ids, ds, paths),
            forall|k: int|
                0 <= k < out@.len() ==> #[trigger] out@[k].0@ == impact_key(
                    out@[k].1.path@,
                    out@[k].1.distance as nat,
                ),
        decreases depth - level,
    {
        let ghost lv = level as nat;
        let ghost prev = reach(edges, seedset, lv);
        let ghost nxt = reach(edges, seedset, lv + 1);
        assert(nxt == importers_step(edges, prev));
        let ghost ids0 = ids;
        let mut next: Vec<Vec<char>> = Vec::new();
        let mut fi: usize = 0;
        while fi < frontier.len()
            invariant
                edges == pair_char_views(ev@),
                paths == pair_char_views(pv@),
                seedset == views(seeds@).to_set(),
                level < depth,
                lv == level as nat,
                prev == reach(edges, seedset, lv),
                nxt == importers_step(edges, prev),
                fi <= frontier@.len(),
                forall|v: Seq<char>|
                    char_views(frontier@).contains(v) ==> prev.contains(v),
                forall|v: Seq<char>|
                    char_views(seen@).contains(v) <==> (prev.contains(v)
                        || char_views(next@).contains(v)),
                forall|v: Seq<char>|
                    char_views(next@).contains(v) ==> (nxt.contains(v)
                        && !prev.contains(v)),
                forall|k: int, e: int|
                    0 <= k < fi && 0 <= e < edges.len() && edges[e].1 == #[trigger] frontier@[k]@
                        ==> char_views(seen@).contains(#[trigger] edges[e].0),
                ids.len() == ds.len(),
                ids.no_duplicates(),
                ids0.len() <= ids.len(),
                ids.take(ids0.len() as int) == ids0,
                forall|v: Seq<char>|
                    ids.contains(v) <==> (char_views(seen@).contains(v)
                        && !seedset.contains(v)),
                forall|j: int|
                    0 <= j < ids.len() ==> 1 <= #[trigger] ds[j] <= lv + 1 && reach(
                        edges,
                        seedset,
                        ds[j],
                    ).contains(ids[j]) && !reach(edges, seedset, (ds[j] - 1) as nat).contains(
                        ids[j],
                    ),
                map_payload(keyed(out@), |i: Impacted| i@) == reported(ids, ds, paths),
                forall|k: int|
                    0 <= k < out@.len() ==> #[trigger] out@[k].0@ == impact_key(
                        out@[k].1.path@,
                        out@[k].1.distance as nat,
                    ),
            decreases frontier@.len() - fi,
        {
            let u = &frontier[fi];
            assert(char_views(frontier@)[fi as int] == u@);
            let mut ei: usize = 0;
            while ei < ev.len()
                invariant
                    edges == pair_char_views(ev@),
                    paths == pair_char_views(pv@),
                    seedset == views(seeds@).to_set(),
                    level < depth,
                    lv == level as nat,
                    prev == reach(edges, seedset, lv),
                    nxt == importers_step(edges, prev),
                    fi < frontier@.len(),
                    u == frontier@[fi as int],
                    prev.contains(u@),
                    ei <= ev@.len(),
                    forall|v: Seq<char>|
                        char_views(seen@).contains(v) <==> (prev.contains(v)
                            || char_views(next@).contains(v)),
                    forall|v: Seq<char>|
                        char_views(next@).contains(v) ==> (nxt.contains(v)
                            && !prev.contains(v)),
                    forall|k: int, e: int|
                        0 <= k < fi && 0 <= e < edges.len() && edges[e].1
                            == #[trigger] frontier@[k]@ ==> char_views(seen@).contains(
                            #[trigger] edges[e].0,
                        ),
                    forall|e: int|
                        0 <= e < ei && edges[e].1 == u@ ==> char_views(seen@).contains(#[trigger] edges[e].0),
                    ids.len() == ds.len(),
                    ids.no_duplicates(),
                    ids0.len() <= ids.len(),
                    ids.take(ids0.len() as int) == ids0,
                    forall|v: Seq<char>|
                        ids.contains(v) <==> (char_views(seen@).contains(v)
                            && !seedset.contains(v)),
                    forall|j: int|
                        0 <= j < ids.len() ==> 1 <= #[trigger] ds[j] <= lv + 1 && reach(
                            edges,
                            seedset,
                            ds[j],
                        ).contains(ids[j]) && !reach(edges, seedset, (ds[j] - 1) as nat).contains(
                            ids[j],
                        ),
                    map_payload(keyed(out@), |i: Impacted| i@) == reported(ids, ds, paths),
                    forall|k: int|
                        0 <= k < out@.len() ==> #[trigger] out@[k].0@ == impact_key(
                            out@[k].1.path@,
                            out@[k].1.distance as nat,
                        ),
                decreases ev@.len() - ei,
            {
                assert(edges[ei as int] == (ev@[ei as int].0@, ev@[ei as int].1@));
                if chars_eq(ev[ei].1.as_slice(), u.as_slice()) && !member(&seen, &ev[ei].0) {
                    let v = slice_chars(ev[ei].0.as_slice(), 0, ev[ei].0.len());
                    assert(v@ =~= ev@[ei as int].0@);
                    let ghost vv = v@;
                    assert(nxt.contains(vv)) by {
                        assert(edges[ei as int].0 == vv && prev.contains(edges[ei as int].1));
                    }
                    assert(!prev.contains(vv));
                    proof {
                        lemma_reach_grows(edges, seedset, 0, lv);
                    }
                    assert(!seedset.contains(vv));
                    let ghost sv0 = char_views(seen@);
                    let ghost nx0 = char_views(next@);
                    let v1 = slice_chars(v.as_slice(), 0, v.len());
                    let v2 = slice_chars(v.as_slice(), 0, v.len());
                    assert(v1@ =~= vv && v2@ =~= vv);
                    seen.push(v1);
                    next.push(v2);
                    assert(char_views(seen@) =~= sv0.push(vv));
                    assert(char_views(next@) =~= nx0.push(vv));
                    proof {
                        crate::text::lemma_push_contains(sv0, vv);
                        crate::text::lemma_push_contains(nx0, vv);
                        assert forall|v3: Seq<char>|
                            char_views(seen@).contains(v3) <==> (prev.contains(v3) || char_views(
                                next@,
                            ).contains(v3)) by {
                            assert(char_views(seen@).contains(v3) <==> sv0.push(vv).contains(v3));
                            assert(char_views(next@).contains(v3) <==> nx0.push(vv).contains(v3));
                        }
                    }
                    let ghost ids_before = ids;
                    let ghost ds_before = ds;
                    proof {
                        crate::text::lemma_push_contains(ids, vv);
                        ids = ids.push(vv);
                        ds = ds.push(lv + 1);
                        assert(ids.take(ids0.len() as int) =~= ids_before.take(ids0.len() as int));
                        assert(ids.drop_last() =~= ids_before);
                        assert(ds.drop_last() =~= ds_before);
                        assert forall|j: int|
                            0 <= j < ids.len() implies 1 <= #[trigger] ds[j] <= lv + 1 && reach(
                                edges,
                                seedset,
                                ds[j],
                            ).contains(ids[j]) && !reach(
                                edges,
                                seedset,
                                (ds[j] - 1) as nat,
                            ).contains(ids[j]) by {
                            if j < ids.len() - 1 {
                                assert(ids[j] == ids_before[j] && ds[j] == ds_before[j]);
                            } else {
                                assert(ids[j] == vv && ds[j] == lv + 1);
                                assert(reach(edges, seedset, (lv + 1) as nat) == nxt);
                            }
                        }
                        assert forall|v2: Seq<char>|
                            ids.contains(v2) <==> (char_views(seen@).contains(v2)
                                && !seedset.contains(v2)) by {
                            if ids.contains(v2) && v2 != vv {
                                let j = choose|j: int| 0 <= j < ids.len() && ids[j] == v2;
                                assert(ids_before[j] == v2);
                            }
                            if v2 != vv && char_views(seen@).contains(v2) {
                                assert(sv0.contains(v2));
                            }
                            if v2 == vv {
                                assert(ids[ids.len() - 1] == vv);
                            }
                        }
                        assert(!ids_before.contains(vv));
                        assert(ids.no_duplicates()) by {
                            assert forall|a: int, b: int|
                                0 <= a < ids.len() && 0 <= b < ids.len() && a != b implies ids[a]
                                != ids[b] by {
                                if a < ids.len() - 1 && b < ids.len() - 1 {
                                    assert(ids[a] == ids_before[a] && ids[b] == ids_before[b]);
                                } else if a == ids.len() - 1 {
                                    assert(ids[b] == ids_before[b]);
                                } else {
                                    assert(ids[a] == ids_before[a]);
                                }
                            }
                        }
                    }
                    let found = lookup_path(&pv, &v);
                    match found {
                        Some(p) => {
                            let mut key: Vec<u64> = Vec::new();
                            key.push((level + 1) as u64);
                            push_text_key(&mut key, p.as_slice());
                            let ghost kk = key@;
                            assert(kk =~= impact_key(p@, lv + 1));
                            let ghost out0 = out@;
                            out.push((key, Impacted { path: string_of_vec(&p), distance: level + 1 }));
                            assert(map_payload(keyed(out@), |i: Impacted| i@) =~= map_payload(
                                keyed(out0),
                                |i: Impacted| i@,
                            ).push((impact_key(p@, lv + 1), (p@, lv + 1))));
                        },
                        None => {},
                    }
                }
                ei = ei + 1;
            }
            fi = fi + 1;
        }
        proof {
            assert forall|v: Seq<char>|
                char_views(next@).contains(v) <== (nxt.contains(v)
                    && !prev.contains(v)) by {
                if nxt.contains(v) && !prev.contains(v) {
                    let e = choose|e: int|
                        0 <= e < edges.len() && #[trigger] edges[e].0 == v && prev.contains(
                            edges[e].1,
                        );
                    let u2 = edges[e].1;
                    if level > 0 && reach(edges, seedset, (lv - 1) as nat).contains(u2) {
                        assert(reach(edges, seedset, lv) == importers_step(
                            edges,
                            reach(edges, seedset, (lv - 1) as nat),
                        ));
                        assert(prev.contains(v));
                    }
                    assert(char_views(frontier@).contains(u2));
                    let k = choose|k: int|
                        0 <= k < frontier@.len() && char_views(frontier@)[k]
                            == u2;
                    assert(frontier@[k]@ == u2);
                    assert(char_views(seen@).contains(edges[e].0));
                }
            }
        }
        frontier = next;
        level = level + 1;
        assert(reach(edges, seedset, level as nat) == nxt);
    }
    proof {
        let lv = level as nat;
        if level < depth {
            assert(frontier@.len() == 0);
            assert(reach(edges, seedset, lv + 1) =~= reach(edges, seedset, lv)) by {
                assert forall|v: Seq<char>|
                    reach(edges, seedset, lv + 1).contains(v) implies reach(
                        edges,
                        seedset,
                        lv,
                    ).contains(v) by {
                    if !reach(edges, seedset, lv).contains(v) {
                        let e = choose|e: int|
                            0 <= e < edges.len() && #[trigger] edges[e].0 == v && reach(
                                edges,
                                seedset,
                                lv,
                            ).contains(edges[e].1);
                        let u2 = edges[e].1;
                        if level > 0 && reach(edges, seedset, (lv - 1) as nat).contains(u2) {
                            assert(reach(edges, seedset, lv) == importers_step(
                                edges,
                                reach(edges, seedset, (lv - 1) as nat),
                            ));
                        } else {
                            assert(char_views(frontier@).contains(u2));
                        }
                    }
                }
            }
            lemma_reach_fixpoint(edges, seedset, lv, depth as nat);
        }
        assert(reached_exactly(edges, seedset, depth as nat, ids, ds));
    }
    let sorted = sort_by_key(out);
    let ghost rep = reported(ids, ds, paths);
    proof {
        lemma_stable_sort_map_payload(keyed(out@), |i: Impacted| i@);
        lemma_stable_sort(rep);
        lemma_reported_keys(ids, ds, paths);
        lemma_stable_sort_members(rep);
    }
    let ghost ss = stable_sort(rep);
    assert(map_payload(keyed(sorted@), |i: Impacted| i@) == ss);
    let mut r: Vec<Impacted> = Vec::new();
    let mut k: usize = 0;
    while k < sorted.len()
        invariant
            k <= sorted@.len(),
            r@.len() == k,
            forall|j: int| 0 <= j < k ==> #[trigger] r@[j]@ == sorted@[j].1@,
        decreases sorted@.len() - k,
    {
        r.push(Impacted { path: sorted[k].1.path.clone(), distance: sorted[k].1.distance });
        k = k + 1;
    }
    assert forall|j: int| 0 <= j < r@.len() implies #[trigger] r@[j]@ == ss[j].1 by {
        assert(map_payload(keyed(sorted@), |i: Impacted| i@)[j] == ss[j]);
    }
    assert(r@.map_values(|i: Impacted| i@) =~= ss.map_values(
        |e: (Seq<u64>, (Seq<char>, nat))| e.1,
    ));
    proof {
        assert forall|a: int, b: int| 0 <= a < b < r@.len() implies !crate::sort::key_lt(
            #[trigger] impact_key(r@[b].path@, r@[b].distance as nat),
            #[trigger] impact_key(r@[a].path@, r@[a].distance as nat),
        ) by {
            assert(ss.contains(ss[a]) && ss.contains(ss[b]));
            assert(r@[a]@ == ss[a].1 && r@[b]@ == ss[b].1);
            assert(rep.contains(ss[a]) && rep.contains(ss[b]));
            assert(!crate::sort::key_lt(ss[b].0, ss[a].0));
        }
    }
    r
}

/// Every entry of the report is keyed by its own distance and path.
proof fn lemma_reported_keys(ids: Seq<Seq<char>>, ds: Seq<nat>, paths: Edges)
    ensures
        forall|e: (Seq<u64>, (Seq<char>, nat))|
            reported(ids, ds, paths).contains(e) ==> e.0 == impact_key(e.1.0, e.1.1),
    decreases ids.len(),
{
    if ids.len() > 0 {
        lemma_reported_keys(ids.drop_last(), ds.drop_last(), paths);
        let rest = reported(ids.drop_last(), ds.drop_last(), paths);
        assert forall|e: (Seq<u64>, (Seq<char>, nat))|
            reported(ids, ds, paths).contains(e) implies e.0 == impact_key(e.1.0, e.1.1) by {
            match lookup_last(paths, ids.last()) {
                Some(p) => {
                    let w = rest.push((impact_key(p, ds.last()), (p, ds.last())));
                    let k = choose|k: int| 0 <= k < w.len() && w[k] == e;
                    if k < rest.len() {
                        assert(rest.contains(e));
                    }
                },
                None => {},
            }
        }
    }
}

} // verus!
