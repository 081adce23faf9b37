//! What a viewer watching a run live is sent.
//!
//! The run's history first, in order, then events as they are
//! recorded; an event of another run, or one already replayed from the
//! history, is passed over; the stream ends after the event that ends
//! the run. A viewer that fell behind the live feed is told how much it
//! missed rather than shown an incomplete run as if it were whole.

use vstd::prelude::*;

use crate::afg::model::NodeEventKind;
use crate::text::{chars_eq, chars_of, views};

verus! {

/// Whether an event ends its run: it completed, or it failed for good.
pub open spec fn terminal(kind: NodeEventKind) -> bool {
    kind == NodeEventKind::Complete || kind == NodeEventKind::Error
}

/// Executable [`terminal`].
pub fn is_terminal(kind: NodeEventKind) -> (r: bool)
    ensures
        r == terminal(kind),
{
    match kind {
        NodeEventKind::Complete => true,
        NodeEventKind::Error => true,
        _ => false,
    }
}

/// What arrives from the live feed.
pub enum Feed {
    /// An event was recorded: its run, its id, its kind.
    Event { run_id: String, id: String, kind: NodeEventKind },
    /// The viewer fell behind and this many events were dropped for it.
    Lagged(u64),
    /// The feed is gone.
    Closed,
}

/// What the stream does next.
#[derive(Debug, PartialEq, Eq)]
pub enum Emission {
    /// Send the event to the viewer.
    Send,
    /// Pass over it and wait for the next.
    Skip,
    /// Tell the viewer how many events it missed.
    Lagged(u64),
    /// End the stream.
    End,
}

/// One viewer's stream: the run it watches, the ids already replayed
/// from the history, and whether the run's last event has been sent.
pub struct Viewer {
    pub run_id: String,
    pub replayed: Vec<String>,
    pub finished: bool,
}

/// The decision for one arrival, given the run watched, the ids
/// replayed and whether the stream has finished.
pub open spec fn live_step(
    run_id: Seq<char>,
    replayed: Seq<Seq<char>>,
    finished: bool,
    event: Option<(Seq<char>, Seq<char>, NodeEventKind)>,
    lagged: Option<u64>,
) -> (bool, Emission) {
    if finished {
        (true, Emission::End)
    } else {
        match event {
            Some((run, id, kind)) => if run != run_id || replayed.contains(id) {
                (false, Emission::Skip)
            } else {
                (terminal(kind), Emission::Send)
            },
            None => match lagged {
                Some(n) => (false, Emission::Lagged(n)),
                None => (false, Emission::End),
            },
        }
    }
}

/// The arrival as the values [`live_step`] decides on.
pub open spec fn feed_event(f: &Feed) -> Option<(Seq<char>, Seq<char>, NodeEventKind)> {
    match f {
        Feed::Event { run_id, id, kind } => Some((run_id@, id@, *kind)),
        _ => None,
    }
}

/// The lag an arrival reports, if it is one.
pub open spec fn feed_lag(f: &Feed) -> Option<u64> {
    match f {
        Feed::Lagged(n) => Some(*n),
        _ => None,
    }
}

impl Viewer {
    /// A viewer of `run_id` whose history replayed these event ids.
    pub fn new(run_id: String, replayed: Vec<String>) -> (r: Self)
        ensures
            r.run_id@ == run_id@,
            views(r.replayed@) == views(replayed@),
            !r.finished,
    {
        Viewer { run_id, replayed, finished: false }
    }

    /// Records that an event of the history was sent: the stream
    /// finishes after one that ends the run.
    pub fn replay(&mut self, kind: NodeEventKind)
        ensures
            final(self).finished == terminal(kind),
            final(self).run_id@ == old(self).run_id@,
            views(final(self).replayed@) == views(old(self).replayed@),
    {
        self.finished = is_terminal(kind);
    }

    /// Decides what one arrival from the live feed makes the stream do;
    /// see [`live_step`].
    pub fn on_feed(&mut self, feed: &Feed) -> (r: Emission)
        ensures
            (final(self).finished, r) == live_step(
                old(self).run_id@,
                views(old(self).replayed@),
                old(self).finished,
                feed_event(feed),
                feed_lag(feed),
            ),
            final(self).run_id@ == old(self).run_id@,
            views(final(self).replayed@) == views(old(self).replayed@),
    {
        if self.finished {
            return Emission::End;
        }
        match feed {
            Feed::Event { run_id, id, kind } => {
                let mine = chars_eq(chars_of(run_id.as_str()).as_slice(), chars_of(self.run_id.as_str()).as_slice());
                if !mine || self.was_replayed(id.as_str()) {
                    return Emission::Skip;
                }
                self.finished = is_terminal(*kind);
                Emission::Send
            },
            Feed::Lagged(n) => Emission::Lagged(*n),
            Feed::Closed => Emission::End,
        }
    }

    fn was_replayed(&self, id: &str) -> (r: bool)
        ensures
            r == views(self.replayed@).contains(id@),
    {
        let ghost v = views(self.replayed@);
        let c = chars_of(id);
        let mut i: usize = 0;
        while i < self.replayed.len()
            invariant
                i <= self.replayed@.len(),
                v == views(self.replayed@),
                c@ == id@,
                forall|j: int| 0 <= j < i ==> v[j] != id@,
            decreases self.replayed@.len() - i,
        {
            let r = chars_of(self.replayed[i].as_str());
            if chars_eq(r.as_slice(), c.as_slice()) {
                assert(v[i as int] == id@);
                return true;
            }
            i = i + 1;
        }
        false
    }
}

/// Once the stream has finished, nothing more is sent: every arrival
/// ends it.
pub proof fn law_finished_streams_stay_finished(
    run_id: Seq<char>,
    replayed: Seq<Seq<char>>,
    event: Option<(Seq<char>, Seq<char>, NodeEventKind)>,
    lagged: Option<u64>,
)
    ensures
        live_step(run_id, replayed, true, event, lagged) == (true, Emission::End),
{
}

/// An event of another run, or one already replayed, is never sent.
pub proof fn law_foreign_or_replayed_events_are_not_sent(
    run_id: Seq<char>,
    replayed: Seq<Seq<char>>,
    finished: bool,
    run: Seq<char>,
    id: Seq<char>,
    kind: NodeEventKind,
)
    requires
        run != run_id || replayed.contains(id),
    ensures
        live_step(run_id, replayed, finished, Some((run, id, kind)), None).1 != Emission::Send,
{
}

} // verus!
