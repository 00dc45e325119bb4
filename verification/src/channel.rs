//! The hand-off point between background workers and the frame loop:
//! completed fetches are appended one by one and drained in one sweep (or
//! up to a per-frame cap), each exactly once.  The cross-thread locking
//! around this queue lives with the caller; every operation here is O(1)
//! or one swap, so critical sections stay short.

use vstd::prelude::*;
use crate::types::{TileId, TileError, TileTier};

verus! {

/// Event emitted when a tile is loaded (successfully or with an error).
#[derive(Debug)]
pub struct TileLoadedEvent {
    /// The ID of the tile that was loaded
    pub tile_id: TileId,
    /// The data of the loaded tile, or an error if loading failed
    pub data: Result<Vec<u8>, TileError>,
    /// Whether the tile is focus detail or background context
    pub tier: TileTier,
}

/// The shared result queue: workers append, the frame loop drains.
pub struct ResultChannel {
    items: Vec<TileLoadedEvent>,
}

impl ResultChannel {
    pub closed spec fn view_items(self) -> Seq<TileLoadedEvent> {
        self.items@
    }

    /// Create an empty channel.
    pub fn new() -> (c: ResultChannel)
        ensures
            c.view_items().len() == 0,
    {
        ResultChannel { items: Vec::new() }
    }

    /// Append one completed fetch; nothing already queued moves or is
    /// lost.
    pub fn push(&mut self, event: TileLoadedEvent)
        ensures
            final(self).view_items() == old(self).view_items().push(event),
    {
        self.items.push(event);
    }

    /// Drain the whole queue: every queued outcome is handed out exactly
    /// once, in arrival order, and the queue is left empty.
    pub fn drain(&mut self) -> (out: Vec<TileLoadedEvent>)
        ensures
            out@ == old(self).view_items(),
            final(self).view_items().len() == 0,
    {
        let mut out: Vec<TileLoadedEvent> = Vec::new();
        core::mem::swap(&mut out, &mut self.items);
        out
    }

    /// Drain at most `cap` outcomes from the front of the queue, to bound
    /// the frame-time cost of a burst of completions; what is not drained
    /// stays queued, in order.
    pub fn drain_up_to(&mut self, cap: usize) -> (out: Vec<TileLoadedEvent>)
        ensures
            out@ == old(self).view_items().take(min_spec(cap as int, old(self).view_items().len() as int)),
            final(self).view_items() == old(self).view_items().skip(
                min_spec(cap as int, old(self).view_items().len() as int),
            ),
    {
        let ghost s0 = self.items@;
        let mut out: Vec<TileLoadedEvent> = Vec::new();
        while out.len() < cap && self.items.len() > 0
            invariant
                s0 =~= out@ + self.items@,
                out@.len() <= cap,
                out@.len() <= s0.len(),
                out@ =~= s0.take(out@.len() as int),
            decreases self.items@.len(),
        {
            let e = self.items.remove(0);
            let ghost oc = out@;
            out.push(e);
            proof {
                assert(s0 =~= out@ + self.items@);
                assert(out@ =~= s0.take(out@.len() as int));
            }
        }
        proof {
            let k = min_spec(cap as int, s0.len() as int);
            assert(out@.len() == k);
            assert(self.items@ =~= s0.skip(k));
        }
        out
    }

    /// How many completed fetches are waiting.
    pub fn len(&self) -> (n: usize)
        ensures
            n == self.view_items().len(),
    {
        self.items.len()
    }

    /// Whether nothing is waiting.
    pub fn is_empty(&self) -> (r: bool)
        ensures
            r == (self.view_items().len() == 0),
    {
        self.items.len() == 0
    }
}

pub open spec fn min_spec(a: int, b: int) -> int {
    if a <= b {
        a
    } else {
        b
    }
}

/// No lost update and no duplication: when two workers complete downloads
/// and each appends its outcome, the queue afterwards holds both, in
/// order, each exactly once -- a drain then hands both out exactly once.
pub proof fn lemma_two_appends_kept(s: Seq<TileLoadedEvent>, a: TileLoadedEvent, b: TileLoadedEvent)
    ensures
        s.push(a).push(b).len() == s.len() + 2,
        s.push(a).push(b)[s.len() as int] == a,
        s.push(a).push(b)[s.len() as int + 1] == b,
        forall|i: int| 0 <= i < s.len() ==> s.push(a).push(b)[i] == s[i],
{
}

} // verus!