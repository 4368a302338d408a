use crate::snap::{ItemV, Snap, sorted_items};
use std::collections::VecDeque;
use vstd::prelude::*;

verus! {

/// The model of the history: (tick, snapshot) pairs, oldest first.
pub type HistoryV = Seq<(u32, Seq<ItemV>)>;

/// Ticks strictly increasing, none above the last inserted one, and every
/// stored snapshot well-formed.
pub open spec fn history_wf(h: HistoryV, last: Option<u32>) -> bool {
    &&& forall|i: int, j: int| 0 <= i < j < h.len() ==> (#[trigger] h[i]).0 < (#[trigger] h[j]).0
    &&& forall|i: int| 0 <= i < h.len() ==> sorted_items((#[trigger] h[i]).1)
    &&& h.len() > 0 ==> last is Some
    &&& forall|i: int| 0 <= i < h.len() && last is Some ==> (#[trigger] h[i]).0 <= last->0
}

pub open spec fn has_tick(h: HistoryV, tick: u32) -> bool {
    exists|i: int| 0 <= i < h.len() && (#[trigger] h[i]).0 == tick
}

/// The snapshot stored at tick `t` (meaningful where `has_tick(h, t)`).
pub open spec fn snap_at(h: HistoryV, t: u32) -> Seq<ItemV> {
    h[choose|i: int| 0 <= i < h.len() && (#[trigger] h[i]).0 == t].1
}

/// Raised when a tick does not come strictly after every tick inserted before.
#[derive(Clone, Copy, Debug, PartialEq, Eq, Structural)]
pub struct MonotonicityViolation;

struct Stored {
    tick: u32,
    snap: Snap,
}

/// A bounded history of snapshots keyed by tick, trimmed from the oldest end.
pub struct Storage {
    entries: VecDeque<Stored>,
    last: Option<u32>,
}

impl Storage {
    pub closed spec fn view(&self) -> HistoryV {
        self.entries@.map_values(|e: Stored| (e.tick, e.snap@))
    }

    /// The last tick ever inserted, trimmed or not.
    pub closed spec fn last_tick(&self) -> Option<u32> {
        self.last
    }

    pub open spec fn wf(&self) -> bool {
        history_wf(self@, self.last_tick())
    }

    pub fn new() -> (r: Storage)
        ensures
            r@ == HistoryV::empty(),
            r.last_tick() is None,
            r.wf(),
    {
        let r = Storage { entries: VecDeque::new(), last: None };
        assert(r@ =~= HistoryV::empty());
        r
    }

    pub fn len(&self) -> (r: usize)
        ensures
            r == self@.len(),
    {
        self.entries.len()
    }

    /// The last tick ever inserted.
    pub fn last(&self) -> (r: Option<u32>)
        ensures
            r == self.last_tick(),
    {
        self.last
    }

    /// Records `snap` at `tick`, which must come after every tick inserted
    /// before; otherwise nothing changes.
    pub fn insert(&mut self, tick: u32, snap: Snap) -> (r: Result<(), MonotonicityViolation>)
        requires
            old(self).wf(),
            snap.wf(),
        ensures
            final(self).wf(),
            r is Err <==> (old(self).last_tick() matches Some(l) && tick <= l),
            r is Ok ==> final(self)@ == old(self)@.push((tick, snap@)) && final(self).last_tick() == Some(tick),
            r is Err ==> *final(self) == *old(self),
    {
        if let Some(l) = self.last {
            if tick <= l {
                return Err(MonotonicityViolation);
            }
        }
        let ghost h0 = self@;
        self.entries.push_back(Stored { tick, snap });
        self.last = Some(tick);
        assert(self@ =~= h0.push((tick, snap@)));
        Ok(())
    }

    /// The snapshot stored at `tick`, if any, found by binary search over
    /// the sorted ticks.
    pub fn get(&self, tick: u32) -> (r: Option<&Snap>)
        requires
            self.wf(),
        ensures
            r is Some <==> has_tick(self@, tick),
            r matches Some(s) ==> s.wf() && s@ == snap_at(self@, tick),
    {
        let mut lo: usize = 0;
        let mut hi: usize = self.entries.len();
        while lo < hi
            invariant
                self.wf(),
                lo <= hi <= self@.len(),
                self@.len() == self.entries@.len(),
                forall|k: int| 0 <= k < lo ==> (#[trigger] self@[k]).0 < tick,
                forall|k: int| hi <= k < self@.len() ==> (#[trigger] self@[k]).0 > tick,
            decreases hi - lo,
        {
            let mid = lo + (hi - lo) / 2;
            assert(self@[mid as int] == (self.entries@[mid as int].tick, self.entries@[mid as int].snap@));
            let t = self.entries[mid].tick;
            if t == tick {
                assert(forall|k: int| 0 <= k < self@.len() && (#[trigger] self@[k]).0 == tick ==> k == mid);
                assert(has_tick(self@, tick));
                return Some(&self.entries[mid].snap);
            } else if t < tick {
                assert forall|k: int| 0 <= k < mid + 1 implies (#[trigger] self@[k]).0 < tick by {
                    if k < mid {
                        assert(self@[k].0 < self@[mid as int].0);
                    }
                }
                lo = mid + 1;
            } else {
                assert forall|k: int| mid <= k < self@.len() implies (#[trigger] self@[k]).0 > tick by {
                    if k > mid {
                        assert(self@[mid as int].0 < self@[k].0);
                    }
                }
                hi = mid;
            }
        }
        None
    }

    /// Evicts every snapshot stored at a tick below `min_tick`.
    pub fn trim(&mut self, min_tick: u32)
        requires
            old(self).wf(),
        ensures
            final(self).wf(),
            final(self).last_tick() == old(self).last_tick(),
            final(self)@ == old(self)@.subrange(old(self)@.len() - final(self)@.len(), old(self)@.len() as int),
            forall|i: int| 0 <= i < final(self)@.len() ==> (#[trigger] final(self)@[i]).0 >= min_tick,
            forall|i: int| 0 <= i < old(self)@.len() - final(self)@.len() ==> (#[trigger] old(self)@[i]).0 < min_tick,
    {
        let ghost h0 = self@;
        let ghost n0 = h0.len();
        while self.entries.len() > 0 && self.entries[0].tick < min_tick
            invariant
                self.wf(),
                self.last == old(self).last,
                n0 == h0.len(),
                h0 == old(self)@,
                self@.len() <= n0,
                self@ == h0.subrange(n0 - self@.len(), n0 as int),
                forall|i: int| 0 <= i < n0 - self@.len() ==> (#[trigger] h0[i]).0 < min_tick,
            decreases self@.len(),
        {
            let ghost h1 = self@;
            assert(h1[0] == h0[n0 - h1.len()]);
            assert(h1[0].0 == self.entries@[0].tick);
            let _ = self.entries.pop_front();
            assert(self@ =~= h1.subrange(1, h1.len() as int));
            assert(self@ =~= h0.subrange(n0 - self@.len(), n0 as int));
        }
        if self.entries.len() > 0 {
            assert(self@[0].0 == self.entries@[0].tick);
        }
    }
}

} // verus!
