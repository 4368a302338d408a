use crate::snap::{apply, apply_result, DeltaV, ItemV, Snap};
use crate::wire::{DeltaBase, WireDelta};
use vstd::prelude::*;

verus! {

/// A snapshot rebuilt from a delta, with its tick and the tick of the base
/// it was built on (`None` for a full snapshot).
#[derive(Debug)]
pub struct ReceivedDelta {
    pub base_tick: Option<u32>,
    pub tick: u32,
    pub snap: Snap,
}

/// Why a received delta was not applied.
#[derive(Clone, Copy, Debug, PartialEq, Eq, Structural)]
pub enum ReceiveError {
    /// A full snapshot did not fit the empty base.
    InconsistentDelta,
    /// The delta cannot be applied to the state held: a fresh full snapshot
    /// is needed.
    ResyncRequired,
}

struct Base {
    tick: u32,
    snap: Snap,
}

/// The client side: holds the last snapshot rebuilt, and rebuilds the next
/// one from each delta that refers to it.
pub struct DeltaReceiver {
    base: Option<Base>,
}

impl DeltaReceiver {
    /// `None` while awaiting a full snapshot; else the tick and snapshot held.
    pub closed spec fn state(&self) -> Option<(u32, Seq<ItemV>)> {
        match self.base {
            Some(b) => Some((b.tick, b.snap@)),
            None => None,
        }
    }

    pub closed spec fn wf(&self) -> bool {
        self.base matches Some(b) ==> b.snap.wf()
    }

    pub fn new() -> (r: DeltaReceiver)
        ensures
            r.wf(),
            r.state() is None,
    {
        DeltaReceiver { base: None }
    }

    /// Whether a snapshot is held.
    pub fn is_synced(&self) -> (r: bool)
        ensures
            r == self.state() is Some,
    {
        self.base.is_some()
    }

    /// The tick of the snapshot held, if any.
    pub fn base_tick(&self) -> (r: Option<u32>)
        ensures
            r == (match self.state() {
                Some(st) => Some(st.0),
                None => None,
            }),
    {
        match &self.base {
            Some(b) => Some(b.tick),
            None => None,
        }
    }

    /// Applies a received delta. A full delta is applied to the empty
    /// snapshot; any other to the snapshot held, when its base tick is the
    /// tick held. On success the result becomes the snapshot held; on any
    /// failure the state does not change.
    pub fn on_delta(&mut self, wd: &WireDelta) -> (r: Result<ReceivedDelta, ReceiveError>)
        requires
            old(self).wf(),
        ensures
            final(self).wf(),
            wd.base == DeltaBase::Full ==> {
                &&& r is Ok <==> apply_result(Seq::empty(), wd.delta@) is Some
                &&& r is Err ==> r->Err_0 == ReceiveError::InconsistentDelta
                &&& r is Ok ==> r->Ok_0.base_tick is None
            },
            wd.base matches DeltaBase::FromTick(f) ==> {
                &&& r is Ok <==> (old(self).state() matches Some(st) && st.0 == f
                    && apply_result(st.1, wd.delta@) is Some)
                &&& r is Err ==> r->Err_0 == ReceiveError::ResyncRequired
                &&& r is Ok ==> r->Ok_0.base_tick == Some(f)
                    && r->Ok_0.snap@ == apply_result((old(self).state()->0).1, wd.delta@)->0
            },
            wd.base == DeltaBase::Full && r is Ok ==> r->Ok_0.snap@ == apply_result(Seq::empty(), wd.delta@)->0,
            r is Ok ==> r->Ok_0.tick == wd.to_tick && r->Ok_0.snap.wf()
                && final(self).state() == Some((wd.to_tick, r->Ok_0.snap@)),
            r is Err ==> final(self).state() == old(self).state(),
    {
        let result = match wd.base {
            DeltaBase::Full => {
                let empty = Snap::empty();
                match apply(&empty, &wd.delta) {
                    Ok(s) => s,
                    Err(_) => {
                        return Err(ReceiveError::InconsistentDelta);
                    },
                }
            },
            DeltaBase::FromTick(f) => {
                match &self.base {
                    Some(b) => {
                        if b.tick != f {
                            return Err(ReceiveError::ResyncRequired);
                        }
                        match apply(&b.snap, &wd.delta) {
                            Ok(s) => s,
                            Err(_) => {
                                return Err(ReceiveError::ResyncRequired);
                            },
                        }
                    },
                    None => {
                        return Err(ReceiveError::ResyncRequired);
                    },
                }
            },
        };
        let base_tick = match wd.base {
            DeltaBase::Full => None,
            DeltaBase::FromTick(f) => Some(f),
        };
        let kept = result.copy();
        self.base = Some(Base { tick: wd.to_tick, snap: kept });
        Ok(ReceivedDelta { base_tick, tick: wd.to_tick, snap: result })
    }
}

} // verus!
