use crate::snap::Delta;
use vstd::prelude::*;

verus! {

/// What a delta on the wire was computed against.
#[derive(Clone, Copy, Debug, PartialEq, Eq, Structural)]
pub enum DeltaBase {
    /// The empty snapshot: the delta carries a full snapshot.
    Full,
    /// The snapshot of the given tick.
    FromTick(u32),
}

/// A delta tagged with its base and the tick it leads to.
#[derive(Debug)]
pub struct WireDelta {
    pub base: DeltaBase,
    pub to_tick: u32,
    pub delta: Delta,
}

} // verus!
