pub mod manager;
pub mod peer_map;
pub mod receiver;
pub mod snap;
pub mod storage;
pub mod wire;

use vstd::prelude::*;

verus! {

/// Widens a range of 32-bit indices to a range of `usize` indices.
pub fn to_usize(r: std::ops::Range<u32>) -> (res: std::ops::Range<usize>)
    ensures
        res.start == r.start as usize,
        res.end == r.end as usize,
{
    std::ops::Range { start: r.start as usize, end: r.end as usize }
}

} // verus!
