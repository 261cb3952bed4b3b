//! A binary buddy-system allocator over a fixed address range.
//!
//! The allocator partitions a half-open region `[start, end)` of addressable
//! units into power-of-two blocks, keeps the free blocks of each size class
//! in one of 32 bins, splits blocks on demand to serve a request, and merges
//! a freed block with its buddy whenever the buddy is free as well.
//!
//! Every operation is specified against a pure model over sequences, and the
//! characteristic buddy-system facts — LIFO reuse after a free, eager
//! coalescing of buddy pairs, and how completely a region is covered by the
//! initial blocks — are proved as lemmas over that model.

pub mod arith;
pub mod allocator;
pub mod free_list;
pub mod laws;
pub mod rect;

use vstd::prelude::*;

verus! {

/// Increments its argument when it can.
///
/// Only the value `1` is accepted; every other input reports itself back as
/// the error payload.
pub fn add_one(x: i32) -> (r: Result<i32, i32>)
    ensures
        x == 1 ==> r == Result::<i32, i32>::Ok(2),
        x != 1 ==> r == Result::<i32, i32>::Err(1),
{
    match x {
        1 => Ok(2),
        _ => Err(1),
    }
}

} // verus!
