//! Flexbox-style layout widgets for an immediate-mode GUI: a single-line flex
//! container with grow/shrink distribution over integer pixels, a cross-axis
//! aligner, a per-frame intrinsic-size cache, a form-field error latch, a UI
//! inbox queue, and a vertical drag-and-drop state machine.

pub mod allocator;
pub mod cache;
pub mod cross;
pub mod dnd;
pub mod driver;
pub mod form;
pub mod inbox;
pub mod item;

use vstd::prelude::*;

verus! {

/// Clamp `x` into the inclusive range `[lo, hi]`.
pub fn clamp_u32(x: u32, lo: u32, hi: u32) -> (r: u32)
    requires
        lo <= hi,
    ensures
        r == if x < lo { lo } else if x > hi { hi } else { x },
        lo <= r <= hi,
{
    if x < lo {
        lo
    } else if x > hi {
        hi
    } else {
        x
    }
}

} // verus!
