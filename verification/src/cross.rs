//! Cross-axis placement of one item inside its cell.

use crate::item::Align;
use vstd::prelude::*;

verus! {

/// Cross-axis placement of one item: offset from the cell's start edge and
/// the item's cross-axis size.
#[derive(Clone, Copy, PartialEq, Eq, Structural, Debug)]
pub struct CrossPlacement {
    /// Offset from the cell's start edge.
    pub offset: u32,
    /// The item's cross-axis size.
    pub size: u32,
}

/// The intrinsic cross size clipped to the available extent, so the item
/// never overflows the container on the cross axis.
pub open spec fn clipped(intrinsic: int, avail: int) -> int {
    if intrinsic > avail {
        avail
    } else {
        intrinsic
    }
}

/// The cross-axis size an alignment yields: the full extent under an honored
/// stretch, else the clipped intrinsic size.
pub open spec fn cross_size_of(align: Align, avail: int, intrinsic: int, stretch_ok: bool) -> int {
    if align is Stretch && stretch_ok {
        avail
    } else {
        clipped(intrinsic, avail)
    }
}

/// The cross-axis offset an alignment yields: zero for start and stretch,
/// the end-anchored slack for end, half the slack rounded toward the start
/// for center.
pub open spec fn cross_offset_of(align: Align, avail: int, intrinsic: int, stretch_ok: bool) -> int {
    let size = cross_size_of(align, avail, intrinsic, stretch_ok);
    match align {
        Align::Start => 0,
        Align::Stretch => 0,
        Align::End => avail - size,
        Align::Center => (avail - size) / 2,
    }
}

/// Place one item on the cross axis. A stretch that is not honored (because
/// the intrinsic cross size was measured under an explicit constraint)
/// degrades to start. The placed rectangle always lies inside the available
/// extent.
pub fn cross_align(align: Align, avail_cross: u32, intrinsic_cross: u32, stretch_ok: bool) -> (r:
    CrossPlacement)
    ensures
        r.size as int == cross_size_of(align, avail_cross as int, intrinsic_cross as int, stretch_ok),
        r.offset as int == cross_offset_of(
            align,
            avail_cross as int,
            intrinsic_cross as int,
            stretch_ok,
        ),
        r.offset + r.size <= avail_cross,
{
    let size: u32 = if matches!(align, Align::Stretch) && stretch_ok {
        avail_cross
    } else if intrinsic_cross > avail_cross {
        avail_cross
    } else {
        intrinsic_cross
    };
    let offset: u32 = match align {
        Align::Start => 0,
        Align::Stretch => 0,
        Align::End => avail_cross - size,
        Align::Center => (avail_cross - size) / 2,
    };
    CrossPlacement { offset, size }
}

/// Anchor drawn content inside its cell on one axis when it proved smaller
/// than the cell: the cell does not change, only where the content sits in
/// it. Content larger than the cell is clipped at the cell's start.
pub fn anchor_in_cell(align: Align, cell: u32, content: u32) -> (off: u32)
    ensures
        off as int == cross_offset_of(align, cell as int, content as int, false),
        off as int + clipped(content as int, cell as int) <= cell,
{
    cross_align(align, cell, content, false).offset
}

} // verus!
