//! Per-child layout hints and their resolved form.

use vstd::prelude::*;

verus! {

/// Cross-axis alignment of an item inside its cell.
#[derive(Clone, Copy, PartialEq, Eq, Structural, Debug)]
pub enum Align {
    Start,
    Center,
    End,
    Stretch,
}

/// Layout hints a caller supplies for one child, valid for one frame.
#[derive(Clone, Copy, PartialEq, Eq, Debug)]
pub struct FlexItem {
    /// Weight for distributing surplus main-axis space.
    pub grow: u32,
    /// Weight for distributing a main-axis deficit.
    pub shrink: u32,
    /// Preferred main-axis size; when absent the intrinsic size is used.
    pub basis: Option<u32>,
    /// Lower clamp on the final main-axis size.
    pub min_main: Option<u32>,
    /// Upper clamp on the final main-axis size.
    pub max_main: Option<u32>,
    /// Override of the container's cross-axis alignment.
    pub align_self: Option<Align>,
}

impl FlexItem {
    /// A hint with the defaults: no growth, shrink weight one, no basis,
    /// no clamps, container alignment.
    pub fn new() -> (r: FlexItem)
        ensures
            r.grow == 0,
            r.shrink == 1,
            r.basis is None,
            r.min_main is None,
            r.max_main is None,
            r.align_self is None,
    {
        FlexItem { grow: 0, shrink: 1, basis: None, min_main: None, max_main: None, align_self: None }
    }

    /// Set the grow weight.
    pub fn grow(self, g: u32) -> (r: FlexItem)
        ensures
            r == (FlexItem { grow: g, ..self }),
    {
        FlexItem { grow: g, ..self }
    }

    /// Set the shrink weight.
    pub fn shrink(self, s: u32) -> (r: FlexItem)
        ensures
            r == (FlexItem { shrink: s, ..self }),
    {
        FlexItem { shrink: s, ..self }
    }

    /// Set the preferred main-axis size.
    pub fn basis(self, b: u32) -> (r: FlexItem)
        ensures
            r == (FlexItem { basis: Some(b), ..self }),
    {
        FlexItem { basis: Some(b), ..self }
    }

    /// Set the lower clamp on the main-axis size.
    pub fn min_main(self, m: u32) -> (r: FlexItem)
        ensures
            r == (FlexItem { min_main: Some(m), ..self }),
    {
        FlexItem { min_main: Some(m), ..self }
    }

    /// Set the upper clamp on the main-axis size.
    pub fn max_main(self, m: u32) -> (r: FlexItem)
        ensures
            r == (FlexItem { max_main: Some(m), ..self }),
    {
        FlexItem { max_main: Some(m), ..self }
    }

    /// Override the container's cross-axis alignment for this item.
    pub fn align_self(self, a: Align) -> (r: FlexItem)
        ensures
            r == (FlexItem { align_self: Some(a), ..self }),
    {
        FlexItem { align_self: Some(a), ..self }
    }
}

/// A hint resolved against the item's measured intrinsic main size: the
/// clamps made concrete and the base size fixed.
#[derive(Clone, Copy, PartialEq, Eq, Structural, Debug)]
pub struct ResolvedItem {
    /// Main-axis size before surplus or deficit distribution.
    pub base: u32,
    /// Weight for distributing surplus space.
    pub grow: u32,
    /// Weight for distributing a deficit.
    pub shrink: u32,
    /// Lower clamp on the final main-axis size.
    pub min: u32,
    /// Upper clamp on the final main-axis size.
    pub max: u32,
}

/// A resolved item is well formed when its clamps are ordered and its base
/// already sits between them.
pub open spec fn wf(it: ResolvedItem) -> bool {
    it.min <= it.max && it.min <= it.base && it.base <= it.max
}

/// The concrete lower clamp of a hint.
pub open spec fn min_of(h: FlexItem) -> int {
    match h.min_main {
        Some(m) => m as int,
        None => 0,
    }
}

/// The concrete upper clamp of a hint; a lower clamp above the upper one
/// wins, so the range is never empty.
pub open spec fn max_of(h: FlexItem) -> int {
    let raw = match h.max_main {
        Some(m) => m as int,
        None => u32::MAX as int,
    };
    if raw < min_of(h) {
        min_of(h)
    } else {
        raw
    }
}

/// The base size of a hint: the basis when given, else the intrinsic size,
/// clamped into the hint's range.
pub open spec fn base_of(h: FlexItem, intrinsic_main: int) -> int {
    let b = match h.basis {
        Some(x) => x as int,
        None => intrinsic_main,
    };
    if b < min_of(h) {
        min_of(h)
    } else if b > max_of(h) {
        max_of(h)
    } else {
        b
    }
}

/// Resolve a hint against the item's measured intrinsic main size: the basis
/// wins over the intrinsic size, and the result is clamped into the hint's
/// `[min, max]` range.
pub fn resolve(h: &FlexItem, intrinsic_main: u32) -> (r: ResolvedItem)
    ensures
        r.grow == h.grow,
        r.shrink == h.shrink,
        r.min as int == min_of(*h),
        r.max as int == max_of(*h),
        r.base as int == base_of(*h, intrinsic_main as int),
        wf(r),
{
    let min: u32 = match h.min_main {
        Some(m) => m,
        None => 0,
    };
    let raw_max: u32 = match h.max_main {
        Some(m) => m,
        None => u32::MAX,
    };
    let max: u32 = if raw_max < min {
        min
    } else {
        raw_max
    };
    let pref: u32 = match h.basis {
        Some(x) => x,
        None => intrinsic_main,
    };
    let base = crate::clamp_u32(pref, min, max);
    ResolvedItem { base, grow: h.grow, shrink: h.shrink, min, max }
}

} // verus!
