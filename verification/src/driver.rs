//! The frame driver's decision core. Each frame the host first asks which
//! children still need a hidden measurement pass, then — once every child's
//! intrinsic size is cached — has the line resolved, allocated, aligned and
//! placed into cell rectangles. Drawing itself stays with the host shell;
//! everything here is a function of the cache, the hints and the container.

use crate::allocator::{
    all_in_bounds, allocate, bases, sum_int, target_of, tentative, wf_items,
};
use crate::cache::{aged, CacheEntry, SizeCache};
use crate::cross::{cross_align, cross_offset_of, cross_size_of, CrossPlacement};
use crate::item::{base_of, max_of, min_of, resolve, Align, FlexItem, ResolvedItem};
use vstd::prelude::*;

verus! {

/// Main axis of a container.
#[derive(Clone, Copy, PartialEq, Eq, Structural, Debug)]
pub enum Direction {
    Horizontal,
    Vertical,
}

/// Container configuration for one frame.
#[derive(Clone, Copy, PartialEq, Eq, Structural, Debug)]
pub struct FlexConfig {
    /// Which screen axis is the main axis.
    pub direction: Direction,
    /// Cross-axis alignment for items without an override.
    pub align_items: Align,
    /// Pixels between adjacent items, counted against the main extent.
    pub gap: u32,
}

/// The rectangle a container assigns to one child, in main/cross
/// coordinates relative to the container's content origin.
#[derive(Clone, Copy, PartialEq, Eq, Structural, Debug)]
pub struct CellRect {
    /// Distance from the container's main-axis start.
    pub main_offset: u64,
    /// Distance from the container's cross-axis start.
    pub cross_offset: u32,
    /// Main-axis size.
    pub main_size: u32,
    /// Cross-axis size.
    pub cross_size: u32,
}

/// The cross-axis alignment of one item: its own override, else the
/// container's.
pub open spec fn align_of(h: FlexItem, container: Align) -> Align {
    match h.align_self {
        Some(a) => a,
        None => container,
    }
}

/// The resolved item a hint yields against a cached intrinsic main size.
pub open spec fn resolved_of(h: FlexItem, intrinsic_main: int) -> ResolvedItem {
    ResolvedItem {
        base: base_of(h, intrinsic_main) as u32,
        grow: h.grow,
        shrink: h.shrink,
        min: min_of(h) as u32,
        max: max_of(h) as u32,
    }
}

/// The whole line resolved against the cache: item `i` is hint `i` resolved
/// against the cached intrinsic main size of key `i`.
pub open spec fn resolved_line(
    m: Map<u64, CacheEntry>,
    keys: Seq<u64>,
    hints: Seq<FlexItem>,
) -> Seq<ResolvedItem> {
    Seq::new(keys.len(), |i: int| resolved_of(hints[i], m[keys[i]].main as int))
}

/// Children without a cached measurement, in index order: exactly those the
/// host must draw once in a hidden pass before the line can be placed. With
/// every key cached nothing is returned, so a settled frame consults no
/// hidden pass.
pub fn plan_measurements(cache: &SizeCache, keys: &Vec<u64>) -> (missing: Vec<usize>)
    requires
        cache.wf(),
    ensures
        forall|p: int|
            0 <= p < missing@.len() ==> (#[trigger] missing@[p]) < keys@.len()
                && !cache@.contains_key(keys@[missing@[p] as int]),
        forall|i: int|
            0 <= i < keys@.len() && !cache@.contains_key(#[trigger] keys@[i]) ==> missing@.contains(
                i as usize,
            ),
        (forall|i: int| 0 <= i < keys@.len() ==> cache@.contains_key(#[trigger] keys@[i]))
            ==> missing@.len() == 0,
{
    let n = keys.len();
    let mut missing: Vec<usize> = Vec::new();
    let mut i: usize = 0;
    while i < n
        invariant
            i <= n,
            n == keys@.len(),
            cache.wf(),
            forall|p: int|
                0 <= p < missing@.len() ==> (#[trigger] missing@[p]) < i && !cache@.contains_key(
                    keys@[missing@[p] as int],
                ),
            forall|j: int|
                0 <= j < i && !cache@.contains_key(#[trigger] keys@[j]) ==> missing@.contains(
                    j as usize,
                ),
        decreases n - i,
    {
        let ghost mold = missing@;
        if cache.get(keys[i]).is_none() {
            missing.push(i);
        }
        proof {
            assert forall|j: int|
                0 <= j < i as int + 1 && !cache@.contains_key(keys@[j]) implies missing@.contains(
                j as usize,
            ) by {
                if j == i as int {
                    assert(missing@ == mold.push(i));
                    assert(missing@[missing@.len() - 1] == i);
                } else {
                    assert(mold.contains(j as usize));
                    let p = choose|p: int| 0 <= p < mold.len() && mold[p] == j as usize;
                    assert(missing@[p] == j as usize);
                }
            }
        }
        i = i + 1;
    }
    proof {
        if missing@.len() > 0 {
            assert(!cache@.contains_key(keys@[missing@[0] as int]));
        }
    }
    missing
}

/// Resolve every hint of the line against its cached intrinsic main size.
pub fn resolve_line(cache: &SizeCache, keys: &Vec<u64>, hints: &Vec<FlexItem>) -> (items: Vec<
    ResolvedItem>)
    requires
        cache.wf(),
        keys@.len() == hints@.len(),
        forall|i: int| 0 <= i < keys@.len() ==> cache@.contains_key(#[trigger] keys@[i]),
    ensures
        items@ == resolved_line(cache@, keys@, hints@),
        wf_items(items@),
{
    let n = keys.len();
    let mut items: Vec<ResolvedItem> = Vec::new();
    let mut i: usize = 0;
    while i < n
        invariant
            i <= n,
            n == keys@.len(),
            n == hints@.len(),
            cache.wf(),
            forall|j: int| 0 <= j < n ==> cache@.contains_key(#[trigger] keys@[j]),
            items@.len() == i,
            forall|k: int|
                0 <= k < i ==> #[trigger] items@[k] == resolved_of(
                    hints@[k],
                    cache@[keys@[k]].main as int,
                ),
            forall|k: int| 0 <= k < i ==> crate::item::wf(#[trigger] items@[k]),
        decreases n - i,
    {
        let cached = cache.get(keys[i]);
        let (main, _cross) = match cached {
            Some(pair) => pair,
            None => (0, 0),
        };
        let it = resolve(&hints[i], main);
        items.push(it);
        i = i + 1;
    }
    proof {
        assert(items@ =~= resolved_line(cache@, keys@, hints@));
    }
    items
}

/// Lay the placed sizes out along the main axis: the first cell starts at
/// the container's origin and each later cell starts one gap after the
/// previous cell ends.
pub fn place(sizes: &Vec<u32>, crosses: &Vec<CrossPlacement>, gap: u32) -> (rects: Vec<CellRect>)
    requires
        sizes@.len() == crosses@.len(),
        sizes@.len() <= 0x7fffffff,
    ensures
        rects@.len() == sizes@.len(),
        forall|i: int|
            0 <= i < rects@.len() ==> (#[trigger] rects@[i]).main_size == sizes@[i]
                && rects@[i].cross_offset == crosses@[i].offset && rects@[i].cross_size
                == crosses@[i].size,
        rects@.len() > 0 ==> rects@[0].main_offset == 0,
        forall|i: int|
            1 <= i < rects@.len() ==> (#[trigger] rects@[i]).main_offset == rects@[i
                - 1].main_offset + rects@[i - 1].main_size + gap,
{
    let n = sizes.len();
    let mut rects: Vec<CellRect> = Vec::new();
    let mut off: u64 = 0;
    let mut i: usize = 0;
    while i < n
        invariant
            i <= n,
            n == sizes@.len(),
            n == crosses@.len(),
            n <= 0x7fffffff,
            rects@.len() == i,
            off as int <= i as int * 0x2_0000_0000,
            i > 0 ==> off as int == rects@[i as int - 1].main_offset + rects@[i as int
                - 1].main_size + gap as int,
            i == 0 ==> off == 0,
            forall|k: int|
                0 <= k < i ==> (#[trigger] rects@[k]).main_size == sizes@[k]
                    && rects@[k].cross_offset == crosses@[k].offset && rects@[k].cross_size
                    == crosses@[k].size,
            i > 0 ==> rects@[0].main_offset == 0,
            forall|k: int|
                1 <= k < i ==> (#[trigger] rects@[k]).main_offset == rects@[k - 1].main_offset
                    + rects@[k - 1].main_size + gap,
        decreases n - i,
    {
        proof {
            assert((i as int + 1) * 0x2_0000_0000 == i as int * 0x2_0000_0000 + 0x2_0000_0000)
                by (nonlinear_arith);
            assert(i as int * 0x2_0000_0000 <= 0x7fffffff * 0x2_0000_0000) by (nonlinear_arith)
                requires
                    0 <= i as int <= 0x7fffffff,
            ;
        }
        rects.push(
            CellRect {
                main_offset: off,
                cross_offset: crosses[i].offset,
                main_size: sizes[i],
                cross_size: crosses[i].size,
            },
        );
        off = off + sizes[i] as u64 + gap as u64;
        i = i + 1;
    }
    rects
}

proof fn lemma_sum_le_count(s: Seq<int>, b: int)
    requires
        forall|j: int| 0 <= j < s.len() ==> 0 <= #[trigger] s[j] <= b,
        b >= 0,
    ensures
        sum_int(s) <= s.len() * b,
    decreases s.len(),
{
    if s.len() == 0 {
        assert(0int * b == 0) by (nonlinear_arith);
    } else {
        lemma_sum_le_count(s.drop_last(), b);
        assert((s.len() - 1) * b + b == s.len() * b) by (nonlinear_arith);
    }
}

/// Place a fully measured line: resolve every hint against the cache, run
/// the main-axis allocation, align each item on the cross axis, and lay the
/// cells out in order. The placed frame is a function of the cached sizes,
/// the hints and the container alone.
pub fn compute_rects(
    cache: &SizeCache,
    keys: &Vec<u64>,
    hints: &Vec<FlexItem>,
    avail_main: u32,
    avail_cross: u32,
    config: FlexConfig,
    stretch_ok: bool,
) -> (rects: Vec<CellRect>)
    requires
        cache.wf(),
        keys@.len() == hints@.len(),
        keys@.len() <= 0x7fffffff,
        forall|i: int| 0 <= i < keys@.len() ==> cache@.contains_key(#[trigger] keys@[i]),
    ensures
        rects@.len() == keys@.len(),
        forall|i: int|
            0 <= i < rects@.len() ==> resolved_line(cache@, keys@, hints@)[i].min <= (
            #[trigger] rects@[i]).main_size && rects@[i].main_size <= resolved_line(
                cache@,
                keys@,
                hints@,
            )[i].max,
        all_in_bounds(
            resolved_line(cache@, keys@, hints@),
            target_of(avail_main as int, config.gap as int, keys@.len() as int),
        ) ==> forall|i: int|
            0 <= i < rects@.len() ==> (#[trigger] rects@[i]).main_size as int == tentative(
                resolved_line(cache@, keys@, hints@),
                target_of(avail_main as int, config.gap as int, keys@.len() as int),
                i,
            ),
        forall|i: int|
            0 <= i < rects@.len() && tentative(
                resolved_line(cache@, keys@, hints@),
                target_of(avail_main as int, config.gap as int, keys@.len() as int),
                i,
            ) > resolved_line(cache@, keys@, hints@)[i].max as int ==> (
            #[trigger] rects@[i]).main_size == resolved_line(cache@, keys@, hints@)[i].max,
        forall|i: int|
            0 <= i < rects@.len() && tentative(
                resolved_line(cache@, keys@, hints@),
                target_of(avail_main as int, config.gap as int, keys@.len() as int),
                i,
            ) < resolved_line(cache@, keys@, hints@)[i].min as int ==> (
            #[trigger] rects@[i]).main_size == resolved_line(cache@, keys@, hints@)[i].min,
        forall|i: int|
            0 <= i < rects@.len() ==> (#[trigger] rects@[i]).cross_size as int == cross_size_of(
                align_of(hints@[i], config.align_items),
                avail_cross as int,
                cache@[keys@[i]].cross as int,
                stretch_ok,
            ) && rects@[i].cross_offset as int == cross_offset_of(
                align_of(hints@[i], config.align_items),
                avail_cross as int,
                cache@[keys@[i]].cross as int,
                stretch_ok,
            ),
        rects@.len() > 0 ==> rects@[0].main_offset == 0,
        forall|i: int|
            1 <= i < rects@.len() ==> (#[trigger] rects@[i]).main_offset == rects@[i
                - 1].main_offset + rects@[i - 1].main_size + config.gap,
{
    let n = keys.len();
    let items = resolve_line(cache, keys, hints);
    proof {
        lemma_sum_le_count(bases(items@), u32::MAX as int);
        assert(items@.len() * (u32::MAX as int) <= 0x7fffffff * (u32::MAX as int))
            by (nonlinear_arith)
            requires
                0 <= items@.len() <= 0x7fffffff,
        ;
        assert(0x7fffffff * (u32::MAX as int) < u64::MAX as int);
    }
    let sizes = allocate(&items, avail_main, config.gap);
    let mut crosses: Vec<CrossPlacement> = Vec::new();
    let mut i: usize = 0;
    while i < n
        invariant
            i <= n,
            n == keys@.len(),
            n == hints@.len(),
            cache.wf(),
            forall|j: int| 0 <= j < n ==> cache@.contains_key(#[trigger] keys@[j]),
            crosses@.len() == i,
            forall|k: int|
                0 <= k < i ==> (#[trigger] crosses@[k]).size as int == cross_size_of(
                    align_of(hints@[k], config.align_items),
                    avail_cross as int,
                    cache@[keys@[k]].cross as int,
                    stretch_ok,
                ) && crosses@[k].offset as int == cross_offset_of(
                    align_of(hints@[k], config.align_items),
                    avail_cross as int,
                    cache@[keys@[k]].cross as int,
                    stretch_ok,
                ),
        decreases n - i,
    {
        let a = match hints[i].align_self {
            Some(a) => a,
            None => config.align_items,
        };
        let cached = cache.get(keys[i]);
        let (_main, cross) = match cached {
            Some(pair) => pair,
            None => (0, 0),
        };
        crosses.push(cross_align(a, avail_cross, cross, stretch_ok));
        i = i + 1;
    }
    place(&sizes, &crosses, config.gap)
}

/// Convergence: the placed frame reads the cache only through the cached
/// sizes of the line's keys. Two caches that hold the same measurements for
/// every key — as after `end_frame` ages a fully fresh cache — resolve the
/// line identically, so an unchanged second frame places every child exactly
/// where the first did, and `plan_measurements` finds nothing to measure.
pub proof fn lemma_frame_stable(
    m1: Map<u64, CacheEntry>,
    m2: Map<u64, CacheEntry>,
    keys: Seq<u64>,
    hints: Seq<FlexItem>,
)
    requires
        keys.len() == hints.len(),
        forall|i: int|
            0 <= i < keys.len() ==> m1.contains_key(#[trigger] keys[i]) && m2.contains_key(
                keys[i],
            ),
        forall|i: int|
            0 <= i < keys.len() ==> m2[#[trigger] keys[i]].main == m1[keys[i]].main
                && m2[keys[i]].cross == m1[keys[i]].cross,
    ensures
        resolved_line(m2, keys, hints) == resolved_line(m1, keys, hints),
{
    assert(resolved_line(m2, keys, hints) =~= resolved_line(m1, keys, hints));
}

/// Ageing the cache at the end of a frame keeps every entry that was written
/// that frame, with its sizes unchanged; only its freshness is spent.
pub proof fn lemma_aged_keeps_fresh(m: Map<u64, CacheEntry>, k: u64)
    requires
        m.contains_key(k),
        m[k].fresh,
    ensures
        aged(m).contains_key(k),
        aged(m)[k].main == m[k].main,
        aged(m)[k].cross == m[k].cross,
        !aged(m)[k].fresh,
{
}

} // verus!
