//! Single-line flex allocation over integer pixels.
//!
//! Given per-item `(base, grow, shrink, min, max)` tuples and the container's
//! inner main-axis extent, the allocator distributes surplus space by `grow`
//! weight and deficit by `shrink * base` weight, rounds to whole pixels with
//! the residual pixels handed to the lowest indices, and clamps and freezes
//! items that leave their `[min, max]` range, re-running the distribution on
//! the rest.

use crate::item::{wf, ResolvedItem};
use vstd::arithmetic::div_mod::*;
use vstd::arithmetic::mul::*;
use vstd::prelude::*;

verus! {

/// Sum of a sequence of mathematical integers.
pub open spec fn sum_int(s: Seq<int>) -> int
    decreases s.len(),
{
    if s.len() == 0 {
        0
    } else {
        sum_int(s.drop_last()) + s.last()
    }
}

/// View of a vector of weights as mathematical integers.
pub open spec fn u64s(s: Seq<u64>) -> Seq<int> {
    s.map_values(|x: u64| x as int)
}

pub proof fn lemma_sum_take_succ(s: Seq<int>, k: int)
    requires
        0 <= k < s.len(),
    ensures
        sum_int(s.take(k + 1)) == sum_int(s.take(k)) + s[k],
{
    assert(s.take(k + 1).drop_last() =~= s.take(k));
    assert(s.take(k + 1).last() == s[k]);
}

pub proof fn lemma_sum_nonneg(s: Seq<int>)
    requires
        forall|i: int| 0 <= i < s.len() ==> s[i] >= 0,
    ensures
        sum_int(s) >= 0,
    decreases s.len(),
{
    if s.len() > 0 {
        lemma_sum_nonneg(s.drop_last());
    }
}

/// Each element of a nonnegative sequence is at most the whole sum.
pub proof fn lemma_elem_le_sum(s: Seq<int>, i: int)
    requires
        forall|j: int| 0 <= j < s.len() ==> s[j] >= 0,
        0 <= i < s.len(),
    ensures
        s[i] <= sum_int(s),
    decreases s.len(),
{
    if i == s.len() - 1 {
        lemma_sum_nonneg(s.drop_last());
    } else {
        lemma_elem_le_sum(s.drop_last(), i);
    }
}

/// The whole-pixel part of index `i`'s proportional share of `d`.
pub open spec fn floor_share(d: int, w: Seq<int>, i: int) -> int {
    d * w[i] / sum_int(w)
}

/// Sum of the whole-pixel shares of the first `k` indices.
pub open spec fn floor_sum(d: int, w: Seq<int>, k: int) -> int
    decreases k,
{
    if k <= 0 {
        0
    } else {
        floor_sum(d, w, k - 1) + floor_share(d, w, k - 1)
    }
}

/// Pixels of `d` left over after every index took its whole-pixel share.
pub open spec fn residual(d: int, w: Seq<int>) -> int {
    d - floor_sum(d, w, w.len() as int)
}

/// Final integer share of index `i`: the whole-pixel share, plus one leftover
/// pixel for each of the first `residual` indices.
pub open spec fn pixel_share(d: int, w: Seq<int>, i: int) -> int {
    floor_share(d, w, i) + if i < residual(d, w) {
        1int
    } else {
        0int
    }
}

pub proof fn lemma_floor_share_bounds(d: int, w: Seq<int>, i: int)
    requires
        d >= 0,
        forall|j: int| 0 <= j < w.len() ==> w[j] >= 0,
        sum_int(w) > 0,
        0 <= i < w.len(),
    ensures
        0 <= floor_share(d, w, i) <= d,
        sum_int(w) * floor_share(d, w, i) <= d * w[i],
        d * w[i] <= sum_int(w) * floor_share(d, w, i) + sum_int(w) - 1,
{
    let s = sum_int(w);
    lemma_mul_nonnegative(d, w[i]);
    lemma_div_pos_is_pos(d * w[i], s);
    lemma_elem_le_sum(w, i);
    assert(d * w[i] <= d * s) by (nonlinear_arith)
        requires
            d >= 0,
            w[i] <= s,
    ;
    lemma_div_is_ordered(d * w[i], d * s, s);
    lemma_div_multiples_vanish(d, s);
    lemma_fundamental_div_mod(d * w[i], s);
    lemma_mod_bound(d * w[i], s);
    assert(d * w[i] == s * (d * w[i] / s) + (d * w[i]) % s);
}

pub proof fn lemma_floor_sum_bounds(d: int, w: Seq<int>, k: int)
    requires
        d >= 0,
        forall|j: int| 0 <= j < w.len() ==> w[j] >= 0,
        sum_int(w) > 0,
        0 <= k <= w.len(),
    ensures
        0 <= floor_sum(d, w, k),
        sum_int(w) * floor_sum(d, w, k) <= d * sum_int(w.take(k)),
        d * sum_int(w.take(k)) <= sum_int(w) * floor_sum(d, w, k) + k * (sum_int(w) - 1),
    decreases k,
{
    let s = sum_int(w);
    if k == 0 {
        assert(w.take(0) =~= Seq::<int>::empty());
        assert(d * 0 == 0) by (nonlinear_arith);
        assert(s * 0 == 0) by (nonlinear_arith);
    } else {
        lemma_floor_sum_bounds(d, w, k - 1);
        lemma_floor_share_bounds(d, w, k - 1);
        lemma_sum_take_succ(w, k - 1);
        let fs1 = floor_sum(d, w, k - 1);
        let q = floor_share(d, w, k - 1);
        let t1 = sum_int(w.take(k - 1));
        lemma_mul_is_distributive_add(s, fs1, q);
        lemma_mul_is_distributive_add(d, t1, w[k - 1]);
        assert(s * (fs1 + q) == s * fs1 + s * q);
        assert(d * (t1 + w[k - 1]) == d * t1 + d * w[k - 1]);
        assert((k - 1) * (s - 1) + (s - 1) == k * (s - 1)) by (nonlinear_arith);
    }
}

/// The residual after whole-pixel shares is between `0` and `len - 1`.
pub proof fn lemma_residual_bounds(d: int, w: Seq<int>)
    requires
        d >= 0,
        forall|j: int| 0 <= j < w.len() ==> w[j] >= 0,
        sum_int(w) > 0,
    ensures
        0 <= residual(d, w) < w.len(),
{
    let s = sum_int(w);
    let n = w.len() as int;
    lemma_floor_sum_bounds(d, w, n);
    assert(w.take(n) =~= w);
    let fs = floor_sum(d, w, n);
    assert(n >= 1) by {
        if w.len() == 0 {
            assert(sum_int(w) == 0);
        }
    }
    assert(s * fs <= d * s);
    assert(d * s <= s * fs + n * (s - 1));
    assert(fs <= d) by (nonlinear_arith)
        requires
            s * fs <= d * s,
            s > 0,
    ;
    assert(d - fs < n) by (nonlinear_arith)
        requires
            d * s <= s * fs + n * (s - 1),
            s > 0,
            n >= 1,
    ;
}

/// Each whole-pixel share is at most the sum of all of them.
pub proof fn lemma_floor_le_floor_sum(d: int, w: Seq<int>, i: int, k: int)
    requires
        d >= 0,
        forall|j: int| 0 <= j < w.len() ==> w[j] >= 0,
        sum_int(w) > 0,
        0 <= i < k <= w.len(),
    ensures
        floor_share(d, w, i) <= floor_sum(d, w, k),
    decreases k,
{
    lemma_floor_share_bounds(d, w, k - 1);
    if i == k - 1 {
        lemma_floor_sum_bounds(d, w, k - 1);
    } else {
        lemma_floor_le_floor_sum(d, w, i, k - 1);
    }
}

pub proof fn lemma_pixel_share_bounds(d: int, w: Seq<int>, i: int)
    requires
        d >= 0,
        forall|j: int| 0 <= j < w.len() ==> w[j] >= 0,
        sum_int(w) > 0,
        0 <= i < w.len(),
    ensures
        0 <= pixel_share(d, w, i) <= d,
{
    let n = w.len() as int;
    lemma_floor_share_bounds(d, w, i);
    lemma_residual_bounds(d, w);
    if i < residual(d, w) {
        lemma_floor_le_floor_sum(d, w, i, n);
    }
}

/// Sum of the final shares of the first `k` indices.
pub open spec fn share_sum(d: int, w: Seq<int>, k: int) -> int
    decreases k,
{
    if k <= 0 {
        0
    } else {
        share_sum(d, w, k - 1) + pixel_share(d, w, k - 1)
    }
}

pub proof fn lemma_share_sum_parts(d: int, w: Seq<int>, k: int)
    requires
        d >= 0,
        forall|j: int| 0 <= j < w.len() ==> w[j] >= 0,
        sum_int(w) > 0,
        0 <= k <= w.len(),
    ensures
        share_sum(d, w, k) == floor_sum(d, w, k) + if k <= residual(d, w) {
            k
        } else {
            residual(d, w)
        },
    decreases k,
{
    lemma_residual_bounds(d, w);
    if k > 0 {
        lemma_share_sum_parts(d, w, k - 1);
    }
}

/// The final shares distribute `d` exactly: they sum to `d`.
pub proof fn lemma_share_sum_total(d: int, w: Seq<int>)
    requires
        d >= 0,
        forall|j: int| 0 <= j < w.len() ==> w[j] >= 0,
        sum_int(w) > 0,
    ensures
        share_sum(d, w, w.len() as int) == d,
{
    let n = w.len() as int;
    lemma_share_sum_parts(d, w, n);
    lemma_residual_bounds(d, w);
}

/// Split `d` pixels across indices in proportion to the weights `w`, giving
/// each index the whole-pixel part of `d * w[i] / sum(w)` and handing the
/// leftover pixels, one each, to the lowest indices.
pub fn distribute(d: u64, w: &Vec<u64>) -> (out: Vec<u64>)
    requires
        sum_int(u64s(w@)) > 0,
    ensures
        out@.len() == w@.len(),
        forall|i: int| 0 <= i < w@.len() ==> out@[i] as int == pixel_share(d as int, u64s(w@), i),
        forall|i: int| 0 <= i < w@.len() ==> out@[i] <= d,
{
    let ghost wi = u64s(w@);
    let n = w.len();
    let mut sum_w: u128 = 0;
    let mut i: usize = 0;
    while i < n
        invariant
            i <= n,
            n == w@.len(),
            wi == u64s(w@),
            sum_w as int == sum_int(wi.take(i as int)),
            sum_w as int <= i as int * (u64::MAX as int),
        decreases n - i,
    {
        proof {
            lemma_sum_take_succ(wi, i as int);
            assert((i as int + 1) * (u64::MAX as int) == i as int * (u64::MAX as int) + (
            u64::MAX as int)) by (nonlinear_arith);
            assert(n as int * (u64::MAX as int) < u128::MAX as int) by (nonlinear_arith)
                requires
                    n as int <= u64::MAX as int,
            ;
            assert(i as int * (u64::MAX as int) <= n as int * (u64::MAX as int))
                by (nonlinear_arith)
                requires
                    0 <= i as int <= n as int,
            ;
        }
        sum_w = sum_w + w[i] as u128;
        i = i + 1;
    }
    proof {
        assert(wi.take(n as int) =~= wi);
    }
    let mut out: Vec<u64> = Vec::new();
    let mut fsum: u128 = 0;
    i = 0;
    while i < n
        invariant
            i <= n,
            n == w@.len(),
            wi == u64s(w@),
            sum_w as int == sum_int(wi),
            sum_int(wi) > 0,
            out@.len() == i,
            forall|k: int| 0 <= k < i ==> out@[k] as int == floor_share(d as int, wi, k),
            forall|k: int| 0 <= k < i ==> out@[k] <= d,
            fsum as int == floor_sum(d as int, wi, i as int),
            fsum <= i as u128 * (d as u128),
        decreases n - i,
    {
        proof {
            lemma_floor_share_bounds(d as int, wi, i as int);
            assert((d as int) * (wi[i as int]) <= (u64::MAX as int) * (u64::MAX as int))
                by (nonlinear_arith)
                requires
                    0 <= d as int <= u64::MAX as int,
                    0 <= wi[i as int] <= u64::MAX as int,
            ;
            assert((u64::MAX as int) * (u64::MAX as int) < u128::MAX as int);
            assert((i as u128 + 1) * (d as u128) == i as u128 * (d as u128) + (d as u128))
                by (nonlinear_arith);
            assert(i as int * (d as int) <= (u64::MAX as int) * (u64::MAX as int))
                by (nonlinear_arith)
                requires
                    0 <= i as int <= u64::MAX as int,
                    0 <= d as int <= u64::MAX as int,
            ;
        }
        let q: u128 = (d as u128) * (w[i] as u128) / sum_w;
        out.push(q as u64);
        fsum = fsum + q;
        i = i + 1;
    }
    proof {
        lemma_residual_bounds(d as int, wi);
        lemma_floor_sum_bounds(d as int, wi, n as int);
    }
    let rem: usize = (d as u128 - fsum) as usize;
    i = 0;
    while i < rem
        invariant
            i <= rem,
            n == w@.len(),
            wi == u64s(w@),
            sum_int(wi) > 0,
            d as int - floor_sum(d as int, wi, n as int) == rem as int,
            (rem as int) < (n as int),
            out@.len() == n,
            forall|k: int| 0 <= k < i ==> out@[k] as int == pixel_share(d as int, wi, k),
            forall|k: int| i <= k < n ==> out@[k] as int == floor_share(d as int, wi, k),
            forall|k: int| 0 <= k < n ==> out@[k] <= d,
        decreases rem - i,
    {
        proof {
            lemma_floor_le_floor_sum(d as int, wi, i as int, n as int);
            lemma_floor_share_bounds(d as int, wi, i as int);
        }
        let v = out[i];
        out.set(i, v + 1);
        i = i + 1;
    }
    out
}

/// The base sizes of a line of items, as integers.
pub open spec fn bases(items: Seq<ResolvedItem>) -> Seq<int> {
    Seq::new(items.len(), |i: int| items[i].base as int)
}

/// The grow weights of a line of items, as integers.
pub open spec fn grow_weights(items: Seq<ResolvedItem>) -> Seq<int> {
    Seq::new(items.len(), |i: int| items[i].grow as int)
}

/// The deficit weights of a line of items: shrink weight times base size,
/// matching CSS flex shrink.
pub open spec fn shrink_weights(items: Seq<ResolvedItem>) -> Seq<int> {
    Seq::new(items.len(), |i: int| items[i].shrink as int * items[i].base as int)
}

/// Every item of the line is well formed.
pub open spec fn wf_items(items: Seq<ResolvedItem>) -> bool {
    forall|i: int| 0 <= i < items.len() ==> wf(items[i])
}

/// Main-axis pixels left for the items once the fixed gaps between the `n`
/// items are taken out of `avail`, floored at zero.
pub open spec fn target_of(avail: int, gap: int, n: int) -> int {
    if avail - gap * (n - 1) > 0 {
        avail - gap * (n - 1)
    } else {
        0
    }
}

/// The size the distribution step proposes for item `i` before clamping:
/// surplus is split by grow weight, deficit by shrink weight times base, and
/// with no usable weights the base stands.
pub open spec fn tentative(items: Seq<ResolvedItem>, target: int, i: int) -> int {
    let delta = target - sum_int(bases(items));
    if delta >= 0 && sum_int(grow_weights(items)) > 0 {
        items[i].base + pixel_share(delta, grow_weights(items), i)
    } else if delta < 0 && sum_int(shrink_weights(items)) > 0 {
        items[i].base - pixel_share(-delta, shrink_weights(items), i)
    } else {
        items[i].base as int
    }
}

/// The proposed size of item `i` respects the item's clamps.
pub open spec fn in_bounds(items: Seq<ResolvedItem>, target: int, i: int) -> bool {
    items[i].min as int <= tentative(items, target, i) && tentative(items, target, i)
        <= items[i].max as int
}

/// No proposed size leaves its clamps, so the first distribution round is
/// final and no item is frozen.
pub open spec fn all_in_bounds(items: Seq<ResolvedItem>, target: int) -> bool {
    forall|i: int| 0 <= i < items.len() ==> in_bounds(items, target, i)
}

/// Sum of the proposed sizes of the first `k` items.
pub open spec fn tentative_sum(items: Seq<ResolvedItem>, target: int, k: int) -> int
    decreases k,
{
    if k <= 0 {
        0
    } else {
        tentative_sum(items, target, k - 1) + tentative(items, target, k - 1)
    }
}

proof fn lemma_tentative_sum_split(items: Seq<ResolvedItem>, target: int, k: int)
    requires
        target - sum_int(bases(items)) >= 0,
        sum_int(grow_weights(items)) > 0,
        0 <= k <= items.len(),
    ensures
        tentative_sum(items, target, k) == sum_int(bases(items).take(k)) + share_sum(
            target - sum_int(bases(items)),
            grow_weights(items),
            k,
        ),
    decreases k,
{
    if k > 0 {
        lemma_tentative_sum_split(items, target, k - 1);
        lemma_sum_take_succ(bases(items), k - 1);
    } else {
        assert(bases(items).take(0) =~= Seq::<int>::empty());
    }
}

/// Conservation: when at least one item can grow and the target does not
/// fall short of the bases, the proposed sizes sum exactly to the target.
/// Together with `allocate`'s exactness clause this pins the sum of the
/// returned sizes whenever no clamp interferes.
pub proof fn lemma_conservation(items: Seq<ResolvedItem>, target: int)
    requires
        items.len() >= 1,
        target >= sum_int(bases(items)),
        sum_int(grow_weights(items)) > 0,
    ensures
        tentative_sum(items, target, items.len() as int) == target,
{
    let n = items.len() as int;
    let delta = target - sum_int(bases(items));
    lemma_tentative_sum_split(items, target, n);
    assert(bases(items).take(n) =~= bases(items));
    assert(grow_weights(items).len() == n);
    lemma_share_sum_total(delta, grow_weights(items));
}

/// Every proposed size is nonnegative in the growth case, and no larger than
/// the whole target.
proof fn lemma_tentative_le_sum(items: Seq<ResolvedItem>, target: int, i: int, k: int)
    requires
        target - sum_int(bases(items)) >= 0,
        sum_int(grow_weights(items)) > 0,
        0 <= i < k <= items.len(),
    ensures
        tentative(items, target, i) <= tentative_sum(items, target, k),
    decreases k,
{
    let delta = target - sum_int(bases(items));
    lemma_pixel_share_bounds(delta, grow_weights(items), k - 1);
    if i == k - 1 {
        lemma_tentative_sum_nonneg(items, target, k - 1);
    } else {
        lemma_tentative_le_sum(items, target, i, k - 1);
    }
}

proof fn lemma_tentative_sum_nonneg(items: Seq<ResolvedItem>, target: int, k: int)
    requires
        target - sum_int(bases(items)) >= 0,
        sum_int(grow_weights(items)) > 0,
        0 <= k <= items.len(),
    ensures
        tentative_sum(items, target, k) >= 0,
    decreases k,
{
    if k > 0 {
        lemma_tentative_sum_nonneg(items, target, k - 1);
        lemma_pixel_share_bounds(
            target - sum_int(bases(items)),
            grow_weights(items),
            k - 1,
        );
    }
}

/// When no item carries an upper clamp below the pixel range and surplus is
/// distributed, no proposed size leaves its clamps, so `allocate` returns
/// exactly the proposed distribution and conservation holds for it.
pub proof fn lemma_unclamped_growth_in_bounds(items: Seq<ResolvedItem>, target: int)
    requires
        wf_items(items),
        items.len() >= 1,
        0 <= target <= u32::MAX as int,
        target >= sum_int(bases(items)),
        sum_int(grow_weights(items)) > 0,
        forall|i: int| 0 <= i < items.len() ==> (#[trigger] items[i].max) == u32::MAX,
    ensures
        all_in_bounds(items, target),
{
    let n = items.len() as int;
    let delta = target - sum_int(bases(items));
    lemma_conservation(items, target);
    assert forall|i: int| 0 <= i < items.len() implies in_bounds(items, target, i) by {
        lemma_pixel_share_bounds(delta, grow_weights(items), i);
        lemma_tentative_le_sum(items, target, i, n);
    }
}

/// Sum of a line of pixel sizes.
pub open spec fn sum_sizes(s: Seq<u32>) -> int {
    sum_int(s.map_values(|x: u32| x as int))
}

proof fn lemma_sizes_sum_matches(
    items: Seq<ResolvedItem>,
    target: int,
    sizes: Seq<u32>,
    k: int,
)
    requires
        sizes.len() == items.len(),
        forall|i: int|
            0 <= i < sizes.len() ==> (#[trigger] sizes[i]) as int == tentative(items, target, i),
        0 <= k <= sizes.len(),
    ensures
        sum_int(sizes.map_values(|x: u32| x as int).take(k)) == tentative_sum(items, target, k),
    decreases k,
{
    if k == 0 {
        assert(sizes.map_values(|x: u32| x as int).take(0) =~= Seq::<int>::empty());
    } else {
        lemma_sizes_sum_matches(items, target, sizes, k - 1);
        lemma_sum_take_succ(sizes.map_values(|x: u32| x as int), k - 1);
    }
}

/// Conservation for an allocated line: sizes that follow the proposed
/// distribution — what `allocate` returns whenever no clamp interferes — sum
/// exactly to the target, so the line fills the container to the pixel.
pub proof fn lemma_allocate_conserves(items: Seq<ResolvedItem>, target: int, sizes: Seq<u32>)
    requires
        items.len() >= 1,
        sizes.len() == items.len(),
        target >= sum_int(bases(items)),
        sum_int(grow_weights(items)) > 0,
        forall|i: int|
            0 <= i < sizes.len() ==> (#[trigger] sizes[i]) as int == tentative(items, target, i),
    ensures
        sum_sizes(sizes) == target,
{
    lemma_conservation(items, target);
    lemma_sizes_sum_matches(items, target, sizes, sizes.len() as int);
    assert(sizes.map_values(|x: u32| x as int).take(sizes.len() as int) =~= sizes.map_values(
        |x: u32| x as int,
    ));
}

/// Changing one weight changes the sum by the same amount.
proof fn lemma_sum_one_change(w1: Seq<int>, w2: Seq<int>, i: int)
    requires
        w1.len() == w2.len(),
        0 <= i < w1.len(),
        forall|j: int| 0 <= j < w1.len() && j != i ==> w1[j] == w2[j],
    ensures
        sum_int(w2) == sum_int(w1) + w2[i] - w1[i],
    decreases w1.len(),
{
    if i == w1.len() - 1 {
        assert(w1.drop_last() =~= w2.drop_last());
    } else {
        lemma_sum_one_change(w1.drop_last(), w2.drop_last(), i);
    }
}

/// Floor shares never rise when every weight is unchanged but the sum grew.
proof fn lemma_floor_sum_le(d: int, w1: Seq<int>, w2: Seq<int>, i: int, k: int)
    requires
        d >= 0,
        w1.len() == w2.len(),
        forall|j: int| 0 <= j < w1.len() ==> w1[j] >= 0,
        forall|j: int| 0 <= j < w2.len() ==> w2[j] >= 0,
        sum_int(w1) > 0,
        sum_int(w2) >= sum_int(w1),
        0 <= i < w1.len(),
        forall|j: int| 0 <= j < w1.len() && j != i ==> w1[j] == w2[j],
        floor_share(d, w2, i) == floor_share(d, w1, i),
        0 <= k <= w1.len(),
    ensures
        floor_sum(d, w2, k) <= floor_sum(d, w1, k),
    decreases k,
{
    if k > 0 {
        lemma_floor_sum_le(d, w1, w2, i, k - 1);
        if k - 1 != i {
            lemma_mul_nonnegative(d, w1[k - 1]);
            lemma_div_is_ordered_by_denominator(d * w1[k - 1], sum_int(w1), sum_int(w2));
        }
    }
}

/// Raising one weight never lowers that index's final share.
pub proof fn lemma_share_monotone(d: int, w1: Seq<int>, w2: Seq<int>, i: int)
    requires
        d >= 0,
        w1.len() == w2.len(),
        forall|j: int| 0 <= j < w1.len() ==> w1[j] >= 0,
        forall|j: int| 0 <= j < w2.len() ==> w2[j] >= 0,
        sum_int(w1) > 0,
        0 <= i < w1.len(),
        w2[i] >= w1[i],
        forall|j: int| 0 <= j < w1.len() && j != i ==> w1[j] == w2[j],
    ensures
        pixel_share(d, w2, i) >= pixel_share(d, w1, i),
{
    let s1 = sum_int(w1);
    let s2 = sum_int(w2);
    lemma_sum_one_change(w1, w2, i);
    let q1 = floor_share(d, w1, i);
    let q2 = floor_share(d, w2, i);
    lemma_floor_share_bounds(d, w1, i);
    lemma_floor_share_bounds(d, w2, i);
    assert(q2 >= q1) by {
        assert(s1 * q1 <= d * w1[i]);
        assert(s2 * q1 <= d * w2[i]) by (nonlinear_arith)
            requires
                s1 * q1 <= d * w1[i],
                s2 == s1 + w2[i] - w1[i],
                0 <= q1 <= d,
                w2[i] >= w1[i],
                d >= 0,
        ;
        lemma_mul_nonnegative(d, w2[i]);
        lemma_fundamental_div_mod(d * w2[i], s2);
        lemma_mod_bound(d * w2[i], s2);
        assert(d * w2[i] / s2 >= q1) by (nonlinear_arith)
            requires
                s2 * q1 <= d * w2[i],
                s2 > 0,
                d * w2[i] == s2 * (d * w2[i] / s2) + (d * w2[i]) % s2,
                0 <= (d * w2[i]) % s2 < s2,
        ;
    }
    if q2 == q1 {
        lemma_floor_sum_le(d, w1, w2, i, w1.len() as int);
        assert(residual(d, w2) >= residual(d, w1));
    }
}

/// Monotonicity: raising one item's grow weight, with everything else
/// unchanged, never lowers that item's proposed size while surplus is being
/// distributed. Together with `allocate`'s exactness clause this carries over
/// to the returned sizes whenever no clamp interferes.
pub proof fn lemma_grow_monotone(
    items1: Seq<ResolvedItem>,
    items2: Seq<ResolvedItem>,
    target: int,
    i: int,
)
    requires
        items1.len() == items2.len(),
        0 <= i < items1.len(),
        forall|j: int| 0 <= j < items1.len() ==> (#[trigger] items2[j]).base == items1[j].base,
        forall|j: int| 0 <= j < items1.len() && j != i ==> (#[trigger] items2[j]).grow
            == items1[j].grow,
        items2[i].grow >= items1[i].grow,
        target >= sum_int(bases(items1)),
        sum_int(grow_weights(items1)) > 0,
    ensures
        tentative(items2, target, i) >= tentative(items1, target, i),
{
    assert(bases(items1) =~= bases(items2));
    let g1 = grow_weights(items1);
    let g2 = grow_weights(items2);
    lemma_sum_one_change(g1, g2, i);
    let delta = target - sum_int(bases(items1));
    lemma_share_monotone(delta, g1, g2, i);
}

/// Sum a vector of weights without overflow.
fn sum_u64s(w: &Vec<u64>) -> (s: u128)
    ensures
        s as int == sum_int(u64s(w@)),
{
    let ghost wi = u64s(w@);
    let n = w.len();
    let mut s: u128 = 0;
    let mut i: usize = 0;
    while i < n
        invariant
            i <= n,
            n == w@.len(),
            wi == u64s(w@),
            s as int == sum_int(wi.take(i as int)),
            s as int <= i as int * (u64::MAX as int),
        decreases n - i,
    {
        proof {
            lemma_sum_take_succ(wi, i as int);
            assert((i as int + 1) * (u64::MAX as int) == i as int * (u64::MAX as int) + (
            u64::MAX as int)) by (nonlinear_arith);
            assert(i as int * (u64::MAX as int) <= (u64::MAX as int) * (u64::MAX as int))
                by (nonlinear_arith)
                requires
                    0 <= i as int <= u64::MAX as int,
            ;
            assert((u64::MAX as int) * (u64::MAX as int) < u128::MAX as int);
        }
        s = s + w[i] as u128;
        i = i + 1;
    }
    proof {
        assert(wi.take(n as int) =~= wi);
    }
    s
}

/// Sum of the base sizes, without overflow.
fn sum_bases(items: &Vec<ResolvedItem>) -> (s: u128)
    ensures
        s as int == sum_int(bases(items@)),
{
    let n = items.len();
    let mut s: u128 = 0;
    let mut i: usize = 0;
    while i < n
        invariant
            i <= n,
            n == items@.len(),
            s as int == sum_int(bases(items@).take(i as int)),
            s as int <= i as int * (u32::MAX as int),
        decreases n - i,
    {
        proof {
            lemma_sum_take_succ(bases(items@), i as int);
            assert((i as int + 1) * (u32::MAX as int) == i as int * (u32::MAX as int) + (
            u32::MAX as int)) by (nonlinear_arith);
            assert(i as int * (u32::MAX as int) <= (u64::MAX as int) * (u64::MAX as int))
                by (nonlinear_arith)
                requires
                    0 <= i as int <= u64::MAX as int,
            ;
            assert((u64::MAX as int) * (u64::MAX as int) < u128::MAX as int);
        }
        s = s + items[i].base as u128;
        i = i + 1;
    }
    proof {
        assert(bases(items@).take(n as int) =~= bases(items@));
    }
    s
}

/// The grow weights of the line as a weight vector.
fn grow_vec(items: &Vec<ResolvedItem>) -> (w: Vec<u64>)
    ensures
        u64s(w@) == grow_weights(items@),
{
    let n = items.len();
    let mut w: Vec<u64> = Vec::new();
    let mut i: usize = 0;
    while i < n
        invariant
            i <= n,
            n == items@.len(),
            w@.len() == i,
            forall|k: int| 0 <= k < i ==> w@[k] == items@[k].grow as u64,
        decreases n - i,
    {
        w.push(items[i].grow as u64);
        i = i + 1;
    }
    proof {
        assert(u64s(w@) =~= grow_weights(items@));
    }
    w
}

/// The deficit weights of the line as a weight vector.
fn shrink_vec(items: &Vec<ResolvedItem>) -> (w: Vec<u64>)
    ensures
        u64s(w@) == shrink_weights(items@),
{
    let n = items.len();
    let mut w: Vec<u64> = Vec::new();
    let mut i: usize = 0;
    while i < n
        invariant
            i <= n,
            n == items@.len(),
            w@.len() == i,
            forall|k: int| 0 <= k < i ==> w@[k] as int == items@[k].shrink as int
                * items@[k].base as int,
        decreases n - i,
    {
        proof {
            assert(items@[i as int].shrink as int * items@[i as int].base as int <= (
            u32::MAX as int) * (u32::MAX as int)) by (nonlinear_arith)
                requires
                    0 <= items@[i as int].shrink as int <= u32::MAX as int,
                    0 <= items@[i as int].base as int <= u32::MAX as int,
            ;
            assert(items@[i as int].shrink as int * items@[i as int].base as int >= 0)
                by (nonlinear_arith)
                requires
                    items@[i as int].shrink as int >= 0,
                    items@[i as int].base as int >= 0,
            ;
            assert((u32::MAX as int) * (u32::MAX as int) < u64::MAX as int);
        }
        w.push((items[i].shrink as u64) * (items[i].base as u64));
        i = i + 1;
    }
    proof {
        assert(u64s(w@) =~= shrink_weights(items@));
    }
    w
}

/// Re-run the distribution over the unfrozen items until no proposed size
/// leaves its clamps, clamping and freezing each violator at the offending
/// bound. Every round freezes at least one item, so at most `n` rounds run.
fn settle(items: &Vec<ResolvedItem>, target: u32, sizes0: Vec<u32>, frozen0: Vec<bool>) -> (sizes:
    Vec<u32>)
    requires
        wf_items(items@),
        sizes0@.len() == items@.len(),
        frozen0@.len() == items@.len(),
        forall|i: int|
            0 <= i < items@.len() && frozen0@[i] ==> items@[i].min <= #[trigger] sizes0@[i]
                && sizes0@[i] <= items@[i].max,
        forall|i: int|
            0 <= i < items@.len() && !frozen0@[i] ==> #[trigger] sizes0@[i] == items@[i].base,
    ensures
        sizes@.len() == items@.len(),
        forall|i: int|
            0 <= i < items@.len() ==> items@[i].min <= #[trigger] sizes@[i] && sizes@[i]
                <= items@[i].max,
        forall|i: int|
            0 <= i < items@.len() && #[trigger] frozen0@[i] ==> sizes@[i] == sizes0@[i],
{
    let n = items.len();
    let ghost gs0 = sizes0@;
    let ghost gf0 = frozen0@;
    let mut sizes = sizes0;
    let mut frozen = frozen0;
    let mut round: usize = 0;
    while round < n
        invariant
            n == items@.len(),
            wf_items(items@),
            sizes@.len() == n,
            frozen@.len() == n,
            forall|i: int|
                0 <= i < n && frozen@[i] ==> items@[i].min <= #[trigger] sizes@[i] && sizes@[i]
                    <= items@[i].max,
            forall|i: int| 0 <= i < n && !frozen@[i] ==> #[trigger] sizes@[i] == items@[i].base,
            gf0 == frozen0@,
            gs0 == sizes0@,
            gf0.len() == n,
            gs0.len() == n,
            forall|i: int| 0 <= i < n && #[trigger] gf0[i] ==> frozen@[i] && sizes@[i] == gs0[i],
        decreases n - round,
    {
        // Main-axis pixels still available once the frozen items keep theirs.
        let mut rem: i128 = target as i128;
        let mut i: usize = 0;
        while i < n
            invariant
                i <= n,
                n == sizes@.len(),
                n == frozen@.len(),
                rem <= target as i128,
                rem >= target as i128 - i as i128 * (u32::MAX as i128),
            decreases n - i,
        {
            proof {
                assert((i as int + 1) * (u32::MAX as int) == i as int * (u32::MAX as int) + (
                u32::MAX as int)) by (nonlinear_arith);
                assert(i as int * (u32::MAX as int) <= (u64::MAX as int) * (u64::MAX as int))
                    by (nonlinear_arith)
                    requires
                        0 <= i as int <= u64::MAX as int,
                ;
                assert((u64::MAX as int) * (u64::MAX as int) < u128::MAX as int);
            }
            if frozen[i] {
                rem = rem - sizes[i] as i128;
            }
            i = i + 1;
        }
        // Weights of the unfrozen items; frozen ones weigh nothing.
        let mut wg: Vec<u64> = Vec::new();
        let mut ws: Vec<u64> = Vec::new();
        let mut sbuf: u128 = 0;
        i = 0;
        while i < n
            invariant
                i <= n,
                n == items@.len(),
                n == frozen@.len(),
                wg@.len() == i,
                ws@.len() == i,
                sbuf as int <= i as int * (u32::MAX as int),
            decreases n - i,
        {
            proof {
                assert((i as int + 1) * (u32::MAX as int) == i as int * (u32::MAX as int) + (
                u32::MAX as int)) by (nonlinear_arith);
                assert(i as int * (u32::MAX as int) <= (u64::MAX as int) * (u64::MAX as int))
                    by (nonlinear_arith)
                    requires
                        0 <= i as int <= u64::MAX as int,
                ;
                assert((u64::MAX as int) * (u64::MAX as int) < u128::MAX as int);
                assert(items@[i as int].shrink as int * items@[i as int].base as int <= (
                u32::MAX as int) * (u32::MAX as int)) by (nonlinear_arith)
                    requires
                        0 <= items@[i as int].shrink as int <= u32::MAX as int,
                        0 <= items@[i as int].base as int <= u32::MAX as int,
                ;
                assert((u32::MAX as int) * (u32::MAX as int) < u64::MAX as int);
            }
            if frozen[i] {
                wg.push(0);
                ws.push(0);
            } else {
                wg.push(items[i].grow as u64);
                ws.push((items[i].shrink as u64) * (items[i].base as u64));
                sbuf = sbuf + items[i].base as u128;
            }
            i = i + 1;
        }
        let sg = sum_u64s(&wg);
        let ss = sum_u64s(&ws);
        let delta: i128 = rem - sbuf as i128;
        if delta >= 0 && sg > 0 {
            let d: u64 = delta as u64;
            assert(d <= u32::MAX as u64);
            let sh = distribute(d, &wg);
            let mut any = false;
            i = 0;
            while i < n
                invariant
                    i <= n,
                    n == items@.len(),
                    wf_items(items@),
                    sizes@.len() == n,
                    frozen@.len() == n,
                    sh@.len() == n,
                    forall|k: int| 0 <= k < n ==> sh@[k] <= d,
                    d <= u32::MAX as u64,
                    forall|k: int|
                        0 <= k < n && frozen@[k] ==> items@[k].min <= #[trigger] sizes@[k]
                            && sizes@[k] <= items@[k].max,
                    forall|k: int|
                        0 <= k < n && !frozen@[k] ==> #[trigger] sizes@[k] == items@[k].base,
                    !any ==> forall|k: int|
                        0 <= k < i && !frozen@[k] ==> items@[k].base as u64 + sh@[k] <= (
                        #[trigger] items@[k].max) as u64,
                    gf0 == frozen0@,
                    gs0 == sizes0@,
                    gf0.len() == n,
                    gs0.len() == n,
                    forall|k: int|
                        0 <= k < n && #[trigger] gf0[k] ==> frozen@[k] && sizes@[k] == gs0[k],
                decreases n - i,
            {
                if !frozen[i] {
                    let t: u64 = items[i].base as u64 + sh[i];
                    if t > items[i].max as u64 {
                        sizes.set(i, items[i].max);
                        frozen.set(i, true);
                        any = true;
                    }
                }
                i = i + 1;
            }
            if !any {
                i = 0;
                while i < n
                    invariant
                        i <= n,
                        n == items@.len(),
                        wf_items(items@),
                        sizes@.len() == n,
                        frozen@.len() == n,
                        sh@.len() == n,
                        forall|k: int| 0 <= k < n ==> sh@[k] <= d,
                    d <= u32::MAX as u64,
                        forall|k: int|
                            0 <= k < n && !frozen@[k] ==> items@[k].base as u64 + sh@[k] <= (
                            #[trigger] items@[k].max) as u64,
                        forall|k: int|
                            0 <= k < n && frozen@[k] ==> items@[k].min <= #[trigger] sizes@[k]
                                && sizes@[k] <= items@[k].max,
                        forall|k: int|
                            i <= k < n && !frozen@[k] ==> #[trigger] sizes@[k] == items@[k].base,
                        forall|k: int|
                            0 <= k < i && !frozen@[k] ==> items@[k].min <= #[trigger] sizes@[k]
                                && sizes@[k] <= items@[k].max,
                        gf0 == frozen0@,
                        gs0 == sizes0@,
                        gf0.len() == n,
                        gs0.len() == n,
                        forall|k: int|
                            0 <= k < n && #[trigger] gf0[k] ==> frozen@[k] && sizes@[k] == gs0[k],
                    decreases n - i,
                {
                    if !frozen[i] {
                        let t: u64 = items[i].base as u64 + sh[i];
                        sizes.set(i, t as u32);
                    }
                    i = i + 1;
                }
            proof {
                assert forall|ii: int|
                    0 <= ii < n && frozen0@[ii] implies sizes@[ii] == sizes0@[ii] by {
                    assert(gf0[ii]);
                    assert(sizes@[ii] == gs0[ii]);
                }
            }
                return sizes;
            }
        } else if delta < 0 && ss > 0 {
            let nd: i128 = -delta;
            let d: u64 = if nd > u64::MAX as i128 {
                u64::MAX
            } else {
                nd as u64
            };
            let sh = distribute(d, &ws);
            let mut any = false;
            i = 0;
            while i < n
                invariant
                    i <= n,
                    n == items@.len(),
                    wf_items(items@),
                    sizes@.len() == n,
                    frozen@.len() == n,
                    sh@.len() == n,
                    forall|k: int|
                        0 <= k < n && frozen@[k] ==> items@[k].min <= #[trigger] sizes@[k]
                            && sizes@[k] <= items@[k].max,
                    forall|k: int|
                        0 <= k < n && !frozen@[k] ==> #[trigger] sizes@[k] == items@[k].base,
                    !any ==> forall|k: int|
                        0 <= k < i && !frozen@[k] ==> items@[k].base as i128 - sh@[k] as i128 >= (
                        #[trigger] items@[k].min) as i128,
                    gf0 == frozen0@,
                    gs0 == sizes0@,
                    gf0.len() == n,
                    gs0.len() == n,
                    forall|k: int|
                        0 <= k < n && #[trigger] gf0[k] ==> frozen@[k] && sizes@[k] == gs0[k],
                decreases n - i,
            {
                if !frozen[i] {
                    let t: i128 = items[i].base as i128 - sh[i] as i128;
                    if t < items[i].min as i128 {
                        sizes.set(i, items[i].min);
                        frozen.set(i, true);
                        any = true;
                    }
                }
                i = i + 1;
            }
            if !any {
                i = 0;
                while i < n
                    invariant
                        i <= n,
                        n == items@.len(),
                        wf_items(items@),
                        sizes@.len() == n,
                        frozen@.len() == n,
                        sh@.len() == n,
                        forall|k: int|
                            0 <= k < n && !frozen@[k] ==> items@[k].base as i128 - sh@[k] as i128
                                >= (#[trigger] items@[k].min) as i128,
                        forall|k: int|
                            0 <= k < n && frozen@[k] ==> items@[k].min <= #[trigger] sizes@[k]
                                && sizes@[k] <= items@[k].max,
                        forall|k: int|
                            i <= k < n && !frozen@[k] ==> #[trigger] sizes@[k] == items@[k].base,
                        forall|k: int|
                            0 <= k < i && !frozen@[k] ==> items@[k].min <= #[trigger] sizes@[k]
                                && sizes@[k] <= items@[k].max,
                        gf0 == frozen0@,
                        gs0 == sizes0@,
                        gf0.len() == n,
                        gs0.len() == n,
                        forall|k: int|
                            0 <= k < n && #[trigger] gf0[k] ==> frozen@[k] && sizes@[k] == gs0[k],
                    decreases n - i,
                {
                    if !frozen[i] {
                        let t: i128 = items[i].base as i128 - sh[i] as i128;
                        sizes.set(i, t as u32);
                    }
                    i = i + 1;
                }
            proof {
                assert forall|ii: int|
                    0 <= ii < n && frozen0@[ii] implies sizes@[ii] == sizes0@[ii] by {
                    assert(gf0[ii]);
                    assert(sizes@[ii] == gs0[ii]);
                }
            }
                return sizes;
            }
        } else {
            return sizes;
        }
        round = round + 1;
    }
    sizes
}

/// Final main-axis sizes for a line of resolved items in `avail` pixels with
/// `gap` pixels between neighbours: surplus is split by grow weight, deficit
/// by shrink weight times base, leftover pixels go to the lowest indices, and
/// items pushed past a clamp are clamped and frozen before the rest is
/// distributed again. When no clamp interferes the result is exactly the
/// proposed distribution, and every size always respects its item's clamps.
pub fn allocate(items: &Vec<ResolvedItem>, avail: u32, gap: u32) -> (sizes: Vec<u32>)
    requires
        wf_items(items@),
        sum_int(bases(items@)) <= u64::MAX as int,
    ensures
        sizes@.len() == items@.len(),
        forall|i: int|
            0 <= i < items@.len() ==> items@[i].min <= #[trigger] sizes@[i] && sizes@[i]
                <= items@[i].max,
        all_in_bounds(items@, target_of(avail as int, gap as int, items@.len() as int)) ==> forall|
            i: int,
        |
            0 <= i < items@.len() ==> #[trigger] sizes@[i] as int == tentative(
                items@,
                target_of(avail as int, gap as int, items@.len() as int),
                i,
            ),
        forall|i: int|
            0 <= i < items@.len() && tentative(
                items@,
                target_of(avail as int, gap as int, items@.len() as int),
                i,
            ) > items@[i].max as int ==> #[trigger] sizes@[i] == items@[i].max,
        forall|i: int|
            0 <= i < items@.len() && tentative(
                items@,
                target_of(avail as int, gap as int, items@.len() as int),
                i,
            ) < items@[i].min as int ==> #[trigger] sizes@[i] == items@[i].min,
{
    let n = items.len();
    if n == 0 {
        return Vec::new();
    }
    let ghost tgt = target_of(avail as int, gap as int, n as int);
    proof {
        assert((gap as int) * (n as int - 1) >= 0) by (nonlinear_arith)
            requires
                gap as int >= 0,
                n as int >= 1,
        ;
        assert((gap as int) * (n as int - 1) <= (u64::MAX as int) * (u64::MAX as int))
            by (nonlinear_arith)
            requires
                0 <= gap as int <= u64::MAX as int,
                0 <= n as int - 1 <= u64::MAX as int,
        ;
        assert((u64::MAX as int) * (u64::MAX as int) < u128::MAX as int);
    }
    let gtot: u128 = (gap as u128) * ((n - 1) as u128);
    let target: u32 = if (avail as u128) > gtot {
        avail - (gtot as u32)
    } else {
        0
    };
    proof {
        assert(target as int == tgt);
    }
    let sb = sum_bases(items);
    let delta: i128 = target as i128 - sb as i128;
    let wg = grow_vec(items);
    let ws = shrink_vec(items);
    let sg = sum_u64s(&wg);
    let ss = sum_u64s(&ws);
    let ghost gws = grow_weights(items@);
    let ghost sws = shrink_weights(items@);
    if delta >= 0 && sg > 0 {
        let d: u64 = delta as u64;
        let sh = distribute(d, &wg);
        let mut ok = true;
        let ghost mut bad: int = 0;
        let mut i: usize = 0;
        while i < n
            invariant
                i <= n,
                n == items@.len(),
                wf_items(items@),
                sh@.len() == n,
                d as int == tgt - sum_int(bases(items@)),
                d as int >= 0,
                sum_int(gws) > 0,
                gws == grow_weights(items@),
                forall|k: int| 0 <= k < n ==> sh@[k] as int == pixel_share(d as int, gws, k),
                forall|k: int| 0 <= k < n ==> sh@[k] <= d,
                d <= u32::MAX as u64,
                ok ==> forall|k: int|
                    0 <= k < i ==> items@[k].base as u64 + sh@[k] <= (#[trigger] items@[k].max)
                        as u64,
                !ok ==> 0 <= bad < n && !in_bounds(items@, tgt, bad),
            decreases n - i,
        {
            let t: u64 = items[i].base as u64 + sh[i];
            if t > items[i].max as u64 {
                proof {
                    if ok {
                        bad = i as int;
                    }
                    assert(tentative(items@, tgt, i as int) == items@[i as int].base as int
                        + pixel_share(d as int, gws, i as int));
                }
                ok = false;
            }
            i = i + 1;
        }
        if ok {
            let mut out: Vec<u32> = Vec::new();
            i = 0;
            while i < n
                invariant
                    i <= n,
                    n == items@.len(),
                    wf_items(items@),
                    sh@.len() == n,
                    d as int == tgt - sum_int(bases(items@)),
                    d as int >= 0,
                    sum_int(gws) > 0,
                    gws == grow_weights(items@),
                    forall|k: int| 0 <= k < n ==> sh@[k] as int == pixel_share(d as int, gws, k),
                    forall|k: int|
                        0 <= k < n ==> items@[k].base as u64 + sh@[k] <= (#[trigger] items@[k].max)
                            as u64,
                    out@.len() == i,
                    forall|k: int|
                        0 <= k < i ==> #[trigger] out@[k] as int == tentative(items@, tgt, k),
                    forall|k: int|
                        0 <= k < i ==> items@[k].min <= #[trigger] out@[k] && out@[k]
                            <= items@[k].max,
                decreases n - i,
            {
                proof {
                    lemma_pixel_share_bounds(d as int, gws, i as int);
                }
                let t: u64 = items[i].base as u64 + sh[i];
                out.push(t as u32);
                i = i + 1;
            }
            return out;
        } else {
            let mut sizes: Vec<u32> = Vec::new();
            let mut frozen: Vec<bool> = Vec::new();
            i = 0;
            while i < n
                invariant
                    i <= n,
                    n == items@.len(),
                    wf_items(items@),
                    sh@.len() == n,
                    d as int == tgt - sum_int(bases(items@)),
                    d as int >= 0,
                    sum_int(gws) > 0,
                    gws == grow_weights(items@),
                    forall|k: int| 0 <= k < n ==> sh@[k] as int == pixel_share(d as int, gws, k),
                    forall|k: int| 0 <= k < n ==> sh@[k] <= d,
                    d <= u32::MAX as u64,
                    sizes@.len() == i,
                    frozen@.len() == i,
                    forall|k: int|
                        0 <= k < i && frozen@[k] ==> items@[k].min <= #[trigger] sizes@[k]
                            && sizes@[k] <= items@[k].max,
                    forall|k: int|
                        0 <= k < i && !frozen@[k] ==> #[trigger] sizes@[k] == items@[k].base,
                    forall|k: int|
                        0 <= k < i && tentative(items@, tgt, k) > items@[k].max as int ==> (
                        #[trigger] frozen@[k]) && sizes@[k] == items@[k].max,
                decreases n - i,
            {
                let t: u64 = items[i].base as u64 + sh[i];
                if t > items[i].max as u64 {
                    sizes.push(items[i].max);
                    frozen.push(true);
                } else {
                    sizes.push(items[i].base);
                    frozen.push(false);
                }
                i = i + 1;
            }
            let ghost gfro = frozen@;
            let ghost gsiz = sizes@;
            let out = settle(items, target, sizes, frozen);
            proof {
                assert forall|k: int|
                    0 <= k < n && tentative(items@, tgt, k) > items@[k].max as int implies out@[k]
                    == items@[k].max as u32 by {
                    assert(gfro[k]);
                    assert(gsiz[k] == items@[k].max);
                    assert(out@[k] == gsiz[k]);
                }
                assert forall|k: int|
                    0 <= k < n && tentative(items@, tgt, k) < items@[k].min as int implies false by {
                    lemma_pixel_share_bounds(d as int, gws, k);
                }
            }
            return out;
        }
    } else if delta < 0 && ss > 0 {
        let d: u64 = (-delta) as u64;
        let sh = distribute(d, &ws);
        let mut ok = true;
        let ghost mut bad: int = 0;
        let mut i: usize = 0;
        while i < n
            invariant
                i <= n,
                n == items@.len(),
                wf_items(items@),
                sh@.len() == n,
                d as int == sum_int(bases(items@)) - tgt,
                d as int > 0,
                sum_int(sws) > 0,
                sws == shrink_weights(items@),
                forall|k: int| 0 <= k < n ==> sh@[k] as int == pixel_share(d as int, sws, k),
                forall|k: int| 0 <= k < n ==> sh@[k] <= d,
                ok ==> forall|k: int|
                    0 <= k < i ==> items@[k].base as i128 - sh@[k] as i128 >= (
                    #[trigger] items@[k].min) as i128,
                !ok ==> 0 <= bad < n && !in_bounds(items@, tgt, bad),
            decreases n - i,
        {
            let t: i128 = items[i].base as i128 - sh[i] as i128;
            if t < items[i].min as i128 {
                proof {
                    if ok {
                        bad = i as int;
                    }
                    assert(tentative(items@, tgt, i as int) == items@[i as int].base as int
                        - pixel_share(d as int, sws, i as int));
                }
                ok = false;
            }
            i = i + 1;
        }
        if ok {
            let mut out: Vec<u32> = Vec::new();
            i = 0;
            while i < n
                invariant
                    i <= n,
                    n == items@.len(),
                    wf_items(items@),
                    sh@.len() == n,
                    d as int == sum_int(bases(items@)) - tgt,
                    d as int > 0,
                    sum_int(sws) > 0,
                    sws == shrink_weights(items@),
                    forall|k: int| 0 <= k < n ==> sh@[k] as int == pixel_share(d as int, sws, k),
                    forall|k: int|
                        0 <= k < n ==> items@[k].base as i128 - sh@[k] as i128 >= (
                        #[trigger] items@[k].min) as i128,
                    out@.len() == i,
                    forall|k: int|
                        0 <= k < i ==> #[trigger] out@[k] as int == tentative(items@, tgt, k),
                    forall|k: int|
                        0 <= k < i ==> items@[k].min <= #[trigger] out@[k] && out@[k]
                            <= items@[k].max,
                decreases n - i,
            {
                proof {
                    lemma_pixel_share_bounds(d as int, sws, i as int);
                }
                let t: i128 = items[i].base as i128 - sh[i] as i128;
                out.push(t as u32);
                i = i + 1;
            }
            return out;
        } else {
            let mut sizes: Vec<u32> = Vec::new();
            let mut frozen: Vec<bool> = Vec::new();
            i = 0;
            while i < n
                invariant
                    i <= n,
                    n == items@.len(),
                    wf_items(items@),
                    sh@.len() == n,
                    d as int == sum_int(bases(items@)) - tgt,
                    d as int > 0,
                    sum_int(sws) > 0,
                    sws == shrink_weights(items@),
                    forall|k: int| 0 <= k < n ==> sh@[k] as int == pixel_share(d as int, sws, k),
                    forall|k: int| 0 <= k < n ==> sh@[k] <= d,
                    sizes@.len() == i,
                    frozen@.len() == i,
                    forall|k: int|
                        0 <= k < i && frozen@[k] ==> items@[k].min <= #[trigger] sizes@[k]
                            && sizes@[k] <= items@[k].max,
                    forall|k: int|
                        0 <= k < i && !frozen@[k] ==> #[trigger] sizes@[k] == items@[k].base,
                    forall|k: int|
                        0 <= k < i && tentative(items@, tgt, k) < items@[k].min as int ==> (
                        #[trigger] frozen@[k]) && sizes@[k] == items@[k].min,
                decreases n - i,
            {
                let t: i128 = items[i].base as i128 - sh[i] as i128;
                if t < items[i].min as i128 {
                    sizes.push(items[i].min);
                    frozen.push(true);
                } else {
                    sizes.push(items[i].base);
                    frozen.push(false);
                }
                i = i + 1;
            }
            let ghost gfro = frozen@;
            let ghost gsiz = sizes@;
            let out = settle(items, target, sizes, frozen);
            proof {
                assert forall|k: int|
                    0 <= k < n && tentative(items@, tgt, k) < items@[k].min as int implies out@[k]
                    == items@[k].min as u32 by {
                    assert(gfro[k]);
                    assert(gsiz[k] == items@[k].min);
                    assert(out@[k] == gsiz[k]);
                }
                assert forall|k: int|
                    0 <= k < n && tentative(items@, tgt, k) > items@[k].max as int implies false by {
                    lemma_pixel_share_bounds(d as int, sws, k);
                }
            }
            return out;
        }
    } else {
        let mut out: Vec<u32> = Vec::new();
        let mut i: usize = 0;
        while i < n
            invariant
                i <= n,
                n == items@.len(),
                wf_items(items@),
                out@.len() == i,
                forall|k: int| 0 <= k < i ==> #[trigger] out@[k] == items@[k].base,
            decreases n - i,
        {
            out.push(items[i].base);
            i = i + 1;
        }
        return out;
    }
}

} // verus!
