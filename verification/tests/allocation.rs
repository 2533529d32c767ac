use flexkit::allocator::allocate;
use flexkit::item::{resolve, Align, FlexItem, ResolvedItem};

fn item(base: u32, grow: u32, shrink: u32, min: u32, max: u32) -> ResolvedItem {
    ResolvedItem { base, grow, shrink, min, max }
}

#[test]
fn equal_grow_splits_evenly() {
    // Three items, all grow weight one, intrinsic main 10, 90 pixels, no gap.
    let items = vec![
        item(10, 1, 1, 0, u32::MAX),
        item(10, 1, 1, 0, u32::MAX),
        item(10, 1, 1, 0, u32::MAX),
    ];
    let sizes = allocate(&items, 90, 0);
    assert_eq!(sizes, vec![30, 30, 30]);
}

#[test]
fn weighted_grow_rounds_residual_to_first() {
    // Grow weights 1/2/1 over 100 pixels: the exact shares are 17.5/35/17.5
    // and the leftover pixel lands on the first item.
    let items = vec![
        item(10, 1, 1, 0, u32::MAX),
        item(10, 2, 1, 0, u32::MAX),
        item(10, 1, 1, 0, u32::MAX),
    ];
    let sizes = allocate(&items, 100, 0);
    assert_eq!(sizes, vec![28, 45, 27]);
    assert_eq!(sizes.iter().map(|s| *s as u64).sum::<u64>(), 100);
}

#[test]
fn equal_shrink_splits_deficit() {
    // Two items with basis 50 squeezed into 60 pixels shrink equally.
    let items = vec![item(50, 0, 1, 0, u32::MAX), item(50, 0, 1, 0, u32::MAX)];
    let sizes = allocate(&items, 60, 0);
    assert_eq!(sizes, vec![30, 30]);
}

#[test]
fn max_clamp_freezes_item() {
    // One growing item clamped at 20 leaves the rest of the space unused.
    let items = vec![item(10, 1, 1, 0, 20)];
    let sizes = allocate(&items, 100, 0);
    assert_eq!(sizes, vec![20]);
}

#[test]
fn min_clamp_reserves_space() {
    // A lower clamp of 40 lifts the first base; the second takes what is left.
    let h0 = FlexItem::new().grow(1).min_main(40);
    let h1 = FlexItem::new().grow(1);
    let items = vec![resolve(&h0, 10), resolve(&h1, 10)];
    let sizes = allocate(&items, 50, 0);
    assert_eq!(sizes, vec![40, 10]);
}

#[test]
fn gaps_come_out_of_the_target() {
    // 100 pixels, two gaps of 10: 80 pixels split three ways.
    let items = vec![
        item(0, 1, 1, 0, u32::MAX),
        item(0, 1, 1, 0, u32::MAX),
        item(0, 1, 1, 0, u32::MAX),
    ];
    let sizes = allocate(&items, 100, 10);
    assert_eq!(sizes.iter().map(|s| *s as u64).sum::<u64>(), 80);
    assert_eq!(sizes, vec![27, 27, 26]);
}

#[test]
fn conservation_on_mixed_weights() {
    // With positive grow weight and surplus, sizes sum exactly to the target.
    let items = vec![
        item(7, 3, 1, 0, u32::MAX),
        item(11, 0, 1, 0, u32::MAX),
        item(5, 2, 1, 0, u32::MAX),
        item(0, 5, 1, 0, u32::MAX),
    ];
    let sizes = allocate(&items, 237, 3);
    let target = 237 - 3 * 3;
    assert_eq!(sizes.iter().map(|s| *s as u64).sum::<u64>(), target as u64);
}

#[test]
fn clamp_safety_holds_everywhere() {
    // Every size respects its item's clamps, surplus or deficit alike.
    let cases = vec![
        (vec![item(10, 1, 1, 5, 12), item(30, 2, 1, 0, 100), item(50, 0, 3, 20, 60)], 40u32, 2u32),
        (vec![item(10, 1, 1, 5, 12), item(30, 2, 1, 0, 100), item(50, 0, 3, 20, 60)], 500, 0),
        (vec![item(8, 0, 0, 8, 8), item(90, 1, 1, 10, 95)], 50, 1),
    ];
    for (items, avail, gap) in cases {
        let sizes = allocate(&items, avail, gap);
        assert_eq!(sizes.len(), items.len());
        for (s, it) in sizes.iter().zip(items.iter()) {
            assert!(it.min <= *s && *s <= it.max);
        }
    }
}

#[test]
fn raising_grow_never_shrinks_the_item() {
    // Monotonicity: more grow weight never means fewer pixels for that item.
    let base = vec![
        item(10, 1, 1, 0, u32::MAX),
        item(10, 2, 1, 0, u32::MAX),
        item(10, 1, 1, 0, u32::MAX),
    ];
    let before = allocate(&base, 100, 0);
    for boost in 1..6u32 {
        let mut raised = base.clone();
        raised[2].grow += boost;
        let after = allocate(&raised, 100, 0);
        assert!(after[2] >= before[2]);
    }
}

#[test]
fn identical_inputs_identical_outputs() {
    // Determinism: the allocation is a function of its inputs alone.
    let items = vec![
        item(13, 2, 1, 0, 40),
        item(10, 1, 2, 5, u32::MAX),
        item(0, 3, 1, 0, 17),
    ];
    let a = allocate(&items, 123, 4);
    let b = allocate(&items, 123, 4);
    assert_eq!(a, b);
}

#[test]
fn empty_line_allocates_nothing() {
    let items: Vec<ResolvedItem> = Vec::new();
    assert_eq!(allocate(&items, 100, 5).len(), 0);
}

#[test]
fn zero_extent_gives_zero_sizes() {
    // A container with no room drives unclamped items to nothing.
    let items = vec![item(10, 0, 1, 0, u32::MAX), item(10, 0, 1, 0, u32::MAX)];
    let sizes = allocate(&items, 0, 0);
    assert_eq!(sizes, vec![0, 0]);
}

#[test]
fn unequal_shrink_weights_deficit() {
    // Deficit weighted by shrink times base: weights 30 and 30 split the
    // 20-pixel deficit equally here.
    let items = vec![item(30, 0, 1, 0, u32::MAX), item(10, 0, 3, 0, u32::MAX)];
    let sizes = allocate(&items, 20, 0);
    assert_eq!(sizes, vec![20, 0]);
}

#[test]
fn shrink_respects_min_and_redistributes() {
    // The second item would shrink to nothing but its clamp holds it at 8;
    // the first absorbs the rest of the deficit.
    let items = vec![item(30, 0, 1, 0, u32::MAX), item(10, 0, 3, 8, u32::MAX)];
    let sizes = allocate(&items, 20, 0);
    assert_eq!(sizes, vec![12, 8]);
    assert_eq!(sizes.iter().map(|s| *s as u64).sum::<u64>(), 20);
}

#[test]
fn grow_redistributes_past_frozen_max() {
    // The first item freezes at its clamp; the surplus it could not take
    // flows to the second, and the line still fills the container.
    let items = vec![item(10, 1, 1, 0, 12), item(10, 1, 1, 0, u32::MAX)];
    let sizes = allocate(&items, 100, 0);
    assert_eq!(sizes, vec![12, 88]);
}

#[test]
fn resolve_prefers_basis_over_intrinsic() {
    let h = FlexItem::new().basis(42);
    let r = resolve(&h, 7);
    assert_eq!(r.base, 42);
    let r2 = resolve(&FlexItem::new(), 7);
    assert_eq!(r2.base, 7);
}

#[test]
fn resolve_clamps_base_into_range() {
    let h = FlexItem::new().basis(100).max_main(30);
    assert_eq!(resolve(&h, 0).base, 30);
    let h2 = FlexItem::new().basis(3).min_main(9);
    assert_eq!(resolve(&h2, 0).base, 9);
}

#[test]
fn builders_fill_the_hint() {
    let h = FlexItem::new().grow(2).shrink(3).basis(4).min_main(1).max_main(9).align_self(
        Align::End,
    );
    assert_eq!(h.grow, 2);
    assert_eq!(h.shrink, 3);
    assert_eq!(h.basis, Some(4));
    assert_eq!(h.min_main, Some(1));
    assert_eq!(h.max_main, Some(9));
    assert_eq!(h.align_self, Some(Align::End));
}
