use flexkit::cache::SizeCache;
use flexkit::cross::{anchor_in_cell, cross_align};
use flexkit::driver::{compute_rects, plan_measurements, Direction, FlexConfig};
use flexkit::item::{Align, FlexItem};

fn config(gap: u32, align: Align) -> FlexConfig {
    FlexConfig { direction: Direction::Horizontal, align_items: align, gap }
}

#[test]
fn second_frame_measures_nothing_and_matches() {
    // Frame one measures the three children; frame two, with nothing
    // changed, consults no hidden pass and places every child identically.
    let keys = vec![1u64, 2, 3];
    let hints = vec![
        FlexItem::new().grow(1),
        FlexItem::new().grow(1),
        FlexItem::new().grow(1),
    ];
    let mut cache = SizeCache::new();

    let missing = plan_measurements(&cache, &keys);
    assert_eq!(missing, vec![0, 1, 2]);
    for m in missing {
        // The hidden pass would report the child's intrinsic size here.
        cache.put(keys[m], 10, 5);
    }
    let first = compute_rects(&cache, &keys, &hints, 90, 20, config(0, Align::Start), true);
    cache.end_frame();

    let missing2 = plan_measurements(&cache, &keys);
    assert_eq!(missing2.len(), 0);
    // The drawn rectangles refresh the cache with the same sizes.
    for k in &keys {
        cache.put(*k, 10, 5);
    }
    let second = compute_rects(&cache, &keys, &hints, 90, 20, config(0, Align::Start), true);
    assert_eq!(first, second);

    assert_eq!(first.len(), 3);
    for (i, r) in first.iter().enumerate() {
        assert_eq!(r.main_size, 30);
        assert_eq!(r.main_offset, 30 * i as u64);
        assert_eq!(r.cross_size, 5);
        assert_eq!(r.cross_offset, 0);
    }
}

#[test]
fn gap_offsets_cells() {
    let keys = vec![4u64, 5, 6];
    let hints = vec![
        FlexItem::new().grow(1),
        FlexItem::new().grow(1),
        FlexItem::new().grow(1),
    ];
    let mut cache = SizeCache::new();
    for k in &keys {
        cache.put(*k, 0, 0);
    }
    let rects = compute_rects(&cache, &keys, &hints, 100, 10, config(10, Align::Start), true);
    assert_eq!(rects[0].main_size, 27);
    assert_eq!(rects[1].main_size, 27);
    assert_eq!(rects[2].main_size, 26);
    assert_eq!(rects[0].main_offset, 0);
    assert_eq!(rects[1].main_offset, 37);
    assert_eq!(rects[2].main_offset, 74);
}

#[test]
fn cache_grace_lasts_one_frame() {
    let mut cache = SizeCache::new();
    cache.put(9, 11, 22);
    assert_eq!(cache.get(9), Some((11, 22)));
    cache.end_frame();
    // Not refreshed, but within the one-frame grace: still there.
    assert_eq!(cache.get(9), Some((11, 22)));
    cache.end_frame();
    // Grace spent: gone.
    assert_eq!(cache.get(9), None);
}

#[test]
fn cache_put_refreshes_grace() {
    let mut cache = SizeCache::new();
    cache.put(7, 1, 2);
    cache.end_frame();
    cache.put(7, 3, 4);
    cache.end_frame();
    assert_eq!(cache.get(7), Some((3, 4)));
}

#[test]
fn cross_alignment_places_inside_cell() {
    // start / center / end / stretch against 20 pixels of cross extent.
    let s = cross_align(Align::Start, 20, 6, true);
    assert_eq!((s.offset, s.size), (0, 6));
    let c = cross_align(Align::Center, 20, 5, true);
    // Half of 15 pixels of slack, rounded toward the start.
    assert_eq!((c.offset, c.size), (7, 5));
    let e = cross_align(Align::End, 20, 6, true);
    assert_eq!((e.offset, e.size), (14, 6));
    let t = cross_align(Align::Stretch, 20, 6, true);
    assert_eq!((t.offset, t.size), (0, 20));
}

#[test]
fn stretch_degrades_to_start_when_constrained() {
    let t = cross_align(Align::Stretch, 20, 6, false);
    assert_eq!((t.offset, t.size), (0, 6));
}

#[test]
fn cross_overflow_is_clipped() {
    let s = cross_align(Align::Start, 10, 25, true);
    assert_eq!((s.offset, s.size), (0, 10));
    let e = cross_align(Align::End, 10, 25, true);
    assert_eq!((e.offset, e.size), (0, 10));
}

#[test]
fn content_anchors_inside_cell() {
    // align_content: content smaller than its cell is anchored per axis
    // without changing the cell.
    assert_eq!(anchor_in_cell(Align::Start, 40, 10), 0);
    assert_eq!(anchor_in_cell(Align::Center, 40, 10), 15);
    assert_eq!(anchor_in_cell(Align::End, 40, 10), 30);
    // Oversized content is clipped at the cell's start.
    assert_eq!(anchor_in_cell(Align::End, 10, 25), 0);
}

#[test]
fn align_self_overrides_container() {
    let keys = vec![1u64, 2];
    let hints = vec![FlexItem::new(), FlexItem::new().align_self(Align::End)];
    let mut cache = SizeCache::new();
    cache.put(1, 10, 4);
    cache.put(2, 10, 4);
    let rects = compute_rects(&cache, &keys, &hints, 30, 20, config(0, Align::Start), true);
    assert_eq!(rects[0].cross_offset, 0);
    assert_eq!(rects[1].cross_offset, 16);
}
