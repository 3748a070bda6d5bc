use widgets::boxengine::BoxEngine;
use widgets::sizer::Sizer;

fn sizer(hint: u32, min: u32, max: u32, stretch: u32) -> Sizer {
    Sizer { size_hint: hint, min_size: min, max_size: max, stretch, size: 0, done: false }
}

fn sizes(sizers: &Vec<Sizer>) -> Vec<u32> {
    sizers.iter().map(|s| s.size).collect()
}

fn hints(sizers: &Vec<Sizer>) -> Vec<u32> {
    sizers.iter().map(|s| s.size_hint).collect()
}

/// A row of four sizers of 100 each, bounded by 0 and 150, laid out so
/// that every size equals its hint.
fn settled_row() -> Vec<Sizer> {
    let mut row = vec![sizer(100, 0, 150, 1); 4];
    assert_eq!(BoxEngine::calc(&mut row, 400), 0);
    row
}

#[test]
fn create_sizer_defaults() {
    let s = BoxEngine::create_sizer(None);
    assert_eq!((s.size_hint, s.size, s.min_size, s.max_size, s.stretch, s.done), (0, 0, 0, u32::MAX, 1, false));
    let s = BoxEngine::create_sizer(Some(42));
    assert_eq!((s.size_hint, s.size), (42, 42));
}

#[test]
fn even_growth_of_three_sizers() {
    let mut row = vec![BoxEngine::create_sizer(Some(100)); 3];
    assert_eq!(BoxEngine::calc(&mut row, 360), 0);
    assert_eq!(sizes(&row), vec![120, 120, 120]);
}

#[test]
fn starvation_forces_minimums() {
    let mut row = vec![sizer(100, 50, 200, 1); 2];
    assert_eq!(BoxEngine::calc(&mut row, 80), -20);
    assert_eq!(sizes(&row), vec![50, 50]);
}

#[test]
fn stretchable_sizer_absorbs_deficit() {
    let mut row = vec![sizer(300, 0, u32::MAX, 1), sizer(100, 0, u32::MAX, 0)];
    assert_eq!(BoxEngine::calc(&mut row, 300), 0);
    assert_eq!(sizes(&row), vec![200, 100]);
}

#[test]
fn empty_row_returns_space() {
    let mut row: Vec<Sizer> = Vec::new();
    assert_eq!(BoxEngine::calc(&mut row, 500), 500);
    BoxEngine::adjust(&mut row, 0, 25);
    BoxEngine::adjust(&mut row, 3, -25);
    assert!(row.is_empty());
}

#[test]
fn identity_keeps_clamped_hints() {
    let mut row = vec![sizer(10, 0, 100, 1), sizer(5, 20, 100, 1), sizer(300, 0, 30, 1)];
    assert_eq!(BoxEngine::calc(&mut row, 60), 0);
    assert_eq!(sizes(&row), vec![10, 20, 30]);
    assert_eq!(hints(&row), vec![10, 5, 300]);
}

#[test]
fn saturation_fills_maximums() {
    let mut row = vec![sizer(10, 0, 50, 1), sizer(20, 5, 50, 2)];
    assert_eq!(BoxEngine::calc(&mut row, 130), 30);
    assert_eq!(sizes(&row), vec![50, 50]);
}

#[test]
fn space_equal_to_total_min_is_starvation() {
    let mut row = vec![sizer(40, 10, 50, 1), sizer(40, 20, 50, 1)];
    assert_eq!(BoxEngine::calc(&mut row, 30), 0);
    assert_eq!(sizes(&row), vec![10, 20]);
}

#[test]
fn shrink_respects_minimum_and_redistributes() {
    let mut row = vec![sizer(100, 0, u32::MAX, 1), sizer(100, 90, u32::MAX, 1)];
    assert_eq!(BoxEngine::calc(&mut row, 150), 0);
    assert_eq!(sizes(&row), vec![60, 90]);
}

#[test]
fn grow_respects_maximum_and_redistributes() {
    let mut row = vec![sizer(10, 0, 20, 1), sizer(10, 0, u32::MAX, 1)];
    assert_eq!(BoxEngine::calc(&mut row, 60), 0);
    assert_eq!(sizes(&row), vec![20, 40]);
}

#[test]
fn grow_follows_stretch_factors() {
    let mut row = vec![sizer(0, 0, u32::MAX, 1), sizer(0, 0, u32::MAX, 3)];
    assert_eq!(BoxEngine::calc(&mut row, 400), 0);
    assert_eq!(sizes(&row), vec![100, 300]);
}

#[test]
fn equal_split_when_nothing_stretches() {
    let mut row = vec![sizer(100, 0, u32::MAX, 0), sizer(100, 0, u32::MAX, 0)];
    assert_eq!(BoxEngine::calc(&mut row, 150), 0);
    assert_eq!(sizes(&row), vec![75, 75]);
}

#[test]
fn equal_split_grows_fixed_sizers_alike() {
    let mut row = vec![sizer(100, 0, u32::MAX, 0), sizer(200, 0, u32::MAX, 0)];
    assert_eq!(BoxEngine::calc(&mut row, 360), 0);
    assert_eq!(sizes(&row), vec![130, 230]);
}

#[test]
fn stale_size_and_done_do_not_matter() {
    let mut a = vec![sizer(100, 0, 150, 1), sizer(60, 10, u32::MAX, 2), sizer(40, 40, 90, 0)];
    let mut b = a.clone();
    b[0].size = 7;
    b[1].done = true;
    b[2].size = 1000;
    for space in [50u64, 150, 200, 260, 1000] {
        let ra = BoxEngine::calc(&mut a, space);
        let rb = BoxEngine::calc(&mut b, space);
        assert_eq!(ra, rb);
        assert_eq!(sizes(&a), sizes(&b));
    }
}

fn sweep_never_shrinks(base: Vec<Sizer>, top: u64) {
    let mut prev: Vec<u32> = vec![0; base.len()];
    for space in 0u64..=top {
        let mut row = base.clone();
        BoxEngine::calc(&mut row, space);
        let now = sizes(&row);
        for i in 0..now.len() {
            assert!(now[i] >= prev[i], "space {}: {:?} after {:?}", space, now, prev);
        }
        prev = now;
    }
}

#[test]
fn more_space_leaves_no_sizer_smaller() {
    sweep_never_shrinks(vec![sizer(30, 0, 80, 1), sizer(50, 20, 60, 3), sizer(10, 0, u32::MAX, 0)], 260);
    sweep_never_shrinks(vec![sizer(24, 0, 27, 2), sizer(15, 0, 36, 2), sizer(13, 0, 37, 2), sizer(4, 0, 9, 4)], 120);
}

#[test]
fn largest_stretch_is_not_starved_by_rounding() {
    let row = vec![sizer(24, 0, 27, 2), sizer(15, 0, 36, 2), sizer(13, 0, 37, 2), sizer(4, 0, 9, 4)];
    let mut a = row.clone();
    assert_eq!(BoxEngine::calc(&mut a, 61), 0);
    assert_eq!(sizes(&a), vec![25, 16, 14, 6]);
    let mut b = row.clone();
    assert_eq!(BoxEngine::calc(&mut b, 62), 0);
    assert_eq!(sizes(&b), vec![26, 16, 14, 6]);
}

#[test]
fn equal_split_remainder_goes_one_unit_each() {
    let mut row = vec![sizer(10, 0, u32::MAX, 0); 3];
    assert_eq!(BoxEngine::calc(&mut row, 34), 0);
    assert_eq!(sizes(&row), vec![12, 11, 11]);
}

#[test]
fn equal_split_after_stretchable_sizers_reach_bound() {
    let mut row = vec![sizer(100, 80, u32::MAX, 1), sizer(100, 0, u32::MAX, 0), sizer(100, 0, u32::MAX, 0)];
    assert_eq!(BoxEngine::calc(&mut row, 220), 0);
    assert_eq!(sizes(&row), vec![80, 70, 70]);
}

#[test]
fn leftover_unit_goes_to_the_first_sizer() {
    let mut row = vec![sizer(100, 0, u32::MAX, 1); 3];
    assert_eq!(BoxEngine::calc(&mut row, 301), 0);
    assert_eq!(sizes(&row), vec![101, 100, 100]);
}

#[test]
fn exact_fit_on_uneven_row() {
    let mut row = vec![sizer(17, 3, 40, 2), sizer(33, 0, 35, 5), sizer(8, 8, 90, 1), sizer(51, 10, 60, 0)];
    assert_eq!(BoxEngine::calc(&mut row, 97), 0);
    assert_eq!(row.iter().map(|s| s.size as u64).sum::<u64>(), 97);
    for s in &row {
        assert!(s.min_size <= s.size && s.size <= s.max_size);
    }
}

#[test]
fn inverted_bounds_fix_the_size_at_min() {
    let mut row = vec![sizer(30, 50, 10, 1)];
    assert_eq!(BoxEngine::calc(&mut row, 50), 0);
    assert_eq!(sizes(&row), vec![50]);
    assert_eq!(BoxEngine::calc(&mut row, 80), 30);
    assert_eq!(sizes(&row), vec![50]);
}

#[test]
fn calc_resets_done_and_keeps_constraints() {
    let mut row = vec![sizer(100, 0, 200, 1), sizer(100, 0, 200, 1)];
    row[0].done = true;
    assert_eq!(BoxEngine::calc(&mut row, 300), 0);
    assert_eq!(sizes(&row), vec![150, 150]);
    assert_eq!(hints(&row), vec![100, 100]);
    assert_eq!((row[0].min_size, row[0].max_size, row[0].stretch), (0, 200, 1));
}

#[test]
fn adjust_positive_grows_before_and_shrinks_after() {
    let mut row = settled_row();
    BoxEngine::adjust(&mut row, 2, 70);
    assert_eq!(hints(&row), vec![120, 150, 100, 30]);
    assert_eq!(sizes(&row), vec![100, 100, 100, 100]);
}

#[test]
fn adjust_negative_mirrors() {
    let mut row = settled_row();
    BoxEngine::adjust(&mut row, 1, -60);
    assert_eq!(hints(&row), vec![40, 100, 150, 110]);
}

#[test]
fn adjust_is_limited_by_room() {
    let mut row = settled_row();
    BoxEngine::adjust(&mut row, 1, 1000);
    assert_eq!(hints(&row), vec![150, 100, 50, 100]);
    let mut row = settled_row();
    BoxEngine::adjust(&mut row, 2, i64::MIN);
    assert_eq!(hints(&row), vec![100, 50, 100, 150]);
}

#[test]
fn adjust_conserves_total_hint() {
    let mut row = settled_row();
    let before: u64 = row.iter().map(|s| s.size_hint as u64).sum();
    BoxEngine::adjust(&mut row, 2, 130);
    let after: u64 = row.iter().map(|s| s.size_hint as u64).sum();
    assert_eq!(before, after);
    assert_eq!(hints(&row), vec![150, 150, 100, 0]);
}

#[test]
fn adjust_keeps_hints_in_bounds() {
    for delta in [-500i64, -120, -1, 1, 75, 500] {
        let mut row = settled_row();
        BoxEngine::adjust(&mut row, 2, delta);
        for s in &row {
            assert!(s.min_size <= s.size_hint && s.size_hint <= s.max_size);
        }
    }
}

#[test]
fn adjust_out_of_range_or_zero_is_noop() {
    let mut row = settled_row();
    BoxEngine::adjust(&mut row, 3, 50);
    BoxEngine::adjust(&mut row, 9, -50);
    BoxEngine::adjust(&mut row, 1, 0);
    assert_eq!(hints(&row), vec![100, 100, 100, 100]);
}

#[test]
fn adjust_then_calc_realises_the_drag() {
    let mut row = settled_row();
    BoxEngine::adjust(&mut row, 2, 70);
    assert_eq!(BoxEngine::calc(&mut row, 400), 0);
    assert_eq!(sizes(&row), vec![120, 150, 100, 30]);
}
