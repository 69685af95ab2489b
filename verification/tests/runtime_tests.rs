use saddle_ai_fov::runtime::{mark_dirty_viewers, viewers_to_recompute};
use saddle_ai_fov::{EntityKey, FovDebugSettings, FovRuntimeConfig, FovStats};

fn e(index: u32) -> EntityKey {
    EntityKey::new(index, 0)
}

#[test]
fn budget_takes_the_lowest_dirty_viewers_first() {
    let dirty = vec![e(9), e(2), e(5)];
    assert_eq!(viewers_to_recompute(&dirty, 1), vec![e(2)]);
    assert_eq!(viewers_to_recompute(&dirty, 2), vec![e(2), e(5)]);
    assert_eq!(viewers_to_recompute(&dirty, 0), Vec::<EntityKey>::new());
    assert_eq!(
        viewers_to_recompute(&dirty, FovRuntimeConfig::default().max_viewers_per_frame),
        vec![e(2), e(5), e(9)]
    );
}

#[test]
fn a_budget_of_one_staggers_two_viewers_over_two_updates() {
    let first = viewers_to_recompute(&vec![e(1), e(0)], 1);
    assert_eq!(first, vec![e(0)]);
    let second = viewers_to_recompute(&vec![e(1)], 1);
    assert_eq!(second, vec![e(1)]);
}

#[test]
fn a_global_change_marks_every_viewer() {
    let marking = mark_dirty_viewers(
        &vec![e(4)],
        true,
        &vec![e(3), e(1), e(4)],
        &vec![e(1)],
        &Vec::new(),
    );
    assert_eq!(marking.marked, vec![e(1), e(3), e(4)]);
    assert_eq!(marking.dirty_count, 3);
}

#[test]
fn without_a_global_change_only_changed_and_stimulus_viewers_are_marked() {
    let marking = mark_dirty_viewers(
        &vec![e(8)],
        false,
        &vec![e(3), e(1), e(4), e(8), e(6)],
        &vec![e(4), e(1)],
        &vec![e(6), e(4)],
    );
    assert_eq!(marking.marked, vec![e(1), e(4), e(6)]);
    assert_eq!(marking.dirty_count, 4);
}

#[test]
fn stats_reset_to_zero() {
    let mut stats = FovStats {
        dirty_viewers: 3,
        recomputed_viewers: 2,
        visible_cells_total: 40,
        visible_targets_total: 1,
        target_checks: 5,
        occlusion_tests: 4,
        last_recompute_micros: 17,
    };
    stats.reset();
    assert_eq!(stats, FovStats::default());
    assert_eq!(stats.visible_cells_total, 0);
}

#[test]
fn runtime_defaults() {
    assert_eq!(FovRuntimeConfig::default().max_viewers_per_frame, usize::MAX);
    let debug = FovDebugSettings::default();
    assert!(!debug.enabled);
    assert!(debug.draw_grid_cells);
    assert!(!debug.draw_blocked_rays);
    assert_eq!(debug.max_grid_cells_per_viewer, 96);
}

#[test]
fn budget_orders_by_index_and_keeps_equal_indices_in_order() {
    let dirty = vec![EntityKey::new(3, 5), e(1), EntityKey::new(3, 2)];
    assert_eq!(
        viewers_to_recompute(&dirty, 3),
        vec![e(1), EntityKey::new(3, 5), EntityKey::new(3, 2)]
    );
}
