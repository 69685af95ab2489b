use saddle_ai_fov::algorithms::shadowcasting::fov_is_ready;
use saddle_ai_fov::grid::GridOpacityMap;
use saddle_ai_fov::runtime::{update_grid_viewer, FovStats};
use saddle_ai_fov::state::{merge_grid_visibility, GridFov, GridFovState};
use saddle_ai_fov::{
    compute_grid_fov, GridCornerPolicy, GridFovBackend, GridFovConfig, GridMapSpec, IVec2, UVec2,
};

fn spec(width: u32, height: u32) -> GridMapSpec {
    GridMapSpec {
        dimensions: UVec2::new(width, height),
    }
}

fn cells(list: &[(i32, i32)]) -> Vec<IVec2> {
    list.iter().map(|&(x, y)| IVec2::new(x, y)).collect()
}

#[test]
fn index_round_trips_in_row_major_order() {
    let grid = spec(4, 3);
    assert_eq!(grid.cell_count(), 12);
    assert_eq!(grid.index(IVec2::new(0, 0)), Some(0));
    assert_eq!(grid.index(IVec2::new(3, 0)), Some(3));
    assert_eq!(grid.index(IVec2::new(1, 2)), Some(9));
    assert_eq!(grid.cell_from_index(9), IVec2::new(1, 2));
    for index in 0..grid.cell_count() {
        let cell = grid.cell_from_index(index);
        assert!(grid.in_bounds(cell));
        assert_eq!(grid.index(cell), Some(index));
    }
}

#[test]
fn cells_off_the_grid_have_no_index() {
    let grid = spec(4, 3);
    assert!(!grid.in_bounds(IVec2::new(-1, 0)));
    assert!(!grid.in_bounds(IVec2::new(4, 0)));
    assert!(!grid.in_bounds(IVec2::new(0, 3)));
    assert_eq!(grid.index(IVec2::new(4, 0)), None);
    assert_eq!(grid.index(IVec2::new(0, -1)), None);
}

#[test]
fn default_grid_is_thirty_two_by_twenty_four() {
    let grid = GridMapSpec::default();
    assert_eq!(grid.dimensions, UVec2::new(32, 24));
    assert_eq!(grid.cell_count(), 768);
}

#[test]
fn opacity_map_reads_back_what_was_written() {
    let mut map = GridOpacityMap::new(spec(5, 5));
    assert!(!map.is_opaque(IVec2::new(2, 2)));
    map.set_opaque(IVec2::new(2, 2), true);
    assert!(map.is_opaque(IVec2::new(2, 2)));
    assert!(!map.is_opaque(IVec2::new(2, 3)));
    map.set_opaque(IVec2::new(2, 2), false);
    assert!(!map.is_opaque(IVec2::new(2, 2)));
}

#[test]
fn opacity_map_treats_off_grid_cells_as_opaque_and_ignores_writes_there() {
    let mut map = GridOpacityMap::new(spec(3, 3));
    assert!(map.is_opaque(IVec2::new(-1, 0)));
    assert!(map.is_opaque(IVec2::new(3, 3)));
    map.set_opaque(IVec2::new(5, 5), false);
    assert!(map.is_opaque(IVec2::new(5, 5)));
    assert!(!map.is_opaque(IVec2::new(0, 0)));
}

#[test]
fn opacity_map_from_fn_and_clear() {
    let mut map = GridOpacityMap::from_fn(spec(4, 4), |cell| cell.x == 1);
    assert!(map.is_opaque(IVec2::new(1, 0)));
    assert!(map.is_opaque(IVec2::new(1, 3)));
    assert!(!map.is_opaque(IVec2::new(2, 3)));
    map.clear();
    assert!(!map.is_opaque(IVec2::new(1, 0)));
    assert!(!map.is_opaque(IVec2::new(1, 3)));
}

#[test]
fn default_opacity_map_is_transparent() {
    let map = GridOpacityMap::default();
    assert_eq!(map.spec.dimensions, UVec2::new(32, 24));
    assert!(!map.is_opaque(IVec2::new(31, 23)));
    assert!(map.is_opaque(IVec2::new(32, 0)));
}

#[test]
fn grid_viewer_defaults() {
    let viewer = GridFov::default();
    assert_eq!(viewer.config.radius, 8);
    assert_eq!(viewer.config.backend, GridFovBackend::RecursiveShadowcasting);
    assert_eq!(
        viewer.config.corner_policy,
        GridCornerPolicy::BlockIfBothAdjacentWalls
    );
    assert!(viewer.config.reveal_blockers);
    assert!(viewer.remember_seen_cells);
    assert!(viewer.enabled);

    let narrow = GridFov::new(3).with_config(GridFovConfig {
        radius: 5,
        backend: GridFovBackend::RaycastLos,
        ..Default::default()
    });
    assert_eq!(narrow.config.radius, 5);
    assert_eq!(narrow.config.backend, GridFovBackend::RaycastLos);
    assert!(narrow.enabled);
}

#[test]
fn publishing_reports_entered_and_exited_cells() {
    let mut state = GridFovState::default();
    let changed = state.publish(cells(&[(2, 1), (1, 1)]), true);
    assert!(changed);
    assert_eq!(state.visible_now, cells(&[(2, 1), (1, 1)]));
    assert_eq!(state.entered, cells(&[(1, 1), (2, 1)]));
    assert!(state.exited.is_empty());
    assert_eq!(state.explored, cells(&[(1, 1), (2, 1)]));
    assert!(state.contains(IVec2::new(2, 1)));
    assert!(!state.contains(IVec2::new(3, 1)));

    let changed = state.publish(cells(&[(1, 1), (1, 2)]), true);
    assert!(changed);
    assert_eq!(state.entered, cells(&[(1, 2)]));
    assert_eq!(state.exited, cells(&[(2, 1)]));
    assert_eq!(state.explored, cells(&[(1, 1), (2, 1), (1, 2)]));
}

#[test]
fn publishing_the_same_view_twice_clears_the_changes() {
    let mut state = GridFovState::default();
    state.publish(cells(&[(0, 0), (1, 0)]), true);
    let changed = state.publish(cells(&[(0, 0), (1, 0)]), true);
    assert!(!changed);
    assert!(state.entered.is_empty());
    assert!(state.exited.is_empty());
    assert_eq!(state.visible_now, cells(&[(0, 0), (1, 0)]));
}

#[test]
fn forgetful_viewer_explores_only_what_it_sees() {
    let mut state = GridFovState::default();
    state.publish(cells(&[(0, 0)]), false);
    state.publish(cells(&[(3, 3)]), false);
    assert_eq!(state.explored, cells(&[(3, 3)]));
}

#[test]
fn deactivation_reports_every_visible_cell_as_exited() {
    let mut state = GridFovState::default();
    state.publish(cells(&[(0, 0), (1, 0)]), true);
    state.deactivate();
    assert!(state.visible_now.is_empty());
    assert!(state.entered.is_empty());
    assert_eq!(state.exited, cells(&[(0, 0), (1, 0)]));
    assert_eq!(state.explored, cells(&[(0, 0), (1, 0)]));
}

#[test]
fn merged_visibility_is_the_sorted_union() {
    let mut a = GridFovState::default();
    let mut b = GridFovState::default();
    a.publish(cells(&[(3, 0), (1, 1)]), true);
    b.publish(cells(&[(1, 1), (0, 0), (2, 2)]), true);
    let merged = merge_grid_visibility(&[&a, &b]);
    assert_eq!(merged, cells(&[(0, 0), (3, 0), (1, 1), (2, 2)]));
    assert!(merge_grid_visibility(&[]).is_empty());
}

#[test]
fn grid_viewer_update_computes_on_the_map() {
    let mut map = GridOpacityMap::new(spec(7, 7));
    map.set_opaque(IVec2::new(4, 3), true);
    let viewer = GridFov::new(3);
    let mut state = GridFovState::default();
    let mut stats = FovStats::default();

    update_grid_viewer(&mut state, &viewer, Some(&map), Some(IVec2::new(3, 3)), &mut stats);

    let expected = compute_grid_fov(map.spec, IVec2::new(3, 3), &viewer.config, |cell| {
        map.is_opaque(cell)
    });
    assert_eq!(state.visible_now, expected.visible_cells);
    assert!(state.contains(IVec2::new(4, 3)));
    assert!(!state.contains(IVec2::new(6, 3)));
    assert_eq!(stats.visible_cells_total, state.visible_now.len());
    assert_eq!(state.entered, state.visible_now);
}

#[test]
fn grid_viewer_update_without_map_or_origin_publishes_nothing() {
    let map = GridOpacityMap::new(spec(5, 5));
    let mut viewer = GridFov::new(2);
    let mut state = GridFovState::default();
    let mut stats = FovStats::default();
    update_grid_viewer(&mut state, &viewer, Some(&map), Some(IVec2::new(2, 2)), &mut stats);
    let seen = state.visible_now.clone();
    assert!(!seen.is_empty());

    update_grid_viewer(&mut state, &viewer, None, Some(IVec2::new(2, 2)), &mut stats);
    assert!(state.visible_now.is_empty());
    assert_eq!(state.exited, seen);

    update_grid_viewer(&mut state, &viewer, Some(&map), None, &mut stats);
    assert!(state.visible_now.is_empty());

    viewer.enabled = false;
    let total = stats.visible_cells_total;
    update_grid_viewer(&mut state, &viewer, Some(&map), Some(IVec2::new(2, 2)), &mut stats);
    assert!(state.visible_now.is_empty());
    assert_eq!(stats.visible_cells_total, total);
}

#[test]
fn fresh_map_reads_transparent_on_the_grid_and_opaque_off_it() {
    let grid = spec(3, 2);
    let mut map = GridOpacityMap::new(grid);
    map.set_opaque(IVec2::new(1, 1), true);
    map.set_opaque(IVec2::new(7, 7), false);
    for y in -1..4 {
        for x in -1..5 {
            let cell = IVec2::new(x, y);
            let expected = if !grid.in_bounds(cell) {
                true
            } else {
                cell == IVec2::new(1, 1)
            };
            assert_eq!(map.is_opaque(cell), expected);
        }
    }
    let from_fn = GridOpacityMap::from_fn(grid, |_| false);
    assert!(from_fn.is_opaque(IVec2::new(3, 0)));
    assert!(!from_fn.is_opaque(IVec2::new(2, 1)));
}

#[test]
fn readiness_matches_the_backend_limits() {
    let grid = spec(10, 10);
    let near = GridFovConfig {
        radius: 5,
        ..Default::default()
    };
    assert!(fov_is_ready(grid, IVec2::new(2, 2), &near));
    let huge = GridFovConfig {
        radius: 46341,
        ..Default::default()
    };
    assert!(!fov_is_ready(grid, IVec2::new(2, 2), &huge));
    assert!(fov_is_ready(grid, IVec2::new(20, 2), &huge));
    let huge_raycast = GridFovConfig {
        backend: GridFovBackend::RaycastLos,
        ..huge
    };
    assert!(fov_is_ready(grid, IVec2::new(2, 2), &huge_raycast));
}
