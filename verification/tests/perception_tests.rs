use saddle_ai_fov::layers::{VisibilityLayer, VisibilityLayerMask};
use saddle_ai_fov::spatial::{evaluate_samples, merge_spatial_visibility, SamplePlacement};
use saddle_ai_fov::{EntityKey, SpatialFovState};

fn e(index: u32) -> EntityKey {
    EntityKey::new(index, 0)
}

fn placements(list: &[(bool, bool)]) -> Vec<SamplePlacement> {
    list.iter()
        .map(|&(in_range, inside)| SamplePlacement::new(in_range, inside))
        .collect()
}

#[test]
fn single_layer_masks_hold_exactly_their_layer() {
    let mask = VisibilityLayerMask::from_layer(VisibilityLayer(3));
    assert_eq!(mask.0, 8);
    assert!(mask.contains(VisibilityLayer(3)));
    assert!(!mask.contains(VisibilityLayer(2)));
    assert!(!mask.contains(VisibilityLayer(4)));
    assert_eq!(
        VisibilityLayerMask::from_layer(VisibilityLayer(63)).0,
        1u64 << 63
    );
}

#[test]
fn layers_from_sixty_four_up_name_nothing() {
    let mask = VisibilityLayerMask::from_layer(VisibilityLayer(64));
    assert_eq!(mask, VisibilityLayerMask::empty());
    assert!(!VisibilityLayerMask::all().contains(VisibilityLayer(64)));
    assert!(!VisibilityLayerMask::all().contains(VisibilityLayer(200)));
}

#[test]
fn all_and_empty_masks() {
    let all = VisibilityLayerMask::all();
    let empty = VisibilityLayerMask::empty();
    assert_eq!(VisibilityLayerMask::default(), all);
    assert!(all.contains(VisibilityLayer::zero()));
    assert!(all.contains(VisibilityLayer(63)));
    assert!(!empty.contains(VisibilityLayer(0)));
    assert!(!all.overlaps(empty));
    assert!(all.overlaps(all));
}

#[test]
fn union_holds_the_layers_of_both_masks() {
    let a = VisibilityLayerMask::from_layer(VisibilityLayer(1));
    let b = VisibilityLayerMask::from_layer(VisibilityLayer(5));
    let both = a.union(b);
    assert_eq!(both.0, 0b10_0010);
    assert!(both.contains(VisibilityLayer(1)));
    assert!(both.contains(VisibilityLayer(5)));
    assert!(!both.contains(VisibilityLayer(2)));
    assert!(!a.overlaps(b));
    assert!(both.overlaps(a));
    assert!(b.overlaps(both));
}

#[test]
fn first_clear_sample_is_reported() {
    let samples = placements(&[(false, false), (true, false), (true, true), (true, true)]);
    let result = evaluate_samples(&samples, &|index: usize| index == 2);
    assert!(result.visible);
    assert_eq!(result.visible_sample_index, Some(3));
    assert!(result.in_range);
    assert!(result.inside_shape);
    assert!(result.occluded);
    assert_eq!(result.checked_samples, 4);
    assert_eq!(result.rays_cast, 2);
}

#[test]
fn scan_stops_at_the_first_visible_sample() {
    let samples = placements(&[(true, true), (true, true), (true, true)]);
    let result = evaluate_samples(&samples, &|_| false);
    assert!(result.visible);
    assert_eq!(result.visible_sample_index, Some(0));
    assert!(!result.occluded);
    assert_eq!(result.checked_samples, 1);
    assert_eq!(result.rays_cast, 1);
}

#[test]
fn out_of_range_samples_cast_no_rays() {
    let samples = placements(&[(false, true), (true, false)]);
    let result = evaluate_samples(&samples, &|_| panic!("no sight line is tested"));
    assert!(!result.visible);
    assert_eq!(result.visible_sample_index, None);
    assert!(result.in_range);
    assert!(!result.inside_shape);
    assert!(!result.occluded);
    assert_eq!(result.checked_samples, 2);
    assert_eq!(result.rays_cast, 0);
}

#[test]
fn fully_occluded_target_is_hidden() {
    let samples = placements(&[(true, true), (true, true)]);
    let result = evaluate_samples(&samples, &|_| true);
    assert!(!result.visible);
    assert!(result.occluded);
    assert_eq!(result.rays_cast, 2);
    assert_eq!(result.checked_samples, 2);
    let none = evaluate_samples(&Vec::new(), &|_| true);
    assert_eq!(none.checked_samples, 0);
    assert!(!none.visible);
}

#[test]
fn observing_targets_sorts_remembers_and_reports_changes() {
    let mut state = SpatialFovState::default();
    let changed = state.observe(&vec![e(7), e(2), e(7)], true, false);
    assert!(changed);
    assert_eq!(state.visible_now, vec![e(2), e(7)]);
    assert_eq!(state.remembered, vec![e(2), e(7)]);
    assert_eq!(state.entered, vec![e(2), e(7)]);
    assert!(state.exited.is_empty());
    assert!(state.contains(e(7)));

    let changed = state.observe(&vec![e(3)], true, false);
    assert!(changed);
    assert_eq!(state.visible_now, vec![e(3)]);
    assert_eq!(state.remembered, vec![e(2), e(3), e(7)]);
    assert_eq!(state.entered, vec![e(3)]);
    assert_eq!(state.exited, vec![e(2), e(7)]);
}

#[test]
fn unchanged_observation_clears_changes_unless_records_changed() {
    let mut state = SpatialFovState::default();
    state.observe(&vec![e(1)], false, false);
    assert!(!state.observe(&vec![e(1)], false, false));
    assert!(state.entered.is_empty());
    assert!(state.exited.is_empty());
    assert!(state.observe(&vec![e(1)], false, true));
    assert!(state.entered.is_empty());
    assert!(state.exited.is_empty());
}

#[test]
fn forgetful_viewer_remembers_only_what_it_sees() {
    let mut state = SpatialFovState::default();
    state.observe(&vec![e(1), e(4)], false, false);
    state.observe(&vec![e(4)], false, false);
    assert_eq!(state.remembered, vec![e(4)]);
    assert_eq!(state.exited, vec![e(1)]);
}

#[test]
fn spatial_deactivation_forgets_everything() {
    let mut state = SpatialFovState::default();
    state.observe(&vec![e(1), e(4)], true, false);
    state.deactivate();
    assert!(state.visible_now.is_empty());
    assert!(state.remembered.is_empty());
    assert!(state.entered.is_empty());
    assert_eq!(state.exited, vec![e(1), e(4)]);
}

#[test]
fn merged_targets_are_ordered_by_index_then_generation() {
    let mut a = SpatialFovState::default();
    let mut b = SpatialFovState::default();
    a.publish(vec![EntityKey::new(4, 1), e(2)], Vec::new(), false);
    b.publish(vec![e(2), EntityKey::new(4, 0), e(9)], Vec::new(), false);
    let merged = merge_spatial_visibility(&[&a, &b]);
    assert_eq!(
        merged,
        vec![e(2), EntityKey::new(4, 0), EntityKey::new(4, 1), e(9)]
    );
}

#[test]
fn targets_sharing_an_index_keep_the_order_they_were_seen_in() {
    let mut state = SpatialFovState::default();
    state.observe(
        &vec![EntityKey::new(4, 1), e(2), EntityKey::new(4, 0), e(2)],
        true,
        false,
    );
    assert_eq!(
        state.visible_now,
        vec![e(2), EntityKey::new(4, 1), EntityKey::new(4, 0)]
    );
    assert_eq!(state.entered, state.visible_now);
}
