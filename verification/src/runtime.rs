//! The per-update decisions of the perception runtime: which viewers need
//! work, which of them get it this update, and how a grid viewer's state is
//! refreshed.  The host engine gathers the inputs and applies the results.

use vstd::prelude::*;

use crate::algorithms::opacity::OpacitySource;
use crate::algorithms::shadowcasting::{fov_cells, fov_ready, grid_fov};
use crate::geometry::{strictly_sorted, IVec2};
use crate::grid::GridOpacityMap;
use crate::keys::{strictly_ascending, EntityKey};
use crate::lists::{ascending_distinct, concat_keys, lemma_ascending_no_duplicates};
use crate::index_order::{lemma_sort_by_index, sort_by_index, sort_entities_by_index};
use crate::state::{published, GridFov, GridFovState};

verus! {

/// Runtime limits: how many dirty viewers are recomputed per update.
#[derive(Clone, Copy, Debug, PartialEq, Eq, Structural)]
pub struct FovRuntimeConfig {
    pub max_viewers_per_frame: usize,
}

impl Default for FovRuntimeConfig {
    /// No limit.
    fn default() -> (r: Self)
        ensures
            r.max_viewers_per_frame == usize::MAX,
    {
        FovRuntimeConfig { max_viewers_per_frame: usize::MAX }
    }
}

/// Counters of the last update.
#[derive(Clone, Copy, Debug, PartialEq, Eq, Structural)]
pub struct FovStats {
    pub dirty_viewers: usize,
    pub recomputed_viewers: usize,
    pub visible_cells_total: usize,
    pub visible_targets_total: usize,
    pub target_checks: usize,
    pub occlusion_tests: usize,
    pub last_recompute_micros: u64,
}

/// All counters at zero.
pub open spec fn zero_stats() -> FovStats {
    FovStats {
        dirty_viewers: 0,
        recomputed_viewers: 0,
        visible_cells_total: 0,
        visible_targets_total: 0,
        target_checks: 0,
        occlusion_tests: 0,
        last_recompute_micros: 0,
    }
}

impl Default for FovStats {
    fn default() -> (r: Self)
        ensures
            r == zero_stats(),
    {
        FovStats {
            dirty_viewers: 0,
            recomputed_viewers: 0,
            visible_cells_total: 0,
            visible_targets_total: 0,
            target_checks: 0,
            occlusion_tests: 0,
            last_recompute_micros: 0,
        }
    }
}

impl FovStats {
    /// Clears every counter, as each update begins.
    pub fn reset(&mut self)
        ensures
            *final(self) == zero_stats(),
    {
        *self = FovStats::default();
    }
}

/// What the debug overlay draws.
#[derive(Clone, Copy, Debug, PartialEq, Eq, Structural)]
pub struct FovDebugSettings {
    pub enabled: bool,
    pub draw_grid_cells: bool,
    pub draw_view_shapes: bool,
    pub draw_filled_shapes: bool,
    pub draw_occlusion_rays: bool,
    pub draw_blocked_rays: bool,
    pub draw_occluder_shapes: bool,
    pub max_grid_cells_per_viewer: usize,
}

impl Default for FovDebugSettings {
    /// Off; when switched on, everything but blocked rays is drawn, with at
    /// most 96 cells per grid viewer.
    fn default() -> (r: Self)
        ensures
            !r.enabled,
            r.draw_grid_cells,
            r.draw_view_shapes,
            r.draw_filled_shapes,
            r.draw_occlusion_rays,
            !r.draw_blocked_rays,
            r.draw_occluder_shapes,
            r.max_grid_cells_per_viewer == 96,
    {
        FovDebugSettings {
            enabled: false,
            draw_grid_cells: true,
            draw_view_shapes: true,
            draw_filled_shapes: true,
            draw_occlusion_rays: true,
            draw_blocked_rays: false,
            draw_occluder_shapes: true,
            max_grid_cells_per_viewer: 96,
        }
    }
}

/// The viewers to recompute this update: the dirty viewers sorted by index
/// (equal indices in their given order), at most `max_viewers` of them.
pub open spec fn budgeted(dirty: Seq<EntityKey>, max_viewers: usize) -> Seq<EntityKey> {
    let sorted = sort_by_index(dirty);
    if max_viewers < sorted.len() {
        sorted.take(max_viewers as int)
    } else {
        sorted
    }
}

/// The dirty viewers to recompute this update, lowest index first, at most
/// `max_viewers_per_frame` of them; the rest wait for a later update.
pub fn viewers_to_recompute(dirty: &Vec<EntityKey>, max_viewers_per_frame: usize) -> (r: Vec<
    EntityKey,
>)
    ensures
        r@ == budgeted(dirty@, max_viewers_per_frame),
{
    let sorted = sort_entities_by_index(dirty);
    proof {
        lemma_sort_by_index(dirty@);
    }
    if max_viewers_per_frame >= sorted.len() {
        return sorted;
    }
    let mut out: Vec<EntityKey> = Vec::new();
    let mut i: usize = 0;
    while i < max_viewers_per_frame
        invariant
            max_viewers_per_frame < sorted@.len(),
            i <= max_viewers_per_frame,
            out@ == sorted@.take(i as int),
        decreases max_viewers_per_frame - i,
    {
        out.push(sorted[i]);
        i += 1;
        proof {
            assert(out@ =~= sorted@.take(i as int));
        }
    }
    out
}

/// A budget serves the lowest dirty viewers first: it picks
/// `min(budget, dirty)` of them, each one dirty, and any dirty viewer left
/// waiting comes after every viewer picked.
pub proof fn lemma_budget_picks_lowest(dirty: Seq<EntityKey>, max_viewers: usize)
    ensures
        ({
            let b = budgeted(dirty, max_viewers);
            &&& b.len() == if max_viewers < dirty.len() {
                max_viewers as int
            } else {
                dirty.len() as int
            }
            &&& forall|i: int| 0 <= i < b.len() ==> dirty.contains(#[trigger] b[i])
            &&& forall|i: int, j: int|
                0 <= i < b.len() <= j < dirty.len() ==> (#[trigger] b[i]).index
                    <= (#[trigger] sort_by_index(dirty)[j]).index
        }),
{
    broadcast use vstd::seq_lib::group_to_multiset_ensures;

    lemma_sort_by_index(dirty);
    let sorted = sort_by_index(dirty);
    assert(sorted.len() == sorted.to_multiset().len());
    let b = budgeted(dirty, max_viewers);
    assert forall|i: int| 0 <= i < b.len() implies dirty.contains(#[trigger] b[i]) by {
        assert(b[i] == sorted[i]);
        assert(sorted.to_multiset().count(sorted[i]) > 0);
    }
    assert forall|i: int, j: int|
        0 <= i < b.len() <= j < dirty.len() implies (#[trigger] b[i]).index <= (
        #[trigger] sorted[j]).index by {
        assert(b[i] == sorted[i]);
    }
}

/// The viewers an update marks dirty, and how many viewers are dirty in all.
#[derive(Clone, Debug, PartialEq, Eq)]
pub struct DirtyMarking {
    pub marked: Vec<EntityKey>,
    pub dirty_count: usize,
}

/// Decides which viewers need recomputing.  A change that concerns every
/// viewer (the opacity map, a target or an occluder changed or went away)
/// marks them all; otherwise only the viewers that changed themselves are
/// marked.  Viewers that accumulate stimulus over time are marked every
/// update.  The count covers these and the viewers already dirty, each once.
pub fn mark_dirty_viewers(
    already_dirty: &Vec<EntityKey>,
    global_change: bool,
    all_viewers: &Vec<EntityKey>,
    changed_viewers: &Vec<EntityKey>,
    stimulus_viewers: &Vec<EntityKey>,
) -> (r: DirtyMarking)
    ensures
        strictly_ascending(r.marked@),
        r.marked@.to_set() == (if global_change {
            all_viewers@.to_set()
        } else {
            changed_viewers@.to_set()
        }) + stimulus_viewers@.to_set(),
        r.dirty_count == (already_dirty@.to_set() + r.marked@.to_set()).len(),
{
    let base = if global_change {
        all_viewers
    } else {
        changed_viewers
    };
    let marked = ascending_distinct(&concat_keys(base, stimulus_viewers));
    let pending = ascending_distinct(&concat_keys(already_dirty, &marked));
    proof {
        lemma_concat_set(base@, stimulus_viewers@);
        lemma_concat_set(already_dirty@, marked@);
        lemma_ascending_no_duplicates(pending@);
    }
    DirtyMarking { marked, dirty_count: pending.len() }
}

proof fn lemma_concat_set(a: Seq<EntityKey>, b: Seq<EntityKey>)
    ensures
        (a + b).to_set() == a.to_set() + b.to_set(),
{
    assert forall|c: EntityKey| (a + b).contains(c) <==> (a.contains(c) || b.contains(c)) by {
        if (a + b).contains(c) {
            let i = choose|i: int| 0 <= i < (a + b).len() && (a + b)[i] == c;
            if i < a.len() {
                assert(a[i] == c);
            } else {
                assert(b[i - a.len()] == c);
            }
        }
        if a.contains(c) {
            let i = choose|i: int| 0 <= i < a.len() && a[i] == c;
            assert((a + b)[i] == c);
        }
        if b.contains(c) {
            let i = choose|i: int| 0 <= i < b.len() && b[i] == c;
            assert((a + b)[a.len() + i] == c);
        }
    }
    assert((a + b).to_set() =~= a.to_set() + b.to_set());
}

/// Refreshes a grid viewer's state.  With an opacity map, an enabled viewer
/// and an origin cell, the field of view is computed on the map and
/// published, and its size is added to the visible-cell total (saturating);
/// otherwise an empty view is published and the counters are untouched.
pub fn update_grid_viewer(
    state: &mut GridFovState,
    viewer: &GridFov,
    grid_map: Option<&GridOpacityMap>,
    origin: Option<IVec2>,
    stats: &mut FovStats,
)
    requires
        grid_map is Some && origin is Some && viewer.enabled ==> fov_ready(
            grid_map->0.grid(),
            origin->0,
            viewer.config,
        ),
    ensures
        grid_map is Some && origin is Some && viewer.enabled ==> {
            &&& strictly_sorted(final(state).visible_now@)
            &&& final(state).visible_now@.to_set() == fov_cells(
                grid_map->0.grid(),
                origin->0,
                viewer.config,
                grid_map->0.opacity(),
            )
            &&& published(
                *old(state),
                final(state).visible_now@,
                viewer.remember_seen_cells,
                *final(state),
            )
            &&& *final(stats) == (FovStats {
                visible_cells_total: old(stats).visible_cells_total.saturating_add(
                    final(state).visible_now@.len() as usize,
                ),
                ..*old(stats)
            })
        },
        !(grid_map is Some && origin is Some && viewer.enabled) ==> {
            &&& published(*old(state), Seq::empty(), viewer.remember_seen_cells, *final(state))
            &&& *final(stats) == *old(stats)
        },
{
    match grid_map {
        Some(map) => {
            if !viewer.enabled {
                state.publish(Vec::new(), viewer.remember_seen_cells);
                return;
            }
            match origin {
                Some(o) => {
                    let result = grid_fov(map.grid_spec(), o, &viewer.config, map);
                    let count = result.visible_cells.len();
                    stats.visible_cells_total = stats.visible_cells_total.saturating_add(count);
                    state.publish(result.visible_cells, viewer.remember_seen_cells);
                },
                None => {
                    state.publish(Vec::new(), viewer.remember_seen_cells);
                },
            }
        },
        None => {
            state.publish(Vec::new(), viewer.remember_seen_cells);
        },
    }
}

} // verus!
