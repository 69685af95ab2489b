//! Per-viewer grid components: the viewer settings and the published
//! visibility state, with the rules that update it.

use vstd::prelude::*;

use crate::geometry::{strictly_sorted, IVec2};
use crate::grid::GridFovConfig;
use crate::keys::lemma_ascending_cells;
use crate::lists::{
    arrivals, arrivals_of, copy_keys, in_some, keys_contain, keys_equal, lemma_sorted_union,
    lemma_sorted_union_absorbs,
    merge_lists, sorted_union, union_sorted,
};

verus! {

/// A grid viewer: its field-of-view settings, whether it keeps a record of
/// every cell it has seen, and whether it is active.
#[derive(Clone, Copy, Debug, PartialEq, Eq, Structural)]
pub struct GridFov {
    pub config: GridFovConfig,
    pub remember_seen_cells: bool,
    pub enabled: bool,
}

impl GridFov {
    /// An enabled viewer with the default settings and the given radius.
    pub fn new(radius: i32) -> (r: Self)
        ensures
            r.config.radius == radius,
            r.config.backend == GridFovConfig::default_backend(),
            r.config.corner_policy == GridFovConfig::default_corner_policy(),
            r.config.reveal_blockers,
            r.remember_seen_cells,
            r.enabled,
    {
        let defaults = GridFovConfig::default();
        GridFov {
            config: GridFovConfig { radius, ..defaults },
            remember_seen_cells: true,
            enabled: true,
        }
    }

    pub fn with_config(self, config: GridFovConfig) -> (r: Self)
        ensures
            r == (GridFov { config, ..self }),
    {
        GridFov { config, ..self }
    }
}

impl Default for GridFov {
    fn default() -> (r: Self)
        ensures
            r.config.radius == 8,
            r.config.backend == GridFovConfig::default_backend(),
            r.config.corner_policy == GridFovConfig::default_corner_policy(),
            r.config.reveal_blockers,
            r.remember_seen_cells,
            r.enabled,
    {
        Self::new(8)
    }
}

/// What a grid viewer sees: the cells visible now, every cell seen so far,
/// and the cells that entered and left view at the last published change.
#[derive(Clone, Debug, PartialEq, Eq)]
pub struct GridFovState {
    pub visible_now: Vec<IVec2>,
    pub explored: Vec<IVec2>,
    pub entered: Vec<IVec2>,
    pub exited: Vec<IVec2>,
}

impl Default for GridFovState {
    fn default() -> (r: Self)
        ensures
            r.visible_now@.len() == 0,
            r.explored@.len() == 0,
            r.entered@.len() == 0,
            r.exited@.len() == 0,
    {
        GridFovState {
            visible_now: Vec::new(),
            explored: Vec::new(),
            entered: Vec::new(),
            exited: Vec::new(),
        }
    }
}

/// The record of seen cells after publishing `new_visible`: without memory
/// just the visible cells; with memory every cell seen before or now, once
/// each, in row-major order.
pub open spec fn explored_after(
    old_explored: Seq<IVec2>,
    new_visible: Seq<IVec2>,
    remember_seen: bool,
) -> Seq<IVec2> {
    if remember_seen {
        sorted_union(old_explored, new_visible)
    } else {
        new_visible
    }
}

/// With memory on, the record of seen cells is the union of what was seen
/// before and what is visible now, strictly sorted.
pub proof fn lemma_explored_is_union(old_explored: Seq<IVec2>, new_visible: Seq<IVec2>)
    ensures
        strictly_sorted(explored_after(old_explored, new_visible, true)),
        explored_after(old_explored, new_visible, true).to_set() == old_explored.to_set()
            + new_visible.to_set(),
{
    lemma_sorted_union(old_explored, new_visible);
    lemma_ascending_cells(sorted_union(old_explored, new_visible));
}

/// Whether publishing `visible` changes the visible cells or the record of
/// seen cells.
pub open spec fn grid_view_changed(old: GridFovState, visible: Seq<IVec2>, remember: bool) -> bool {
    old.visible_now@ != visible || old.explored@ != explored_after(
        old.explored@,
        visible,
        remember,
    )
}

/// `new` is `old` after publishing `visible`: the visible cells and the
/// record of seen cells are updated; on a change, entered and exited hold
/// the cells that came into and went out of view, and otherwise both are
/// empty.
pub open spec fn published(
    old: GridFovState,
    visible: Seq<IVec2>,
    remember: bool,
    new: GridFovState,
) -> bool {
    &&& new.visible_now@ == visible
    &&& new.explored@ == explored_after(old.explored@, visible, remember)
    &&& grid_view_changed(old, visible, remember) ==> {
        &&& new.entered@ == arrivals(old.visible_now@, visible)
        &&& new.exited@ == arrivals(visible, old.visible_now@)
    }
    &&& !grid_view_changed(old, visible, remember) ==> {
        &&& new.entered@.len() == 0
        &&& new.exited@.len() == 0
    }
}

/// Publishing the view just published again reports no change.
pub proof fn lemma_republish_is_quiet(
    old: GridFovState,
    visible: Seq<IVec2>,
    remember: bool,
    new: GridFovState,
)
    requires
        published(old, visible, remember, new),
    ensures
        !grid_view_changed(new, visible, remember),
{
    if remember {
        lemma_sorted_union_absorbs(old.explored@, visible);
    }
}

impl GridFovState {
    pub fn contains(&self, cell: IVec2) -> (r: bool)
        ensures
            r == self.visible_now@.contains(cell),
    {
        keys_contain(&self.visible_now, cell)
    }

    /// Publishes `visible_now` as the current view and updates the record
    /// of seen cells.  When neither the visible cells nor that record
    /// change, the entered and exited lists are cleared; otherwise they are
    /// replaced by the cells that came into and went out of view.  Returns
    /// whether anything changed.
    pub fn publish(&mut self, visible_now: Vec<IVec2>, remember_seen: bool) -> (changed: bool)
        ensures
            published(*old(self), visible_now@, remember_seen, *final(self)),
            changed == grid_view_changed(*old(self), visible_now@, remember_seen),
    {
        let entered = arrivals_of(&self.visible_now, &visible_now);
        let exited = arrivals_of(&visible_now, &self.visible_now);

        let explored = if remember_seen {
            union_sorted(&self.explored, &visible_now)
        } else {
            copy_keys(&visible_now)
        };

        let changed = !keys_equal(&self.visible_now, &visible_now) || !keys_equal(
            &self.explored,
            &explored,
        );
        if !changed {
            self.entered = Vec::new();
            self.exited = Vec::new();
            return false;
        }

        self.visible_now = visible_now;
        self.explored = explored;
        self.entered = entered;
        self.exited = exited;
        true
    }

    /// Takes the viewer out of service: everything visible is reported as
    /// exited, and nothing is visible or entered any more.  The record of
    /// seen cells is kept.
    pub fn deactivate(&mut self)
        ensures
            final(self).visible_now@.len() == 0,
            final(self).entered@.len() == 0,
            final(self).exited@ == old(self).visible_now@,
            final(self).explored@ == old(self).explored@,
    {
        self.entered = Vec::new();
        self.exited = copy_keys(&self.visible_now);
        self.visible_now = Vec::new();
    }
}

/// The cells any of `states` sees now.
pub open spec fn visible_union(states: Seq<&GridFovState>) -> Set<IVec2> {
    Set::new(
        |c: IVec2| exists|i: int| 0 <= i < states.len() && #[trigger] states[i].visible_now@.contains(c),
    )
}

/// Every cell any of the viewers sees now, once each, in row-major order.
pub fn merge_grid_visibility(states: &[&GridFovState]) -> (r: Vec<IVec2>)
    ensures
        strictly_sorted(r@),
        r@.to_set() == visible_union(states@),
{
    let mut lists: Vec<&Vec<IVec2>> = Vec::new();
    let n = states.len();
    let mut i: usize = 0;
    while i < n
        invariant
            n == states@.len(),
            i <= n,
            lists@.len() == i,
            forall|k: int| 0 <= k < i ==> #[trigger] lists@[k]@ == states@[k].visible_now@,
        decreases n - i,
    {
        lists.push(&states[i].visible_now);
        i += 1;
    }
    let merged = merge_lists(lists.as_slice());
    proof {
        lemma_ascending_cells(merged@);
        assert forall|c: IVec2| #[trigger] merged@.to_set().contains(c) <==> visible_union(
            states@,
        ).contains(c) by {
            if in_some(lists@, c) {
                let k = choose|k: int| 0 <= k < lists@.len() && #[trigger] lists@[k]@.contains(c);
                assert(states@[k].visible_now@.contains(c));
            }
            if visible_union(states@).contains(c) {
                let k = choose|k: int|
                    0 <= k < states@.len() && #[trigger] states@[k].visible_now@.contains(c);
                assert(lists@[k]@.contains(c));
            }
        }
        assert(merged@.to_set() =~= visible_union(states@));
    }
    merged
}

} // verus!
