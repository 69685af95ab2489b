//! Target perception for spatial viewers: scanning a target's sample points
//! for one the viewer can see, and the published set of visible and
//! remembered targets.

use vstd::prelude::*;

use crate::keys::{strictly_ascending, EntityKey};
use crate::index_order::{
    index_sorted, lemma_index_sort_is_entity_sort, lemma_sort_by_index, sort_by_index,
    sort_entities_by_index,
};
use crate::lists::{
    concat_keys, copy_keys, in_some, keys_contain, keys_equal, keys_not_in, lemma_sorted_union,
    lemma_sorted_union_absorbs, merge_lists, sorted_union,
};
use crate::sorting::{dedup_adjacent, dedup_keys};

verus! {

/// Where one sample point of a target lies for a viewer: within the
/// viewer's range, and within its shape (cone, rectangle or near zone).
#[derive(Clone, Copy, Debug, PartialEq, Eq, Structural)]
pub struct SamplePlacement {
    pub in_range: bool,
    pub inside_shape: bool,
}

impl SamplePlacement {
    pub fn new(in_range: bool, inside_shape: bool) -> (r: Self)
        ensures
            r.in_range == in_range,
            r.inside_shape == inside_shape,
    {
        SamplePlacement { in_range, inside_shape }
    }
}

/// The outcome of testing a target's samples: whether any was in range,
/// inside the shape, occluded, or visible; which sample was seen; how many
/// samples were examined and how many sight lines were tested.
#[derive(Clone, Copy, Debug, PartialEq, Eq)]
pub struct VisibilityTestResult {
    pub in_range: bool,
    pub inside_shape: bool,
    pub occluded: bool,
    pub visible: bool,
    pub visible_sample_index: Option<usize>,
    pub checked_samples: usize,
    pub rays_cast: usize,
}

impl Default for VisibilityTestResult {
    fn default() -> (r: Self)
        ensures
            r == no_samples_tested(),
    {
        VisibilityTestResult {
            in_range: false,
            inside_shape: false,
            occluded: false,
            visible: false,
            visible_sample_index: None,
            checked_samples: 0,
            rays_cast: 0,
        }
    }
}

/// The result before any sample is examined.
pub open spec fn no_samples_tested() -> VisibilityTestResult {
    VisibilityTestResult {
        in_range: false,
        inside_shape: false,
        occluded: false,
        visible: false,
        visible_sample_index: None,
        checked_samples: 0,
        rays_cast: 0,
    }
}

/// `r` after examining sample `i`, placed at `p`, whose sight line is
/// `blocked` when tested.  A sample out of range or outside the shape gets
/// no sight line.
pub open spec fn examine(
    r: VisibilityTestResult,
    p: SamplePlacement,
    i: int,
    blocked: bool,
) -> VisibilityTestResult {
    let checked = (r.checked_samples + 1) as usize;
    if !p.in_range {
        VisibilityTestResult { checked_samples: checked, ..r }
    } else if !p.inside_shape {
        VisibilityTestResult { checked_samples: checked, in_range: true, ..r }
    } else if blocked {
        VisibilityTestResult {
            checked_samples: checked,
            in_range: true,
            inside_shape: true,
            occluded: true,
            rays_cast: (r.rays_cast + 1) as usize,
            ..r
        }
    } else {
        VisibilityTestResult {
            checked_samples: checked,
            in_range: true,
            inside_shape: true,
            visible: true,
            visible_sample_index: Some(i as usize),
            rays_cast: (r.rays_cast + 1) as usize,
            ..r
        }
    }
}

/// The result of examining the first `k` samples in order, stopping at the
/// first visible one.
pub open spec fn scan_samples(
    ps: Seq<SamplePlacement>,
    blocked: spec_fn(usize) -> bool,
    k: nat,
) -> VisibilityTestResult
    decreases k,
{
    if k == 0 {
        no_samples_tested()
    } else {
        let r = scan_samples(ps, blocked, (k - 1) as nat);
        if r.visible {
            r
        } else {
            examine(r, ps[k - 1], k - 1, blocked((k - 1) as usize))
        }
    }
}

/// A sample the viewer sees: in range, inside the shape, not blocked.
pub open spec fn sample_clear(
    ps: Seq<SamplePlacement>,
    blocked: spec_fn(usize) -> bool,
    i: int,
) -> bool {
    ps[i].in_range && ps[i].inside_shape && !blocked(i as usize)
}

/// What the occlusion test `f` answers for each sample index.
pub open spec fn blocking_of<F: Fn(usize) -> bool>(f: F) -> spec_fn(usize) -> bool {
    |i: usize| choose|b: bool| call_ensures(f, (i,), b)
}

/// `f` may be asked about any sample and always gives the same answer for
/// the same sample.
pub open spec fn is_occlusion_test<F: Fn(usize) -> bool>(f: F) -> bool {
    &&& forall|i: usize| call_requires(f, (i,))
    &&& forall|i: usize, a: bool, b: bool|
        #![trigger call_ensures(f, (i,), a), call_ensures(f, (i,), b)]
        call_ensures(f, (i,), a) && call_ensures(f, (i,), b) ==> a == b
}

/// The counters never exceed the samples examined, and a visible result
/// names the first clear sample.
pub proof fn lemma_scan_facts(ps: Seq<SamplePlacement>, blocked: spec_fn(usize) -> bool, k: nat)
    requires
        k <= ps.len() <= usize::MAX,
    ensures
        ({
            let r = scan_samples(ps, blocked, k);
            &&& r.rays_cast <= r.checked_samples <= k
            &&& r.visible <==> exists|i: int| 0 <= i < k && sample_clear(ps, blocked, i)
            &&& r.visible ==> {
                &&& r.visible_sample_index matches Some(i) && {
                    &&& sample_clear(ps, blocked, i as int)
                    &&& forall|j: int| 0 <= j < i ==> !sample_clear(ps, blocked, j)
                    &&& r.checked_samples == i + 1
                }
            }
            &&& !r.visible ==> r.visible_sample_index is None && r.checked_samples == k
            &&& r.occluded ==> r.rays_cast > 0
        }),
    decreases k,
{
    if k > 0 {
        lemma_scan_facts(ps, blocked, (k - 1) as nat);
        let r = scan_samples(ps, blocked, (k - 1) as nat);
        if !r.visible && sample_clear(ps, blocked, k - 1) {
            assert forall|j: int| 0 <= j < k - 1 implies !sample_clear(ps, blocked, j) by {}
        }
    }
}

/// How many of the first `k` samples lie in range and inside the shape.
pub open spec fn sighted_count(ps: Seq<SamplePlacement>, k: int) -> nat
    decreases k,
{
    if k <= 0 {
        0
    } else {
        sighted_count(ps, k - 1) + if ps[k - 1].in_range && ps[k - 1].inside_shape {
            1nat
        } else {
            0nat
        }
    }
}

/// The flags and the ray count summarise the examined samples: the result
/// is in range when some examined sample is, inside the shape when some
/// examined sample is in range and inside it, occluded when some such
/// sample's sight line is blocked, and one sight line is tested for each
/// examined sample in range and inside the shape.
pub proof fn lemma_scan_flags(ps: Seq<SamplePlacement>, blocked: spec_fn(usize) -> bool, k: nat)
    requires
        k <= ps.len() <= usize::MAX,
    ensures
        ({
            let r = scan_samples(ps, blocked, k);
            let m = r.checked_samples as int;
            &&& r.in_range == exists|i: int| 0 <= i < m && #[trigger] ps[i].in_range
            &&& r.inside_shape == exists|i: int|
                0 <= i < m && #[trigger] ps[i].in_range && ps[i].inside_shape
            &&& r.occluded == exists|i: int|
                0 <= i < m && #[trigger] ps[i].in_range && ps[i].inside_shape && blocked(
                    i as usize,
                )
            &&& r.rays_cast == sighted_count(ps, m)
        }),
    decreases k,
{
    lemma_scan_facts(ps, blocked, k);
    if k > 0 {
        lemma_scan_flags(ps, blocked, (k - 1) as nat);
        lemma_scan_facts(ps, blocked, (k - 1) as nat);
        let r0 = scan_samples(ps, blocked, (k - 1) as nat);
        if !r0.visible {
            let j = k - 1;
            assert(r0.checked_samples == j);
            let r = scan_samples(ps, blocked, k);
            assert(r.checked_samples == k);
            assert(r.in_range == exists|i: int| 0 <= i < k && #[trigger] ps[i].in_range) by {
                if exists|i: int| 0 <= i < k && #[trigger] ps[i].in_range {
                    let i = choose|i: int| 0 <= i < k && #[trigger] ps[i].in_range;
                    if i < j {
                        assert(r0.in_range);
                    }
                }
            }
            assert(r.inside_shape == exists|i: int|
                0 <= i < k && #[trigger] ps[i].in_range && ps[i].inside_shape) by {
                if exists|i: int| 0 <= i < k && #[trigger] ps[i].in_range && ps[i].inside_shape {
                    let i = choose|i: int|
                        0 <= i < k && #[trigger] ps[i].in_range && ps[i].inside_shape;
                    if i < j {
                        assert(r0.inside_shape);
                    }
                }
            }
            assert(r.occluded == exists|i: int|
                0 <= i < k && #[trigger] ps[i].in_range && ps[i].inside_shape && blocked(
                    i as usize,
                )) by {
                if exists|i: int|
                    0 <= i < k && #[trigger] ps[i].in_range && ps[i].inside_shape && blocked(
                        i as usize,
                    ) {
                    let i = choose|i: int|
                        0 <= i < k && #[trigger] ps[i].in_range && ps[i].inside_shape && blocked(
                            i as usize,
                        );
                    if i < j {
                        assert(r0.occluded);
                    }
                }
            }
        }
    }
}

/// Examines the samples in order, asking `occluded` about each one that is
/// in range and inside the shape, and stops at the first that is not
/// occluded.
pub fn evaluate_samples<F: Fn(usize) -> bool>(
    placements: &Vec<SamplePlacement>,
    occluded: &F,
) -> (r: VisibilityTestResult)
    requires
        is_occlusion_test(*occluded),
    ensures
        r == scan_samples(placements@, blocking_of(*occluded), placements@.len()),
        r.in_range == exists|i: int|
            0 <= i < r.checked_samples && #[trigger] placements@[i].in_range,
        r.inside_shape == exists|i: int|
            0 <= i < r.checked_samples && #[trigger] placements@[i].in_range
                && placements@[i].inside_shape,
        r.occluded == exists|i: int|
            0 <= i < r.checked_samples && #[trigger] placements@[i].in_range
                && placements@[i].inside_shape && blocking_of(*occluded)(i as usize),
        r.rays_cast == sighted_count(placements@, r.checked_samples as int),
        r.visible <==> exists|i: int|
            0 <= i < placements@.len() && sample_clear(placements@, blocking_of(*occluded), i),
        !r.visible ==> r.checked_samples == placements@.len() && r.visible_sample_index is None,
        r.visible ==> (r.visible_sample_index matches Some(i) && {
            &&& sample_clear(placements@, blocking_of(*occluded), i as int)
            &&& forall|j: int| 0 <= j < i ==> !sample_clear(placements@, blocking_of(*occluded), j)
            &&& r.checked_samples == i + 1
        }),
{
    let ghost blocked = blocking_of(*occluded);
    let mut result = VisibilityTestResult::default();
    let n = placements.len();
    proof {
        lemma_scan_facts(placements@, blocked, n as nat);
        lemma_scan_flags(placements@, blocked, n as nat);
    }
    let mut i: usize = 0;
    while i < n
        invariant_except_break
            n == placements@.len(),
            i <= n,
            is_occlusion_test(*occluded),
            blocked == blocking_of(*occluded),
            result == scan_samples(placements@, blocked, i as nat),
            !result.visible,
        ensures
            result == scan_samples(placements@, blocked, n as nat),
        decreases n - i,
    {
        proof {
            lemma_scan_facts(placements@, blocked, i as nat);
        }
        let p = placements[i];
        result.checked_samples = result.checked_samples + 1;
        if p.in_range {
            result.in_range = true;
            if p.inside_shape {
                result.inside_shape = true;
                result.rays_cast = result.rays_cast + 1;
                let b = occluded(i);
                proof {
                    let c = choose|c: bool| call_ensures(*occluded, (i,), c);
                    assert(call_ensures(*occluded, (i,), c));
                    assert(blocked(i) == c);
                    assert(b == blocked(i));
                }
                if b {
                    result.occluded = true;
                } else {
                    result.visible = true;
                    result.visible_sample_index = Some(i);
                    proof {
                        assert(result == scan_samples(placements@, blocked, (i + 1) as nat));
                        lemma_scan_visible_stays(placements@, blocked, (i + 1) as nat, n as nat);
                    }
                    break;
                }
            }
        }
        i += 1;
    }
    result
}

/// Once a scan is visible, examining more samples changes nothing.
proof fn lemma_scan_visible_stays(
    ps: Seq<SamplePlacement>,
    blocked: spec_fn(usize) -> bool,
    k: nat,
    m: nat,
)
    requires
        k <= m,
        scan_samples(ps, blocked, k).visible,
    ensures
        scan_samples(ps, blocked, m) == scan_samples(ps, blocked, k),
    decreases m - k,
{
    if k < m {
        lemma_scan_visible_stays(ps, blocked, k, (m - 1) as nat);
    }
}

/// What a spatial viewer perceives: the targets visible now, the targets
/// it remembers, and the targets that entered and left view at the last
/// published change.
#[derive(Clone, Debug, PartialEq, Eq)]
pub struct SpatialFovState {
    pub visible_now: Vec<EntityKey>,
    pub remembered: Vec<EntityKey>,
    pub entered: Vec<EntityKey>,
    pub exited: Vec<EntityKey>,
}

impl Default for SpatialFovState {
    fn default() -> (r: Self)
        ensures
            r.visible_now@.len() == 0,
            r.remembered@.len() == 0,
            r.entered@.len() == 0,
            r.exited@.len() == 0,
    {
        SpatialFovState {
            visible_now: Vec::new(),
            remembered: Vec::new(),
            entered: Vec::new(),
            exited: Vec::new(),
        }
    }
}

/// The targets of `seen` in index order, entries with equal indices in the
/// order seen, with repeated neighbours collapsed.
pub open spec fn settled(seen: Seq<EntityKey>) -> Seq<EntityKey> {
    dedup_adjacent(sort_by_index(seen))
}

/// The remembered targets after `visible` is seen: with memory, the
/// remembered targets followed by the visible ones, sorted by index with
/// repeated neighbours collapsed; without memory, just what is visible.
pub open spec fn remembered_after(
    old_remembered: Seq<EntityKey>,
    visible: Seq<EntityKey>,
    remember: bool,
) -> Seq<EntityKey> {
    if remember {
        dedup_adjacent(sort_by_index(old_remembered + visible))
    } else {
        visible
    }
}

/// The targets of `new_targets` absent from `old_targets`, sorted by index,
/// entries with equal indices in their order in `new_targets`.
pub open spec fn target_arrivals(
    old_targets: Seq<EntityKey>,
    new_targets: Seq<EntityKey>,
) -> Seq<EntityKey> {
    sort_by_index(new_targets.filter(|e: EntityKey| !old_targets.contains(e)))
}

/// No two distinct entities of `s` share an index, as holds of entities
/// alive at the same time.
pub open spec fn indices_identify(s: Seq<EntityKey>) -> bool {
    forall|a: EntityKey, b: EntityKey|
        s.contains(a) && s.contains(b) && a.index == b.index ==> a == b
}

proof fn lemma_identify_subset(s: Seq<EntityKey>, u: Seq<EntityKey>)
    requires
        indices_identify(u),
        forall|c: EntityKey| s.contains(c) ==> u.contains(c),
    ensures
        indices_identify(s),
{
    assert forall|a: EntityKey, b: EntityKey|
        s.contains(a) && s.contains(b) && a.index == b.index implies a == b by {
        assert(u.contains(a) && u.contains(b));
    }
}

proof fn lemma_settled_union(a: Seq<EntityKey>, b: Seq<EntityKey>)
    requires
        indices_identify(a + b),
    ensures
        dedup_adjacent(sort_by_index(a + b)) == sorted_union(a, b),
        sorted_union(a, b).to_set() == a.to_set() + b.to_set(),
{
    lemma_index_sort_is_entity_sort(a + b);
    lemma_sorted_union(a, b);
}

/// Observing the same targets again, with the same memory setting, leaves
/// the remembered targets as they are, provided no two distinct entities
/// involved share an index.
pub proof fn lemma_reobserve_is_quiet(
    old_remembered: Seq<EntityKey>,
    seen: Seq<EntityKey>,
    remember: bool,
)
    requires
        indices_identify(old_remembered + seen),
    ensures
        ({
            let visible = settled(seen);
            let remembered = remembered_after(old_remembered, visible, remember);
            remembered_after(remembered, visible, remember) == remembered
        }),
{
    if remember {
        let u = old_remembered + seen;
        let none = Seq::<EntityKey>::empty();
        assert(seen + none =~= seen);
        assert forall|c: EntityKey| seen.contains(c) implies u.contains(c) by {
            let i = choose|i: int| 0 <= i < seen.len() && seen[i] == c;
            assert(u[old_remembered.len() + i] == c);
        }
        assert forall|c: EntityKey| old_remembered.contains(c) implies u.contains(c) by {
            let i = choose|i: int| 0 <= i < old_remembered.len() && old_remembered[i] == c;
            assert(u[i] == c);
        }
        assert(indices_identify(seen + none));
        lemma_settled_union(seen, none);
        let visible = settled(seen);
        assert(visible.to_set() =~= seen.to_set());
        assert forall|c: EntityKey| (old_remembered + visible).contains(c) implies u.contains(c) by {
            let w = old_remembered + visible;
            let i = choose|i: int| 0 <= i < w.len() && w[i] == c;
            if i < old_remembered.len() {
                assert(old_remembered[i] == c);
            } else {
                assert(visible[i - old_remembered.len()] == c);
                assert(visible.to_set().contains(c));
            }
        }
        lemma_identify_subset(old_remembered + visible, u);
        lemma_settled_union(old_remembered, visible);
        let m = sorted_union(old_remembered, visible);
        assert forall|c: EntityKey| (m + visible).contains(c) implies u.contains(c) by {
            let w = m + visible;
            let i = choose|i: int| 0 <= i < w.len() && w[i] == c;
            if i < m.len() {
                assert(m[i] == c);
                assert(m.to_set().contains(c));
                if !old_remembered.contains(c) {
                    assert(visible.to_set().contains(c));
                }
            } else {
                assert(visible[i - m.len()] == c);
                assert(visible.to_set().contains(c));
            }
        }
        lemma_identify_subset(m + visible, u);
        lemma_settled_union(m, visible);
        lemma_sorted_union_absorbs(old_remembered, visible);
    }
}

/// A target arrivals list holds exactly the targets of `new_targets` absent
/// from `old_targets`, in index order.
pub proof fn lemma_target_arrivals(old_targets: Seq<EntityKey>, new_targets: Seq<EntityKey>)
    ensures
        target_arrivals(old_targets, new_targets).to_set() == new_targets.to_set().difference(
            old_targets.to_set(),
        ),
        index_sorted(target_arrivals(old_targets, new_targets)),
{
    broadcast use vstd::seq_lib::group_to_multiset_ensures, vstd::seq_lib::group_filter_ensures;

    let pred = |c: EntityKey| !old_targets.contains(c);
    let f = new_targets.filter(pred);
    lemma_sort_by_index(f);
    let a = target_arrivals(old_targets, new_targets);
    assert forall|c: EntityKey| #[trigger] a.to_set().contains(c) <==> new_targets.to_set().difference(
        old_targets.to_set(),
    ).contains(c) by {
        assert(a.contains(c) <==> a.to_multiset().count(c) > 0);
        assert(f.contains(c) <==> f.to_multiset().count(c) > 0);
        if f.contains(c) {
            new_targets.lemma_filter_contains_rev(pred, c);
            let i = choose|i: int| 0 <= i < f.len() && f[i] == c;
            assert(pred(f[i]));
        }
        if new_targets.contains(c) && !old_targets.contains(c) {
            let i = choose|i: int| 0 <= i < new_targets.len() && new_targets[i] == c;
            assert(f.contains(new_targets[i]));
        }
    }
    assert(a.to_set() =~= new_targets.to_set().difference(old_targets.to_set()));
}

impl SpatialFovState {
    pub fn contains(&self, entity: EntityKey) -> (r: bool)
        ensures
            r == self.visible_now@.contains(entity),
    {
        keys_contain(&self.visible_now, entity)
    }

    /// Publishes the visible and remembered targets.  When neither list
    /// changes and the perception records did not change either
    /// (`records_changed`), the entered and exited lists are cleared;
    /// otherwise they are replaced by the targets that came into and went
    /// out of view.  Returns whether anything changed.
    pub fn publish(
        &mut self,
        visible_now: Vec<EntityKey>,
        remembered_now: Vec<EntityKey>,
        records_changed: bool,
    ) -> (changed: bool)
        ensures
            changed == (old(self).visible_now@ != visible_now@ || old(self).remembered@
                != remembered_now@ || records_changed),
            final(self).visible_now@ == visible_now@,
            final(self).remembered@ == remembered_now@,
            changed ==> final(self).entered@ == target_arrivals(old(self).visible_now@, visible_now@),
            changed ==> final(self).exited@ == target_arrivals(visible_now@, old(self).visible_now@),
            !changed ==> final(self).entered@.len() == 0 && final(self).exited@.len() == 0,
    {
        let entered = sort_entities_by_index(&keys_not_in(&visible_now, &self.visible_now));
        let exited = sort_entities_by_index(&keys_not_in(&self.visible_now, &visible_now));
        let changed = !keys_equal(&self.visible_now, &visible_now) || !keys_equal(
            &self.remembered,
            &remembered_now,
        ) || records_changed;
        if !changed {
            self.entered = Vec::new();
            self.exited = Vec::new();
            return false;
        }
        self.visible_now = visible_now;
        self.remembered = remembered_now;
        self.entered = entered;
        self.exited = exited;
        true
    }

    /// Records the targets `seen` this update: they become the visible
    /// targets, in index order with repeated neighbours collapsed; with
    /// `remember_seen_targets` they join the remembered ones, otherwise they
    /// replace them.  Then
    /// publishes as `publish` does.
    pub fn observe(
        &mut self,
        seen: &Vec<EntityKey>,
        remember_seen_targets: bool,
        records_changed: bool,
    ) -> (changed: bool)
        ensures
            ({
                let visible = settled(seen@);
                let remembered = remembered_after(
                    old(self).remembered@,
                    visible,
                    remember_seen_targets,
                );
                &&& changed == (old(self).visible_now@ != visible || old(self).remembered@
                    != remembered || records_changed)
                &&& final(self).visible_now@ == visible
                &&& final(self).remembered@ == remembered
                &&& changed ==> final(self).entered@ == target_arrivals(old(self).visible_now@, visible)
                &&& changed ==> final(self).exited@ == target_arrivals(visible, old(self).visible_now@)
                &&& !changed ==> final(self).entered@.len() == 0 && final(self).exited@.len()
                    == 0
            }),
    {
        let visible = dedup_keys(&sort_entities_by_index(seen));
        let remembered = if remember_seen_targets {
            dedup_keys(&sort_entities_by_index(&concat_keys(&self.remembered, &visible)))
        } else {
            copy_keys(&visible)
        };
        self.publish(visible, remembered, records_changed)
    }

    /// Takes the viewer out of service: everything visible is reported as
    /// exited, and nothing is visible, entered or remembered any more.
    pub fn deactivate(&mut self)
        ensures
            final(self).visible_now@.len() == 0,
            final(self).remembered@.len() == 0,
            final(self).entered@.len() == 0,
            final(self).exited@ == old(self).visible_now@,
    {
        self.entered = Vec::new();
        self.exited = copy_keys(&self.visible_now);
        self.visible_now = Vec::new();
        self.remembered = Vec::new();
    }
}

/// The targets any of `states` sees now.
pub open spec fn visible_targets(states: Seq<&SpatialFovState>) -> Set<EntityKey> {
    Set::new(
        |e: EntityKey|
            exists|i: int| 0 <= i < states.len() && #[trigger] states[i].visible_now@.contains(e),
    )
}

/// Every target any of the viewers sees now, once each, in entity order.
pub fn merge_spatial_visibility(states: &[&SpatialFovState]) -> (r: Vec<EntityKey>)
    ensures
        strictly_ascending(r@),
        r@.to_set() == visible_targets(states@),
{
    let mut lists: Vec<&Vec<EntityKey>> = Vec::new();
    let n = states.len();
    let mut i: usize = 0;
    while i < n
        invariant
            n == states@.len(),
            i <= n,
            lists@.len() == i,
            forall|k: int| 0 <= k < i ==> #[trigger] lists@[k]@ == states@[k].visible_now@,
        decreases n - i,
    {
        lists.push(&states[i].visible_now);
        i += 1;
    }
    let merged = merge_lists(lists.as_slice());
    proof {
        assert forall|e: EntityKey| #[trigger] merged@.to_set().contains(e)
            <==> visible_targets(states@).contains(e) by {
            if in_some(lists@, e) {
                let k = choose|k: int| 0 <= k < lists@.len() && #[trigger] lists@[k]@.contains(e);
                assert(states@[k].visible_now@.contains(e));
            }
            if visible_targets(states@).contains(e) {
                let k = choose|k: int|
                    0 <= k < states@.len() && #[trigger] states@[k].visible_now@.contains(e);
                assert(lists@[k]@.contains(e));
            }
        }
        assert(merged@.to_set() =~= visible_targets(states@));
    }
    merged
}

} // verus!
