//! Stealth awareness: the level a viewer's stimulus record puts a target at,
//! and the notices owed when levels change between updates.

use vstd::prelude::*;

use crate::keys::EntityKey;

verus! {

/// How aware a viewer is of a target.
#[derive(Clone, Copy, Debug, PartialEq, Eq, Hash, Structural)]
pub enum StealthAwarenessLevel {
    Unaware,
    Suspicious,
    Alert,
    Searching,
    Lost,
}

/// The facts about a target's stimulus record that decide its level:
/// whether it is visible now, whether its signal reaches the alert
/// threshold, whether it was ever seen, and whether any signal remains.
#[derive(Clone, Copy, Debug, PartialEq, Eq, Structural)]
pub struct StimulusFacts {
    pub currently_visible: bool,
    pub reaches_alert: bool,
    pub seen_before: bool,
    pub has_signal: bool,
}

/// The level the facts call for.  A visible target is `Alert` once its
/// signal reaches the threshold and `Suspicious` before; an unseen target
/// that was seen before is `Searching` while signal remains and `Lost`
/// after; one never seen is `Suspicious` on signal alone, else `Unaware`.
pub open spec fn level_for(f: StimulusFacts) -> StealthAwarenessLevel {
    if f.currently_visible {
        if f.reaches_alert {
            StealthAwarenessLevel::Alert
        } else {
            StealthAwarenessLevel::Suspicious
        }
    } else if f.seen_before {
        if f.has_signal {
            StealthAwarenessLevel::Searching
        } else {
            StealthAwarenessLevel::Lost
        }
    } else if f.has_signal {
        StealthAwarenessLevel::Suspicious
    } else {
        StealthAwarenessLevel::Unaware
    }
}

pub fn classify_stealth_level(facts: StimulusFacts) -> (r: StealthAwarenessLevel)
    ensures
        r == level_for(facts),
{
    if facts.currently_visible {
        if facts.reaches_alert {
            StealthAwarenessLevel::Alert
        } else {
            StealthAwarenessLevel::Suspicious
        }
    } else if facts.seen_before {
        if facts.has_signal {
            StealthAwarenessLevel::Searching
        } else {
            StealthAwarenessLevel::Lost
        }
    } else if facts.has_signal {
        StealthAwarenessLevel::Suspicious
    } else {
        StealthAwarenessLevel::Unaware
    }
}

/// Only a visible target can be at `Alert`.
pub proof fn lemma_alert_needs_sight(f: StimulusFacts)
    ensures
        level_for(f) == StealthAwarenessLevel::Alert <==> f.currently_visible && f.reaches_alert,
        level_for(f) == StealthAwarenessLevel::Unaware ==> !f.has_signal && !f.currently_visible,
{
}

/// A target and the level a viewer holds it at.
#[derive(Clone, Copy, Debug, PartialEq, Eq, Structural)]
pub struct LevelEntry {
    pub target: EntityKey,
    pub level: StealthAwarenessLevel,
}

/// A target whose level changed, with the level before and after.
#[derive(Clone, Copy, Debug, PartialEq, Eq, Structural)]
pub struct LevelChange {
    pub target: EntityKey,
    pub previous_level: StealthAwarenessLevel,
    pub level: StealthAwarenessLevel,
}

/// The notices of one update: level changes, targets newly at `Alert`, and
/// targets that fell from `Alert`.
#[derive(Clone, Debug, PartialEq, Eq)]
pub struct StealthNotices {
    pub changed: Vec<LevelChange>,
    pub detected: Vec<EntityKey>,
    pub lost: Vec<EntityKey>,
}

/// The level `entries` gives `target`: that of its last entry, `Unaware`
/// when it has none.
pub open spec fn level_in(entries: Seq<LevelEntry>, target: EntityKey) -> StealthAwarenessLevel
    decreases entries.len(),
{
    if entries.len() == 0 {
        StealthAwarenessLevel::Unaware
    } else if entries.last().target == target {
        entries.last().level
    } else {
        level_in(entries.drop_last(), target)
    }
}

/// Entry `i` is the last entry of its target.
pub open spec fn last_of_target(entries: Seq<LevelEntry>, i: int) -> bool {
    forall|j: int| i < j < entries.len() ==> entries[j].target != entries[i].target
}

/// The level changes for the first `k` entries of `next`: one per target,
/// at its last entry, when its level differs from the one in `previous`.
pub open spec fn changes_upto(
    previous: Seq<LevelEntry>,
    next: Seq<LevelEntry>,
    k: nat,
) -> Seq<LevelChange>
    decreases k,
{
    if k == 0 {
        Seq::empty()
    } else {
        let base = changes_upto(previous, next, (k - 1) as nat);
        let e = next[k - 1];
        let before = level_in(previous, e.target);
        if last_of_target(next, k - 1) && before != e.level {
            base.push(LevelChange { target: e.target, previous_level: before, level: e.level })
        } else {
            base
        }
    }
}

/// The targets among the first `k` entries of `next` that reach `Alert`
/// from another level, once each.
pub open spec fn detections_upto(
    previous: Seq<LevelEntry>,
    next: Seq<LevelEntry>,
    k: nat,
) -> Seq<EntityKey>
    decreases k,
{
    if k == 0 {
        Seq::empty()
    } else {
        let base = detections_upto(previous, next, (k - 1) as nat);
        let e = next[k - 1];
        if last_of_target(next, k - 1) && level_in(previous, e.target)
            != StealthAwarenessLevel::Alert && e.level == StealthAwarenessLevel::Alert {
            base.push(e.target)
        } else {
            base
        }
    }
}

/// The targets among the first `k` entries of `previous` that were at
/// `Alert` and are not any more, once each.
pub open spec fn losses_upto(
    previous: Seq<LevelEntry>,
    next: Seq<LevelEntry>,
    k: nat,
) -> Seq<EntityKey>
    decreases k,
{
    if k == 0 {
        Seq::empty()
    } else {
        let base = losses_upto(previous, next, (k - 1) as nat);
        let e = previous[k - 1];
        if last_of_target(previous, k - 1) && e.level == StealthAwarenessLevel::Alert
            && level_in(next, e.target) != StealthAwarenessLevel::Alert {
            base.push(e.target)
        } else {
            base
        }
    }
}

/// The level `entries` gives `target`.
fn level_of(entries: &Vec<LevelEntry>, target: EntityKey) -> (r: StealthAwarenessLevel)
    ensures
        r == level_in(entries@, target),
{
    let mut r = StealthAwarenessLevel::Unaware;
    let n = entries.len();
    let mut i: usize = 0;
    while i < n
        invariant
            n == entries@.len(),
            i <= n,
            r == level_in(entries@.take(i as int), target),
        decreases n - i,
    {
        proof {
            assert(entries@.take(i + 1).drop_last() =~= entries@.take(i as int));
        }
        if entries[i].target == target {
            r = entries[i].level;
        }
        i += 1;
    }
    proof {
        assert(entries@.take(n as int) =~= entries@);
    }
    r
}

/// Whether entry `i` is the last entry of its target.
fn is_last_of_target(entries: &Vec<LevelEntry>, i: usize) -> (r: bool)
    requires
        i < entries@.len(),
    ensures
        r == last_of_target(entries@, i as int),
{
    let t = entries[i].target;
    let n = entries.len();
    let mut j: usize = i + 1;
    while j < n
        invariant
            n == entries@.len(),
            i < j <= n,
            t == entries@[i as int].target,
            forall|k: int| i < k < j ==> entries@[k].target != t,
        decreases n - j,
    {
        if entries[j].target == t {
            return false;
        }
        j += 1;
    }
    true
}

/// The notices owed when a viewer's levels go from `previous` to `next`.
/// A target missing from a list counts as `Unaware` there; a target listed
/// twice counts at its last entry.  A change is reported for every target of
/// `next` whose level differs from before; a detection for every target of
/// `next` that is at `Alert` and was not; a loss for every target of
/// `previous` that was at `Alert` and is not.
pub fn stealth_notices(previous: &Vec<LevelEntry>, next: &Vec<LevelEntry>) -> (r: StealthNotices)
    ensures
        r.changed@ == changes_upto(previous@, next@, next@.len()),
        r.detected@ == detections_upto(previous@, next@, next@.len()),
        r.lost@ == losses_upto(previous@, next@, previous@.len()),
        forall|t: EntityKey|
            #[trigger] r.detected@.contains(t) <==> (level_in(next@, t)
                == StealthAwarenessLevel::Alert && level_in(previous@, t)
                != StealthAwarenessLevel::Alert),
        forall|t: EntityKey|
            #[trigger] r.lost@.contains(t) <==> (level_in(previous@, t)
                == StealthAwarenessLevel::Alert && level_in(next@, t)
                != StealthAwarenessLevel::Alert),
        forall|t: EntityKey|
            (exists|c: int| 0 <= c < r.changed@.len() && #[trigger] r.changed@[c].target == t)
                <==> (lists(next@, t) && level_in(previous@, t) != level_in(next@, t)),
        forall|a: int, b: int|
            0 <= a < b < r.changed@.len() ==> r.changed@[a].target != r.changed@[b].target,
        forall|a: int, b: int| 0 <= a < b < r.detected@.len() ==> r.detected@[a] != r.detected@[b],
        forall|a: int, b: int| 0 <= a < b < r.lost@.len() ==> r.lost@[a] != r.lost@[b],
{
    proof {
        lemma_notices_exact(previous@, next@);
        lemma_notices_once(previous@, next@);
    }
    let mut changed: Vec<LevelChange> = Vec::new();
    let mut detected: Vec<EntityKey> = Vec::new();
    let n = next.len();
    let mut i: usize = 0;
    while i < n
        invariant
            n == next@.len(),
            i <= n,
            changed@ == changes_upto(previous@, next@, i as nat),
            detected@ == detections_upto(previous@, next@, i as nat),
        decreases n - i,
    {
        let e = next[i];
        if is_last_of_target(next, i) {
            let before = level_of(previous, e.target);
            if before != e.level {
                changed.push(LevelChange { target: e.target, previous_level: before, level: e.level });
            }
            if before != StealthAwarenessLevel::Alert && e.level == StealthAwarenessLevel::Alert {
                detected.push(e.target);
            }
        }
        i += 1;
    }
    let mut lost: Vec<EntityKey> = Vec::new();
    let m = previous.len();
    let mut k: usize = 0;
    while k < m
        invariant
            m == previous@.len(),
            k <= m,
            lost@ == losses_upto(previous@, next@, k as nat),
        decreases m - k,
    {
        let e = previous[k];
        if is_last_of_target(previous, k) && e.level == StealthAwarenessLevel::Alert {
            let after = level_of(next, e.target);
            if after != StealthAwarenessLevel::Alert {
                lost.push(e.target);
            }
        }
        k += 1;
    }
    StealthNotices { changed, detected, lost }
}

/// The level of the last entry of a target is the level the list gives it.
proof fn lemma_last_entry_level(entries: Seq<LevelEntry>, i: int)
    requires
        0 <= i < entries.len(),
        last_of_target(entries, i),
    ensures
        level_in(entries, entries[i].target) == entries[i].level,
    decreases entries.len(),
{
    if i < entries.len() - 1 {
        let p = entries.drop_last();
        assert(last_of_target(p, i));
        lemma_last_entry_level(p, i);
    }
}

/// Every detected target is at `Alert` now and was not before; every lost
/// target was at `Alert` and is not now; so no target is both detected and
/// lost in one update.
pub proof fn lemma_detection_and_loss(previous: Seq<LevelEntry>, next: Seq<LevelEntry>)
    ensures
        forall|i: int|
            0 <= i < detections_upto(previous, next, next.len()).len() ==> {
                let t = #[trigger] detections_upto(previous, next, next.len())[i];
                &&& level_in(next, t) == StealthAwarenessLevel::Alert
                &&& level_in(previous, t) != StealthAwarenessLevel::Alert
            },
        forall|i: int|
            0 <= i < losses_upto(previous, next, previous.len()).len() ==> {
                let t = #[trigger] losses_upto(previous, next, previous.len())[i];
                &&& level_in(previous, t) == StealthAwarenessLevel::Alert
                &&& level_in(next, t) != StealthAwarenessLevel::Alert
            },
        forall|t: EntityKey|
            !(detections_upto(previous, next, next.len()).contains(t) && losses_upto(
                previous,
                next,
                previous.len(),
            ).contains(t)),
{
    lemma_detections(previous, next, next.len());
    lemma_losses(previous, next, previous.len());
    let d = detections_upto(previous, next, next.len());
    let l = losses_upto(previous, next, previous.len());
    assert forall|t: EntityKey| !(d.contains(t) && l.contains(t)) by {
        if d.contains(t) && l.contains(t) {
            let i = choose|i: int| 0 <= i < d.len() && d[i] == t;
            let j = choose|j: int| 0 <= j < l.len() && l[j] == t;
            assert(level_in(next, d[i]) == StealthAwarenessLevel::Alert);
            assert(level_in(next, l[j]) != StealthAwarenessLevel::Alert);
        }
    }
}

/// Every reported change carries the target's level before and after, and
/// the two differ.
pub proof fn lemma_change_notices(previous: Seq<LevelEntry>, next: Seq<LevelEntry>, k: nat)
    requires
        k <= next.len(),
    ensures
        forall|i: int|
            0 <= i < changes_upto(previous, next, k).len() ==> {
                let c = #[trigger] changes_upto(previous, next, k)[i];
                &&& c.previous_level == level_in(previous, c.target)
                &&& c.level == level_in(next, c.target)
                &&& c.previous_level != c.level
            },
    decreases k,
{
    if k > 0 {
        lemma_change_notices(previous, next, (k - 1) as nat);
        if last_of_target(next, k - 1) {
            lemma_last_entry_level(next, k - 1);
        }
    }
}

proof fn lemma_detections(previous: Seq<LevelEntry>, next: Seq<LevelEntry>, k: nat)
    requires
        k <= next.len(),
    ensures
        forall|i: int|
            0 <= i < detections_upto(previous, next, k).len() ==> {
                let t = #[trigger] detections_upto(previous, next, k)[i];
                &&& level_in(next, t) == StealthAwarenessLevel::Alert
                &&& level_in(previous, t) != StealthAwarenessLevel::Alert
            },
    decreases k,
{
    if k > 0 {
        lemma_detections(previous, next, (k - 1) as nat);
        if last_of_target(next, k - 1) {
            lemma_last_entry_level(next, k - 1);
        }
    }
}

proof fn lemma_losses(previous: Seq<LevelEntry>, next: Seq<LevelEntry>, k: nat)
    requires
        k <= previous.len(),
    ensures
        forall|i: int|
            0 <= i < losses_upto(previous, next, k).len() ==> {
                let t = #[trigger] losses_upto(previous, next, k)[i];
                &&& level_in(previous, t) == StealthAwarenessLevel::Alert
                &&& level_in(next, t) != StealthAwarenessLevel::Alert
            },
    decreases k,
{
    if k > 0 {
        lemma_losses(previous, next, (k - 1) as nat);
        if last_of_target(previous, k - 1) {
            lemma_last_entry_level(previous, k - 1);
        }
    }
}

/// Whether `entries` has an entry for `target`.
pub open spec fn lists(entries: Seq<LevelEntry>, target: EntityKey) -> bool {
    exists|i: int| 0 <= i < entries.len() && entries[i].target == target
}

/// A listed target's level comes from its last entry; an unlisted target
/// is `Unaware`.
proof fn lemma_level_source(entries: Seq<LevelEntry>, target: EntityKey)
    ensures
        lists(entries, target) ==> exists|i: int|
            0 <= i < entries.len() && last_of_target(entries, i) && entries[i].target == target
                && entries[i].level == level_in(entries, target),
        !lists(entries, target) ==> level_in(entries, target) == StealthAwarenessLevel::Unaware,
    decreases entries.len(),
{
    if entries.len() > 0 {
        let p = entries.drop_last();
        lemma_level_source(p, target);
        let n = entries.len() - 1;
        if entries.last().target == target {
            assert(last_of_target(entries, n));
            assert(entries[n].level == level_in(entries, target));
        } else {
            if lists(entries, target) {
                let j = choose|j: int| 0 <= j < entries.len() && entries[j].target == target;
                assert(p[j].target == target);
                let i = choose|i: int|
                    0 <= i < p.len() && last_of_target(p, i) && p[i].target == target && p[i].level
                        == level_in(p, target);
                assert(entries[i] == p[i]);
                assert forall|j: int| i < j < entries.len() implies entries[j].target
                    != entries[i].target by {
                    if j < p.len() {
                        assert(entries[j] == p[j]);
                    }
                }
                assert(last_of_target(entries, i));
                assert(level_in(entries, target) == level_in(p, target));
            }
            if !lists(entries, target) {
                assert forall|j: int| 0 <= j < p.len() implies p[j].target != target by {
                    assert(entries[j] == p[j]);
                }
            }
        }
    }
}

proof fn lemma_notices_from(previous: Seq<LevelEntry>, next: Seq<LevelEntry>, k: nat)
    requires
        k <= next.len(),
    ensures
        forall|i: int|
            0 <= i < k && #[trigger] last_of_target(next, i) && level_in(previous, next[i].target)
                != StealthAwarenessLevel::Alert && next[i].level == StealthAwarenessLevel::Alert
                ==> detections_upto(previous, next, k).contains(next[i].target),
        forall|i: int|
            0 <= i < k && #[trigger] last_of_target(next, i) && level_in(previous, next[i].target)
                != next[i].level ==> exists|c: int|
                0 <= c < changes_upto(previous, next, k).len() && changes_upto(
                    previous,
                    next,
                    k,
                )[c].target == next[i].target,
        forall|c: int|
            0 <= c < changes_upto(previous, next, k).len() ==> lists(
                next,
                #[trigger] changes_upto(previous, next, k)[c].target,
            ),
    decreases k,
{
    if k > 0 {
        lemma_notices_from(previous, next, (k - 1) as nat);
        let d0 = detections_upto(previous, next, (k - 1) as nat);
        let c0 = changes_upto(previous, next, (k - 1) as nat);
        let d1 = detections_upto(previous, next, k);
        let c1 = changes_upto(previous, next, k);
        assert forall|x: EntityKey| d0.contains(x) implies d1.contains(x) by {
            let j = choose|j: int| 0 <= j < d0.len() && d0[j] == x;
            assert(d1[j] == d0[j]);
        }
        assert forall|c: int| 0 <= c < c0.len() implies c1[c] == c0[c] by {}
        let e = next[k - 1];
        if last_of_target(next, k - 1) && level_in(previous, e.target) != StealthAwarenessLevel::Alert
            && e.level == StealthAwarenessLevel::Alert {
            assert(d1[d1.len() - 1] == e.target);
        }
        if last_of_target(next, k - 1) && level_in(previous, e.target) != e.level {
            assert(c1[c1.len() - 1].target == e.target);
        }
        assert forall|c: int| 0 <= c < c1.len() implies lists(next, #[trigger] c1[c].target) by {
            if c < c0.len() {
                assert(c1[c] == c0[c]);
            } else {
                assert(next[k - 1].target == c1[c].target);
            }
        }
        assert forall|i: int|
            0 <= i < k && #[trigger] last_of_target(next, i) && level_in(previous, next[i].target)
                != next[i].level implies exists|c: int|
            0 <= c < c1.len() && c1[c].target == next[i].target by {
            if i < k - 1 {
                let c = choose|c: int| 0 <= c < c0.len() && c0[c].target == next[i].target;
                assert(c1[c] == c0[c]);
            } else {
                assert(c1[c1.len() - 1].target == e.target);
            }
        }
    }
}

proof fn lemma_losses_from(previous: Seq<LevelEntry>, next: Seq<LevelEntry>, k: nat)
    requires
        k <= previous.len(),
    ensures
        forall|i: int|
            0 <= i < k && #[trigger] last_of_target(previous, i) && previous[i].level
                == StealthAwarenessLevel::Alert && level_in(next, previous[i].target)
                != StealthAwarenessLevel::Alert ==> losses_upto(previous, next, k).contains(
                previous[i].target,
            ),
    decreases k,
{
    if k > 0 {
        lemma_losses_from(previous, next, (k - 1) as nat);
        let l0 = losses_upto(previous, next, (k - 1) as nat);
        let l1 = losses_upto(previous, next, k);
        assert forall|x: EntityKey| l0.contains(x) implies l1.contains(x) by {
            let j = choose|j: int| 0 <= j < l0.len() && l0[j] == x;
            assert(l1[j] == l0[j]);
        }
        let e = previous[k - 1];
        if last_of_target(previous, k - 1) && e.level == StealthAwarenessLevel::Alert && level_in(
            next,
            e.target,
        ) != StealthAwarenessLevel::Alert {
            assert(l1[l1.len() - 1] == e.target);
        }
    }
}

/// The notices are exactly what the levels call for.  A target is detected
/// exactly when `next` puts it at `Alert` and `previous` did not; lost
/// exactly when `previous` put it at `Alert` and `next` does not; and has a
/// level change reported exactly when `next` lists it at a level other than
/// the one `previous` gave it.  Missing targets count as `Unaware`.
pub proof fn lemma_notices_exact(previous: Seq<LevelEntry>, next: Seq<LevelEntry>)
    ensures
        forall|t: EntityKey|
            #[trigger] detections_upto(previous, next, next.len()).contains(t) <==> (level_in(
                next,
                t,
            ) == StealthAwarenessLevel::Alert && level_in(previous, t)
                != StealthAwarenessLevel::Alert),
        forall|t: EntityKey|
            #[trigger] losses_upto(previous, next, previous.len()).contains(t) <==> (level_in(
                previous,
                t,
            ) == StealthAwarenessLevel::Alert && level_in(next, t)
                != StealthAwarenessLevel::Alert),
        forall|t: EntityKey|
            (exists|c: int|
                0 <= c < changes_upto(previous, next, next.len()).len() && #[trigger] changes_upto(
                    previous,
                    next,
                    next.len(),
                )[c].target == t) <==> (lists(next, t) && level_in(previous, t) != level_in(
                next,
                t,
            )),
{
    lemma_detection_and_loss(previous, next);
    lemma_change_notices(previous, next, next.len());
    lemma_notices_from(previous, next, next.len());
    lemma_losses_from(previous, next, previous.len());
    let d = detections_upto(previous, next, next.len());
    let l = losses_upto(previous, next, previous.len());
    let ch = changes_upto(previous, next, next.len());
    assert forall|t: EntityKey| #[trigger] d.contains(t) <==> (level_in(next, t)
        == StealthAwarenessLevel::Alert && level_in(previous, t) != StealthAwarenessLevel::Alert) by {
        lemma_level_source(next, t);
        if d.contains(t) {
            let j = choose|j: int| 0 <= j < d.len() && d[j] == t;
            assert(level_in(next, d[j]) == StealthAwarenessLevel::Alert);
        }
        if level_in(next, t) == StealthAwarenessLevel::Alert && level_in(previous, t)
            != StealthAwarenessLevel::Alert {
            let i = choose|i: int|
                0 <= i < next.len() && last_of_target(next, i) && next[i].target == t
                    && next[i].level == level_in(next, t);
            assert(last_of_target(next, i));
        }
    }
    assert forall|t: EntityKey| #[trigger] l.contains(t) <==> (level_in(previous, t)
        == StealthAwarenessLevel::Alert && level_in(next, t) != StealthAwarenessLevel::Alert) by {
        lemma_level_source(previous, t);
        if l.contains(t) {
            let j = choose|j: int| 0 <= j < l.len() && l[j] == t;
            assert(level_in(previous, l[j]) == StealthAwarenessLevel::Alert);
        }
        if level_in(previous, t) == StealthAwarenessLevel::Alert && level_in(next, t)
            != StealthAwarenessLevel::Alert {
            let i = choose|i: int|
                0 <= i < previous.len() && last_of_target(previous, i) && previous[i].target == t
                    && previous[i].level == level_in(previous, t);
            assert(last_of_target(previous, i));
        }
    }
    assert forall|t: EntityKey|
        (exists|c: int| 0 <= c < ch.len() && #[trigger] ch[c].target == t) <==> (lists(next, t)
            && level_in(previous, t) != level_in(next, t)) by {
        lemma_level_source(next, t);
        if exists|c: int| 0 <= c < ch.len() && #[trigger] ch[c].target == t {
            let c = choose|c: int| 0 <= c < ch.len() && #[trigger] ch[c].target == t;
            assert(lists(next, ch[c].target));
            assert(ch[c].previous_level != ch[c].level);
        }
        if lists(next, t) && level_in(previous, t) != level_in(next, t) {
            let i = choose|i: int|
                0 <= i < next.len() && last_of_target(next, i) && next[i].target == t
                    && next[i].level == level_in(next, t);
            assert(last_of_target(next, i));
        }
    }
}

/// Entry `i`, among the first `k` of `entries`, is the last entry of
/// `target`.
pub open spec fn last_entry_for(
    entries: Seq<LevelEntry>,
    k: int,
    i: int,
    target: EntityKey,
) -> bool {
    0 <= i < k && last_of_target(entries, i) && entries[i].target == target
}

/// One of the first `k` entries of `entries` is the last entry of `target`.
pub open spec fn has_last_entry(entries: Seq<LevelEntry>, k: int, target: EntityKey) -> bool {
    exists|i: int| #[trigger] last_entry_for(entries, k, i, target)
}

proof fn lemma_detections_once(previous: Seq<LevelEntry>, next: Seq<LevelEntry>, k: nat)
    requires
        k <= next.len(),
    ensures
        ({
            let d = detections_upto(previous, next, k);
            &&& forall|a: int, b: int| 0 <= a < b < d.len() ==> d[a] != d[b]
            &&& forall|a: int|
                0 <= a < d.len() ==> has_last_entry(next, k as int, #[trigger] d[a])
        }),
    decreases k,
{
    if k > 0 {
        lemma_detections_once(previous, next, (k - 1) as nat);
        let d0 = detections_upto(previous, next, (k - 1) as nat);
        let d = detections_upto(previous, next, k);
        assert forall|a: int|
            0 <= a < d.len() implies has_last_entry(next, k as int, #[trigger] d[a]) by {
            if a < d0.len() {
                let i = choose|i: int| #[trigger] last_entry_for(next, k - 1, i, d0[a]);
                assert(last_entry_for(next, k as int, i, d[a]));
            } else {
                assert(last_entry_for(next, k as int, k - 1, d[a]));
            }
        }
        assert forall|a: int, b: int| 0 <= a < b < d.len() implies d[a] != d[b] by {
            assert(d[a] == d0[a]);
            if b == d0.len() {
                let i = choose|i: int| #[trigger] last_entry_for(next, k - 1, i, d0[a]);
                assert(next[k - 1].target != next[i].target);
            } else {
                assert(d[b] == d0[b]);
            }
        }
    } else {
        assert(detections_upto(previous, next, k).len() == 0);
    }
}

proof fn lemma_losses_once(previous: Seq<LevelEntry>, next: Seq<LevelEntry>, k: nat)
    requires
        k <= previous.len(),
    ensures
        ({
            let l = losses_upto(previous, next, k);
            &&& forall|a: int, b: int| 0 <= a < b < l.len() ==> l[a] != l[b]
            &&& forall|a: int|
                0 <= a < l.len() ==> has_last_entry(previous, k as int, #[trigger] l[a])
        }),
    decreases k,
{
    if k > 0 {
        lemma_losses_once(previous, next, (k - 1) as nat);
        let l0 = losses_upto(previous, next, (k - 1) as nat);
        let l = losses_upto(previous, next, k);
        assert forall|a: int|
            0 <= a < l.len() implies has_last_entry(previous, k as int, #[trigger] l[a]) by {
            if a < l0.len() {
                let i = choose|i: int| #[trigger] last_entry_for(previous, k - 1, i, l0[a]);
                assert(last_entry_for(previous, k as int, i, l[a]));
            } else {
                assert(last_entry_for(previous, k as int, k - 1, l[a]));
            }
        }
        assert forall|a: int, b: int| 0 <= a < b < l.len() implies l[a] != l[b] by {
            assert(l[a] == l0[a]);
            if b == l0.len() {
                let i = choose|i: int| #[trigger] last_entry_for(previous, k - 1, i, l0[a]);
                assert(previous[k - 1].target != previous[i].target);
            } else {
                assert(l[b] == l0[b]);
            }
        }
    } else {
        assert(losses_upto(previous, next, k).len() == 0);
    }
}

proof fn lemma_changes_once(previous: Seq<LevelEntry>, next: Seq<LevelEntry>, k: nat)
    requires
        k <= next.len(),
    ensures
        ({
            let c = changes_upto(previous, next, k);
            &&& forall|a: int, b: int| 0 <= a < b < c.len() ==> c[a].target != c[b].target
            &&& forall|a: int|
                0 <= a < c.len() ==> has_last_entry(next, k as int, #[trigger] c[a].target)
        }),
    decreases k,
{
    if k > 0 {
        lemma_changes_once(previous, next, (k - 1) as nat);
        let c0 = changes_upto(previous, next, (k - 1) as nat);
        let c = changes_upto(previous, next, k);
        assert forall|a: int|
            0 <= a < c.len() implies has_last_entry(next, k as int, #[trigger] c[a].target) by {
            if a < c0.len() {
                let i = choose|i: int| #[trigger] last_entry_for(next, k - 1, i, c0[a].target);
                assert(last_entry_for(next, k as int, i, c[a].target));
            } else {
                assert(last_entry_for(next, k as int, k - 1, c[a].target));
            }
        }
        assert forall|a: int, b: int| 0 <= a < b < c.len() implies c[a].target != c[b].target by {
            if b == c0.len() {
                let i = choose|i: int| #[trigger] last_entry_for(next, k - 1, i, c0[a].target);
                assert(next[k - 1].target != next[i].target);
            }
        }
    }
}

/// Each target is reported at most once per update: no target occurs twice
/// among the level changes, among the detections, or among the losses.
pub proof fn lemma_notices_once(previous: Seq<LevelEntry>, next: Seq<LevelEntry>)
    ensures
        ({
            let c = changes_upto(previous, next, next.len());
            let d = detections_upto(previous, next, next.len());
            let l = losses_upto(previous, next, previous.len());
            &&& forall|a: int, b: int| 0 <= a < b < c.len() ==> c[a].target != c[b].target
            &&& forall|a: int, b: int| 0 <= a < b < d.len() ==> d[a] != d[b]
            &&& forall|a: int, b: int| 0 <= a < b < l.len() ==> l[a] != l[b]
        }),
{
    lemma_changes_once(previous, next, next.len());
    lemma_detections_once(previous, next, next.len());
    lemma_losses_once(previous, next, previous.len());
}

} // verus!
