//! Awareness levels for spatial viewers, decided from what the viewer knows
//! about a target.

use vstd::prelude::*;

verus! {

/// How aware a viewer is of a target.
#[derive(Clone, Copy, Debug, PartialEq, Eq, Hash, Structural)]
pub enum AwarenessLevel {
    Unaware,
    Suspicious,
    Alert,
    Searching,
    Lost,
}

impl AwarenessLevel {
    /// A target counts as detected at `Alert`.
    pub fn is_detected(self) -> (r: bool)
        ensures
            r == (self == AwarenessLevel::Alert),
    {
        self == AwarenessLevel::Alert
    }
}

/// What decides a target's awareness level: whether it is visible, whether
/// awareness reaches the alert threshold, whether the viewer has seen it,
/// whether the time since it was last seen exceeds the forgetting delay (no
/// sighting at all counts as forever), and whether any awareness remains.
#[derive(Clone, Copy, Debug, PartialEq, Eq, Structural)]
pub struct AwarenessFacts {
    pub visible: bool,
    pub reaches_alert: bool,
    pub has_seen_target: bool,
    pub past_forgetting: bool,
    pub has_awareness: bool,
}

/// A visible target is `Alert` once awareness reaches the threshold and
/// `Suspicious` before.  A target seen before but not now is forgotten
/// (`Unaware`) past the forgetting delay, else `Searching` while awareness
/// remains and `Lost` after.  A target never seen is `Unaware`.
pub open spec fn awareness_level(f: AwarenessFacts) -> AwarenessLevel {
    if f.visible {
        if f.reaches_alert {
            AwarenessLevel::Alert
        } else {
            AwarenessLevel::Suspicious
        }
    } else if f.has_seen_target {
        if f.past_forgetting {
            AwarenessLevel::Unaware
        } else if f.has_awareness {
            AwarenessLevel::Searching
        } else {
            AwarenessLevel::Lost
        }
    } else {
        AwarenessLevel::Unaware
    }
}

pub fn classify_awareness(facts: AwarenessFacts) -> (r: AwarenessLevel)
    ensures
        r == awareness_level(facts),
{
    if facts.visible {
        if facts.reaches_alert {
            AwarenessLevel::Alert
        } else {
            AwarenessLevel::Suspicious
        }
    } else if facts.has_seen_target {
        if facts.past_forgetting {
            AwarenessLevel::Unaware
        } else if facts.has_awareness {
            AwarenessLevel::Searching
        } else {
            AwarenessLevel::Lost
        }
    } else {
        AwarenessLevel::Unaware
    }
}

/// Detection needs sight; a target out of sight is never `Suspicious`, and
/// once forgotten it is `Unaware` whatever awareness remains.  Each level
/// comes on exactly these facts: `Alert` on sight at the threshold,
/// `Suspicious` on sight below it, `Searching` and `Lost` on a remembered
/// sighting with and without awareness left, `Unaware` on no sighting or a
/// forgotten one.
pub proof fn lemma_awareness_levels(f: AwarenessFacts)
    ensures
        awareness_level(f) == AwarenessLevel::Alert <==> f.visible && f.reaches_alert,
        !f.visible ==> awareness_level(f) != AwarenessLevel::Suspicious,
        !f.visible && f.past_forgetting ==> awareness_level(f) == AwarenessLevel::Unaware,
        awareness_level(f) == AwarenessLevel::Suspicious <==> f.visible && !f.reaches_alert,
        awareness_level(f) == AwarenessLevel::Searching <==> !f.visible && f.has_seen_target
            && !f.past_forgetting && f.has_awareness,
        awareness_level(f) == AwarenessLevel::Lost <==> !f.visible && f.has_seen_target
            && !f.past_forgetting && !f.has_awareness,
        awareness_level(f) == AwarenessLevel::Unaware <==> !f.visible && (!f.has_seen_target
            || f.past_forgetting),
{
}

} // verus!
