//! Stimulus records: when a viewer keeps its record of a target.

use vstd::prelude::*;

verus! {

/// The facts that decide whether a stimulus record is kept after an
/// update: whether the target is visible, whether it was ever seen, whether
/// the time since then exceeds the forgetting delay, and whether its signal
/// has run out (is at or below zero).
#[derive(Clone, Copy, Debug, PartialEq, Eq, Structural)]
pub struct RecordFacts {
    pub currently_visible: bool,
    pub seen_before: bool,
    pub past_forgetting: bool,
    pub signal_spent: bool,
}

/// A record is dropped once its signal is spent and the target is out of
/// sight, if the target was forgotten or never seen; otherwise it is kept.
pub open spec fn record_kept(f: RecordFacts) -> bool {
    !(f.past_forgetting && !f.currently_visible && f.signal_spent) && !(!f.currently_visible
        && !f.seen_before && f.signal_spent)
}

pub fn keeps_stimulus_record(facts: RecordFacts) -> (r: bool)
    ensures
        r == record_kept(facts),
{
    if facts.past_forgetting && !facts.currently_visible && facts.signal_spent {
        return false;
    }
    if !facts.currently_visible && !facts.seen_before && facts.signal_spent {
        return false;
    }
    true
}

/// A visible target, and a target with signal left, is always kept; an
/// out-of-sight target whose signal is spent is dropped exactly when it was
/// never seen or has been forgotten.
pub proof fn lemma_kept_while_relevant(f: RecordFacts)
    ensures
        f.currently_visible ==> record_kept(f),
        !f.signal_spent ==> record_kept(f),
        !f.currently_visible && f.signal_spent ==> (record_kept(f) <==> f.seen_before
            && !f.past_forgetting),
{
}

} // verus!
