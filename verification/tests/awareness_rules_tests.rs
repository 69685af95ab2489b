use saddle_ai_fov::awareness::{classify_awareness, AwarenessFacts, AwarenessLevel};
use saddle_ai_fov::stealth::{
    classify_stealth_level, stealth_notices, LevelChange, LevelEntry, StealthAwarenessLevel,
    StimulusFacts,
};
use saddle_ai_fov::stimulus::{keeps_stimulus_record, RecordFacts};
use saddle_ai_fov::EntityKey;

const FORGET_AFTER_SECONDS: f32 = 8.0;
const ALERT_THRESHOLD: f32 = 0.8;

/// The facts the host derives from an awareness value and the time since
/// the target was last seen.
fn awareness_facts(
    awareness: f32,
    visible: bool,
    has_seen_target: bool,
    forget_after_seconds: f32,
    last_seen_seconds_ago: Option<f32>,
    alert_threshold: f32,
) -> AwarenessFacts {
    AwarenessFacts {
        visible,
        reaches_alert: awareness >= alert_threshold.max(0.0),
        has_seen_target,
        past_forgetting: last_seen_seconds_ago.unwrap_or(f32::INFINITY)
            > forget_after_seconds.max(0.0),
        has_awareness: awareness > 0.0,
    }
}

fn classify(
    awareness: f32,
    visible: bool,
    has_seen_target: bool,
    last_seen_seconds_ago: Option<f32>,
) -> AwarenessLevel {
    classify_awareness(awareness_facts(
        awareness,
        visible,
        has_seen_target,
        FORGET_AFTER_SECONDS,
        last_seen_seconds_ago,
        ALERT_THRESHOLD,
    ))
}

#[test]
fn awareness_state_walks_detection_pipeline() {
    assert_eq!(classify(0.0, false, false, None), AwarenessLevel::Unaware);
    assert_eq!(classify(0.3, true, true, Some(0.0)), AwarenessLevel::Suspicious);
    assert_eq!(classify(0.95, true, true, Some(0.0)), AwarenessLevel::Alert);
    assert_eq!(classify(0.4, false, true, Some(1.2)), AwarenessLevel::Searching);
    assert_eq!(classify(0.0, false, true, Some(2.2)), AwarenessLevel::Lost);
    assert_eq!(
        classify(0.0, false, true, Some(FORGET_AFTER_SECONDS + 0.1)),
        AwarenessLevel::Unaware
    );
}

#[test]
fn only_alert_counts_as_detected() {
    assert!(AwarenessLevel::Alert.is_detected());
    assert!(!AwarenessLevel::Searching.is_detected());
    assert!(!AwarenessLevel::Suspicious.is_detected());
}

fn stimulus(visible: bool, alert: bool, seen: bool, signal: bool) -> StimulusFacts {
    StimulusFacts {
        currently_visible: visible,
        reaches_alert: alert,
        seen_before: seen,
        has_signal: signal,
    }
}

#[test]
fn stealth_levels_follow_the_stimulus_record() {
    assert_eq!(
        classify_stealth_level(stimulus(true, true, true, true)),
        StealthAwarenessLevel::Alert
    );
    assert_eq!(
        classify_stealth_level(stimulus(true, false, true, true)),
        StealthAwarenessLevel::Suspicious
    );
    assert_eq!(
        classify_stealth_level(stimulus(false, false, true, true)),
        StealthAwarenessLevel::Searching
    );
    assert_eq!(
        classify_stealth_level(stimulus(false, false, true, false)),
        StealthAwarenessLevel::Lost
    );
    assert_eq!(
        classify_stealth_level(stimulus(false, false, false, true)),
        StealthAwarenessLevel::Suspicious
    );
    assert_eq!(
        classify_stealth_level(stimulus(false, true, false, false)),
        StealthAwarenessLevel::Unaware
    );
}

fn entry(index: u32, level: StealthAwarenessLevel) -> LevelEntry {
    LevelEntry {
        target: EntityKey::new(index, 0),
        level,
    }
}

#[test]
fn reaching_alert_is_a_detection_and_leaving_it_a_loss() {
    let previous = vec![entry(1, StealthAwarenessLevel::Suspicious), entry(2, StealthAwarenessLevel::Alert), entry(3, StealthAwarenessLevel::Lost)];
    let next = vec![entry(1, StealthAwarenessLevel::Alert), entry(2, StealthAwarenessLevel::Searching), entry(3, StealthAwarenessLevel::Lost), entry(4, StealthAwarenessLevel::Suspicious)];
    let notices = stealth_notices(&previous, &next);
    assert_eq!(
        notices.changed,
        vec![
            LevelChange {
                target: EntityKey::new(1, 0),
                previous_level: StealthAwarenessLevel::Suspicious,
                level: StealthAwarenessLevel::Alert
            },
            LevelChange {
                target: EntityKey::new(2, 0),
                previous_level: StealthAwarenessLevel::Alert,
                level: StealthAwarenessLevel::Searching
            },
            LevelChange {
                target: EntityKey::new(4, 0),
                previous_level: StealthAwarenessLevel::Unaware,
                level: StealthAwarenessLevel::Suspicious
            },
        ]
    );
    assert_eq!(notices.detected, vec![EntityKey::new(1, 0)]);
    assert_eq!(notices.lost, vec![EntityKey::new(2, 0)]);
}

#[test]
fn a_target_that_disappears_from_alert_is_lost() {
    let notices = stealth_notices(&vec![entry(5, StealthAwarenessLevel::Alert)], &Vec::new());
    assert!(notices.changed.is_empty());
    assert!(notices.detected.is_empty());
    assert_eq!(notices.lost, vec![EntityKey::new(5, 0)]);
}

#[test]
fn staying_at_alert_sends_no_notice() {
    let notices = stealth_notices(&vec![entry(5, StealthAwarenessLevel::Alert)], &vec![entry(5, StealthAwarenessLevel::Alert)]);
    assert!(notices.changed.is_empty());
    assert!(notices.detected.is_empty());
    assert!(notices.lost.is_empty());
}

#[test]
fn a_target_listed_twice_counts_at_its_last_entry() {
    let notices = stealth_notices(&Vec::new(), &vec![entry(6, StealthAwarenessLevel::Alert), entry(6, StealthAwarenessLevel::Suspicious)]);
    assert_eq!(
        notices.changed,
        vec![LevelChange {
            target: EntityKey::new(6, 0),
            previous_level: StealthAwarenessLevel::Unaware,
            level: StealthAwarenessLevel::Suspicious
        }]
    );
    assert!(notices.detected.is_empty());
}

fn record(visible: bool, seen: bool, forgotten: bool, spent: bool) -> RecordFacts {
    RecordFacts {
        currently_visible: visible,
        seen_before: seen,
        past_forgetting: forgotten,
        signal_spent: spent,
    }
}

#[test]
fn stimulus_records_are_dropped_once_spent_and_forgotten() {
    assert!(keeps_stimulus_record(record(true, true, true, true)));
    assert!(keeps_stimulus_record(record(false, true, true, false)));
    assert!(keeps_stimulus_record(record(false, true, false, true)));
    assert!(!keeps_stimulus_record(record(false, true, true, true)));
    assert!(!keeps_stimulus_record(record(false, false, false, true)));
    assert!(keeps_stimulus_record(record(false, false, false, false)));
}
