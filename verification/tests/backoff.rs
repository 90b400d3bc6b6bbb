use zeroclaw::gateway::backoff::{advance_attempt, jitter_permille};

#[test]
fn attempt_counts_up_and_saturates() {
    let mut a = 0u32;
    a = advance_attempt(a);
    a = advance_attempt(a);
    assert_eq!(a, 2);
    assert_eq!(advance_attempt(u32::MAX - 1), u32::MAX);
    assert_eq!(advance_attempt(u32::MAX), u32::MAX);
}

#[test]
fn jitter_sample_is_nanos_mod_thousand() {
    assert_eq!(jitter_permille(0), 0);
    assert_eq!(jitter_permille(999), 999);
    assert_eq!(jitter_permille(1_000), 0);
    assert_eq!(jitter_permille(123_456_789), 789);
    assert!(jitter_permille(u32::MAX) < 1000);
}
