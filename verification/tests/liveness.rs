//! Heartbeat and timeout arithmetic.

use netwayste::session::{has_connection_timed_out, CONNECTION_TIMEOUT_MS};

#[test]
fn a_silent_peer_times_out_exactly_at_the_threshold() {
    assert!(!has_connection_timed_out(Some(1_000), 1_000 + CONNECTION_TIMEOUT_MS - 1));
    assert!(has_connection_timed_out(Some(1_000), 1_000 + CONNECTION_TIMEOUT_MS));
    assert!(has_connection_timed_out(Some(1_000), 1_000 + 10 * CONNECTION_TIMEOUT_MS));
}

#[test]
fn a_session_that_never_heard_anything_does_not_time_out() {
    assert!(!has_connection_timed_out(None, u64::MAX));
}

#[test]
fn a_clock_that_ran_backwards_does_not_time_out() {
    assert!(!has_connection_timed_out(Some(9_000), 500));
}
