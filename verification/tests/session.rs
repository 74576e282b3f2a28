use tokensawe::session::{apply_session, maybe_apply_session, now_secs, stable_hash, SessionState};

#[test]
fn first_output_is_shown_and_recorded() {
    let mut state = SessionState::new();
    let (out, recorded) = apply_session(&mut state, 1, 2, 100, "hello");
    assert_eq!(out, "hello");
    assert!(recorded);
    assert_eq!(state.entries.len(), 1);
    assert_eq!(state.entries[0].cmd_hash, 1);
    assert_eq!(state.entries[0].out_hash, 2);
    assert_eq!(state.entries[0].timestamp, 100);
    assert_eq!(state.entries[0].output, "hello");
}

#[test]
fn repeat_within_ttl_is_omitted() {
    let mut state = SessionState::new();
    apply_session(&mut state, 1, 2, 100, "hello");
    let (out, recorded) = apply_session(&mut state, 1, 2, 105, "hello");
    assert_eq!(out, "[unchanged output omitted; last shown 5s ago]\n");
    assert!(!recorded);
    assert_eq!(state.entries[0].timestamp, 100);
    let (out, _) = apply_session(&mut state, 1, 2, 130, "hello");
    assert_eq!(out, "[unchanged output omitted; last shown 30s ago]\n");
}

#[test]
fn repeat_after_ttl_is_shown() {
    let mut state = SessionState::new();
    apply_session(&mut state, 1, 2, 100, "hello");
    let (out, recorded) = apply_session(&mut state, 1, 2, 131, "hello");
    assert_eq!(out, "hello");
    assert!(recorded);
    assert_eq!(state.entries[0].timestamp, 131);
}

#[test]
fn clock_going_back_counts_as_zero() {
    let mut state = SessionState::new();
    apply_session(&mut state, 1, 2, 100, "hello");
    let (out, _) = apply_session(&mut state, 1, 2, 50, "hello");
    assert_eq!(out, "[unchanged output omitted; last shown 0s ago]\n");
}

#[test]
fn changed_output_is_shown_and_replaces_the_entry() {
    let mut state = SessionState::new();
    apply_session(&mut state, 1, 2, 100, "hello");
    apply_session(&mut state, 7, 8, 100, "other");
    let (out, recorded) = apply_session(&mut state, 1, 3, 101, "changed");
    assert_eq!(out, "changed");
    assert!(recorded);
    assert_eq!(state.entries.len(), 2);
    assert_eq!(state.entries[0].out_hash, 3);
    assert_eq!(state.entries[0].output, "changed");
    assert_eq!(state.entries[1].cmd_hash, 7);
}

#[test]
fn hashes_depend_on_the_text() {
    assert_eq!(stable_hash("git status"), stable_hash("git status"));
    assert_ne!(stable_hash("git status"), stable_hash("git diff"));
}

#[test]
fn clock_reads_seconds_since_epoch() {
    assert!(now_secs() > 1_600_000_000);
}

#[test]
fn session_step_with_hashes_and_clock() {
    let mut state = SessionState::new();
    let (out, recorded) = maybe_apply_session("ls -la", "a\nb\n", &mut state);
    assert_eq!(out, "a\nb\n");
    assert!(recorded);
    assert_eq!(state.entries[0].cmd_hash, stable_hash("ls -la"));
    assert_eq!(state.entries[0].out_hash, stable_hash("a\nb\n"));
    let (out, recorded) = maybe_apply_session("ls -la", "a\nb\n", &mut state);
    assert!(out.starts_with("[unchanged output omitted; last shown "));
    assert!(!recorded);
}
