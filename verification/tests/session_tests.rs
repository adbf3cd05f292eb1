use lyra::launcher::launch_outcome;
use lyra::launcher::validate_selection;
use lyra::launcher::LaunchError;
use lyra::launcher::LaunchResult;
use lyra::search::MatchQuality;
use lyra::search::SearchOption;
use lyra::session::Session;
use lyra::visibility::TransitionOutcome;
use lyra::visibility::VisEvent;
use lyra::visibility::Visibility;

fn opt(item_index: usize, item_id: u64) -> SearchOption {
    SearchOption {
        item_index,
        item_id,
        quality: MatchQuality::Prefix,
        position: 0,
    }
}

#[test]
fn session_starts_hidden_with_no_results() {
    let s = Session::new();
    assert!(matches!(s.visibility_state(), Visibility::Hidden));
    assert_eq!(s.current_results().len(), 0);
    assert_eq!(s.issued_count(), 1);
    assert_eq!(s.applied_count(), 0);
}

#[test]
fn double_toggle_returns_to_hidden_without_sticking() {
    let mut s = Session::new();
    let first = s.handle_event(VisEvent::HotkeyToggle, true);
    assert!(matches!(first, TransitionOutcome::Applied));
    assert!(matches!(s.visibility_state(), Visibility::Visible));
    let second = s.handle_event(VisEvent::HotkeyToggle, true);
    assert!(matches!(second, TransitionOutcome::Applied));
    assert!(matches!(s.visibility_state(), Visibility::Hidden));
}

#[test]
fn focus_loss_hides_and_is_idempotent() {
    let mut s = Session::new();
    s.handle_event(VisEvent::HotkeyToggle, true);
    let hide = s.handle_event(VisEvent::FocusLost, true);
    assert!(matches!(hide, TransitionOutcome::Applied));
    assert!(matches!(s.visibility_state(), Visibility::Hidden));
    let again = s.handle_event(VisEvent::FocusLost, true);
    assert!(matches!(again, TransitionOutcome::Ignored));
    assert!(matches!(s.visibility_state(), Visibility::Hidden));
}

#[test]
fn failed_primitive_leaves_logical_state_unchanged() {
    let mut s = Session::new();
    let out = s.handle_event(VisEvent::HotkeyToggle, false);
    assert!(matches!(out, TransitionOutcome::PrimitiveFailed));
    assert!(matches!(s.visibility_state(), Visibility::Hidden));
}

#[test]
fn explicit_close_hides_visible_window() {
    let mut s = Session::new();
    s.handle_event(VisEvent::HotkeyToggle, true);
    let out = s.close(true);
    assert!(matches!(out, TransitionOutcome::Applied));
    assert!(matches!(s.visibility_state(), Visibility::Hidden));
}

#[test]
fn sequence_numbers_increase_monotonically() {
    let mut s = Session::new();
    assert_eq!(s.issue_query(), 1);
    assert_eq!(s.issue_query(), 2);
    assert_eq!(s.issue_query(), 3);
}

#[test]
fn stale_completion_is_discarded() {
    // query "c" gets seq 1, query "ca" gets seq 2; "ca" completes first,
    // then "c" arrives late and must not overwrite it.
    let mut s = Session::new();
    let seq_c = s.issue_query();
    let seq_ca = s.issue_query();
    let results_ca = vec![opt(0, 1)];
    let results_c = vec![opt(0, 1), opt(1, 2), opt(2, 3)];
    assert!(s.complete_query(seq_ca, results_ca));
    assert!(!s.complete_query(seq_c, results_c));
    assert_eq!(s.current_results().len(), 1);
    assert_eq!(s.applied_count(), seq_ca);
}

#[test]
fn newer_completion_replaces_older_one() {
    let mut s = Session::new();
    let a = s.issue_query();
    let b = s.issue_query();
    assert!(s.complete_query(a, vec![opt(0, 1)]));
    assert!(s.complete_query(b, vec![opt(0, 1), opt(1, 2)]));
    assert_eq!(s.current_results().len(), 2);
    assert_eq!(s.applied_count(), b);
}

#[test]
fn submit_out_of_bounds_returns_invalid_selection() {
    let mut s = Session::new();
    let seq = s.issue_query();
    s.complete_query(seq, vec![opt(0, 42)]);
    let r = s.submit(1);
    assert!(matches!(r, Err(LaunchError::InvalidSelection)));
    let empty = Session::new();
    let r2 = empty.submit(0);
    assert!(matches!(r2, Err(LaunchError::InvalidSelection)));
}

#[test]
fn valid_submit_then_launch_success_hides_exactly_once() {
    let mut s = Session::new();
    s.handle_event(VisEvent::HotkeyToggle, true);
    let seq = s.issue_query();
    s.complete_query(seq, vec![opt(0, 42)]);
    let r = s.submit(0);
    assert!(matches!(r, Ok(42)));
    // the orchestrating layer invokes the item, then reports success
    let out = s.handle_event(VisEvent::LaunchSuccess, true);
    assert!(matches!(out, TransitionOutcome::Applied));
    assert!(matches!(s.visibility_state(), Visibility::Hidden));
    // a duplicate completion event is a no-op, not a second transition
    let dup = s.handle_event(VisEvent::LaunchSuccess, true);
    assert!(matches!(dup, TransitionOutcome::Ignored));
    assert!(matches!(s.visibility_state(), Visibility::Hidden));
}

#[test]
fn validate_selection_returns_selected_item_id() {
    let results = vec![opt(0, 7), opt(1, 9)];
    assert!(matches!(validate_selection(1, &results), Ok(9)));
    assert!(matches!(
        validate_selection(2, &results),
        Err(LaunchError::InvalidSelection)
    ));
}

#[test]
fn launch_outcome_surfaces_failure_reason() {
    let ok = launch_outcome(true, String::new());
    assert!(matches!(ok, LaunchResult::Success));
    let failed = launch_outcome(false, String::from("no such program"));
    match failed {
        LaunchResult::Failure(reason) => assert_eq!(reason, "no such program"),
        LaunchResult::Success => panic!("expected a failure"),
    }
}
