use sodigy::inter_mir::rounds::{Decision, RoundOutcome, Rounds, MAX_ROUNDS};

fn stop(has_error: bool, cannot_infer: bool, too_many_rounds: bool) -> Decision {
    Decision::Stop { has_error, cannot_infer, too_many_rounds }
}

#[test]
fn rounds_start_with_no_progress_recorded() {
    let r = Rounds::new();
    assert_eq!(r, Rounds { round: 0, prev_blocked: usize::MAX });
}

#[test]
fn a_failed_round_ends_the_pass() {
    let mut r = Rounds::new();
    assert_eq!(r.after_round(RoundOutcome::Failed), stop(true, false, false));
    assert_eq!(r.round, 0);
}

#[test]
fn rounds_go_on_while_blocked_variables_get_fewer() {
    let mut r = Rounds::new();
    assert_eq!(r.after_round(RoundOutcome::Settled { blocked: 3 }), Decision::Continue);
    assert_eq!(r, Rounds { round: 1, prev_blocked: 3 });
    assert_eq!(r.after_round(RoundOutcome::Dispatched), Decision::Continue);
    assert_eq!(r, Rounds { round: 2, prev_blocked: 3 });
    assert_eq!(r.after_round(RoundOutcome::Settled { blocked: 2 }), Decision::Continue);
    assert_eq!(r.after_round(RoundOutcome::Settled { blocked: 2 }), stop(true, true, false));
}

#[test]
fn a_round_without_blocked_variables_ends_the_pass() {
    let mut r = Rounds::new();
    assert_eq!(r.after_round(RoundOutcome::Dispatched), Decision::Continue);
    assert_eq!(r.after_round(RoundOutcome::Settled { blocked: 0 }), stop(false, false, false));
}

#[test]
fn no_more_than_the_last_round_runs() {
    let mut r = Rounds::new();
    for _ in 0..MAX_ROUNDS - 1 {
        assert_eq!(r.after_round(RoundOutcome::Dispatched), Decision::Continue);
    }
    assert_eq!(r.round, MAX_ROUNDS - 1);
    assert_eq!(r.after_round(RoundOutcome::Dispatched), stop(true, false, true));
}
