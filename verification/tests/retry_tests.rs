use rpow2_authorized_miner::retry::{
    MintAttemptResult, MintRetryAction, RoundAction, RoundOutcome, TransportErrorKind,
    after_round, is_retryable_mint_transport, is_retryable_reqwest_transport, max_mint_attempts,
    next_mint_action, round_pause_nanos,
};

/// Drives the retry decisions over the given submission results; gives the
/// final action and the number of submissions made.
fn drive(results: &[MintAttemptResult], mint_retries: u32) -> (MintRetryAction, usize) {
    let max_attempts = max_mint_attempts(mint_retries);
    let mut attempt = 1;
    let mut submissions = 0;
    loop {
        let result = results[submissions];
        submissions += 1;
        match next_mint_action(attempt, max_attempts, result) {
            MintRetryAction::Retry { next_attempt, delay_factor } => {
                assert_eq!(delay_factor, attempt);
                attempt = next_attempt;
            }
            other => return (other, submissions),
        }
    }
}

#[test]
fn transport_failure_retries_and_then_succeeds() {
    let results = [MintAttemptResult::TransportFailure, MintAttemptResult::Accepted];
    assert_eq!(drive(&results, 2), (MintRetryAction::Done { attempts: 2 }, 2));
}

#[test]
fn transport_failure_exhausts_retries() {
    let results = [MintAttemptResult::TransportFailure; 5];
    assert_eq!(drive(&results, 2), (MintRetryAction::Exhausted { attempts: 3 }, 3));
    assert_eq!(drive(&results, 0), (MintRetryAction::Exhausted { attempts: 1 }, 1));
}

#[test]
fn refused_mint_does_not_retry() {
    let results = [MintAttemptResult::Refused, MintAttemptResult::Accepted];
    assert_eq!(drive(&results, 2), (MintRetryAction::Fail, 1));
}

#[test]
fn max_attempts_saturate() {
    assert_eq!(max_mint_attempts(0), 1);
    assert_eq!(max_mint_attempts(2), 3);
    assert_eq!(max_mint_attempts(u32::MAX), u32::MAX);
}

fn kind(has_status: bool, is_timeout: bool) -> TransportErrorKind {
    TransportErrorKind {
        has_status,
        is_connect: false,
        is_timeout,
        is_request: false,
        is_body: false,
        is_decode: false,
    }
}

#[test]
fn transport_errors_with_a_status_are_not_retried() {
    assert!(is_retryable_reqwest_transport(kind(false, true)));
    assert!(!is_retryable_reqwest_transport(kind(true, true)));
    assert!(!is_retryable_reqwest_transport(kind(false, false)));
    assert!(is_retryable_mint_transport(&vec![None, Some(kind(false, true))]));
    assert!(!is_retryable_mint_transport(&vec![None, Some(kind(true, true))]));
    assert!(!is_retryable_mint_transport(&vec![]));
}

#[test]
fn unauthorized_rounds_stop_the_miner() {
    assert_eq!(
        after_round(RoundOutcome::ApiFailure { status: 401 }, false),
        RoundAction::StopUnauthorized
    );
    assert_eq!(
        after_round(RoundOutcome::ApiFailure { status: 401 }, true),
        RoundAction::StopUnauthorized
    );
    assert_eq!(
        after_round(RoundOutcome::ApiFailure { status: 429 }, false),
        RoundAction::NextRound
    );
    assert_eq!(after_round(RoundOutcome::OtherFailure, true), RoundAction::Finish);
    assert_eq!(after_round(RoundOutcome::Succeeded, false), RoundAction::NextRound);
}

#[test]
fn rounds_wait_out_the_minimum_delay() {
    assert_eq!(round_pause_nanos(1_000, 3_000), 2_000);
    assert_eq!(round_pause_nanos(3_000, 3_000), 0);
    assert_eq!(round_pause_nanos(5_000, 3_000), 0);
}
