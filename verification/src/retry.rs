use vstd::prelude::*;

verus! {

/// How many times one solution may be submitted: the first try and
/// `mint_retries` more, capped at `u32::MAX`.
pub open spec fn max_attempts_spec(mint_retries: u32) -> u32 {
    if mint_retries == u32::MAX {
        u32::MAX
    } else {
        (mint_retries + 1) as u32
    }
}

pub fn max_mint_attempts(mint_retries: u32) -> (n: u32)
    ensures
        n == max_attempts_spec(mint_retries),
        n >= 1,
{
    mint_retries.saturating_add(1)
}

/// What one submission of a solution came to.
#[derive(Debug, Clone, Copy, PartialEq, Eq)]
pub enum MintAttemptResult {
    /// The API accepted the mint.
    Accepted,
    /// The request failed on the way (connection, timeout, body): worth
    /// sending again.
    TransportFailure,
    /// Any other failure, such as an HTTP error status: not sent again.
    Refused,
}

/// What to do after a submission.
#[derive(Debug, Clone, Copy, PartialEq, Eq)]
pub enum MintRetryAction {
    /// The mint is done after `attempts` submissions.
    Done { attempts: u32 },
    /// Wait `delay_factor` times the retry delay, then submit again as
    /// attempt `next_attempt`.
    Retry { next_attempt: u32, delay_factor: u32 },
    /// Every attempt failed on the transport; give up after `attempts`.
    Exhausted { attempts: u32 },
    /// Pass the failure on as it is.
    Fail,
}

pub open spec fn mint_retry_spec(attempt: u32, max_attempts: u32, result: MintAttemptResult) -> MintRetryAction {
    match result {
        MintAttemptResult::Accepted => MintRetryAction::Done { attempts: attempt },
        MintAttemptResult::TransportFailure => if attempt < max_attempts {
            MintRetryAction::Retry { next_attempt: (attempt + 1) as u32, delay_factor: attempt }
        } else {
            MintRetryAction::Exhausted { attempts: attempt }
        },
        MintAttemptResult::Refused => MintRetryAction::Fail,
    }
}

/// Decides what follows submission number `attempt`: done on acceptance;
/// on a transport failure, another submission after `attempt` times the
/// delay while attempts are left, else give up; any other failure ends the
/// mint at once.
pub fn next_mint_action(attempt: u32, max_attempts: u32, result: MintAttemptResult) -> (action: MintRetryAction)
    requires
        1 <= attempt <= max_attempts,
    ensures
        action == mint_retry_spec(attempt, max_attempts, result),
{
    match result {
        MintAttemptResult::Accepted => MintRetryAction::Done { attempts: attempt },
        MintAttemptResult::TransportFailure => {
            if attempt < max_attempts {
                MintRetryAction::Retry { next_attempt: attempt + 1, delay_factor: attempt }
            } else {
                MintRetryAction::Exhausted { attempts: attempt }
            }
        },
        MintAttemptResult::Refused => MintRetryAction::Fail,
    }
}

/// The attempt numbers that a mint goes through when its submissions come
/// to `results`, starting with attempt 1; the run stops at the first result
/// that does not lead to a retry.
pub open spec fn attempts_run(results: Seq<MintAttemptResult>, attempt: u32, max_attempts: u32) -> Seq<u32>
    decreases results.len(),
{
    if results.len() == 0 {
        seq![]
    } else {
        match mint_retry_spec(attempt, max_attempts, results[0]) {
            MintRetryAction::Retry { next_attempt, .. } => seq![attempt] + attempts_run(
                results.drop_first(),
                next_attempt,
                max_attempts,
            ),
            _ => seq![attempt],
        }
    }
}

/// One solution is submitted at most `mint_retries + 1` times, whatever the
/// submissions come to, and the attempts are numbered 1, 2, ... in turn.
pub proof fn lemma_mint_attempts_bounded(results: Seq<MintAttemptResult>, mint_retries: u32)
    ensures
        attempts_run(results, 1, max_attempts_spec(mint_retries)).len() <= max_attempts_spec(mint_retries),
        forall|i: int|
            0 <= i < attempts_run(results, 1, max_attempts_spec(mint_retries)).len() ==> #[trigger] attempts_run(
                results,
                1,
                max_attempts_spec(mint_retries),
            )[i] == i + 1,
{
    lemma_attempts_run_from(results, 1, max_attempts_spec(mint_retries));
}

proof fn lemma_attempts_run_from(results: Seq<MintAttemptResult>, attempt: u32, max_attempts: u32)
    requires
        1 <= attempt <= max_attempts,
    ensures
        attempts_run(results, attempt, max_attempts).len() <= max_attempts - attempt + 1,
        forall|i: int|
            0 <= i < attempts_run(results, attempt, max_attempts).len() ==> #[trigger] attempts_run(
                results,
                attempt,
                max_attempts,
            )[i] == attempt + i,
    decreases results.len(),
{
    if results.len() > 0 {
        if mint_retry_spec(attempt, max_attempts, results[0]) is Retry {
            lemma_attempts_run_from(results.drop_first(), (attempt + 1) as u32, max_attempts);
            let rest = attempts_run(results.drop_first(), (attempt + 1) as u32, max_attempts);
            assert forall|i: int| 0 <= i < 1 + rest.len() implies #[trigger] (seq![attempt] + rest)[i] == attempt + i by {
                if i > 0 {
                    assert((seq![attempt] + rest)[i] == rest[i - 1]);
                }
            }
        }
    }
}

/// A mint whose every submission fails on the transport is submitted
/// exactly `mint_retries + 1` times (the first try and every retry; at most
/// `u32::MAX`), and then given up.
pub proof fn lemma_transport_failures_use_every_retry(results: Seq<MintAttemptResult>, mint_retries: u32)
    requires
        results.len() >= max_attempts_spec(mint_retries),
        forall|i: int| 0 <= i < results.len() ==> #[trigger] results[i] == MintAttemptResult::TransportFailure,
    ensures
        mint_retries < u32::MAX ==> attempts_run(results, 1, max_attempts_spec(mint_retries)).len()
            == mint_retries + 1,
        mint_retries == u32::MAX ==> attempts_run(results, 1, max_attempts_spec(mint_retries)).len()
            == u32::MAX,
{
    lemma_failures_run_to_the_end(results, 1, max_attempts_spec(mint_retries));
}

proof fn lemma_failures_run_to_the_end(results: Seq<MintAttemptResult>, attempt: u32, max_attempts: u32)
    requires
        1 <= attempt <= max_attempts,
        results.len() >= max_attempts - attempt + 1,
        forall|i: int| 0 <= i < results.len() ==> #[trigger] results[i] == MintAttemptResult::TransportFailure,
    ensures
        attempts_run(results, attempt, max_attempts).len() == max_attempts - attempt + 1,
    decreases results.len(),
{
    assert(results[0] == MintAttemptResult::TransportFailure);
    if attempt < max_attempts {
        let rest = results.drop_first();
        assert forall|i: int| 0 <= i < rest.len() implies #[trigger] rest[i] == MintAttemptResult::TransportFailure by {
            assert(rest[i] == results[i + 1]);
        }
        lemma_failures_run_to_the_end(rest, (attempt + 1) as u32, max_attempts);
    }
}

/// A refused submission is never sent again.
pub proof fn lemma_refused_mint_is_not_retried(attempt: u32, max_attempts: u32)
    ensures
        mint_retry_spec(attempt, max_attempts, MintAttemptResult::Refused) == MintRetryAction::Fail,
{
}

/// What a transport error of the HTTP client says of itself.
#[derive(Debug, Clone, Copy, PartialEq, Eq)]
pub struct TransportErrorKind {
    /// The error came with an HTTP status.
    pub has_status: bool,
    pub is_connect: bool,
    pub is_timeout: bool,
    pub is_request: bool,
    pub is_body: bool,
    pub is_decode: bool,
}

pub open spec fn is_retryable_transport_spec(kind: TransportErrorKind) -> bool {
    !kind.has_status && (kind.is_connect || kind.is_timeout || kind.is_request || kind.is_body || kind.is_decode)
}

pub open spec fn is_retryable_cause(cause: Option<TransportErrorKind>) -> bool {
    match cause {
        Some(kind) => is_retryable_transport_spec(kind),
        None => false,
    }
}

/// A transport error is worth a retry when it carries no HTTP status and
/// failed in connecting, timing out, sending, or reading or decoding the
/// body.
pub fn is_retryable_reqwest_transport(kind: TransportErrorKind) -> (retry: bool)
    ensures
        retry == is_retryable_transport_spec(kind),
{
    if kind.has_status {
        return false;
    }
    kind.is_connect || kind.is_timeout || kind.is_request || kind.is_body || kind.is_decode
}

/// A failed mint is retried when some error in its chain of causes is a
/// retryable transport error (`None`: a cause that is no transport error).
pub fn is_retryable_mint_transport(chain: &Vec<Option<TransportErrorKind>>) -> (retry: bool)
    ensures
        retry == exists|i: int| 0 <= i < chain@.len() && is_retryable_cause(#[trigger] chain@[i]),
{
    let mut i: usize = 0;
    while i < chain.len()
        invariant
            i <= chain@.len(),
            forall|j: int| 0 <= j < i ==> !is_retryable_cause(#[trigger] chain@[j]),
        decreases chain@.len() - i,
    {
        match chain[i] {
            Some(kind) => {
                if is_retryable_reqwest_transport(kind) {
                    assert(is_retryable_cause(chain@[i as int]));
                    return true;
                }
            },
            None => {},
        }
        i = i + 1;
    }
    false
}

/// How a mining round ended.
#[derive(Debug, Clone, Copy, PartialEq, Eq)]
pub enum RoundOutcome {
    Succeeded,
    /// The API refused a request with this HTTP status.
    ApiFailure { status: u16 },
    /// Any other failure.
    OtherFailure,
}

/// What the miner does after a round.
#[derive(Debug, Clone, Copy, PartialEq, Eq)]
pub enum RoundAction {
    /// The session cookie was refused: stop with an error.
    StopUnauthorized,
    /// `--once` was given: stop.
    Finish,
    /// Wait out the minimum delay, then start the next round.
    NextRound,
}

pub const HTTP_UNAUTHORIZED: u16 = 401;

/// After a round: an API refusal with 401 ends the miner with an error, any
/// other failure is reported and the loop goes on; `--once` stops after the
/// first round.
pub fn after_round(outcome: RoundOutcome, once: bool) -> (action: RoundAction)
    ensures
        outcome == (RoundOutcome::ApiFailure { status: HTTP_UNAUTHORIZED }) ==> action == RoundAction::StopUnauthorized,
        outcome != (RoundOutcome::ApiFailure { status: HTTP_UNAUTHORIZED }) && once ==> action == RoundAction::Finish,
        outcome != (RoundOutcome::ApiFailure { status: HTTP_UNAUTHORIZED }) && !once ==> action == RoundAction::NextRound,
{
    match outcome {
        RoundOutcome::ApiFailure { status } => {
            if status == HTTP_UNAUTHORIZED {
                return RoundAction::StopUnauthorized;
            }
        },
        _ => {},
    }
    if once {
        RoundAction::Finish
    } else {
        RoundAction::NextRound
    }
}

/// How long to wait before the next round, in nanoseconds: what is left of
/// the minimum delay once the round's own time is taken off.
pub fn round_pause_nanos(elapsed_nanos: u128, min_delay_nanos: u128) -> (pause: u128)
    ensures
        elapsed_nanos < min_delay_nanos ==> pause == min_delay_nanos - elapsed_nanos,
        elapsed_nanos >= min_delay_nanos ==> pause == 0,
{
    if elapsed_nanos < min_delay_nanos {
        min_delay_nanos - elapsed_nanos
    } else {
        0
    }
}

} // verus!
