//! The catalog client's retry policy.
//!
//! One request is attempted up to six times. Only a rate-limit answer — HTTP
//! status 429 — is retried, after a Fibonacci-shaped pause starting at one
//! second; every other failure is terminal at once. The driver that performs
//! the attempts lives outside the library; it consults `retry_after_failure`
//! after every failed attempt and sleeps for the returned delay.

use vstd::prelude::*;

use crate::errors::Error;
use crate::errors::STATUS_TOO_MANY_REQUESTS;

verus! {

/// How many times one request is attempted in all.
pub const MAX_ATTEMPTS: usize = 6;

/// The pause before retry number `i` (counted from zero): a Fibonacci run
/// starting at one second — 1s, 1s, 2s, 3s, 5s, 8s, and so on.
pub open spec fn spec_backoff_ms(i: int) -> int
    decreases i,
{
    if i <= 1 {
        1000
    } else {
        spec_backoff_ms(i - 1) + spec_backoff_ms(i - 2)
    }
}

/// Whether this failure is the catalog asking the client to slow down.
pub open spec fn spec_rate_limited(e: Error) -> bool {
    e == Error::HttpStatus(STATUS_TOO_MANY_REQUESTS)
}

/// What the policy answers after failed attempt number `attempt` (1-based):
/// the pause before the next attempt, or nothing when the failure is
/// terminal or the attempt budget is spent.
pub open spec fn spec_retry_after(attempt: int, e: Error) -> Option<int> {
    if spec_rate_limited(e) && 1 <= attempt < MAX_ATTEMPTS as int {
        Some(spec_backoff_ms(attempt - 1))
    } else {
        None
    }
}

/// The pause before retry number `i`, in milliseconds.
pub fn backoff_delay_ms(i: usize) -> (r: u64)
    requires
        i < MAX_ATTEMPTS,
    ensures
        r as int == spec_backoff_ms(i as int),
{
    proof {
        reveal_with_fuel(spec_backoff_ms, 7);
    }
    if i <= 1 {
        1000
    } else if i == 2 {
        2000
    } else if i == 3 {
        3000
    } else if i == 4 {
        5000
    } else {
        8000
    }
}

/// Consulted after failed attempt number `attempt` (1-based): on a rate
/// limit with budget left, the pause in milliseconds before the next
/// attempt; on anything else, nothing — the failure is terminal.
pub fn retry_after_failure(attempt: usize, e: &Error) -> (r: Option<u64>)
    requires
        1 <= attempt,
    ensures
        match r {
            Some(d) => spec_retry_after(attempt as int, *e) == Some(d as int),
            None => spec_retry_after(attempt as int, *e).is_none(),
        },
{
    let rate_limited = match e {
        Error::HttpStatus(code) => *code == STATUS_TOO_MANY_REQUESTS,
        _ => false,
    };
    if rate_limited && attempt < MAX_ATTEMPTS {
        Some(backoff_delay_ms(attempt - 1))
    } else {
        None
    }
}

/// The overall result of one request, given what each attempt (from number
/// `attempt` on) would answer: `None` is success, `Some(e)` the recorded
/// failure of that attempt. The run ends at the first success, at the first
/// terminal failure, and when the attempt budget is spent; a run that asks
/// for more attempts than were recorded counts as a connection failure.
pub open spec fn retry_outcome_from(outcomes: Seq<Option<Error>>, attempt: int) -> Option<Error>
    decreases outcomes.len(),
{
    if outcomes.len() == 0 {
        Some(Error::Transport)
    } else {
        match outcomes[0] {
            None => None,
            Some(e) => {
                if spec_retry_after(attempt, e).is_some() {
                    retry_outcome_from(outcomes.drop_first(), attempt + 1)
                } else {
                    Some(e)
                }
            },
        }
    }
}

/// Run the retry policy against a recorded sequence of per-attempt answers,
/// as a simulated catalog endpoint provides. Returns the overall result.
#[verifier::loop_isolation(false)]
pub fn drive_retry(outcomes: &Vec<Option<Error>>) -> (r: Option<Error>)
    ensures
        r == retry_outcome_from(outcomes@, 1),
{
    let mut i: usize = 0;
    let n = outcomes.len();
    proof {
        assert(outcomes@.subrange(0, n as int) =~= outcomes@);
    }
    while i < n
        invariant
            i <= n,
            i + 1 <= usize::MAX,
            retry_outcome_from(outcomes@, 1) == retry_outcome_from(
                outcomes@.subrange(i as int, n as int),
                i as int + 1,
            ),
        decreases n - i,
    {
        let ghost rem = outcomes@.subrange(i as int, n as int);
        proof {
            assert(rem[0] == outcomes@[i as int]);
            assert(rem.drop_first() =~= outcomes@.subrange(i as int + 1, n as int));
        }
        match &outcomes[i] {
            None => {
                return None;
            },
            Some(e) => {
                match retry_after_failure(i + 1, e) {
                    Some(_delay) => {},
                    None => {
                        return Some(*e);
                    },
                }
            },
        }
        i += 1;
    }
    proof {
        assert(outcomes@.subrange(n as int, n as int) =~= Seq::<Option<Error>>::empty());
    }
    Some(Error::Transport)
}

/// **Retry, then succeed.** When every attempt before `n` (with `n` within
/// the six-attempt budget) answers a rate limit and attempt `n` succeeds,
/// the request as a whole succeeds.
pub proof fn lemma_retry_then_succeed(outcomes: Seq<Option<Error>>, attempt: int)
    requires
        outcomes.len() >= 1,
        1 <= attempt,
        attempt + outcomes.len() - 1 <= MAX_ATTEMPTS as int,
        forall|k: int|
            0 <= k < outcomes.len() - 1 ==> outcomes[k] == Some(
                Error::HttpStatus(STATUS_TOO_MANY_REQUESTS),
            ),
        outcomes[outcomes.len() - 1].is_none(),
    ensures
        retry_outcome_from(outcomes, attempt).is_none(),
    decreases outcomes.len(),
{
    if outcomes.len() > 1 {
        assert(outcomes[0] == Some(Error::HttpStatus(STATUS_TOO_MANY_REQUESTS)));
        assert forall|k: int|
            0 <= k < outcomes.drop_first().len() - 1 implies outcomes.drop_first()[k] == Some(
            Error::HttpStatus(STATUS_TOO_MANY_REQUESTS),
        ) by {
            assert(outcomes.drop_first()[k] == outcomes[k + 1]);
        }
        lemma_retry_then_succeed(outcomes.drop_first(), attempt + 1);
    }
}

/// **Rate-limited to exhaustion.** When all six attempts answer a rate
/// limit, the request fails with that rate-limit error.
pub proof fn lemma_rate_limit_exhausted(outcomes: Seq<Option<Error>>, attempt: int)
    requires
        1 <= attempt,
        attempt + outcomes.len() - 1 == MAX_ATTEMPTS as int,
        outcomes.len() >= 1,
        forall|k: int|
            0 <= k < outcomes.len() ==> outcomes[k] == Some(
                Error::HttpStatus(STATUS_TOO_MANY_REQUESTS),
            ),
    ensures
        retry_outcome_from(outcomes, attempt) == Some(
            Error::HttpStatus(STATUS_TOO_MANY_REQUESTS),
        ),
    decreases outcomes.len(),
{
    if outcomes.len() > 1 {
        assert forall|k: int|
            0 <= k < outcomes.drop_first().len() implies outcomes.drop_first()[k] == Some(
            Error::HttpStatus(STATUS_TOO_MANY_REQUESTS),
        ) by {
            assert(outcomes.drop_first()[k] == outcomes[k + 1]);
        }
        lemma_rate_limit_exhausted(outcomes.drop_first(), attempt + 1);
    }
}

/// **No retry on other failures.** A first attempt that fails with anything
/// but a rate limit is terminal at once: no second attempt is consulted.
pub proof fn lemma_no_retry_on_other_error(outcomes: Seq<Option<Error>>, e: Error)
    requires
        outcomes.len() >= 1,
        outcomes[0] == Some(e),
        !spec_rate_limited(e),
    ensures
        retry_outcome_from(outcomes, 1) == Some(e),
{
}

} // verus!
