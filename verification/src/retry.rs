//! Bounded retry with exponential backoff for the metadata request.

use vstd::arithmetic::power2::{lemma2_to64_rest, lemma_pow2_strictly_increases, lemma_pow2_unfold, pow2};
use vstd::prelude::*;

verus! {

/// How many times a metadata request is attempted at most.
pub const MAX_RETRY: u32 = 3;

/// Seconds to wait after the failure of attempt `attempt` (counted from 0):
/// two to the power of `attempt`.
pub open spec fn backoff_secs(attempt: nat) -> nat {
    pow2(attempt)
}

/// Seconds waited in all once the attempts `0..failures` have failed and
/// each was followed by its wait.
pub open spec fn total_backoff(failures: nat) -> nat
    decreases failures,
{
    if failures == 0 {
        0
    } else {
        total_backoff((failures - 1) as nat) + backoff_secs((failures - 1) as nat)
    }
}

/// What to do once an attempt has ended.
#[derive(Debug)]
pub enum RetryStep<T, E> {
    /// The attempt succeeded: hand the content on.
    Done(T),
    /// The attempt failed: wait this many seconds, then try again.
    Wait(u64),
    /// The last attempt failed: hand the failure on.
    GiveUp(E),
}

/// The step that follows attempt `retry_count` (counted from 0) with the given outcome.
pub open spec fn next_step<T, E>(retry_count: u32, outcome: Result<T, E>) -> RetryStep<T, E> {
    match outcome {
        Ok(content) => RetryStep::Done(content),
        Err(e) => if retry_count + 1 < MAX_RETRY {
            RetryStep::Wait(backoff_secs(retry_count as nat) as u64)
        } else {
            RetryStep::GiveUp(e)
        },
    }
}

/// Two to the power of `attempt`.
fn backoff(attempt: u32) -> (secs: u64)
    requires
        attempt < 64,
    ensures
        secs == backoff_secs(attempt as nat),
{
    let mut secs: u64 = 1;
    let mut i: u32 = 0;
    proof {
        lemma2_to64_rest();
        assert(pow2(0) == 1) by {
            vstd::arithmetic::power2::lemma2_to64();
        }
    }
    while i < attempt
        invariant
            i <= attempt < 64,
            secs == pow2(i as nat),
            pow2(63) == 0x8000000000000000,
        decreases attempt - i,
    {
        proof {
            lemma_pow2_strictly_increases(i as nat, 63);
            lemma_pow2_unfold((i + 1) as nat);
        }
        secs = secs * 2;
        i += 1;
    }
    secs
}

/// Decides what follows attempt `retry_count` (counted from 0): success ends
/// the run, a failure is followed by a wait of `2^retry_count` seconds and
/// another attempt, and the failure of the last attempt is final.
pub fn after_attempt<T, E>(retry_count: u32, outcome: Result<T, E>) -> (step: RetryStep<T, E>)
    ensures
        step == next_step(retry_count, outcome),
        step matches RetryStep::Wait(secs) ==> secs == backoff_secs(retry_count as nat),
{
    match outcome {
        Ok(content) => RetryStep::Done(content),
        Err(e) => {
            if retry_count < MAX_RETRY - 1 {
                RetryStep::Wait(backoff(retry_count))
            } else {
                RetryStep::GiveUp(e)
            }
        },
    }
}

/// The waits add up to one less than the next wait: after `failures` failed
/// attempts, `2^failures - 1` seconds have been spent waiting.
pub proof fn lemma_total_backoff(failures: nat)
    ensures
        total_backoff(failures) + 1 == backoff_secs(failures),
    decreases failures,
{
    if failures > 0 {
        lemma_total_backoff((failures - 1) as nat);
        lemma_pow2_unfold(failures);
    } else {
        vstd::arithmetic::power2::lemma2_to64();
    }
}

/// A run never waits after its last attempt, and never asks for an attempt
/// beyond `MAX_RETRY`.
pub proof fn lemma_attempts_bounded<T, E>(retry_count: u32, outcome: Result<T, E>)
    ensures
        next_step(retry_count, outcome) is Wait ==> retry_count + 1 < MAX_RETRY,
        outcome is Ok ==> next_step(retry_count, outcome) is Done,
        outcome is Err && retry_count + 1 >= MAX_RETRY ==> next_step(retry_count, outcome) is GiveUp,
{
}

} // verus!
