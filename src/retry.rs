//! Retry Policy: bounded retries with exponential backoff.
use vstd::prelude::*;
use vstd::arithmetic::power2;
use vstd::arithmetic::power2::{lemma2_to64, lemma2_to64_rest};

verus! {

/// The largest retry budget whose backoff delays still fit in a `u64`
/// number of seconds.
pub const MAX_RETRIES_LIMIT: u32 = 63;

/// `2^k`.
pub open spec fn pow2(k: nat) -> nat
    decreases k,
{
    if k == 0 {
        1
    } else {
        2 * pow2((k - 1) as nat)
    }
}

/// The total time slept after `k` failed attempts that were each followed by a
/// retry: `2^1 + 2^2 + ... + 2^k`.
pub open spec fn total_backoff(k: nat) -> nat
    decreases k,
{
    if k == 0 {
        0
    } else {
        total_backoff((k - 1) as nat) + pow2(k)
    }
}

/// What to do after a failed attempt.
#[derive(Clone, Copy, Debug, PartialEq, Eq, Structural)]
pub enum RetryDecision {
    /// Sleep this many seconds, then try again.
    Retry { delay_secs: u64 },
    /// The budget is spent: report the most recent error.
    GiveUp,
}

/// The decision after the `failures`-th consecutive failure of one operation
/// under a budget of `max_retries` retries.
pub open spec fn decision(max_retries: nat, failures: nat) -> RetryDecision {
    if failures <= max_retries {
        RetryDecision::Retry { delay_secs: pow2(failures) as u64 }
    } else {
        RetryDecision::GiveUp
    }
}

/// A retry budget: an operation is called at most `max_retries + 1` times.
#[derive(Clone, Copy, Debug, PartialEq, Eq, Structural)]
pub struct RetryPolicy {
    pub max_retries: u32,
}

impl RetryPolicy {
    pub open spec fn well_formed(&self) -> bool {
        self.max_retries <= MAX_RETRIES_LIMIT
    }

    pub fn new(max_retries: u32) -> (r: RetryPolicy)
        requires
            max_retries <= MAX_RETRIES_LIMIT,
        ensures
            r.max_retries == max_retries,
            r.well_formed(),
    {
        RetryPolicy { max_retries }
    }

    /// The number of calls made when every attempt fails.
    pub fn max_attempts(&self) -> (r: u64)
        ensures
            r == self.max_retries + 1,
    {
        self.max_retries as u64 + 1
    }

    /// Retry after the first `max_retries` consecutive failures, sleeping
    /// `2^k` seconds after the `k`-th; give up after the next one.
    pub fn after_failure(&self, failures: u32) -> (r: RetryDecision)
        requires
            self.well_formed(),
            failures >= 1,
        ensures
            r == decision(self.max_retries as nat, failures as nat),
    {
        if failures <= self.max_retries {
            RetryDecision::Retry { delay_secs: backoff_secs(failures) }
        } else {
            RetryDecision::GiveUp
        }
    }
}

/// The delay in seconds before the attempt that follows the `failures`-th
/// failure: `2^failures`.
pub fn backoff_secs(failures: u32) -> (r: u64)
    requires
        failures <= MAX_RETRIES_LIMIT,
    ensures
        r == pow2(failures as nat),
{
    let mut r: u64 = 1;
    let mut k: u32 = 0;
    while k < failures
        invariant
            k <= failures <= MAX_RETRIES_LIMIT,
            r == pow2(k as nat),
        decreases failures - k,
    {
        proof {
            lemma_pow2_bound(k as nat);
        }
        r = r * 2;
        k = k + 1;
    }
    r
}

/// `2^k` is at most `2^62` for the exponents below 63.
proof fn lemma_pow2_bound(k: nat)
    requires
        k < 63,
    ensures
        pow2(k) <= 0x4000_0000_0000_0000,
{
    lemma_pow2_monotone(k, 62);
    lemma_pow2_agrees(62);
    lemma2_to64_rest();
}

/// `pow2` agrees with vstd's power of two.
proof fn lemma_pow2_agrees(k: nat)
    ensures
        pow2(k) == power2::pow2(k),
    decreases k,
{
    if k > 0 {
        lemma_pow2_agrees((k - 1) as nat);
        power2::lemma_pow2_unfold(k);
    } else {
        lemma2_to64();
    }
}

/// `2^k` fits in a `u64` for the exponents a policy admits.
pub proof fn lemma_pow2_fits(k: nat)
    requires
        k <= MAX_RETRIES_LIMIT,
    ensures
        pow2(k) <= u64::MAX,
{
    lemma_pow2_monotone(k, 63);
    lemma_pow2_agrees(63);
    lemma2_to64_rest();
}

proof fn lemma_pow2_monotone(a: nat, b: nat)
    requires
        a <= b,
    ensures
        pow2(a) <= pow2(b),
    decreases b,
{
    if a < b {
        lemma_pow2_monotone(a, (b - 1) as nat);
    }
}

/// Sleeping `2^1 + ... + 2^k` seconds adds up to `2^(k+1) - 2`.
pub proof fn lemma_total_backoff(k: nat)
    ensures
        total_backoff(k) == pow2(k + 1) - 2,
    decreases k,
{
    assert(pow2(k + 1) == 2 * pow2(k));
    if k > 0 {
        lemma_total_backoff((k - 1) as nat);
        assert(pow2(k) == 2 * pow2((k - 1) as nat));
    }
}

} // verus!
