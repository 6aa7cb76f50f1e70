use vstd::prelude::*;
use rand::Rng;

verus! {

/// `rand::Rng::gen_range` over the inclusive range `low..=high`, drawn from
/// `rand::thread_rng()`. The value depends on chance; the crate documents
/// that it lies in the range and that an empty range panics, hence
/// `low <= high` is required.
#[verifier::external_body]
fn random_between(low: u64, high: u64) -> (r: u64)
    requires
        low <= high,
    ensures
        low <= r <= high,
{
    rand::thread_rng().gen_range(low..=high)
}

/// A randomised election timeout, in milliseconds, within `[min_ms, max_ms]`.
pub fn election_timeout_ms(min_ms: u64, max_ms: u64) -> (ms: u64)
    requires
        min_ms <= max_ms,
    ensures
        min_ms <= ms <= max_ms,
{
    random_between(min_ms, max_ms)
}

} // verus!
