use backon::{BackoffBuilder, ExponentialBackoff, ExponentialBuilder};
use std::time::Duration;
use vstd::prelude::*;

verus! {

#[verifier::external_type_specification]
#[verifier::external_body]
pub struct ExExponentialBackoff(ExponentialBackoff);

/// The delays that a backoff has still to hand out, in order.
pub uninterp spec fn backoff_delays(b: ExponentialBackoff) -> Seq<Duration>;

/// Relies on backon's `ExponentialBuilder` (default factor and cap, no jitter,
/// no total-delay limit) with `with_min_delay` and `with_max_times`: the built
/// backoff hands out exactly `max_times` delays before it is exhausted.
#[verifier::external_body]
pub(crate) fn exponential_backoff(max_times: usize, base_ms: u64) -> (r: ExponentialBackoff)
    ensures
        backoff_delays(r).len() == max_times,
{
    ExponentialBuilder::default()
        .with_min_delay(Duration::from_millis(base_ms))
        .with_max_times(max_times)
        .build()
}

/// Relies on `Iterator::next` of backon's `ExponentialBackoff`: it hands out
/// the next remaining delay, and nothing once all have been handed out.
#[verifier::external_body]
pub(crate) fn next_delay(b: &mut ExponentialBackoff) -> (r: Option<Duration>)
    ensures
        backoff_delays(*old(b)).len() == 0 ==> r is None && backoff_delays(*final(b)).len()
            == 0,
        backoff_delays(*old(b)).len() > 0 ==> r == Some(backoff_delays(*old(b))[0])
            && backoff_delays(*final(b)) == backoff_delays(*old(b)).drop_first(),
{
    b.next()
}

} // verus!
