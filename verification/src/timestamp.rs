//! Epochs as timely orders and advances them. A record's epoch is a `u64`
//! timestamp of the dataflow.

use timely::order::PartialOrder;
use timely::progress::timestamp::PathSummary;
use vstd::prelude::*;

verus! {

/// Calls `PartialOrder::less_equal` of timely on two epochs. Not proved:
/// that on `u64` it is `<=`.
#[verifier::external_body]
pub(crate) fn not_after(a: u64, b: u64) -> (r: bool)
    ensures
        r == (a <= b),
{
    PartialOrder::less_equal(&a, &b)
}

/// Calls `PathSummary::results_in` of timely, with `step` as the summary of
/// a path and `epoch` as the timestamp that goes along it. Not proved: that
/// on `u64` it gives the sum, and nothing where the sum is beyond `u64`.
#[verifier::external_body]
pub(crate) fn advanced(epoch: u64, step: u64) -> (r: Option<u64>)
    ensures
        r == if epoch + step <= u64::MAX {
            Some((epoch + step) as u64)
        } else {
            None::<u64>
        },
{
    PathSummary::results_in(&step, &epoch)
}

} // verus!
