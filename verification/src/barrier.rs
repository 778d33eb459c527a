//! The barrier of an epoch: whether any input channel can still deliver a
//! record of that epoch or of an earlier one.

use crate::timestamp::not_after;
use vstd::prelude::*;

verus! {

/// The frontiers that a vector of channel frontiers holds.
pub open spec fn channels(frontiers: Seq<Vec<u64>>) -> Seq<Seq<u64>> {
    Seq::new(frontiers.len(), |c: int| frontiers[c]@)
}

/// Whether a channel with this frontier can still deliver a record of
/// `epoch`: it can if some epoch of the frontier is not after `epoch`. A
/// channel with an empty frontier delivers nothing more.
pub open spec fn can_arrive(frontier: Seq<u64>, epoch: u64) -> bool {
    exists|i: int| 0 <= i < frontier.len() && (#[trigger] frontier[i]) <= epoch
}

/// The barrier of `epoch` holds when no channel can still deliver a record
/// of `epoch`.
pub open spec fn barrier(frontiers: Seq<Seq<u64>>, epoch: u64) -> bool {
    forall|c: int| 0 <= c < frontiers.len() ==> !can_arrive(#[trigger] frontiers[c], epoch)
}

/// A barrier that holds for an epoch holds for every earlier epoch.
pub proof fn lemma_barrier_earlier(frontiers: Seq<Seq<u64>>, epoch: u64, earlier: u64)
    requires
        barrier(frontiers, epoch),
        earlier <= epoch,
    ensures
        barrier(frontiers, earlier),
{
    assert forall|c: int| 0 <= c < frontiers.len() implies !can_arrive(
        #[trigger] frontiers[c],
        earlier,
    ) by {
        if can_arrive(frontiers[c], earlier) {
            let i = choose|i: int|
                0 <= i < frontiers[c].len() && (#[trigger] frontiers[c][i]) <= earlier;
            assert(frontiers[c][i] <= epoch);
            assert(can_arrive(frontiers[c], epoch));
        }
    }
}

/// The barrier holds exactly when every epoch of every frontier is after
/// `epoch`.
pub proof fn lemma_barrier_watermarks(frontiers: Seq<Seq<u64>>, epoch: u64)
    ensures
        barrier(frontiers, epoch) <==> forall|c: int, i: int|
            0 <= c < frontiers.len() && 0 <= i < frontiers[c].len() ==> epoch < (
            #[trigger] frontiers[c][i]),
{
    if barrier(frontiers, epoch) {
        assert forall|c: int, i: int|
            0 <= c < frontiers.len() && 0 <= i < frontiers[c].len() implies epoch < (
        #[trigger] frontiers[c][i]) by {
            assert(!can_arrive(frontiers[c], epoch));
        }
    }
}

/// Whether a channel with this frontier can still deliver a record of
/// `epoch`.
pub fn can_still_arrive(frontier: &Vec<u64>, epoch: u64) -> (b: bool)
    ensures
        b == can_arrive(frontier@, epoch),
{
    let mut i: usize = 0;
    while i < frontier.len()
        invariant
            i <= frontier.len(),
            forall|j: int| 0 <= j < i ==> (#[trigger] frontier@[j]) > epoch,
        decreases frontier.len() - i,
    {
        if not_after(frontier[i], epoch) {
            return true;
        }
        i += 1;
    }
    false
}

/// Whether the barrier of `epoch` holds over these channels.
pub fn barrier_holds(frontiers: &Vec<Vec<u64>>, epoch: u64) -> (b: bool)
    ensures
        b == barrier(channels(frontiers@), epoch),
{
    let mut c: usize = 0;
    while c < frontiers.len()
        invariant
            c <= frontiers.len(),
            forall|k: int| 0 <= k < c ==> !can_arrive(#[trigger] channels(frontiers@)[k], epoch),
        decreases frontiers.len() - c,
    {
        if can_still_arrive(&frontiers[c], epoch) {
            assert(can_arrive(channels(frontiers@)[c as int], epoch));
            return false;
        }
        c += 1;
    }
    true
}

} // verus!
