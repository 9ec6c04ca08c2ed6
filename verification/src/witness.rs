//! Who takes part in an epoch, and who leads it.

use std::collections::HashSet;
use vstd::prelude::*;

verus! {

/// Chooses the witnesses and the leader of every epoch. Users of the library implement it; the
/// library relies on nothing about the answers.
pub trait WitnessSelectorLike {
    /// Whether the selector has an answer for `epoch`. It is never asked about another one.
    open spec fn knows(&self, epoch: u64) -> bool {
        true
    }

    /// The node uids of the witnesses of `epoch`.
    fn epoch_witnesses(&self, epoch: u64) -> (uids: &HashSet<u64>)
        requires
            self.knows(epoch),
    ;

    /// The node uid of the leader of `epoch`.
    fn epoch_leader(&self, epoch: u64) -> (uid: u64)
        requires
            self.knows(epoch),
    ;
}

/// Whether `selector` may name `total` witnesses when it is asked for those of `epoch`.
pub open spec fn may_count<S: WitnessSelectorLike>(selector: &S, epoch: u64, total: nat) -> bool {
    exists|uids: &HashSet<u64>| #[trigger]
        call_ensures(S::epoch_witnesses, (selector, epoch), uids) && uids@.len() == total
}

/// Whether `selector` may name `leader` when it is asked for the leader of `epoch`.
pub open spec fn may_lead<S: WitnessSelectorLike>(selector: &S, epoch: u64, leader: u64) -> bool {
    call_ensures(S::epoch_leader, (selector, epoch), leader)
}

} // verus!
