//! The messages of the DAG.

use crate::lemmas;
use crate::maps;
use crate::maps::{EpochMap, EpochMapMap};
use crate::model;
use crate::model::{DagView, MessageView};
use crate::types::SignedMessageData;
use crate::witness;
use crate::witness::WitnessSelectorLike;
use std::collections::{HashMap, HashSet};
use vstd::prelude::*;

verus! {

broadcast use vstd::std_specs::hash::group_hash_axioms;

/// Refers to one message of a [`Dag`]. Two references are equal exactly when they refer to the
/// same message.
#[derive(Clone, Copy, Debug, PartialEq, Eq, Structural)]
pub struct MessageRef {
    index: usize,
}

impl MessageRef {
    /// The place of the message among those of its DAG.
    pub closed spec fn place(self) -> int {
        self.index as int
    }

    /// References are equal exactly when they refer to the same message.
    pub proof fn law_references_identify_messages(self, other: MessageRef)
        ensures
            self.place() >= 0,
            self == other <==> self.place() == other.place(),
    {
    }
}

/// Represents the message of the DAG, `T` is the payload parameter. For in-shard TxFlow and
/// beacon-chain TxFlow `T` takes different values.
#[derive(Debug)]
pub struct Message<T> {
    pub data: SignedMessageData<T>,
    parents: Vec<MessageRef>,
    // The following fields are computed based on the approved messages.
    /// The computed epoch of the message. If this message is restored from the epoch block then
    /// the epoch is taken from the data.
    pub computed_epoch: Option<u64>,
    /// Computed flag of whether this message is representative.
    computed_is_representative: Option<bool>,
    /// Computed flag of whether this message is a kickout.
    computed_is_kickout: Option<bool>,
    // The following are the approved messages, grouped by different criteria.
    /// Epoch -> messages that have that epoch, grouped as:
    /// owner_uid who created the message -> the message.
    approved_epochs: EpochMapMap,
    /// Epoch -> a/any representative of that epoch (if there are several forked representative
    /// messages then any of them).
    approved_representatives: EpochMap,
    /// Epoch -> a/any kickout message of a representative with epoch Epoch (if there are several
    /// forked kickout messages then any of them).
    approved_kickouts: EpochMap,
    /// Epoch -> endorsements that endorse a/any (if there are several forked representative
    /// messages then any of them) representative message of that epoch, grouped as:
    /// owner_uid who created endorsement -> the endorsement message.
    approved_endorsements: EpochMapMap,
    /// Epoch -> promises that approve a/any (if there are several forked kickout messages then any
    /// of them) kickout message (it by the def. has epoch Epoch+1) that kicks out representative
    /// message of epoch Epoch, grouped as:
    /// owner_uid who created the promise -> the promise message.
    approved_promises: EpochMapMap,
}

impl<T> View for Message<T> {
    type V = MessageView<T>;

    closed spec fn view(&self) -> MessageView<T> {
        MessageView {
            data: self.data,
            parents: self.parents@,
            computed_epoch: self.computed_epoch,
            computed_is_representative: self.computed_is_representative,
            computed_is_kickout: self.computed_is_kickout,
            approved_epochs: maps::nested_view(self.approved_epochs@),
            approved_representatives: self.approved_representatives@,
            approved_kickouts: self.approved_kickouts@,
            approved_endorsements: maps::nested_view(self.approved_endorsements@),
            approved_promises: maps::nested_view(self.approved_promises@),
        }
    }
}

/// A DAG of messages. It owns them; they refer to each other by [`MessageRef`].
#[derive(Debug)]
pub struct Dag<T> {
    messages: Vec<Message<T>>,
}

impl<T> View for Dag<T> {
    type V = DagView<T>;

    closed spec fn view(&self) -> DagView<T> {
        DagView { messages: Seq::new(self.messages@.len(), |i: int| self.messages@[i]@) }
    }
}

impl<T> Dag<T> {
    /// A DAG without messages.
    pub fn new() -> (dag: Self)
        ensures
            dag@.messages == Seq::<MessageView<T>>::empty(),
            dag@.well_formed(),
    {
        Dag { messages: Vec::new() }
    }

    /// The message that `message` refers to.
    pub fn get(&self, message: MessageRef) -> (found: &Message<T>)
        requires
            self@.holds(message),
        ensures
            found@ == self@.at(message),
    {
        &self.messages[message.index]
    }

    /// The data of the message that `message` refers to, to be changed.
    pub fn data_mut(&mut self, message: MessageRef) -> (data: &mut SignedMessageData<T>)
        requires
            old(self)@.well_formed(),
            old(self)@.holds(message),
        ensures
            *data == old(self)@.at(message).data,
            final(self)@ == old(self)@.with(
                message,
                (MessageView { data: *final(data), ..old(self)@.at(message) }),
            ),
            final(self)@.well_formed(),
    {
        proof {
            let own = self@.at(message);
            assert forall|data: SignedMessageData<T>|
                (#[trigger] self@.with(message, (MessageView { data, ..own }))).well_formed() by {
                assert(own.refers_within(self@.messages.len()));
            }
        }
        &mut self.messages[message.index].data
    }

    /// Sets the computed epoch of the message that `message` refers to.
    pub fn set_computed_epoch(&mut self, message: MessageRef, epoch: Option<u64>)
        requires
            old(self)@.well_formed(),
            old(self)@.holds(message),
        ensures
            final(self)@ == old(self)@.with(
                message,
                (MessageView { computed_epoch: epoch, ..old(self)@.at(message) }),
            ),
            final(self)@.well_formed(),
    {
        self.messages[message.index].computed_epoch = epoch;
        assert(self@ =~= old(self)@.with(
            message,
            (MessageView { computed_epoch: epoch, ..old(self)@.at(message) }),
        ));
    }
}

impl<T> Message<T> {
    /// What the owner put into the message.
    pub fn data(&self) -> (data: &SignedMessageData<T>)
        ensures
            *data == self@.data,
    {
        &self.data
    }

    /// The epoch of this message, once that has been computed.
    pub fn computed_epoch(&self) -> (epoch: Option<u64>)
        ensures
            epoch == self@.computed_epoch,
    {
        self.computed_epoch
    }

    /// The messages that this one approves directly, in the order in which they were linked.
    pub fn parents(&self) -> (parents: &Vec<MessageRef>)
        ensures
            parents@ == self@.parents,
    {
        &self.parents
    }

    /// Whether this message is representative, once that has been computed.
    pub fn computed_is_representative(&self) -> (representative: Option<bool>)
        ensures
            representative == self@.computed_is_representative,
    {
        self.computed_is_representative
    }

    /// Whether this message is a kickout, once that has been computed.
    pub fn computed_is_kickout(&self) -> (kickout: Option<bool>)
        ensures
            kickout == self@.computed_is_kickout,
    {
        self.computed_is_kickout
    }

    /// The approved messages by epoch and owner.
    pub fn approved_epochs(&self) -> (epochs: &EpochMapMap)
        ensures
            maps::nested_view(epochs@) == self@.approved_epochs,
    {
        &self.approved_epochs
    }

    /// The approved representatives by epoch.
    pub fn approved_representatives(&self) -> (representatives: &EpochMap)
        ensures
            representatives@ == self@.approved_representatives,
    {
        &self.approved_representatives
    }

    /// The approved kickouts by the epoch that they kick out.
    pub fn approved_kickouts(&self) -> (kickouts: &EpochMap)
        ensures
            kickouts@ == self@.approved_kickouts,
    {
        &self.approved_kickouts
    }

    /// The approved endorsements by epoch and owner.
    pub fn approved_endorsements(&self) -> (endorsements: &EpochMapMap)
        ensures
            maps::nested_view(endorsements@) == self@.approved_endorsements,
    {
        &self.approved_endorsements
    }

    /// The approved promises by the epoch that is kicked out, and owner.
    pub fn approved_promises(&self) -> (promises: &EpochMapMap)
        ensures
            maps::nested_view(promises@) == self@.approved_promises,
    {
        &self.approved_promises
    }

    /// Files `owners`, the messages of an epoch by owner, as approved in `epoch` by the message
    /// that `this` refers to, in place of those that it approved there before.
    pub fn insert_approved_epoch(
        dag: &mut Dag<T>,
        this: MessageRef,
        epoch: u64,
        owners: HashMap<u64, MessageRef>,
    )
        requires
            old(dag)@.well_formed(),
            old(dag)@.holds(this),
            model::within(owners@, old(dag)@.messages.len()),
        ensures
            final(dag)@ == old(dag)@.with(
                this,
                (MessageView {
                    approved_epochs: old(dag)@.at(this).approved_epochs.insert(epoch, owners@),
                    ..old(dag)@.at(this)
                }),
            ),
            final(dag)@.well_formed(),
    {
        dag.messages[this.index].approved_epochs.insert(epoch, owners);
        assert(dag@.at(this).approved_epochs =~= old(dag)@.at(this).approved_epochs.insert(
            epoch,
            owners@,
        ));
        assert(dag@ =~= old(dag)@.with(
            this,
            (MessageView {
                approved_epochs: old(dag)@.at(this).approved_epochs.insert(epoch, owners@),
                ..old(dag)@.at(this)
            }),
        ));
    }

    /// Files `owners`, endorsements by owner, as approved for `epoch` by the message that `this`
    /// refers to, in place of those that it approved there before.
    pub fn insert_approved_endorsements(
        dag: &mut Dag<T>,
        this: MessageRef,
        epoch: u64,
        owners: HashMap<u64, MessageRef>,
    )
        requires
            old(dag)@.well_formed(),
            old(dag)@.holds(this),
            model::within(owners@, old(dag)@.messages.len()),
        ensures
            final(dag)@ == old(dag)@.with(
                this,
                (MessageView {
                    approved_endorsements: old(dag)@.at(this).approved_endorsements.insert(
                        epoch,
                        owners@,
                    ),
                    ..old(dag)@.at(this)
                }),
            ),
            final(dag)@.well_formed(),
    {
        dag.messages[this.index].approved_endorsements.insert(epoch, owners);
        assert(dag@.at(this).approved_endorsements =~= old(dag)@.at(
            this,
        ).approved_endorsements.insert(epoch, owners@));
        assert(dag@ =~= old(dag)@.with(
            this,
            (MessageView {
                approved_endorsements: old(dag)@.at(this).approved_endorsements.insert(
                    epoch,
                    owners@,
                ),
                ..old(dag)@.at(this)
            }),
        ));
    }

    /// Files `owners`, promises by owner, as approved for the kickout of `epoch` by the message
    /// that `this` refers to, in place of those that it approved there before.
    pub fn insert_approved_promises(
        dag: &mut Dag<T>,
        this: MessageRef,
        epoch: u64,
        owners: HashMap<u64, MessageRef>,
    )
        requires
            old(dag)@.well_formed(),
            old(dag)@.holds(this),
            model::within(owners@, old(dag)@.messages.len()),
        ensures
            final(dag)@ == old(dag)@.with(
                this,
                (MessageView {
                    approved_promises: old(dag)@.at(this).approved_promises.insert(
                        epoch,
                        owners@,
                    ),
                    ..old(dag)@.at(this)
                }),
            ),
            final(dag)@.well_formed(),
    {
        dag.messages[this.index].approved_promises.insert(epoch, owners);
        assert(dag@.at(this).approved_promises =~= old(dag)@.at(
            this,
        ).approved_promises.insert(epoch, owners@));
        assert(dag@ =~= old(dag)@.with(
            this,
            (MessageView {
                approved_promises: old(dag)@.at(this).approved_promises.insert(
                    epoch,
                    owners@,
                ),
                ..old(dag)@.at(this)
            }),
        ));
    }

    /// Files `kickout` as the approved kickout of `epoch` by the message that `this` refers to, in
    /// place of the one that it approved before.
    pub fn insert_approved_kickout(
        dag: &mut Dag<T>,
        this: MessageRef,
        epoch: u64,
        kickout: MessageRef,
    )
        requires
            old(dag)@.well_formed(),
            old(dag)@.holds(this),
            old(dag)@.holds(kickout),
        ensures
            final(dag)@ == old(dag)@.with(
                this,
                (MessageView {
                    approved_kickouts: old(dag)@.at(this).approved_kickouts.insert(epoch, kickout),
                    ..old(dag)@.at(this)
                }),
            ),
            final(dag)@.well_formed(),
    {
        dag.messages[this.index].approved_kickouts.insert(epoch, kickout);
        assert(dag@ =~= old(dag)@.with(
            this,
            (MessageView {
                approved_kickouts: old(dag)@.at(this).approved_kickouts.insert(epoch, kickout),
                ..old(dag)@.at(this)
            }),
        ));
    }

    /// Adds a message with the given data to the DAG. It has no parents yet.
    pub fn new(dag: &mut Dag<T>, data: SignedMessageData<T>) -> (message: MessageRef)
        requires
            old(dag)@.well_formed(),
        ensures
            message.place() == old(dag)@.messages.len(),
            final(dag)@ == old(dag)@.added(MessageView::fresh(data)),
            final(dag)@.well_formed(),
    {
        let message = MessageRef { index: dag.messages.len() };
        dag.messages.push(
            Message {
                data,
                parents: Vec::new(),
                computed_epoch: None,
                computed_is_representative: None,
                computed_is_kickout: None,
                approved_epochs: HashMap::new(),
                approved_representatives: HashMap::new(),
                approved_kickouts: HashMap::new(),
                approved_endorsements: HashMap::new(),
                approved_promises: HashMap::new(),
            },
        );
        assert(dag@.messages.last() =~= MessageView::fresh(data));
        assert(dag@ =~= old(dag)@.added(MessageView::fresh(data)));
        message
    }

    /// Makes `parent` the last one of the parents of `child`.
    pub fn link(dag: &mut Dag<T>, parent: MessageRef, child: MessageRef)
        requires
            old(dag)@.well_formed(),
            old(dag)@.holds(parent),
            old(dag)@.holds(child),
        ensures
            final(dag)@ == old(dag)@.with(child, old(dag)@.at(child).linked(parent)),
            final(dag)@.well_formed(),
    {
        dag.messages[child.index].parents.push(parent);
        assert(dag@ =~= old(dag)@.with(child, old(dag)@.at(child).linked(parent)));
    }

    /// Takes `parent` out of the parents of `child`, as often as it is there. The other parents
    /// keep their order.
    pub fn unlink(dag: &mut Dag<T>, parent: MessageRef, child: MessageRef)
        requires
            old(dag)@.well_formed(),
            old(dag)@.holds(child),
        ensures
            final(dag)@ == old(dag)@.with(child, old(dag)@.at(child).unlinked(parent)),
            final(dag)@.well_formed(),
    {
        let mut kept: Vec<MessageRef> = Vec::new();
        let ghost parents = dag@.at(child).parents;
        let mut i: usize = 0;
        while i < dag.messages[child.index].parents.len()
            invariant
                *dag == *old(dag),
                dag@.holds(child),
                parents == dag@.at(child).parents,
                i <= parents.len(),
                kept@ == parents.take(i as int).filter(model::other_than(parent)),
            decreases parents.len() - i,
        {
            let p = dag.messages[child.index].parents[i];
            assert(parents.take(i + 1).drop_last() =~= parents.take(i as int));
            reveal(Seq::filter);
            if p != parent {
                kept.push(p);
            }
            i += 1;
        }
        assert(parents.take(i as int) =~= parents);
        proof {
            lemmas::lemma_filter_keeps_members(parents, model::other_than(parent));
        }
        dag.messages[child.index].parents = kept;
        assert(dag@ =~= old(dag)@.with(child, old(dag)@.at(child).unlinked(parent)));
    }

    /// Computes the aggregated data from the parents and updates the message.
    pub fn aggregate_parents(dag: &mut Dag<T>, this: MessageRef)
        requires
            old(dag)@.well_formed(),
            old(dag)@.holds(this),
            !old(dag)@.at(this).parents.contains(this),
        ensures
            final(dag)@ == old(dag)@.with(
                this,
                old(dag)@.at(this).aggregated(old(dag)@.parents_of(this)),
            ),
            final(dag)@.well_formed(),
    {
        let mut epochs: EpochMapMap = HashMap::new();
        let mut representatives: EpochMap = HashMap::new();
        let mut kickouts: EpochMap = HashMap::new();
        let mut endorsements: EpochMapMap = HashMap::new();
        let mut promises: EpochMapMap = HashMap::new();
        let ghost own = dag@.at(this);
        let ghost parents = dag@.parents_of(this);
        let message = &mut dag.messages[this.index];
        std::mem::swap(&mut epochs, &mut message.approved_epochs);
        std::mem::swap(&mut representatives, &mut message.approved_representatives);
        std::mem::swap(&mut kickouts, &mut message.approved_kickouts);
        std::mem::swap(&mut endorsements, &mut message.approved_endorsements);
        std::mem::swap(&mut promises, &mut message.approved_promises);
        let ghost emptied = dag.messages@;
        assert forall|j: int| 0 <= j < parents.len() implies {
            &&& 0 <= (#[trigger] own.parents[j]).place() < emptied.len()
            &&& emptied[own.parents[j].place()]@ == parents[j]
        } by {
            assert(own.refers_within(emptied.len()));
            assert(own.parents[j] != this);
        }
        let mut i: usize = 0;
        while i < dag.messages[this.index].parents.len()
            invariant
                dag.messages@ == emptied,
                this.index < emptied.len(),
                emptied[this.index as int].parents@ == own.parents,
                parents.len() == own.parents.len(),
                forall|j: int| 0 <= j < parents.len() ==> {
                    &&& 0 <= (#[trigger] own.parents[j]).place() < emptied.len()
                    &&& emptied[own.parents[j].place()]@ == parents[j]
                },
                i <= parents.len(),
                maps::nested_view(epochs@) == model::overlaid_nested(
                    own.approved_epochs,
                    model::epochs_of(parents).take(i as int),
                ),
                representatives@ == model::overlaid(
                    own.approved_representatives,
                    model::representatives_of(parents).take(i as int),
                ),
                kickouts@ == model::overlaid(
                    own.approved_kickouts,
                    model::kickouts_of(parents).take(i as int),
                ),
                maps::nested_view(endorsements@) == model::overlaid_nested(
                    own.approved_endorsements,
                    model::endorsements_of(parents).take(i as int),
                ),
                maps::nested_view(promises@) == model::overlaid_nested(
                    own.approved_promises,
                    model::promises_of(parents).take(i as int),
                ),
            decreases parents.len() - i,
        {
            let p = dag.messages[this.index].parents[i];
            let parent = &dag.messages[p.index];
            maps::extend_nested(&mut epochs, &parent.approved_epochs);
            maps::extend(&mut representatives, &parent.approved_representatives);
            maps::extend(&mut kickouts, &parent.approved_kickouts);
            maps::extend_nested(&mut endorsements, &parent.approved_endorsements);
            maps::extend_nested(&mut promises, &parent.approved_promises);
            proof {
                let n = i as int;
                lemmas::lemma_take_one_more(model::epochs_of(parents), n);
                lemmas::lemma_take_one_more(model::representatives_of(parents), n);
                lemmas::lemma_take_one_more(model::kickouts_of(parents), n);
                lemmas::lemma_take_one_more(model::endorsements_of(parents), n);
                lemmas::lemma_take_one_more(model::promises_of(parents), n);
            }
            i += 1;
        }
        let message = &mut dag.messages[this.index];
        message.approved_epochs = epochs;
        message.approved_representatives = representatives;
        message.approved_kickouts = kickouts;
        message.approved_endorsements = endorsements;
        message.approved_promises = promises;
        proof {
            lemmas::lemma_take_all(model::epochs_of(parents));
            lemmas::lemma_take_all(model::representatives_of(parents));
            lemmas::lemma_take_all(model::kickouts_of(parents));
            lemmas::lemma_take_all(model::endorsements_of(parents));
            lemmas::lemma_take_all(model::promises_of(parents));
            assert(dag@.at(this) =~= own.aggregated(parents));
            assert(dag@ =~= old(dag)@.with(this, own.aggregated(parents)));
            lemmas::lemma_aggregated_within(old(dag)@, this);
        }
    }

    /// Determines the previous epoch of the current owner. Otherwise returns the `starting_epoch`.
    pub fn prev_epoch(dag: &Dag<T>, this: MessageRef, starting_epoch: u64) -> (prev_epoch: u64)
        requires
            dag@.well_formed(),
            dag@.holds(this),
        ensures
            prev_epoch == model::prev_epoch_of(
                dag@.parents_of(this),
                dag@.at(this).owner_uid(),
                starting_epoch,
            ),
    {
        let ghost parents = dag@.parents_of(this);
        let ghost count = dag@.messages.len();
        assert(dag@.at(this).refers_within(count));
        let message = &dag.messages[this.index];
        let owner_uid = message.data.body.owner_uid;
        // Go over the past messages that were created by the current owner for their last epoch.
        let mut last: Option<u64> = None;
        let mut i: usize = 0;
        while i < message.parents.len()
            invariant
                message@ == dag@.at(this),
                message@.refers_within(count),
                count == dag@.messages.len(),
                parents == dag@.parents_of(this),
                i <= parents.len(),
                last matches Some(epoch) ==> model::approved_in(
                    parents.take(i as int),
                    owner_uid,
                    epoch,
                ),
                forall|epoch: u64| #[trigger]
                    model::approved_in(parents.take(i as int), owner_uid, epoch) ==> last is Some
                        && epoch <= last->0,
            decreases parents.len() - i,
        {
            let p = message.parents[i];
            let in_parent = maps::last_epoch(&dag.messages[p.index].approved_epochs, owner_uid);
            proof {
                lemmas::lemma_approved_in_one_more(parents, i as int, owner_uid);
            }
            last = match (last, in_parent) {
                (Some(a), Some(b)) => if a < b {
                    Some(b)
                } else {
                    Some(a)
                },
                (Some(a), None) => Some(a),
                (None, b) => b,
            };
            i += 1;
        }
        proof {
            lemmas::lemma_take_all(parents);
        }
        match last {
            Some(epoch) => epoch,
            None => starting_epoch,
        }
    }

    /// Determines whether the epoch of the current message should increase: whether the parents
    /// approve messages of more than two thirds as many nodes in `prev_epoch` as it has witnesses.
    pub fn should_promote<P: WitnessSelectorLike>(
        dag: &Dag<T>,
        this: MessageRef,
        prev_epoch: u64,
        witness_selector: &P,
    ) -> (promote: bool)
        requires
            dag@.well_formed(),
            dag@.holds(this),
            witness_selector.knows(prev_epoch),
        ensures
            exists|total: nat| #[trigger]
                witness::may_count(witness_selector, prev_epoch, total) && promote
                    == model::promotes(dag@.parents_of(this), prev_epoch, total),
    {
        let witnesses = witness_selector.epoch_witnesses(prev_epoch);
        let total_witnesses = witnesses.len();
        assert(witness::may_count(witness_selector, prev_epoch, total_witnesses as nat));
        Self::should_promote_among(dag, this, prev_epoch, total_witnesses)
    }

    /// Determines whether the epoch of the current message should increase when `prev_epoch` has
    /// `total_witnesses` witnesses.
    pub fn should_promote_among(
        dag: &Dag<T>,
        this: MessageRef,
        prev_epoch: u64,
        total_witnesses: usize,
    ) -> (promote: bool)
        requires
            dag@.well_formed(),
            dag@.holds(this),
        ensures
            promote == model::promotes(
                dag@.parents_of(this),
                prev_epoch,
                total_witnesses as nat,
            ),
    {
        let ghost parents = dag@.parents_of(this);
        let ghost count = dag@.messages.len();
        assert(dag@.at(this).refers_within(count));
        let message = &dag.messages[this.index];
        let mut existing_witnesses: HashSet<u64> = HashSet::new();
        assert(existing_witnesses@ =~= model::owners_in(parents.take(0), prev_epoch));
        let mut i: usize = 0;
        while i < message.parents.len()
            invariant
                message@ == dag@.at(this),
                message@.refers_within(count),
                count == dag@.messages.len(),
                parents == dag@.parents_of(this),
                i <= parents.len(),
                existing_witnesses@ == model::owners_in(parents.take(i as int), prev_epoch),
                !model::supermajority(existing_witnesses@.len(), total_witnesses as nat),
            decreases parents.len() - i,
        {
            let p = message.parents[i];
            proof {
                lemmas::lemma_owners_in_one_more(parents, i as int, prev_epoch);
            }
            if let Some(owners) = dag.messages[p.index].approved_epochs.get(&prev_epoch) {
                maps::collect_keys(&mut existing_witnesses, owners);
                assert(existing_witnesses@ =~= model::owners_in(parents.take(i + 1), prev_epoch));
                if exceeds_two_thirds(existing_witnesses.len(), total_witnesses) {
                    proof {
                        lemmas::lemma_owners_in_prefix(parents, i + 1, prev_epoch);
                    }
                    return true;
                }
            }
            assert(existing_witnesses@ =~= model::owners_in(parents.take(i + 1), prev_epoch));
            i += 1;
        }
        proof {
            lemmas::lemma_take_all(parents);
        }
        false
    }

    /// Determines whether this message is a representative message.
    /// The message is a representative of epoch X if this is the first message of the epoch's
    /// leader in the epoch X that satisfies either of the conditions:
    /// a) X = 0.
    /// b) It approves the representative message of the epoch X-1.
    /// c) It approves the kickout message for the epoch X-1 and it approves >2/3 promises for that
    ///    kickout message.
    ///
    /// The promises are counted against the witnesses of the epoch X, in which the kickout message
    /// was created. The selector is asked for them only where the promises decide.
    pub fn is_representative<P: WitnessSelectorLike>(
        dag: &Dag<T>,
        this: MessageRef,
        witness_selector: &P,
    ) -> (representative: bool)
        requires
            dag@.holds(this),
            dag@.at(this).computed_epoch is Some,
            witness_selector.knows(dag@.at(this).computed_epoch->0),
        ensures
            exists|leader: u64, total: nat|
                {
                    &&& #[trigger] model::may_answer(
                        dag@.at(this),
                        dag@.at(this).computed_epoch->0,
                        witness_selector,
                        leader,
                        total,
                    )
                    &&& representative == dag@.at(this).represents(
                        this,
                        dag@.at(this).computed_epoch->0,
                        leader,
                        total,
                    )
                },
    {
        let epoch = dag.messages[this.index].computed_epoch.unwrap();
        let (leader, total) = Self::leader_and_witnesses(dag, this, epoch, witness_selector);
        Self::is_representative_of(dag, this, epoch, leader, total)
    }

    /// Determines whether this message is a representative message of `epoch` when `leader` leads
    /// that epoch and it has `total_witnesses` witnesses.
    pub fn is_representative_of(
        dag: &Dag<T>,
        this: MessageRef,
        epoch: u64,
        leader: u64,
        total_witnesses: usize,
    ) -> (representative: bool)
        requires
            dag@.holds(this),
        ensures
            representative == dag@.at(this).represents(
                this,
                epoch,
                leader,
                total_witnesses as nat,
            ),
    {
        let message = &dag.messages[this.index];
        let is_leader = leader == message.data.body.owner_uid;
        if !is_leader {
            // If it is not a leader then don't bother.
            return false;
        }
        if let Some(representative) = message.approved_representatives.get(&epoch) {
            if *representative != this {
                // The leader's first such message is another one.
                return false;
            }
        }
        if epoch == 0 {
            // Scenario (a).
            true
        } else if message.approved_representatives.contains_key(&(epoch - 1)) {
            // Scenario (b).
            true
        } else if message.approved_kickouts.contains_key(&(epoch - 1)) {
            // Scenario (c).
            match message.approved_promises.get(&(epoch - 1)) {
                Some(promises) => exceeds_two_thirds(promises.len(), total_witnesses),
                None => false,
            }
        } else {
            false
        }
    }

    /// Asks the selector for the leader of `epoch`, and for the number of its witnesses where the
    /// promises decide whether the message represents it.
    fn leader_and_witnesses<P: WitnessSelectorLike>(
        dag: &Dag<T>,
        this: MessageRef,
        epoch: u64,
        witness_selector: &P,
    ) -> (answer: (u64, usize))
        requires
            dag@.holds(this),
            witness_selector.knows(epoch),
        ensures
            model::may_answer(
                dag@.at(this),
                epoch,
                witness_selector,
                answer.0,
                answer.1 as nat,
            ),
    {
        let message = &dag.messages[this.index];
        let leader = witness_selector.epoch_leader(epoch);
        let weighs_promises = leader == message.data.body.owner_uid && epoch > 0
            && !message.approved_representatives.contains_key(&(epoch - 1))
            && message.approved_kickouts.contains_key(&(epoch - 1));
        if weighs_promises {
            let witnesses = witness_selector.epoch_witnesses(epoch);
            let total_witnesses = witnesses.len();
            assert(witness::may_count(witness_selector, epoch, total_witnesses as nat));
            (leader, total_witnesses)
        } else {
            (leader, 0)
        }
    }

    /// Determines whether this message is a kickout message.
    /// The message is a kickout message for epoch X-1 if this is the first message of the epoch's
    /// leader in the epoch X that does not approve the representative message of the epoch X-1.
    /// A message cannot be both a representative message of epoch X and a kickout message of epoch
    /// X-1, because the former takes the precedence.
    pub fn is_kickout<P: WitnessSelectorLike>(
        dag: &Dag<T>,
        this: MessageRef,
        witness_selector: &P,
    ) -> (kickout: bool)
        requires
            dag@.holds(this),
            dag@.at(this).computed_epoch is Some,
            witness_selector.knows(dag@.at(this).computed_epoch->0),
        ensures
            exists|leader: u64, total: nat|
                {
                    &&& #[trigger] model::may_answer(
                        dag@.at(this),
                        dag@.at(this).computed_epoch->0,
                        witness_selector,
                        leader,
                        total,
                    )
                    &&& kickout == dag@.at(this).kicks_out(
                        this,
                        dag@.at(this).computed_epoch->0,
                        leader,
                        total,
                    )
                },
    {
        let epoch = dag.messages[this.index].computed_epoch.unwrap();
        let (leader, total) = Self::leader_and_witnesses(dag, this, epoch, witness_selector);
        Self::is_kickout_of(dag, this, epoch, leader, total)
    }

    /// Determines whether this message is a kickout message for the epoch before `epoch` when
    /// `leader` leads `epoch` and it has `total_witnesses` witnesses.
    pub fn is_kickout_of(
        dag: &Dag<T>,
        this: MessageRef,
        epoch: u64,
        leader: u64,
        total_witnesses: usize,
    ) -> (kickout: bool)
        requires
            dag@.holds(this),
        ensures
            kickout == dag@.at(this).kicks_out(this, epoch, leader, total_witnesses as nat),
    {
        let message = &dag.messages[this.index];
        let owner_uid = message.data.body.owner_uid;
        if leader != owner_uid || epoch == 0 {
            return false;
        }
        if message.approved_representatives.contains_key(&(epoch - 1)) {
            return false;
        }
        if let Some(owners) = message.approved_epochs.get(&epoch) {
            if let Some(first) = owners.get(&owner_uid) {
                if *first != this {
                    // The leader has an earlier message in the epoch.
                    return false;
                }
            }
        }
        !Self::is_representative_of(dag, this, epoch, leader, total_witnesses)
    }

    /// Determines the list of kickouts for which this message gives a promise.
    /// The message is a promise for a kickout message for epoch X if it approves the kickout but
    /// does not approve the representative message for epoch X.
    pub fn promises_for_kickouts(&self) -> (kickouts: Vec<MessageRef>)
        ensures
            kickouts@.no_duplicates(),
            forall|message: MessageRef| #[trigger]
                kickouts@.contains(message) <==> exists|epoch: u64|
                    self@.promises(epoch) && #[trigger] self@.approved_kickouts[epoch] == message,
    {
        let mut kickouts: Vec<MessageRef> = Vec::new();
        for entry in it: self.approved_kickouts.iter()
            invariant
                kickouts@.no_duplicates(),
                forall|j: int|
                    0 <= j < it.seq().len() ==> {
                        &&& self@.approved_kickouts.contains_key(*(#[trigger] it.seq()[j]).0)
                        &&& self@.approved_kickouts[*it.seq()[j].0] == *it.seq()[j].1
                    },
                forall|message: MessageRef| #[trigger]
                    kickouts@.contains(message) ==> exists|epoch: u64|
                        self@.promises(epoch) && #[trigger] self@.approved_kickouts[epoch]
                            == message,
                forall|j: int|
                    0 <= j < it.index() && self@.promises(*(#[trigger] it.seq()[j]).0)
                        ==> kickouts@.contains(*it.seq()[j].1),
        {
            if !self.approved_representatives.contains_key(entry.0) {
                assert(self@.promises(*entry.0));
                maps::push_once(&mut kickouts, *entry.1);
            }
        }
        assert forall|message: MessageRef, epoch: u64|
            self@.promises(epoch) && #[trigger] self@.approved_kickouts[epoch]
                == message implies #[trigger] kickouts@.contains(message) by {
            assert(self.approved_kickouts@.contains_key(epoch));
        }
        kickouts
    }

    /// Determines the list of representatives endorsed by this message.
    /// The message is an endorsement for representative message of epoch X if it approves it, if
    /// it does not approve a promise by the same node for kickout of epoch X, and if it contains
    /// the corresponding BLS part.
    pub fn endorsements_for_representatives(&self) -> (representatives: Vec<MessageRef>)
        ensures
            representatives@.no_duplicates(),
            forall|message: MessageRef| #[trigger]
                representatives@.contains(message) <==> exists|epoch: u64|
                    self@.endorses(epoch) && #[trigger] self@.approved_representatives[epoch]
                        == message,
    {
        let mut representatives: Vec<MessageRef> = Vec::new();
        for entry in it: self.approved_representatives.iter()
            invariant
                representatives@.no_duplicates(),
                forall|j: int|
                    0 <= j < it.seq().len() ==> {
                        &&& self@.approved_representatives.contains_key(
                            *(#[trigger] it.seq()[j]).0,
                        )
                        &&& self@.approved_representatives[*it.seq()[j].0] == *it.seq()[j].1
                    },
                forall|message: MessageRef| #[trigger]
                    representatives@.contains(message) ==> exists|epoch: u64|
                        self@.endorses(epoch) && #[trigger] self@.approved_representatives[epoch]
                            == message,
                forall|j: int|
                    0 <= j < it.index() && self@.endorses(*(#[trigger] it.seq()[j]).0)
                        ==> representatives@.contains(*it.seq()[j].1),
        {
            if self.endorses(*entry.0) {
                maps::push_once(&mut representatives, *entry.1);
            }
        }
        assert forall|message: MessageRef, epoch: u64|
            self@.endorses(epoch) && #[trigger] self@.approved_representatives[epoch]
                == message implies #[trigger] representatives@.contains(message) by {
            assert(self.approved_representatives@.contains_key(epoch));
        }
        representatives
    }

    /// Whether this message endorses the representative of `epoch` that it approves.
    fn endorses(&self, epoch: u64) -> (endorses: bool)
        ensures
            endorses == self@.endorses(epoch),
    {
        if !self.approved_representatives.contains_key(&epoch) {
            return false;
        }
        if let Some(promises) = self.approved_promises.get(&epoch) {
            if promises.contains_key(&self.data.body.owner_uid) {
                return false;
            }
        }
        self.holds_part_for(epoch)
    }

    /// Whether this message contains a BLS part for `epoch`.
    fn holds_part_for(&self, epoch: u64) -> (holds: bool)
        ensures
            holds == self@.holds_part_for(epoch),
    {
        let endorsements = &self.data.body.endorsements;
        let mut i: usize = 0;
        while i < endorsements.len()
            invariant
                endorsements == self@.data.body.endorsements,
                i <= endorsements@.len(),
                forall|j: int| 0 <= j < i ==> (#[trigger] endorsements@[j]).epoch != epoch,
            decreases endorsements@.len() - i,
        {
            if endorsements[i].epoch == epoch {
                return true;
            }
            i += 1;
        }
        false
    }

    /// Computes epoch, is_representative, is_kickout using parents' information.
    /// If `recompute_epoch` is false then the epoch is not recomputed but taken from data.
    ///
    /// The message files itself in its epoch, and as the representative of the epoch if it is one.
    /// Kickouts, promises and endorsements are filed by the caller.
    pub fn populate_from_parents<P: WitnessSelectorLike>(
        dag: &mut Dag<T>,
        this: MessageRef,
        recompute_epoch: bool,
        starting_epoch: u64,
        witness_selector: &P,
    )
        requires
            old(dag)@.well_formed(),
            old(dag)@.holds(this),
            !old(dag)@.at(this).parents.contains(this),
            recompute_epoch ==> witness_selector.knows(
                model::prev_epoch_of(
                    old(dag)@.parents_of(this),
                    old(dag)@.at(this).owner_uid(),
                    starting_epoch,
                ),
            ),
            forall|epoch: int| #[trigger]
                model::may_have_epoch(
                    old(dag)@.at(this),
                    old(dag)@.parents_of(this),
                    recompute_epoch,
                    starting_epoch,
                    witness_selector,
                    epoch,
                ) ==> epoch <= u64::MAX && witness_selector.knows(epoch as u64),
        ensures
            exists|epoch: u64, leader: u64, total: nat|
                {
                    &&& #[trigger] model::may_have_epoch(
                        old(dag)@.at(this),
                        old(dag)@.parents_of(this),
                        recompute_epoch,
                        starting_epoch,
                        witness_selector,
                        epoch as int,
                    )
                    &&& #[trigger] model::may_answer(
                        old(dag)@.at(this).aggregated(old(dag)@.parents_of(this)),
                        epoch,
                        witness_selector,
                        leader,
                        total,
                    )
                    &&& final(dag)@ == old(dag)@.with(
                        this,
                        old(dag)@.at(this).populated(
                            this,
                            old(dag)@.parents_of(this),
                            epoch,
                            leader,
                            total,
                        ),
                    )
                },
            final(dag)@.well_formed(),
    {
        // Compute epoch, if required.
        let epoch = if recompute_epoch {
            let prev_epoch = Self::prev_epoch(dag, this, starting_epoch);
            let promote = Self::should_promote(dag, this, prev_epoch, witness_selector);
            proof {
                let total = choose|total: nat| #[trigger]
                    witness::may_count(witness_selector, prev_epoch, total) && promote
                        == model::promotes(dag@.parents_of(this), prev_epoch, total);
                assert(model::may_have_epoch(
                    dag@.at(this),
                    dag@.parents_of(this),
                    recompute_epoch,
                    starting_epoch,
                    witness_selector,
                    model::next_epoch(dag@.parents_of(this), prev_epoch, total),
                ));
            }
            if promote {
                prev_epoch + 1
            } else {
                prev_epoch
            }
        } else {
            dag.messages[this.index].data.body.epoch
        };
        assert(model::may_have_epoch(
            dag@.at(this),
            dag@.parents_of(this),
            recompute_epoch,
            starting_epoch,
            witness_selector,
            epoch as int,
        ));
        let ghost parents = dag@.parents_of(this);
        Self::aggregate_parents(dag, this);
        assert(dag@.at(this) == old(dag)@.at(this).aggregated(parents));
        let (leader, total) = Self::leader_and_witnesses(dag, this, epoch, witness_selector);
        Self::conclude(dag, this, epoch, leader, total);
        assert(dag@ =~= old(dag)@.with(
            this,
            old(dag)@.at(this).populated(this, parents, epoch, leader, total as nat),
        ));
    }

    /// Computes is_representative, is_kickout using parents' information, for a message of `epoch`,
    /// which `leader` leads and which has `total_witnesses` witnesses.
    pub fn populate_in_epoch(
        dag: &mut Dag<T>,
        this: MessageRef,
        epoch: u64,
        leader: u64,
        total_witnesses: usize,
    )
        requires
            old(dag)@.well_formed(),
            old(dag)@.holds(this),
            !old(dag)@.at(this).parents.contains(this),
        ensures
            final(dag)@ == old(dag)@.with(
                this,
                old(dag)@.at(this).populated(
                    this,
                    old(dag)@.parents_of(this),
                    epoch,
                    leader,
                    total_witnesses as nat,
                ),
            ),
            final(dag)@.well_formed(),
    {
        let ghost parents = dag@.parents_of(this);
        Self::aggregate_parents(dag, this);
        assert(dag@.at(this) == old(dag)@.at(this).aggregated(parents));
        Self::conclude(dag, this, epoch, leader, total_witnesses);
        assert(dag@ =~= old(dag)@.with(
            this,
            old(dag)@.at(this).populated(this, parents, epoch, leader, total_witnesses as nat),
        ));
    }

    /// Places a message that has aggregated its parents in `epoch`, and computes what it is there.
    fn conclude(
        dag: &mut Dag<T>,
        this: MessageRef,
        epoch: u64,
        leader: u64,
        total_witnesses: usize,
    )
        requires
            old(dag)@.well_formed(),
            old(dag)@.holds(this),
        ensures
            final(dag)@ == old(dag)@.with(
                this,
                old(dag)@.at(this).placed(this, epoch).judged(
                    this,
                    epoch,
                    leader,
                    total_witnesses as nat,
                ),
            ),
            final(dag)@.well_formed(),
    {
        let message = &mut dag.messages[this.index];
        let owner_uid = message.data.body.owner_uid;
        maps::file(&mut message.approved_epochs, epoch, owner_uid, this);
        message.computed_epoch = Some(epoch);
        let ghost placed = dag@;
        assert(placed.at(this) =~= old(dag)@.at(this).placed(this, epoch));
        assert(placed =~= old(dag)@.with(this, old(dag)@.at(this).placed(this, epoch)));

        // Compute if it is a representative, or a kickout.
        let representative = Self::is_representative_of(dag, this, epoch, leader, total_witnesses);
        let kickout = Self::is_kickout_of(dag, this, epoch, leader, total_witnesses);
        let message = &mut dag.messages[this.index];
        message.computed_is_representative = Some(representative);
        message.computed_is_kickout = Some(kickout);
        if representative {
            message.approved_representatives.insert(epoch, this);
        }
        assert(dag@ =~= placed.with(
            this,
            placed.at(this).judged(this, epoch, leader, total_witnesses as nat),
        ));
        assert(dag@ =~= old(dag)@.with(
            this,
            old(dag)@.at(this).placed(this, epoch).judged(
                this,
                epoch,
                leader,
                total_witnesses as nat,
            ),
        ));
    }
}

/// Whether `count` is more than two thirds of `total`.
pub fn exceeds_two_thirds(count: usize, total: usize) -> (exceeds: bool)
    ensures
        exceeds == model::supermajority(count as nat, total as nat),
{
    // Two thirds of `total`, rounded down, without the detour over twice `total`.
    count > total / 3 * 2 + total % 3 * 2 / 3
}

} // verus!
