//! The mathematical model of a DAG of messages: what a message holds, and what each operation
//! makes of it.

use crate::maps;
use crate::message::MessageRef;
use crate::types::SignedMessageData;
use crate::witness;
use crate::witness::WitnessSelectorLike;
use vstd::prelude::*;

verus! {

/// What a message holds.
#[verifier::ext_equal]
pub struct MessageView<T> {
    pub data: SignedMessageData<T>,
    pub parents: Seq<MessageRef>,
    pub computed_epoch: Option<u64>,
    pub computed_is_representative: Option<bool>,
    pub computed_is_kickout: Option<bool>,
    pub approved_epochs: Map<u64, Map<u64, MessageRef>>,
    pub approved_representatives: Map<u64, MessageRef>,
    pub approved_kickouts: Map<u64, MessageRef>,
    pub approved_endorsements: Map<u64, Map<u64, MessageRef>>,
    pub approved_promises: Map<u64, Map<u64, MessageRef>>,
}

impl<T> MessageView<T> {
    /// A message with no parents, of which nothing has been computed.
    pub open spec fn fresh(data: SignedMessageData<T>) -> Self {
        MessageView {
            data,
            parents: Seq::empty(),
            computed_epoch: None,
            computed_is_representative: None,
            computed_is_kickout: None,
            approved_epochs: Map::empty(),
            approved_representatives: Map::empty(),
            approved_kickouts: Map::empty(),
            approved_endorsements: Map::empty(),
            approved_promises: Map::empty(),
        }
    }

    /// The node that created the message.
    pub open spec fn owner_uid(self) -> u64 {
        self.data.body.owner_uid
    }

    /// Whether all references that the message keeps are to the first `count` messages.
    pub open spec fn refers_within(self, count: nat) -> bool {
        &&& forall|i: int|
            0 <= i < self.parents.len() ==> 0 <= (#[trigger] self.parents[i]).place() < count
        &&& nested_within(self.approved_epochs, count)
        &&& within(self.approved_representatives, count)
        &&& within(self.approved_kickouts, count)
        &&& nested_within(self.approved_endorsements, count)
        &&& nested_within(self.approved_promises, count)
    }

    /// Whether the message has been computed to be one of `epoch`.
    pub open spec fn is_of(self, epoch: u64) -> bool {
        self.computed_epoch == Some(epoch)
    }

    /// Whether the message has been computed to be a representative of `epoch`, which `leader`
    /// leads.
    pub open spec fn stands_for(self, epoch: u64, leader: u64) -> bool {
        &&& self.is_of(epoch)
        &&& self.computed_is_representative == Some(true)
        &&& self.owner_uid() == leader
    }

    /// Whether the message has been computed to be a kickout message of the epoch before `epoch`,
    /// which `leader` leads.
    pub open spec fn ousts_before(self, epoch: u64, leader: u64) -> bool {
        &&& self.is_of(epoch)
        &&& self.computed_is_kickout == Some(true)
        &&& self.owner_uid() == leader
    }

    /// Whether what the message files is what `dag` holds. In an epoch these are messages of that
    /// epoch, each under its owner. The representative of an epoch is a representative of it, and
    /// its leader's. The kickout of an epoch is a kickout message of the next one, and the leader's
    /// there. Endorsements and promises are under their owners. `leaders` names the leader of each
    /// epoch.
    pub open spec fn files_truly(self, dag: DagView<T>, leaders: spec_fn(u64) -> u64) -> bool {
        &&& files_by_owner(self.approved_epochs, dag, epoch_members())
        &&& files_only(self.approved_representatives, dag, standing_for(leaders))
        &&& files_only(self.approved_kickouts, dag, ousting(leaders))
        &&& files_by_owner(self.approved_endorsements, dag, anything())
        &&& files_by_owner(self.approved_promises, dag, anything())
    }

    /// Whether the message, once it has an epoch, is filed there under its owner in what it
    /// approves itself.
    pub open spec fn files_itself(self) -> bool {
        self.computed_epoch matches Some(epoch) ==> maps::files(
            self.approved_epochs,
            epoch,
            self.owner_uid(),
        )
    }

    /// Whether the message approves, with the representative of an epoch, a representative or a
    /// kickout of the epoch before, and a representative of its own epoch if it represents that.
    pub open spec fn reaches_back(self) -> bool {
        &&& forall|epoch: u64, before: u64| #[trigger]
            self.approved_representatives.contains_key(epoch) && epoch == before + 1 ==> {
                ||| self.approved_representatives.contains_key(before)
                ||| #[trigger] self.approved_kickouts.contains_key(before)
            }
        &&& self.computed_is_representative == Some(true) ==> {
            &&& self.computed_epoch is Some
            &&& self.approved_representatives.contains_key(self.computed_epoch->0)
        }
    }

    /// Whether the message, in `dag`, files what it approves truly, itself included, and the
    /// representatives that it approves reach back from epoch to epoch.
    pub open spec fn sound_in(self, dag: DagView<T>, leaders: spec_fn(u64) -> u64) -> bool {
        &&& self.files_truly(dag, leaders)
        &&& self.files_itself()
        &&& self.reaches_back()
    }

    /// The message with one more parent.
    pub open spec fn linked(self, parent: MessageRef) -> Self {
        MessageView { parents: self.parents.push(parent), ..self }
    }

    /// The message without `parent` among its parents; the others stay, in their order.
    pub open spec fn unlinked(self, parent: MessageRef) -> Self {
        MessageView { parents: self.parents.filter(other_than(parent)), ..self }
    }

    /// The message once it has taken over everything that `parents` approve. They are laid over
    /// what it approves already one after the other, so where two of them file different messages
    /// in one place, the later one counts.
    pub open spec fn aggregated(self, parents: Seq<MessageView<T>>) -> Self {
        MessageView {
            approved_epochs: overlaid_nested(self.approved_epochs, epochs_of(parents)),
            approved_representatives: overlaid(
                self.approved_representatives,
                representatives_of(parents),
            ),
            approved_kickouts: overlaid(self.approved_kickouts, kickouts_of(parents)),
            approved_endorsements: overlaid_nested(
                self.approved_endorsements,
                endorsements_of(parents),
            ),
            approved_promises: overlaid_nested(self.approved_promises, promises_of(parents)),
            ..self
        }
    }

    /// Whether it is for the promises to decide if the message represents `epoch`, which `leader`
    /// leads: it is the leader's and approves the kickout of the epoch before, not the
    /// representative.
    pub open spec fn weighs_promises(self, epoch: u64, leader: u64) -> bool {
        &&& self.owner_uid() == leader
        &&& epoch > 0
        &&& !self.approved_representatives.contains_key((epoch - 1) as u64)
        &&& self.approved_kickouts.contains_key((epoch - 1) as u64)
    }

    /// Whether the message approves a kickout of the epoch before `epoch`, and promises for it of
    /// more than two thirds of the `total` witnesses of `epoch`.
    pub open spec fn kickout_carried(self, epoch: u64, total: nat) -> bool {
        &&& epoch > 0
        &&& self.approved_kickouts.contains_key((epoch - 1) as u64)
        &&& self.approved_promises.contains_key((epoch - 1) as u64)
        &&& supermajority(self.approved_promises[(epoch - 1) as u64].dom().len(), total)
    }

    /// Whether the message, which `this` refers to, is a representative of `epoch` when `leader`
    /// leads that epoch and it has `total` witnesses: it is the leader's, it approves no other
    /// representative of the epoch, and
    /// a) the epoch is the first one of all, or
    /// b) it approves a representative of the epoch before, or
    /// c) it approves a kickout of that and the promises that carry it.
    pub open spec fn represents(
        self,
        this: MessageRef,
        epoch: u64,
        leader: u64,
        total: nat,
    ) -> bool {
        &&& self.owner_uid() == leader
        &&& self.approved_representatives.contains_key(epoch)
            ==> self.approved_representatives[epoch] == this
        &&& {
            ||| epoch == 0
            ||| self.approved_representatives.contains_key((epoch - 1) as u64)
            ||| self.kickout_carried(epoch, total)
        }
    }

    /// Whether the message, which `this` refers to, is a kickout message of the epoch before
    /// `epoch` when `leader` leads `epoch` and it has `total` witnesses: it is the first message of
    /// the leader in `epoch`, and it does not approve a representative of the epoch before. A
    /// message that represents `epoch` is no kickout.
    pub open spec fn kicks_out(
        self,
        this: MessageRef,
        epoch: u64,
        leader: u64,
        total: nat,
    ) -> bool {
        &&& self.owner_uid() == leader
        &&& epoch > 0
        &&& !self.approved_representatives.contains_key((epoch - 1) as u64)
        &&& maps::files(self.approved_epochs, epoch, self.owner_uid())
            ==> self.approved_epochs[epoch][self.owner_uid()] == this
        &&& !self.represents(this, epoch, leader, total)
    }

    /// Whether the message gives a promise for the kickout of `epoch` that it approves: it does not
    /// approve the representative of that epoch.
    pub open spec fn promises(self, epoch: u64) -> bool {
        self.approved_kickouts.contains_key(epoch) && !self.approved_representatives.contains_key(
            epoch,
        )
    }

    /// Whether the data of the message hold the part of the signature for `epoch`.
    pub open spec fn holds_part_for(self, epoch: u64) -> bool {
        exists|i: int|
            0 <= i < self.data.body.endorsements@.len() && (
            #[trigger] self.data.body.endorsements@[i]).epoch == epoch
    }

    /// Whether the message endorses the representative of `epoch` that it approves: it approves no
    /// promise by the same node for a kickout of that epoch, and holds the part of the signature.
    pub open spec fn endorses(self, epoch: u64) -> bool {
        &&& self.approved_representatives.contains_key(epoch)
        &&& !maps::files(self.approved_promises, epoch, self.owner_uid())
        &&& self.holds_part_for(epoch)
    }

    /// The message, which `this` refers to, placed in `epoch`. It files itself there under its
    /// owner, unless a message of that owner is filed there already.
    pub open spec fn placed(self, this: MessageRef, epoch: u64) -> Self {
        MessageView {
            computed_epoch: Some(epoch),
            approved_epochs: if maps::files(self.approved_epochs, epoch, self.owner_uid()) {
                self.approved_epochs
            } else {
                self.approved_epochs.insert(
                    epoch,
                    maps::slice(self.approved_epochs, epoch).insert(self.owner_uid(), this),
                )
            },
            ..self
        }
    }

    /// The message, which `this` refers to, marked as a representative of `epoch` or not, and as a
    /// kickout of the epoch before or not. A representative approves itself.
    pub open spec fn judged(self, this: MessageRef, epoch: u64, leader: u64, total: nat) -> Self {
        let representative = self.represents(this, epoch, leader, total);
        MessageView {
            computed_is_representative: Some(representative),
            computed_is_kickout: Some(self.kicks_out(this, epoch, leader, total)),
            approved_representatives: if representative {
                self.approved_representatives.insert(epoch, this)
            } else {
                self.approved_representatives
            },
            ..self
        }
    }

    /// The message, which `this` refers to, once everything has been computed for `epoch`, which
    /// `leader` leads and which has `total` witnesses, from what `parents` hold.
    pub open spec fn populated(
        self,
        this: MessageRef,
        parents: Seq<MessageView<T>>,
        epoch: u64,
        leader: u64,
        total: nat,
    ) -> Self {
        self.aggregated(parents).placed(this, epoch).judged(this, epoch, leader, total)
    }
}

/// What a DAG holds: its messages, in the order in which they were added.
#[verifier::ext_equal]
pub struct DagView<T> {
    pub messages: Seq<MessageView<T>>,
}

impl<T> DagView<T> {
    /// Whether `message` refers to one of the messages.
    pub open spec fn holds(self, message: MessageRef) -> bool {
        0 <= message.place() < self.messages.len()
    }

    /// The message that `message` refers to.
    pub open spec fn at(self, message: MessageRef) -> MessageView<T> {
        self.messages[message.place()]
    }

    /// The DAG with one more message.
    pub open spec fn added(self, view: MessageView<T>) -> Self {
        DagView { messages: self.messages.push(view) }
    }

    /// The DAG with the message that `message` refers to replaced by `view`.
    pub open spec fn with(self, message: MessageRef, view: MessageView<T>) -> Self {
        DagView { messages: self.messages.update(message.place(), view) }
    }

    /// The parents of a message, in the order in which they were linked.
    pub open spec fn parents_of(self, message: MessageRef) -> Seq<MessageView<T>> {
        Seq::new(
            self.at(message).parents.len(),
            |i: int| self.at(self.at(message).parents[i]),
        )
    }

    /// No reference of any message leads out of the DAG.
    pub open spec fn well_formed(self) -> bool {
        forall|i: int|
            0 <= i < self.messages.len() ==> (#[trigger] self.messages[i]).refers_within(
                self.messages.len(),
            )
    }

    /// Whether `after` has the same messages, and maybe more, with everything that was computed of
    /// them.
    pub open spec fn computed_in(self, after: DagView<T>) -> bool {
        &&& self.messages.len() <= after.messages.len()
        &&& forall|i: int|
            #![trigger self.messages[i]]
            #![trigger after.messages[i]]
            0 <= i < self.messages.len() ==> {
                &&& after.messages[i].owner_uid() == self.messages[i].owner_uid()
                &&& self.messages[i].computed_epoch is Some ==> {
                    &&& after.messages[i].computed_epoch == self.messages[i].computed_epoch
                    &&& after.messages[i].computed_is_representative
                        == self.messages[i].computed_is_representative
                    &&& after.messages[i].computed_is_kickout
                        == self.messages[i].computed_is_kickout
                }
            }
    }

    /// Every message is sound.
    pub open spec fn sound(self, leaders: spec_fn(u64) -> u64) -> bool {
        forall|i: int|
            0 <= i < self.messages.len() ==> #[trigger] self.messages[i].sound_in(self, leaders)
    }
}

/// Whether everything that `m` files in an epoch fits that epoch.
pub open spec fn files_only<T>(
    m: Map<u64, MessageRef>,
    dag: DagView<T>,
    fits: spec_fn(u64, MessageView<T>) -> bool,
) -> bool {
    forall|epoch: u64| #[trigger] m.contains_key(epoch) ==> fits(epoch, dag.at(m[epoch]))
}

/// Whether everything that `m` files in an epoch fits that epoch and is under its owner.
pub open spec fn files_by_owner<T>(
    m: Map<u64, Map<u64, MessageRef>>,
    dag: DagView<T>,
    fits: spec_fn(u64, MessageView<T>) -> bool,
) -> bool {
    forall|epoch: u64, owner_uid: u64| #[trigger]
        maps::files(m, epoch, owner_uid) ==> {
            let filed = dag.at(m[epoch][owner_uid]);
            fits(epoch, filed) && filed.owner_uid() == owner_uid
        }
}

/// Tells which messages are of an epoch.
pub open spec fn epoch_members<T>() -> spec_fn(u64, MessageView<T>) -> bool {
    |epoch: u64, message: MessageView<T>| message.is_of(epoch)
}

/// Tells which messages are representatives of an epoch.
pub open spec fn standing_for<T>(leaders: spec_fn(u64) -> u64) -> spec_fn(
    u64,
    MessageView<T>,
) -> bool {
    |epoch: u64, message: MessageView<T>| message.stands_for(epoch, leaders(epoch))
}

/// Tells which messages are kickout messages of an epoch.
pub open spec fn ousting<T>(leaders: spec_fn(u64) -> u64) -> spec_fn(
    u64,
    MessageView<T>,
) -> bool {
    |epoch: u64, message: MessageView<T>|
        epoch < u64::MAX && message.ousts_before((epoch + 1) as u64, leaders((epoch + 1) as u64))
}

/// Admits every message in every epoch.
pub open spec fn anything<T>() -> spec_fn(u64, MessageView<T>) -> bool {
    |epoch: u64, message: MessageView<T>| true
}

/// Tells every other reference from `message`.
pub open spec fn other_than(message: MessageRef) -> spec_fn(MessageRef) -> bool {
    |other: MessageRef| other != message
}

/// Whether everything filed in `m` refers to one of the first `count` messages.
pub open spec fn within(m: Map<u64, MessageRef>, count: nat) -> bool {
    forall|key: u64| #[trigger] m.contains_key(key) ==> 0 <= m[key].place() < count
}

/// Whether everything filed in `m`, in whichever epoch, refers to one of the first `count`
/// messages.
pub open spec fn nested_within(m: Map<u64, Map<u64, MessageRef>>, count: nat) -> bool {
    forall|epoch: u64| #[trigger] m.contains_key(epoch) ==> within(m[epoch], count)
}

/// `layers` laid over `own`, the first one lowest.
pub open spec fn overlaid(
    own: Map<u64, MessageRef>,
    layers: Seq<Map<u64, MessageRef>>,
) -> Map<u64, MessageRef>
    decreases layers.len(),
{
    if layers.len() == 0 {
        own
    } else {
        overlaid(own, layers.drop_last()).union_prefer_right(layers.last())
    }
}

/// `layers` laid over `own` epoch by epoch, the first one lowest.
pub open spec fn overlaid_nested(
    own: Map<u64, Map<u64, MessageRef>>,
    layers: Seq<Map<u64, Map<u64, MessageRef>>>,
) -> Map<u64, Map<u64, MessageRef>>
    decreases layers.len(),
{
    if layers.len() == 0 {
        own
    } else {
        maps::lay_over_nested(overlaid_nested(own, layers.drop_last()), layers.last())
    }
}

/// Reads what a message approves by epoch and owner.
pub open spec fn epochs<T>() -> spec_fn(MessageView<T>) -> Map<u64, Map<u64, MessageRef>> {
    |message: MessageView<T>| message.approved_epochs
}

/// What each of `messages` approves by epoch and owner.
pub open spec fn epochs_of<T>(messages: Seq<MessageView<T>>) -> Seq<
    Map<u64, Map<u64, MessageRef>>,
> {
    messages.map_values(epochs())
}

/// Reads the representatives that a message approves.
pub open spec fn representatives<T>() -> spec_fn(MessageView<T>) -> Map<u64, MessageRef> {
    |message: MessageView<T>| message.approved_representatives
}

/// The representatives that each of `messages` approves.
pub open spec fn representatives_of<T>(messages: Seq<MessageView<T>>) -> Seq<
    Map<u64, MessageRef>,
> {
    messages.map_values(representatives())
}

/// Reads the kickouts that a message approves.
pub open spec fn kickouts<T>() -> spec_fn(MessageView<T>) -> Map<u64, MessageRef> {
    |message: MessageView<T>| message.approved_kickouts
}

/// The kickouts that each of `messages` approves.
pub open spec fn kickouts_of<T>(messages: Seq<MessageView<T>>) -> Seq<
    Map<u64, MessageRef>,
> {
    messages.map_values(kickouts())
}

/// Reads the endorsements that a message approves.
pub open spec fn endorsements<T>() -> spec_fn(MessageView<T>) -> Map<u64, Map<u64, MessageRef>> {
    |message: MessageView<T>| message.approved_endorsements
}

/// The endorsements that each of `messages` approves.
pub open spec fn endorsements_of<T>(messages: Seq<MessageView<T>>) -> Seq<
    Map<u64, Map<u64, MessageRef>>,
> {
    messages.map_values(endorsements())
}

/// Reads the promises that a message approves.
pub open spec fn promises<T>() -> spec_fn(MessageView<T>) -> Map<u64, Map<u64, MessageRef>> {
    |message: MessageView<T>| message.approved_promises
}

/// The promises that each of `messages` approves.
pub open spec fn promises_of<T>(messages: Seq<MessageView<T>>) -> Seq<
    Map<u64, Map<u64, MessageRef>>,
> {
    messages.map_values(promises())
}

/// Whether one of `parents` approves a message of `owner_uid` in `epoch`.
pub open spec fn approved_in<T>(
    parents: Seq<MessageView<T>>,
    owner_uid: u64,
    epoch: u64,
) -> bool {
    exists|i: int|
        0 <= i < parents.len() && maps::files(
            (#[trigger] parents[i]).approved_epochs,
            epoch,
            owner_uid,
        )
}

/// The last epoch in which one of `parents` approves a message of `owner_uid`, or
/// `starting_epoch` if they approve none.
pub open spec fn prev_epoch_of<T>(
    parents: Seq<MessageView<T>>,
    owner_uid: u64,
    starting_epoch: u64,
) -> u64 {
    if exists|epoch: u64| approved_in(parents, owner_uid, epoch) {
        choose|last: u64| #[trigger]
            approved_in(parents, owner_uid, last) && forall|epoch: u64| #[trigger]
                approved_in(parents, owner_uid, epoch) ==> epoch <= last
    } else {
        starting_epoch
    }
}

/// The nodes of which one of `parents` approves a message in `epoch`.
pub open spec fn owners_in<T>(parents: Seq<MessageView<T>>, epoch: u64) -> Set<u64> {
    Set::new(|owner_uid: u64| approved_in(parents, owner_uid, epoch))
}

/// Whether `count` is more than two thirds of `total`.
pub open spec fn supermajority(count: nat, total: nat) -> bool {
    3 * count > 2 * total
}

/// Whether `parents` approve messages of so many nodes in `epoch` that it is over, when it has
/// `total` witnesses.
pub open spec fn promotes<T>(parents: Seq<MessageView<T>>, epoch: u64, total: nat) -> bool {
    supermajority(owners_in(parents, epoch).len(), total)
}

/// The epoch after `epoch`, which has `total` witnesses, if `parents` show that it is over, and
/// `epoch` itself if not.
pub open spec fn next_epoch<T>(parents: Seq<MessageView<T>>, epoch: u64, total: nat) -> int {
    if promotes(parents, epoch, total) {
        epoch + 1
    } else {
        epoch as int
    }
}

/// Whether `epoch` is the epoch of `message` with `parents`, for some answer of `selector`. It is
/// taken from the data of the message, or recomputed: then it is the epoch of the owner's last
/// message, or the next one if that is over.
pub open spec fn may_have_epoch<T, S: WitnessSelectorLike>(
    message: MessageView<T>,
    parents: Seq<MessageView<T>>,
    recompute_epoch: bool,
    starting_epoch: u64,
    selector: &S,
    epoch: int,
) -> bool {
    if recompute_epoch {
        let prev = prev_epoch_of(parents, message.owner_uid(), starting_epoch);
        exists|total: nat| #[trigger]
            witness::may_count(selector, prev, total) && epoch == next_epoch(parents, prev, total)
    } else {
        epoch == message.data.body.epoch
    }
}

/// Whether `selector` may name `leader` for `epoch`, and `total` witnesses where promises that
/// `message` approves are weighed against them.
pub open spec fn may_answer<T, S: WitnessSelectorLike>(
    message: MessageView<T>,
    epoch: u64,
    selector: &S,
    leader: u64,
    total: nat,
) -> bool {
    &&& witness::may_lead(selector, epoch, leader)
    &&& message.weighs_promises(epoch, leader) ==> witness::may_count(selector, epoch, total)
}

} // verus!
