//! What holds of the operations on a DAG, whichever messages it has.

use crate::lemmas;
use crate::maps;
use crate::message::MessageRef;
use crate::model;
use crate::model::{DagView, MessageView};
use crate::types::SignedMessageData;
use crate::witness;
use crate::witness::WitnessSelectorLike;
use std::collections::{HashMap, HashSet};
use vstd::prelude::*;

verus! {

/// Unlinking undoes linking: it takes the parent out again, with every earlier link to it. A
/// message that was not linked to the parent before is as it was.
pub proof fn law_unlink_undoes_link<T>(message: MessageView<T>, parent: MessageRef)
    ensures
        message.linked(parent).unlinked(parent) == message.unlinked(parent),
        !message.parents.contains(parent) ==> message.linked(parent).unlinked(parent) == message,
{
    let other = model::other_than(parent);
    let before = message.parents;
    let after = before.push(parent);
    assert(after.drop_last() =~= before);
    reveal(Seq::filter);
    assert(after.filter(other) == before.filter(other));
    if !before.contains(parent) {
        lemmas::lemma_filter_all(before, other);
    }
}

/// An unlinked parent is gone, all other parents stay, and unlinking it again changes nothing.
pub proof fn law_unlink_removes_the_parent_alone<T>(message: MessageView<T>, parent: MessageRef)
    ensures
        !message.unlinked(parent).parents.contains(parent),
        forall|other: MessageRef|
            other != parent ==> (#[trigger] message.unlinked(parent).parents.contains(other)
                == message.parents.contains(other)),
        message.unlinked(parent).unlinked(parent) == message.unlinked(parent),
{
    let other = model::other_than(parent);
    let kept = message.parents.filter(other);
    broadcast use vstd::seq_lib::group_filter_ensures;

    lemmas::lemma_filter_keeps_members(message.parents, other);
    assert forall|p: MessageRef| p != parent implies (#[trigger] kept.contains(p)
        == message.parents.contains(p)) by {
        if message.parents.contains(p) {
            let i = choose|i: int| 0 <= i < message.parents.len() && message.parents[i] == p;
            assert(other(message.parents[i]));
        }
        if kept.contains(p) {
            let i = choose|i: int| 0 <= i < kept.len() && kept[i] == p;
            assert(message.parents.contains(kept[i]));
        }
    }
    lemmas::lemma_filter_all(kept, other);
}

/// A message approves after aggregation exactly what it approved before and what one of its
/// parents approves: in the same epochs, and there messages of the same owners.
pub proof fn law_aggregation_is_complete<T>(
    message: MessageView<T>,
    parents: Seq<MessageView<T>>,
    epoch: u64,
    owner_uid: u64,
)
    ensures
        message.aggregated(parents).approved_epochs.contains_key(epoch) <==> {
            ||| message.approved_epochs.contains_key(epoch)
            ||| exists|i: int|
                0 <= i < parents.len() && (#[trigger] parents[i]).approved_epochs.contains_key(
                    epoch,
                )
        },
        maps::files(message.aggregated(parents).approved_epochs, epoch, owner_uid) <==> {
            ||| maps::files(message.approved_epochs, epoch, owner_uid)
            ||| model::approved_in(parents, owner_uid, epoch)
        },
        message.aggregated(parents).approved_representatives.contains_key(epoch) <==> {
            ||| message.approved_representatives.contains_key(epoch)
            ||| exists|i: int|
                0 <= i < parents.len() && (
                #[trigger] parents[i]).approved_representatives.contains_key(epoch)
        },
        message.aggregated(parents).approved_kickouts.contains_key(epoch) <==> {
            ||| message.approved_kickouts.contains_key(epoch)
            ||| exists|i: int|
                0 <= i < parents.len() && (#[trigger] parents[i]).approved_kickouts.contains_key(
                    epoch,
                )
        },
        message.aggregated(parents).approved_endorsements.contains_key(epoch) <==> {
            ||| message.approved_endorsements.contains_key(epoch)
            ||| exists|i: int|
                0 <= i < parents.len() && (
                #[trigger] parents[i]).approved_endorsements.contains_key(epoch)
        },
        maps::files(message.aggregated(parents).approved_endorsements, epoch, owner_uid) <==> {
            ||| maps::files(message.approved_endorsements, epoch, owner_uid)
            ||| exists|i: int|
                0 <= i < parents.len() && maps::files(
                    (#[trigger] parents[i]).approved_endorsements,
                    epoch,
                    owner_uid,
                )
        },
        message.aggregated(parents).approved_promises.contains_key(epoch) <==> {
            ||| message.approved_promises.contains_key(epoch)
            ||| exists|i: int|
                0 <= i < parents.len() && (#[trigger] parents[i]).approved_promises.contains_key(
                    epoch,
                )
        },
        maps::files(message.aggregated(parents).approved_promises, epoch, owner_uid) <==> {
            ||| maps::files(message.approved_promises, epoch, owner_uid)
            ||| exists|i: int|
                0 <= i < parents.len() && maps::files(
                    (#[trigger] parents[i]).approved_promises,
                    epoch,
                    owner_uid,
                )
        },
{
    lemmas::lemma_taken_over_nested(
        message.approved_epochs,
        parents,
        model::epochs(),
        epoch,
        owner_uid,
    );
    lemmas::lemma_taken_over(
        message.approved_representatives,
        parents,
        model::representatives(),
        epoch,
    );
    lemmas::lemma_taken_over(message.approved_kickouts, parents, model::kickouts(), epoch);
    lemmas::lemma_taken_over_nested(
        message.approved_endorsements,
        parents,
        model::endorsements(),
        epoch,
        owner_uid,
    );
    lemmas::lemma_taken_over_nested(
        message.approved_promises,
        parents,
        model::promises(),
        epoch,
        owner_uid,
    );
}

/// Where several messages are filed in one place, that of the last parent that files one there
/// counts, and that of the message itself only where no parent does. `own` is what the message
/// files and `layers` what its parents do; `key` is an epoch.
pub proof fn law_last_parent_counts(
    own: Map<u64, MessageRef>,
    layers: Seq<Map<u64, MessageRef>>,
    key: u64,
)
    ensures
        forall|i: int|
            #![trigger layers[i]]
            {
                &&& 0 <= i < layers.len()
                &&& layers[i].contains_key(key)
                &&& forall|j: int|
                    i < j < layers.len() ==> !(#[trigger] layers[j]).contains_key(key)
            } ==> model::overlaid(own, layers).get(key) == layers[i].get(key),
        (forall|j: int| 0 <= j < layers.len() ==> !(#[trigger] layers[j]).contains_key(key))
            ==> model::overlaid(own, layers).get(key) == own.get(key),
{
    lemmas::lemma_overlaid_entry(own, layers, key);
    lemmas::lemma_top(layers, key);
    assert forall|i: int|
        #![trigger layers[i]]
        {
            &&& 0 <= i < layers.len()
            &&& layers[i].contains_key(key)
            &&& forall|j: int| i < j < layers.len() ==> !(#[trigger] layers[j]).contains_key(key)
        } implies model::overlaid(own, layers).get(key) == layers[i].get(key) by {
        lemmas::lemma_top_is_last(layers, key, i);
    }
}

/// The same within an epoch, where messages are filed under their owners.
pub proof fn law_last_parent_counts_in_epoch(
    own: Map<u64, Map<u64, MessageRef>>,
    layers: Seq<Map<u64, Map<u64, MessageRef>>>,
    epoch: u64,
    owner_uid: u64,
)
    ensures
        forall|i: int|
            #![trigger layers[i]]
            {
                &&& 0 <= i < layers.len()
                &&& maps::files(layers[i], epoch, owner_uid)
                &&& forall|j: int|
                    i < j < layers.len() ==> !maps::files(#[trigger] layers[j], epoch, owner_uid)
            } ==> model::overlaid_nested(own, layers)[epoch][owner_uid]
                == layers[i][epoch][owner_uid],
        ({
            &&& maps::files(own, epoch, owner_uid)
            &&& forall|j: int|
                0 <= j < layers.len() ==> !maps::files(#[trigger] layers[j], epoch, owner_uid)
        }) ==> model::overlaid_nested(own, layers)[epoch][owner_uid] == own[epoch][owner_uid],
{
    let inner = lemmas::slices(layers, epoch);
    lemmas::lemma_overlaid_slice(own, layers, epoch);
    lemmas::lemma_overlaid_nested_files(own, layers, epoch, owner_uid);
    law_last_parent_counts(maps::slice(own, epoch), inner, owner_uid);
    assert forall|j: int| 0 <= j < layers.len() implies maps::files(
        #[trigger] layers[j],
        epoch,
        owner_uid,
    ) == inner[j].contains_key(owner_uid) by {}
    assert forall|j: int| 0 <= j < layers.len() implies #[trigger] inner[j] == maps::slice(
        layers[j],
        epoch,
    ) by {}
}

/// What has been aggregated already changes nothing when it comes with the parents again:
/// aggregating twice is aggregating once, and parents that are linked later can be aggregated
/// then.
pub proof fn law_aggregation_absorbs<T>(
    message: MessageView<T>,
    few: Seq<MessageView<T>>,
    many: Seq<MessageView<T>>,
)
    requires
        forall|i: int| 0 <= i < few.len() ==> many.contains(#[trigger] few[i]),
    ensures
        message.aggregated(few).aggregated(many) == message.aggregated(many),
        message.aggregated(many).aggregated(many) == message.aggregated(many),
{
    lemmas::lemma_aggregated_absorbs(message, few, many);
    assert forall|i: int| 0 <= i < many.len() implies many.contains(#[trigger] many[i]) by {}
    lemmas::lemma_aggregated_absorbs(message, many, many);
}

/// The previous epoch of an owner is the last one in which a parent approves a message of that
/// owner; without such a message it is the starting epoch.
pub proof fn law_prev_epoch_is_the_last<T>(
    parents: Seq<MessageView<T>>,
    owner_uid: u64,
    starting_epoch: u64,
)
    ensures
        forall|epoch: u64| #[trigger]
            model::approved_in(parents, owner_uid, epoch) ==> {
                let prev = model::prev_epoch_of(parents, owner_uid, starting_epoch);
                epoch <= prev && model::approved_in(parents, owner_uid, prev)
            },
        (forall|epoch: u64| !model::approved_in(parents, owner_uid, epoch))
            ==> model::prev_epoch_of(parents, owner_uid, starting_epoch) == starting_epoch,
{
    if exists|epoch: u64| model::approved_in(parents, owner_uid, epoch) {
        lemmas::lemma_last_epoch_exists(parents, owner_uid, u64::MAX);
    }
}

/// The recomputed epoch of a message is the previous epoch of its owner or the next one, and no
/// parent approves a message of the owner in a later epoch than that.
pub proof fn law_epoch_advances_by_one_at_most<T>(
    parents: Seq<MessageView<T>>,
    owner_uid: u64,
    starting_epoch: u64,
    total: nat,
)
    ensures
        ({
            let prev = model::prev_epoch_of(parents, owner_uid, starting_epoch);
            let next = model::next_epoch(parents, prev, total);
            &&& prev <= next <= prev + 1
            &&& next == prev + 1 <==> model::promotes(parents, prev, total)
            &&& forall|epoch: u64| #[trigger]
                model::approved_in(parents, owner_uid, epoch) ==> epoch <= next
        }),
{
    law_prev_epoch_is_the_last(parents, owner_uid, starting_epoch);
}

/// The epochs of an owner never go back: in a sound DAG the recomputed epoch of a message is not
/// below that of any parent by the same owner.
pub proof fn law_epochs_of_an_owner_never_go_back<T>(
    dag: DagView<T>,
    this: MessageRef,
    parent: MessageRef,
    starting_epoch: u64,
    total: nat,
    leaders: spec_fn(u64) -> u64,
)
    requires
        dag.well_formed(),
        dag.sound(leaders),
        dag.holds(this),
        dag.at(this).parents.contains(parent),
        dag.at(parent).owner_uid() == dag.at(this).owner_uid(),
        dag.at(parent).computed_epoch is Some,
    ensures
        ({
            let parents = dag.parents_of(this);
            let prev = model::prev_epoch_of(parents, dag.at(this).owner_uid(), starting_epoch);
            &&& dag.at(parent).computed_epoch->0 <= prev
            &&& dag.at(parent).computed_epoch->0 <= model::next_epoch(parents, prev, total)
        }),
{
    let own = dag.at(this);
    let parents = dag.parents_of(this);
    let i = choose|i: int| 0 <= i < own.parents.len() && own.parents[i] == parent;
    assert(dag.messages[this.place()].refers_within(dag.messages.len()));
    assert(0 <= own.parents[i].place() < dag.messages.len());
    assert(dag.messages[parent.place()].sound_in(dag, leaders));
    let epoch = dag.at(parent).computed_epoch->0;
    assert(maps::files(parents[i].approved_epochs, epoch, own.owner_uid()));
    assert(model::approved_in(parents, own.owner_uid(), epoch));
    law_prev_epoch_is_the_last(parents, own.owner_uid(), starting_epoch);
}

/// An epoch that is over stays over: more parents do not reopen it, nor do fewer witnesses.
pub proof fn law_promotion_is_monotone<T>(
    few: Seq<MessageView<T>>,
    many: Seq<MessageView<T>>,
    epoch: u64,
    total: nat,
    fewer: nat,
)
    requires
        forall|i: int| 0 <= i < few.len() ==> many.contains(#[trigger] few[i]),
        fewer <= total,
        model::promotes(few, epoch, total),
    ensures
        model::promotes(many, epoch, fewer),
{
    lemmas::lemma_approved_in_monotone(few, many);
    lemmas::lemma_uids_len_subset(model::owners_in(few, epoch), model::owners_in(many, epoch));
}

/// The order of the parents, and how often each is linked, has no bearing on the epoch.
pub proof fn law_epoch_is_blind_to_the_order_of_parents<T>(
    parents: Seq<MessageView<T>>,
    others: Seq<MessageView<T>>,
    owner_uid: u64,
    starting_epoch: u64,
    epoch: u64,
    total: nat,
)
    requires
        forall|i: int| 0 <= i < parents.len() ==> others.contains(#[trigger] parents[i]),
        forall|i: int| 0 <= i < others.len() ==> parents.contains(#[trigger] others[i]),
    ensures
        model::prev_epoch_of(parents, owner_uid, starting_epoch) == model::prev_epoch_of(
            others,
            owner_uid,
            starting_epoch,
        ),
        model::promotes(parents, epoch, total) == model::promotes(others, epoch, total),
        model::next_epoch(parents, epoch, total) == model::next_epoch(others, epoch, total),
{
    lemmas::lemma_approved_in_monotone(parents, others);
    lemmas::lemma_approved_in_monotone(others, parents);
    law_prev_epoch_is_the_last(parents, owner_uid, starting_epoch);
    law_prev_epoch_is_the_last(others, owner_uid, starting_epoch);
    assert(model::owners_in(parents, epoch) =~= model::owners_in(others, epoch));
}

/// More than two thirds is more than two thirds rounded down.
pub proof fn law_two_thirds_round_down(count: nat, total: nat)
    ensures
        model::supermajority(count, total) <==> count > total * 2 / 3,
{
}

/// What computing a message leaves behind: all that can be computed of it; a message of its owner
/// filed in its epoch, itself if there was none; and nothing that it or a parent approved is lost.
/// If it is a representative, then of an epoch that its owner leads, after one whose representative
/// it approves, or whose kickout with the promises that carry it; and it is the one that it
/// approves there. If it is a kickout, then it approves no representative of the epoch before.
pub proof fn law_populated_message<T>(
    message: MessageView<T>,
    this: MessageRef,
    parents: Seq<MessageView<T>>,
    epoch: u64,
    leader: u64,
    total: nat,
)
    ensures
        ({
            let aggregated = message.aggregated(parents);
            let populated = message.populated(this, parents, epoch, leader, total);
            let before = (epoch - 1) as u64;
            &&& populated.data == message.data
            &&& populated.parents == message.parents
            &&& populated.computed_epoch == Some(epoch)
            &&& populated.computed_is_representative is Some
            &&& populated.computed_is_kickout is Some
            &&& populated.files_itself()
            &&& !maps::files(aggregated.approved_epochs, epoch, message.owner_uid())
                ==> populated.approved_epochs[epoch][message.owner_uid()] == this
            &&& forall|e: u64, owner_uid: u64| #[trigger]
                maps::files(aggregated.approved_epochs, e, owner_uid) ==> {
                    &&& maps::files(populated.approved_epochs, e, owner_uid)
                    &&& populated.approved_epochs[e][owner_uid]
                        == aggregated.approved_epochs[e][owner_uid]
                }
            &&& aggregated.approved_representatives.submap_of(populated.approved_representatives)
            &&& populated.approved_kickouts == aggregated.approved_kickouts
            &&& populated.approved_endorsements == aggregated.approved_endorsements
            &&& populated.approved_promises == aggregated.approved_promises
            &&& populated.computed_is_representative == Some(true) ==> {
                &&& populated.owner_uid() == leader
                &&& populated.approved_representatives.contains_key(epoch)
                &&& populated.approved_representatives[epoch] == this
                &&& epoch > 0 ==> {
                    ||| aggregated.approved_representatives.contains_key(before)
                    ||| aggregated.kickout_carried(epoch, total)
                }
            }
            &&& populated.computed_is_kickout == Some(true) ==> {
                &&& populated.owner_uid() == leader
                &&& populated.computed_is_representative == Some(false)
                &&& populated.approved_epochs[epoch][leader] == this
                &&& epoch > 0 && !populated.approved_representatives.contains_key(before)
            }
        }),
{
}

/// The verdicts on a message last: asked again, they are those that were computed. And computing a
/// message a second time, from the same parents, changes nothing.
pub proof fn law_populating_again_changes_nothing<T>(
    message: MessageView<T>,
    this: MessageRef,
    parents: Seq<MessageView<T>>,
    epoch: u64,
    leader: u64,
    total: nat,
)
    ensures
        ({
            let populated = message.populated(this, parents, epoch, leader, total);
            &&& populated.computed_is_representative == Some(
                populated.represents(this, epoch, leader, total),
            )
            &&& populated.computed_is_kickout == Some(
                populated.kicks_out(this, epoch, leader, total),
            )
            &&& populated.populated(this, parents, epoch, leader, total) == populated
        }),
{
    let aggregated = message.aggregated(parents);
    let populated = message.populated(this, parents, epoch, leader, total);
    let again = populated.aggregated(parents);
    assert forall|i: int| 0 <= i < parents.len() implies parents.contains(
        #[trigger] parents[i],
    ) by {}
    lemmas::lemma_aggregated_absorbs(message, parents, parents);
    assert(again.approved_kickouts == populated.approved_kickouts);
    lemmas::lemma_overlaid_keeps_insert(
        message.approved_representatives,
        model::representatives_of(parents),
        epoch,
        this,
    );
    lemmas::lemma_overlaid_nested_keeps_insert(
        message.approved_epochs,
        model::epochs_of(parents),
        epoch,
        message.owner_uid(),
        this,
    );
    assert(again =~= populated);
    assert(populated.populated(this, parents, epoch, leader, total) =~= populated);
}

/// A message is not both a representative of an epoch and a kickout of the one before. The first
/// message of the leader that does not approve the representative of the epoch before is one of
/// the two, and a representative where it can be.
pub proof fn law_representative_takes_precedence<T>(
    message: MessageView<T>,
    this: MessageRef,
    epoch: u64,
    leader: u64,
    total: nat,
)
    ensures
        !(message.represents(this, epoch, leader, total) && message.kicks_out(
            this,
            epoch,
            leader,
            total,
        )),
        ({
            &&& message.owner_uid() == leader
            &&& epoch > 0
            &&& !message.approved_representatives.contains_key((epoch - 1) as u64)
            &&& !maps::files(message.approved_epochs, epoch, leader)
        }) ==> (message.kicks_out(this, epoch, leader, total) <==> !message.represents(
            this,
            epoch,
            leader,
            total,
        )),
{
}

/// A representative endorses itself if it includes the part of the signature and its owner gave no
/// promise against the epoch, and does not without the part.
pub proof fn law_representative_endorses_itself<T>(
    message: MessageView<T>,
    this: MessageRef,
    parents: Seq<MessageView<T>>,
    epoch: u64,
    leader: u64,
    total: nat,
)
    ensures
        ({
            let populated = message.populated(this, parents, epoch, leader, total);
            populated.computed_is_representative == Some(true) ==> {
                &&& populated.approved_representatives[epoch] == this
                &&& populated.endorses(epoch) <==> {
                    &&& message.holds_part_for(epoch)
                    &&& !maps::files(populated.approved_promises, epoch, message.owner_uid())
                }
            }
        }),
{
}

/// A kickout that enough promises carry is carried still once the message has taken over what its
/// parents approve, and with fewer witnesses.
pub proof fn law_kickout_stays_carried<T>(
    message: MessageView<T>,
    parents: Seq<MessageView<T>>,
    epoch: u64,
    total: nat,
    fewer: nat,
)
    requires
        message.kickout_carried(epoch, total),
        fewer <= total,
    ensures
        message.aggregated(parents).kickout_carried(epoch, fewer),
{
    let before = (epoch - 1) as u64;
    let promises = message.aggregated(parents).approved_promises;
    lemmas::lemma_taken_over(message.approved_kickouts, parents, model::kickouts(), before);
    lemmas::lemma_taken_over_nested(
        message.approved_promises,
        parents,
        model::promises(),
        before,
        0,
    );
    assert forall|owner_uid: u64| message.approved_promises[before].dom().contains(
        owner_uid,
    ) implies promises[before].dom().contains(owner_uid) by {
        assert(maps::files(message.approved_promises, before, owner_uid));
        lemmas::lemma_taken_over_nested(
            message.approved_promises,
            parents,
            model::promises(),
            before,
            owner_uid,
        );
        assert(maps::files(promises, before, owner_uid));
    }
    lemmas::lemma_uids_len_subset(message.approved_promises[before].dom(), promises[before].dom());
}

/// A DAG without messages is sound.
pub proof fn law_empty_dag_is_sound<T>(dag: DagView<T>, leaders: spec_fn(u64) -> u64)
    requires
        dag.messages.len() == 0,
    ensures
        dag.sound(leaders),
{
}

/// A new message leaves the DAG sound: what is filed anywhere stays true.
pub proof fn law_new_keeps_dag_sound<T>(
    dag: DagView<T>,
    data: SignedMessageData<T>,
    leaders: spec_fn(u64) -> u64,
)
    requires
        dag.well_formed(),
        dag.sound(leaders),
    ensures
        dag.added(MessageView::fresh(data)).sound(leaders),
{
    let after = dag.added(MessageView::fresh(data));
    assert forall|i: int|
        0 <= i < after.messages.len() implies #[trigger] after.messages[i].sound_in(
        after,
        leaders,
    ) by {
        if i < dag.messages.len() {
            assert(after.messages[i] == dag.messages[i]);
            assert(dag.messages[i].sound_in(dag, leaders));
            lemmas::lemma_files_truly_elsewhere(dag, after, dag.messages[i], leaders);
        }
    }
}

/// Linking and unlinking leave the DAG sound.
pub proof fn law_links_keep_dag_sound<T>(
    dag: DagView<T>,
    parent: MessageRef,
    child: MessageRef,
    leaders: spec_fn(u64) -> u64,
)
    requires
        dag.well_formed(),
        dag.holds(child),
        dag.sound(leaders),
    ensures
        dag.with(child, dag.at(child).linked(parent)).sound(leaders),
        dag.with(child, dag.at(child).unlinked(parent)).sound(leaders),
{
    let own = dag.messages[child.place()];
    let linked = dag.with(child, own.linked(parent));
    let unlinked = dag.with(child, own.unlinked(parent));
    assert(own.sound_in(dag, leaders));
    lemmas::lemma_files_truly_elsewhere(dag, linked, own, leaders);
    lemmas::lemma_files_truly_elsewhere(dag, unlinked, own, leaders);
    lemmas::lemma_sound_with(dag, child, own.linked(parent), leaders);
    lemmas::lemma_sound_with(dag, child, own.unlinked(parent), leaders);
}

/// Aggregation leaves the DAG sound: a message takes over from its parents only what is true.
pub proof fn law_aggregation_keeps_dag_sound<T>(
    dag: DagView<T>,
    this: MessageRef,
    leaders: spec_fn(u64) -> u64,
)
    requires
        dag.well_formed(),
        dag.holds(this),
        dag.sound(leaders),
    ensures
        dag.with(this, dag.at(this).aggregated(dag.parents_of(this))).sound(leaders),
{
    let aggregated = dag.at(this).aggregated(dag.parents_of(this));
    lemmas::lemma_aggregated_sound(dag, this, leaders);
    lemmas::lemma_aggregated_within(dag, this);
    lemmas::lemma_files_truly_elsewhere(dag, dag.with(this, aggregated), aggregated, leaders);
    lemmas::lemma_sound_with(dag, this, aggregated, leaders);
}

/// Computing a message for the first time leaves the DAG sound: it is filed in its epoch, under
/// its owner, and as a representative only if it is one.
pub proof fn law_populating_keeps_dag_sound<T>(
    dag: DagView<T>,
    this: MessageRef,
    epoch: u64,
    total: nat,
    leaders: spec_fn(u64) -> u64,
)
    requires
        dag.well_formed(),
        dag.holds(this),
        dag.sound(leaders),
        dag.at(this).computed_epoch is None,
    ensures
        dag.with(
            this,
            dag.at(this).populated(this, dag.parents_of(this), epoch, leaders(epoch), total),
        ).sound(leaders),
{
    let aggregated = dag.at(this).aggregated(dag.parents_of(this));
    let populated = aggregated.placed(this, epoch).judged(this, epoch, leaders(epoch), total);
    let after = dag.with(this, populated);
    lemmas::lemma_aggregated_sound(dag, this, leaders);
    lemmas::lemma_aggregated_within(dag, this);
    assert(dag.computed_in(after));
    lemmas::lemma_files_truly_elsewhere(dag, after, aggregated, leaders);
    assert(after.at(this) == populated);
    assert forall|e: u64, owner_uid: u64| #[trigger]
        maps::files(populated.approved_epochs, e, owner_uid) implies {
        let filed = after.at(populated.approved_epochs[e][owner_uid]);
        filed.is_of(e) && filed.owner_uid() == owner_uid
    } by {
        assert(maps::files(aggregated.approved_epochs, e, owner_uid)
            || populated.approved_epochs[e][owner_uid] == this);
    }
    lemmas::lemma_sound_with(dag, this, populated, leaders);
}

/// Filing a kickout leaves the DAG sound, if it is a kickout message of the epoch.
pub proof fn law_filing_a_kickout_keeps_dag_sound<T>(
    dag: DagView<T>,
    this: MessageRef,
    epoch: u64,
    kickout: MessageRef,
    leaders: spec_fn(u64) -> u64,
)
    requires
        dag.well_formed(),
        dag.holds(this),
        dag.holds(kickout),
        dag.sound(leaders),
        epoch < u64::MAX,
        dag.at(kickout).ousts_before((epoch + 1) as u64, leaders((epoch + 1) as u64)),
    ensures
        dag.with(
            this,
            (MessageView {
                approved_kickouts: dag.at(this).approved_kickouts.insert(epoch, kickout),
                ..dag.at(this)
            }),
        ).sound(leaders),
{
    let own = dag.messages[this.place()];
    let filing = MessageView {
        approved_kickouts: own.approved_kickouts.insert(epoch, kickout),
        ..own
    };
    assert(own.sound_in(dag, leaders));
    assert(own.refers_within(dag.messages.len()));
    lemmas::lemma_files_truly_elsewhere(dag, dag.with(this, filing), filing, leaders);
    lemmas::lemma_sound_with(dag, this, filing, leaders);
}

/// Filing promises or endorsements leaves the DAG sound, if each is under its owner.
pub proof fn law_filing_by_owner_keeps_dag_sound<T>(
    dag: DagView<T>,
    this: MessageRef,
    epoch: u64,
    owners: Map<u64, MessageRef>,
    leaders: spec_fn(u64) -> u64,
)
    requires
        dag.well_formed(),
        dag.holds(this),
        dag.sound(leaders),
        model::within(owners, dag.messages.len()),
        forall|owner_uid: u64| #[trigger]
            owners.contains_key(owner_uid) ==> dag.at(owners[owner_uid]).owner_uid() == owner_uid,
    ensures
        dag.with(
            this,
            (MessageView {
                approved_promises: dag.at(this).approved_promises.insert(epoch, owners),
                ..dag.at(this)
            }),
        ).sound(leaders),
        dag.with(
            this,
            (MessageView {
                approved_endorsements: dag.at(this).approved_endorsements.insert(epoch, owners),
                ..dag.at(this)
            }),
        ).sound(leaders),
{
    let own = dag.messages[this.place()];
    let promising = MessageView {
        approved_promises: own.approved_promises.insert(epoch, owners),
        ..own
    };
    let endorsing = MessageView {
        approved_endorsements: own.approved_endorsements.insert(epoch, owners),
        ..own
    };
    assert(own.sound_in(dag, leaders));
    assert(own.refers_within(dag.messages.len()));
    lemmas::lemma_insert_files_by_owner(own.approved_promises, epoch, owners, dag);
    lemmas::lemma_insert_files_by_owner(own.approved_endorsements, epoch, owners, dag);
    lemmas::lemma_files_truly_elsewhere(dag, dag.with(this, promising), promising, leaders);
    lemmas::lemma_files_truly_elsewhere(dag, dag.with(this, endorsing), endorsing, leaders);
    lemmas::lemma_sound_with(dag, this, promising, leaders);
    lemmas::lemma_sound_with(dag, this, endorsing, leaders);
}

/// In a sound DAG, what a message approves in an epoch under an owner is a message of that owner
/// which has that epoch; what it approves as the representative of an epoch has that epoch, is a
/// representative, and the leader's; what it approves as the kickout of an epoch has the next one,
/// is a kickout, and the leader's there; endorsements and promises are by their owners. A message
/// with an epoch approves one of its owner there.
pub proof fn law_sound_dag_approves_what_is_true<T>(
    dag: DagView<T>,
    this: MessageRef,
    leaders: spec_fn(u64) -> u64,
    epoch: u64,
    owner_uid: u64,
)
    requires
        dag.sound(leaders),
        0 <= this.place() < dag.messages.len(),
    ensures
        ({
            let message = dag.messages[this.place()];
            &&& message.approved_epochs.contains_key(epoch)
                && message.approved_epochs[epoch].contains_key(owner_uid) ==> {
                let filed = dag.messages[message.approved_epochs[epoch][owner_uid].place()];
                filed.computed_epoch == Some(epoch) && filed.data.body.owner_uid == owner_uid
            }
            &&& message.approved_representatives.contains_key(epoch) ==> {
                let filed = dag.messages[message.approved_representatives[epoch].place()];
                &&& filed.computed_epoch == Some(epoch)
                &&& filed.computed_is_representative == Some(true)
                &&& filed.data.body.owner_uid == leaders(epoch)
            }
            &&& message.approved_kickouts.contains_key(epoch) ==> {
                let filed = dag.messages[message.approved_kickouts[epoch].place()];
                &&& epoch < u64::MAX
                &&& filed.computed_epoch == Some((epoch + 1) as u64)
                &&& filed.computed_is_kickout == Some(true)
                &&& filed.data.body.owner_uid == leaders((epoch + 1) as u64)
            }
            &&& message.approved_endorsements.contains_key(epoch)
                && message.approved_endorsements[epoch].contains_key(owner_uid)
                ==> dag.messages[message.approved_endorsements[epoch][
                owner_uid].place()].data.body.owner_uid
                == owner_uid
            &&& message.approved_promises.contains_key(epoch)
                && message.approved_promises[epoch].contains_key(owner_uid)
                ==> dag.messages[message.approved_promises[epoch][
                owner_uid].place()].data.body.owner_uid
                == owner_uid
            &&& message.computed_epoch == Some(epoch) ==> {
                &&& message.approved_epochs.contains_key(epoch)
                &&& message.approved_epochs[epoch].contains_key(message.data.body.owner_uid)
            }
        }),
{
    let message = dag.messages[this.place()];
    assert(message.sound_in(dag, leaders));
    assert(maps::files(message.approved_epochs, epoch, owner_uid) == (
    message.approved_epochs.contains_key(epoch) && message.approved_epochs[epoch].contains_key(
        owner_uid,
    )));
    assert(maps::files(message.approved_endorsements, epoch, owner_uid) == (
    message.approved_endorsements.contains_key(epoch)
        && message.approved_endorsements[epoch].contains_key(owner_uid)));
    assert(maps::files(message.approved_promises, epoch, owner_uid) == (
    message.approved_promises.contains_key(epoch)
        && message.approved_promises[epoch].contains_key(owner_uid)));
}

/// In a sound DAG, a representative of an epoch approves a representative of every epoch before,
/// each of them its leader's, back to the last one whose kickout it approves.
pub proof fn law_representatives_form_a_chain<T>(
    dag: DagView<T>,
    representative: MessageRef,
    earlier: u64,
    leaders: spec_fn(u64) -> u64,
)
    requires
        dag.well_formed(),
        dag.sound(leaders),
        dag.holds(representative),
        dag.at(representative).computed_is_representative == Some(true),
        earlier <= dag.at(representative).computed_epoch->0,
        forall|between: u64|
            earlier <= between < dag.at(representative).computed_epoch->0 ==> !(
            #[trigger] dag.at(representative).approved_kickouts.contains_key(between)),
    ensures
        ({
            let approved = dag.at(representative).approved_representatives;
            &&& approved.contains_key(earlier)
            &&& dag.holds(approved[earlier])
            &&& dag.at(approved[earlier]).stands_for(earlier, leaders(earlier))
        }),
{
    let message = dag.messages[representative.place()];
    assert(message.sound_in(dag, leaders));
    lemmas::lemma_reaches_back_to(message, message.computed_epoch->0, earlier);
    assert(message.refers_within(dag.messages.len()));
}

/// In a sound DAG, a representative that approves no representative of the epoch before approves a
/// kickout of it, which is a message of the same epoch as its own and by the leader there.
pub proof fn law_representative_follows_a_kickout<T>(
    dag: DagView<T>,
    representative: MessageRef,
    leaders: spec_fn(u64) -> u64,
)
    requires
        dag.well_formed(),
        dag.sound(leaders),
        dag.holds(representative),
        dag.at(representative).computed_is_representative == Some(true),
        dag.at(representative).computed_epoch->0 > 0,
        !dag.at(representative).approved_representatives.contains_key(
            (dag.at(representative).computed_epoch->0 - 1) as u64,
        ),
    ensures
        ({
            let epoch = dag.at(representative).computed_epoch->0;
            let approved = dag.at(representative).approved_kickouts;
            let before = (epoch - 1) as u64;
            &&& approved.contains_key(before)
            &&& dag.holds(approved[before])
            &&& dag.at(approved[before]).ousts_before(epoch, leaders(epoch))
        }),
{
    let message = dag.messages[representative.place()];
    assert(message.sound_in(dag, leaders));
    assert(message.approved_kickouts.contains_key((message.computed_epoch->0 - 1) as u64));
    assert(message.refers_within(dag.messages.len()));
}

/// A new message holds its data and nothing else, and comes after all others, which stay.
pub proof fn law_new_message_is_blank<T>(dag: DagView<T>, data: SignedMessageData<T>)
    ensures
        ({
            let messages = dag.added(MessageView::fresh(data)).messages;
            let new = messages[dag.messages.len() as int];
            &&& messages.len() == dag.messages.len() + 1
            &&& forall|i: int|
                0 <= i < dag.messages.len() ==> #[trigger] messages[i] == dag.messages[i]
            &&& new.data == data
            &&& new.parents.len() == 0
            &&& new.computed_epoch is None
            &&& new.computed_is_representative is None
            &&& new.computed_is_kickout is None
            &&& forall|epoch: u64|
                {
                    &&& !(#[trigger] new.approved_epochs.contains_key(epoch))
                    &&& !new.approved_representatives.contains_key(epoch)
                    &&& !new.approved_kickouts.contains_key(epoch)
                    &&& !new.approved_endorsements.contains_key(epoch)
                    &&& !new.approved_promises.contains_key(epoch)
                }
        }),
{
}

/// A change to one message is seen there, and at no other one.
pub proof fn law_change_is_seen_at_its_message_alone<T>(
    dag: DagView<T>,
    this: MessageRef,
    view: MessageView<T>,
)
    requires
        0 <= this.place() < dag.messages.len(),
    ensures
        dag.holds(this),
        dag.at(this) == dag.messages[this.place()],
        dag.with(this, view).messages.len() == dag.messages.len(),
        dag.with(this, view).at(this) == view,
        forall|other: MessageRef|
            0 <= other.place() < dag.messages.len() && other.place() != this.place()
                ==> #[trigger] dag.with(this, view).at(other) == dag.messages[other.place()],
        dag.with(this, dag.at(this)) == dag,
{
    assert(dag.with(this, dag.at(this)) =~= dag);
}

/// The parents of a message are the messages that it is linked to, as the DAG holds them, in the
/// order of the links.
pub proof fn law_parents_are_what_the_links_lead_to<T>(dag: DagView<T>, this: MessageRef, i: int)
    requires
        0 <= this.place() < dag.messages.len(),
        0 <= i < dag.messages[this.place()].parents.len(),
    ensures
        dag.parents_of(this).len() == dag.messages[this.place()].parents.len(),
        dag.parents_of(this)[i] == dag.messages[dag.messages[this.place()].parents[i].place()],
{
}

/// A DAG is well-formed exactly if all references lead to one of its messages.
pub proof fn law_well_formed_dag_has_no_loose_ends<T>(dag: DagView<T>)
    ensures
        dag.well_formed() <==> forall|m: int|
            0 <= m < dag.messages.len() ==> {
                let count = dag.messages.len();
                let message = #[trigger] dag.messages[m];
                &&& forall|i: int|
                    0 <= i < message.parents.len() ==> 0 <= (#[trigger] message.parents[i]).place()
                        < count
                &&& forall|epoch: u64| #[trigger]
                    message.approved_representatives.contains_key(epoch) ==> 0
                        <= message.approved_representatives[epoch].place() < count
                &&& forall|epoch: u64| #[trigger]
                    message.approved_kickouts.contains_key(epoch) ==> 0
                        <= message.approved_kickouts[epoch].place() < count
                &&& forall|epoch: u64, owner_uid: u64|
                    message.approved_epochs.contains_key(epoch)
                        && #[trigger] message.approved_epochs[epoch].contains_key(owner_uid) ==> 0
                        <= message.approved_epochs[epoch][owner_uid].place() < count
                &&& forall|epoch: u64, owner_uid: u64|
                    message.approved_endorsements.contains_key(epoch)
                        && #[trigger] message.approved_endorsements[epoch].contains_key(owner_uid)
                        ==> 0 <= message.approved_endorsements[epoch][owner_uid].place() < count
                &&& forall|epoch: u64, owner_uid: u64|
                    message.approved_promises.contains_key(epoch)
                        && #[trigger] message.approved_promises[epoch].contains_key(owner_uid)
                        ==> 0 <= message.approved_promises[epoch][owner_uid].place() < count
            },
{
    let count = dag.messages.len();
    assert forall|m: int| 0 <= m < count && dag.well_formed() implies (
    #[trigger] dag.messages[m]).refers_within(count) by {}
    if !dag.well_formed() {
        let m = choose|m: int|
            0 <= m < count && !(#[trigger] dag.messages[m]).refers_within(count);
        let message = dag.messages[m];
        assert(!message.refers_within(count));
    }
}

/// Linking appends the parent, also one that is there already, and changes nothing else.
pub proof fn law_link_appends_the_parent<T>(message: MessageView<T>, parent: MessageRef)
    ensures
        ({
            let linked = message.linked(parent);
            &&& linked.parents.len() == message.parents.len() + 1
            &&& linked.parents[message.parents.len() as int] == parent
            &&& forall|i: int|
                0 <= i < message.parents.len() ==> #[trigger] linked.parents[i]
                    == message.parents[i]
            &&& linked == (MessageView { parents: linked.parents, ..message })
        }),
{
}

/// Unlinking a parent has nothing to do with links to others: they can be made before it or after,
/// and stay in their order. Beyond the parents it changes nothing.
pub proof fn law_unlink_leaves_other_links_alone<T>(
    message: MessageView<T>,
    parent: MessageRef,
    other: MessageRef,
)
    ensures
        other != parent ==> message.linked(other).unlinked(parent) == message.unlinked(
            parent,
        ).linked(other),
        message.parents.len() == 0 ==> message.unlinked(parent) == message,
        message.unlinked(parent) == (MessageView {
            parents: message.unlinked(parent).parents,
            ..message
        }),
{
    reveal(Seq::filter);
    assert(message.parents.push(other).drop_last() =~= message.parents);
    if message.parents.len() == 0 {
        assert(message.unlinked(parent).parents =~= message.parents);
    }
}

/// Aggregation keeps what the owner put into the message, its parents, and what has been computed.
pub proof fn law_aggregation_changes_approvals_alone<T>(
    message: MessageView<T>,
    parents: Seq<MessageView<T>>,
)
    ensures
        message.aggregated(parents).data == message.data,
        message.aggregated(parents).parents == message.parents,
        message.aggregated(parents).computed_epoch == message.computed_epoch,
        message.aggregated(parents).computed_is_representative
            == message.computed_is_representative,
        message.aggregated(parents).computed_is_kickout == message.computed_is_kickout,
{
}

/// After aggregation, the representative and the kickout of an epoch are those of the last parent
/// that approves one, and those of the message itself where no parent does.
pub proof fn law_aggregation_prefers_the_last_parent<T>(
    message: MessageView<T>,
    parents: Seq<MessageView<T>>,
    epoch: u64,
)
    ensures
        ({
            let aggregated = message.aggregated(parents);
            &&& forall|i: int|
                #![trigger parents[i]]
                0 <= i < parents.len() && parents[i].approved_representatives.contains_key(epoch)
                    && (forall|j: int|
                    i < j < parents.len() ==> !(
                    #[trigger] parents[j]).approved_representatives.contains_key(epoch)) ==> {
                    &&& aggregated.approved_representatives.contains_key(epoch)
                    &&& aggregated.approved_representatives[epoch]
                        == parents[i].approved_representatives[epoch]
                }
            &&& (forall|j: int|
                0 <= j < parents.len() ==> !(
                #[trigger] parents[j]).approved_representatives.contains_key(epoch)) ==> {
                &&& aggregated.approved_representatives.contains_key(epoch)
                    == message.approved_representatives.contains_key(epoch)
                &&& message.approved_representatives.contains_key(epoch)
                    ==> aggregated.approved_representatives[epoch]
                    == message.approved_representatives[epoch]
            }
            &&& forall|i: int|
                #![trigger parents[i]]
                0 <= i < parents.len() && parents[i].approved_kickouts.contains_key(epoch) && (
                forall|j: int|
                    i < j < parents.len() ==> !(
                    #[trigger] parents[j]).approved_kickouts.contains_key(epoch)) ==> {
                    &&& aggregated.approved_kickouts.contains_key(epoch)
                    &&& aggregated.approved_kickouts[epoch] == parents[i].approved_kickouts[epoch]
                }
            &&& (forall|j: int|
                0 <= j < parents.len() ==> !(#[trigger] parents[j]).approved_kickouts.contains_key(
                    epoch,
                )) ==> {
                &&& aggregated.approved_kickouts.contains_key(epoch)
                    == message.approved_kickouts.contains_key(epoch)
                &&& message.approved_kickouts.contains_key(epoch)
                    ==> aggregated.approved_kickouts[epoch] == message.approved_kickouts[epoch]
            }
        }),
{
    lemmas::lemma_last_parent(
        message.approved_representatives,
        parents,
        model::representatives(),
        epoch,
    );
    lemmas::lemma_last_parent(message.approved_kickouts, parents, model::kickouts(), epoch);
}

/// After aggregation, the message, the endorsement and the promise of an owner for an epoch are
/// those of the last parent that approves one, and those that the message itself approves where no
/// parent does. Whether there is one depends on the message and its parents together.
pub proof fn law_aggregation_prefers_the_last_parent_by_owner<T>(
    message: MessageView<T>,
    parents: Seq<MessageView<T>>,
    epoch: u64,
    owner_uid: u64,
)
    ensures
        ({
            let after = message.aggregated(parents).approved_epochs;
            let own = message.approved_epochs;
            &&& forall|i: int|
                #![trigger parents[i]]
                ({
                    &&& 0 <= i < parents.len()
                    &&& parents[i].approved_epochs.contains_key(epoch)
                    &&& parents[i].approved_epochs[epoch].contains_key(owner_uid)
                    &&& forall|j: int|
                        i < j < parents.len() && (
                        #[trigger] parents[j]).approved_epochs.contains_key(epoch)
                            ==> !parents[j].approved_epochs[epoch].contains_key(owner_uid)
                }) ==> {
                    &&& after.contains_key(epoch) && after[epoch].contains_key(owner_uid)
                    &&& after[epoch][owner_uid] == parents[i].approved_epochs[epoch][owner_uid]
                }
            &&& (forall|j: int|
                0 <= j < parents.len() && (
                #[trigger] parents[j]).approved_epochs.contains_key(epoch)
                    ==> !parents[j].approved_epochs[epoch].contains_key(owner_uid)) ==> {
                let was_there = own.contains_key(epoch) && own[epoch].contains_key(owner_uid);
                &&& (after.contains_key(epoch) && after[epoch].contains_key(owner_uid)) == was_there
                &&& was_there ==> after[epoch][owner_uid] == own[epoch][owner_uid]
            }
        }),
        ({
            let after = message.aggregated(parents).approved_endorsements;
            let own = message.approved_endorsements;
            &&& forall|i: int|
                #![trigger parents[i]]
                ({
                    &&& 0 <= i < parents.len()
                    &&& parents[i].approved_endorsements.contains_key(epoch)
                    &&& parents[i].approved_endorsements[epoch].contains_key(owner_uid)
                    &&& forall|j: int|
                        i < j < parents.len() && (
                        #[trigger] parents[j]).approved_endorsements.contains_key(epoch)
                            ==> !parents[j].approved_endorsements[epoch].contains_key(owner_uid)
                }) ==> {
                    &&& after.contains_key(epoch) && after[epoch].contains_key(owner_uid)
                    &&& after[epoch][owner_uid] == parents[i].approved_endorsements[epoch][owner_uid]
                }
            &&& (forall|j: int|
                0 <= j < parents.len() && (
                #[trigger] parents[j]).approved_endorsements.contains_key(epoch)
                    ==> !parents[j].approved_endorsements[epoch].contains_key(owner_uid)) ==> {
                let was_there = own.contains_key(epoch) && own[epoch].contains_key(owner_uid);
                &&& (after.contains_key(epoch) && after[epoch].contains_key(owner_uid)) == was_there
                &&& was_there ==> after[epoch][owner_uid] == own[epoch][owner_uid]
            }
        }),
        ({
            let after = message.aggregated(parents).approved_promises;
            let own = message.approved_promises;
            &&& forall|i: int|
                #![trigger parents[i]]
                ({
                    &&& 0 <= i < parents.len()
                    &&& parents[i].approved_promises.contains_key(epoch)
                    &&& parents[i].approved_promises[epoch].contains_key(owner_uid)
                    &&& forall|j: int|
                        i < j < parents.len() && (
                        #[trigger] parents[j]).approved_promises.contains_key(epoch)
                            ==> !parents[j].approved_promises[epoch].contains_key(owner_uid)
                }) ==> {
                    &&& after.contains_key(epoch) && after[epoch].contains_key(owner_uid)
                    &&& after[epoch][owner_uid] == parents[i].approved_promises[epoch][owner_uid]
                }
            &&& (forall|j: int|
                0 <= j < parents.len() && (
                #[trigger] parents[j]).approved_promises.contains_key(epoch)
                    ==> !parents[j].approved_promises[epoch].contains_key(owner_uid)) ==> {
                let was_there = own.contains_key(epoch) && own[epoch].contains_key(owner_uid);
                &&& (after.contains_key(epoch) && after[epoch].contains_key(owner_uid)) == was_there
                &&& was_there ==> after[epoch][owner_uid] == own[epoch][owner_uid]
            }
        }),
{
    lemmas::lemma_last_parent_nested(
        message.approved_epochs,
        parents,
        model::epochs(),
        epoch,
        owner_uid,
    );
    lemmas::lemma_last_parent_nested(
        message.approved_endorsements,
        parents,
        model::endorsements(),
        epoch,
        owner_uid,
    );
    lemmas::lemma_last_parent_nested(
        message.approved_promises,
        parents,
        model::promises(),
        epoch,
        owner_uid,
    );
}

/// The previous epoch of an owner with a message among those that the parents approve: `last`, if
/// some parent approves one there and none approves one in a later epoch. Where the epochs start
/// does not matter.
pub proof fn law_previous_epoch_of_a_known_owner<T>(
    parents: Seq<MessageView<T>>,
    owner_uid: u64,
    starting_epoch: u64,
    last: u64,
)
    requires
        exists|i: int|
            0 <= i < parents.len() && (#[trigger] parents[i]).approved_epochs.contains_key(last)
                && parents[i].approved_epochs[last].contains_key(owner_uid),
        forall|i: int, epoch: u64|
            0 <= i < parents.len() && #[trigger] parents[i].approved_epochs.contains_key(epoch)
                && parents[i].approved_epochs[epoch].contains_key(owner_uid) ==> epoch <= last,
    ensures
        model::prev_epoch_of(parents, owner_uid, starting_epoch) == last,
{
    law_prev_epoch_is_the_last(parents, owner_uid, starting_epoch);
    let i = choose|i: int|
        0 <= i < parents.len() && (#[trigger] parents[i]).approved_epochs.contains_key(last)
            && parents[i].approved_epochs[last].contains_key(owner_uid);
    assert(maps::files(parents[i].approved_epochs, last, owner_uid));
    assert(model::approved_in(parents, owner_uid, last));
}

/// The previous epoch of an owner without any message among those that the parents approve is the
/// one in which the epochs start.
pub proof fn law_previous_epoch_of_a_new_owner<T>(
    parents: Seq<MessageView<T>>,
    owner_uid: u64,
    starting_epoch: u64,
)
    requires
        forall|i: int, epoch: u64|
            0 <= i < parents.len() && #[trigger] parents[i].approved_epochs.contains_key(epoch)
                ==> !parents[i].approved_epochs[epoch].contains_key(owner_uid),
    ensures
        model::prev_epoch_of(parents, owner_uid, starting_epoch) == starting_epoch,
{
    assert forall|epoch: u64| !model::approved_in(parents, owner_uid, epoch) by {
        if model::approved_in(parents, owner_uid, epoch) {
            let i = choose|i: int|
                0 <= i < parents.len() && maps::files(
                    (#[trigger] parents[i]).approved_epochs,
                    epoch,
                    owner_uid,
                );
            assert(parents[i].approved_epochs.contains_key(epoch));
        }
    }
}

/// An epoch is over exactly if the nodes of which some parent approves a message there, each
/// counted once, are more than two thirds of its witnesses. `owners` are those nodes.
pub proof fn law_promotion_takes_two_thirds_of_the_owners<T>(
    parents: Seq<MessageView<T>>,
    epoch: u64,
    owners: Set<u64>,
    total: nat,
)
    requires
        forall|owner_uid: u64| #[trigger]
            owners.contains(owner_uid) <==> exists|i: int|
                0 <= i < parents.len() && (#[trigger] parents[i]).approved_epochs.contains_key(
                    epoch,
                ) && parents[i].approved_epochs[epoch].contains_key(owner_uid),
    ensures
        model::promotes(parents, epoch, total) <==> 3 * owners.len() > 2 * total,
{
    lemmas::lemma_owners_are(parents, epoch, owners);
}

/// More than two thirds of the nodes, listed without repetition and each with a message that some
/// parent approves in the epoch, are enough to end it. Without any such message it does not end,
/// not even if it has no witnesses.
pub proof fn law_listed_owners_end_the_epoch<T>(
    parents: Seq<MessageView<T>>,
    epoch: u64,
    listed: Seq<u64>,
    total: nat,
)
    requires
        listed.no_duplicates(),
        forall|k: int|
            0 <= k < listed.len() ==> exists|i: int|
                0 <= i < parents.len() && (#[trigger] parents[i]).approved_epochs.contains_key(
                    epoch,
                ) && parents[i].approved_epochs[epoch].contains_key(#[trigger] listed[k]),
    ensures
        3 * listed.len() > 2 * total ==> model::promotes(parents, epoch, total),
        (forall|i: int, owner_uid: u64|
            0 <= i < parents.len() && (#[trigger] parents[i]).approved_epochs.contains_key(epoch)
                ==> !(#[trigger] parents[i].approved_epochs[epoch].contains_key(owner_uid)))
            ==> !model::promotes(parents, epoch, total),
{
    let owners = model::owners_in(parents, epoch);
    listed.unique_seq_to_set();
    assert forall|owner_uid: u64| listed.to_set().contains(owner_uid) implies owners.contains(
        owner_uid,
    ) by {
        let k = choose|k: int| 0 <= k < listed.len() && listed[k] == owner_uid;
        let i = choose|i: int|
            0 <= i < parents.len() && (#[trigger] parents[i]).approved_epochs.contains_key(epoch)
                && parents[i].approved_epochs[epoch].contains_key(listed[k]);
        assert(maps::files(parents[i].approved_epochs, epoch, owner_uid));
    }
    lemmas::lemma_uids_len_subset(listed.to_set(), owners);
    if forall|i: int, owner_uid: u64|
        0 <= i < parents.len() && (#[trigger] parents[i]).approved_epochs.contains_key(epoch)
            ==> !(#[trigger] parents[i].approved_epochs[epoch].contains_key(owner_uid)) {
        assert(owners =~= Set::<u64>::empty());
    }
}

/// A message whose epoch is not recomputed has that of its data, whatever its parents are.
pub proof fn law_epoch_of_the_data<T, S: WitnessSelectorLike>(
    message: MessageView<T>,
    parents: Seq<MessageView<T>>,
    starting_epoch: u64,
    selector: &S,
    epoch: int,
)
    ensures
        model::may_have_epoch(message, parents, false, starting_epoch, selector, epoch) <==> epoch
            == message.data.body.epoch,
{
}

/// The recomputed epoch of a message whose owner has an earlier one. `last` is the last epoch in
/// which some parent approves a message of the owner, and `owners` are the nodes of which some
/// parent approves a message there. The epoch is the next one if they are more than two thirds of
/// the witnesses that the selector names for `last`, and `last` if not.
pub proof fn law_recomputed_epoch_of_a_known_owner<T, S: WitnessSelectorLike>(
    message: MessageView<T>,
    parents: Seq<MessageView<T>>,
    starting_epoch: u64,
    selector: &S,
    last: u64,
    owners: Set<u64>,
    epoch: int,
)
    requires
        exists|i: int|
            0 <= i < parents.len() && (#[trigger] parents[i]).approved_epochs.contains_key(last)
                && parents[i].approved_epochs[last].contains_key(message.data.body.owner_uid),
        forall|i: int, e: u64|
            0 <= i < parents.len() && #[trigger] parents[i].approved_epochs.contains_key(e)
                && parents[i].approved_epochs[e].contains_key(message.data.body.owner_uid) ==> e
                <= last,
        forall|owner_uid: u64| #[trigger]
            owners.contains(owner_uid) <==> exists|i: int|
                0 <= i < parents.len() && (#[trigger] parents[i]).approved_epochs.contains_key(
                    last,
                ) && parents[i].approved_epochs[last].contains_key(owner_uid),
    ensures
        model::may_have_epoch(message, parents, true, starting_epoch, selector, epoch)
            <==> exists|uids: &HashSet<u64>| #[trigger]
            call_ensures(S::epoch_witnesses, (selector, last), uids) && epoch == (if 3
                * owners.len() > 2 * uids@.len() {
                last + 1
            } else {
                last as int
            }),
{
    law_previous_epoch_of_a_known_owner(
        parents,
        message.data.body.owner_uid,
        starting_epoch,
        last,
    );
    lemmas::lemma_recomputed_epoch(message, parents, starting_epoch, selector, last, owners, epoch);
}

/// The recomputed epoch of a message whose owner has no earlier one: the epoch after the starting
/// one if the nodes of which some parent approves a message in the starting epoch, `owners`, are
/// more than two thirds of the witnesses that the selector names for it, and the starting epoch if
/// not.
pub proof fn law_recomputed_epoch_of_a_new_owner<T, S: WitnessSelectorLike>(
    message: MessageView<T>,
    parents: Seq<MessageView<T>>,
    starting_epoch: u64,
    selector: &S,
    owners: Set<u64>,
    epoch: int,
)
    requires
        forall|i: int, e: u64|
            0 <= i < parents.len() && #[trigger] parents[i].approved_epochs.contains_key(e)
                ==> !parents[i].approved_epochs[e].contains_key(message.data.body.owner_uid),
        forall|owner_uid: u64| #[trigger]
            owners.contains(owner_uid) <==> exists|i: int|
                0 <= i < parents.len() && (#[trigger] parents[i]).approved_epochs.contains_key(
                    starting_epoch,
                ) && parents[i].approved_epochs[starting_epoch].contains_key(owner_uid),
    ensures
        model::may_have_epoch(message, parents, true, starting_epoch, selector, epoch)
            <==> exists|uids: &HashSet<u64>| #[trigger]
            call_ensures(S::epoch_witnesses, (selector, starting_epoch), uids) && epoch == (if 3
                * owners.len() > 2 * uids@.len() {
                starting_epoch + 1
            } else {
                starting_epoch as int
            }),
{
    law_previous_epoch_of_a_new_owner(parents, message.data.body.owner_uid, starting_epoch);
    lemmas::lemma_recomputed_epoch(
        message,
        parents,
        starting_epoch,
        selector,
        starting_epoch,
        owners,
        epoch,
    );
}

/// The witnesses are counted as the selector names them for the epoch that is asked about.
pub proof fn law_witnesses_are_those_of_the_epoch<S: WitnessSelectorLike>(
    selector: &S,
    epoch: u64,
    total: nat,
)
    ensures
        witness::may_count(selector, epoch, total) <==> exists|uids: &HashSet<u64>| #[trigger]
            call_ensures(S::epoch_witnesses, (selector, epoch), uids) && uids@.len() == total,
{
}

/// The leader that counts is the one that the selector names for the epoch of the message. Its
/// witnesses are those that the selector names for that same epoch, wherever the message is the
/// leader's and approves a kickout of the epoch before, but no representative of it.
pub proof fn law_leader_and_witnesses_are_those_of_the_epoch<T, S: WitnessSelectorLike>(
    message: MessageView<T>,
    epoch: u64,
    selector: &S,
    leader: u64,
    total: nat,
)
    requires
        model::may_answer(message, epoch, selector, leader, total),
    ensures
        call_ensures(S::epoch_leader, (selector, epoch), leader),
        ({
            &&& message.data.body.owner_uid == leader
            &&& epoch > 0
            &&& message.approved_kickouts.contains_key((epoch - 1) as u64)
            &&& !message.approved_representatives.contains_key((epoch - 1) as u64)
        }) ==> exists|uids: &HashSet<u64>| #[trigger]
            call_ensures(S::epoch_witnesses, (selector, epoch), uids) && uids@.len() == total,
{
}

/// Every answer of the selector about the epoch can be the one that counts.
pub proof fn law_every_answer_of_the_selector_counts<T, S: WitnessSelectorLike>(
    message: MessageView<T>,
    epoch: u64,
    selector: &S,
    leader: u64,
    uids: &HashSet<u64>,
)
    requires
        call_ensures(S::epoch_leader, (selector, epoch), leader),
        call_ensures(S::epoch_witnesses, (selector, epoch), uids),
    ensures
        model::may_answer(message, epoch, selector, leader, uids@.len()),
{
    assert(witness::may_count(selector, epoch, uids@.len()));
}

/// Only the leader represents an epoch.
pub proof fn law_only_the_leader_represents<T>(
    message: MessageView<T>,
    this: MessageRef,
    epoch: u64,
    leader: u64,
    total: nat,
)
    requires
        message.represents(this, epoch, leader, total),
    ensures
        message.data.body.owner_uid == leader,
{
}

/// A message of the leader that approves no other representative of the epoch is a representative
/// of it if the epoch is the first of all; or if it approves a representative of the epoch before;
/// or if it approves a kickout of that, and promises for it of more than two thirds of the
/// witnesses. Nothing else about the message matters, its parents least of all.
pub proof fn law_leader_represents_where_it_can<T>(
    message: MessageView<T>,
    this: MessageRef,
    epoch: u64,
    total: nat,
)
    requires
        message.approved_representatives.contains_key(epoch)
            ==> message.approved_representatives[epoch] == this,
    ensures
        epoch == 0 ==> message.represents(this, epoch, message.data.body.owner_uid, total),
        epoch > 0 && message.approved_representatives.contains_key((epoch - 1) as u64)
            ==> message.represents(this, epoch, message.data.body.owner_uid, total),
        epoch > 0 && message.approved_kickouts.contains_key((epoch - 1) as u64)
            && message.approved_promises.contains_key((epoch - 1) as u64) && 3
            * message.approved_promises[(epoch - 1) as u64].dom().len() > 2 * total
            ==> message.represents(this, epoch, message.data.body.owner_uid, total),
{
}

/// Nobody represents an epoch of which the message approves another representative, nor one after
/// an epoch that is open: without representative, and without a kickout that enough promises carry.
pub proof fn law_leader_represents_nowhere_else<T>(
    message: MessageView<T>,
    this: MessageRef,
    epoch: u64,
    leader: u64,
    total: nat,
)
    ensures
        message.approved_representatives.contains_key(epoch)
            && message.approved_representatives[epoch] != this ==> !message.represents(
            this,
            epoch,
            leader,
            total,
        ),
        ({
            &&& epoch > 0
            &&& !message.approved_representatives.contains_key((epoch - 1) as u64)
            &&& {
                ||| !message.approved_kickouts.contains_key((epoch - 1) as u64)
                ||| !message.approved_promises.contains_key((epoch - 1) as u64)
                ||| 3 * message.approved_promises[(epoch - 1) as u64].dom().len() <= 2 * total
            }
        }) ==> !message.represents(this, epoch, leader, total),
{
}

/// A message is a kickout of the epoch before exactly if it is the leader's, of an epoch that has
/// one before it, approves no representative of that one nor another message of the leader in its
/// own epoch, and lacks the promises that would make it a representative, or approves another
/// representative of its epoch.
pub proof fn law_kickout_is_the_first_message_without_a_representative<T>(
    message: MessageView<T>,
    this: MessageRef,
    epoch: u64,
    leader: u64,
    total: nat,
)
    ensures
        message.kicks_out(this, epoch, leader, total) <==> {
            let before = (epoch - 1) as u64;
            let owner_uid = message.data.body.owner_uid;
            let first = !(message.approved_epochs.contains_key(epoch)
                && message.approved_epochs[epoch].contains_key(owner_uid)
                && message.approved_epochs[epoch][owner_uid] != this);
            let carried = message.approved_kickouts.contains_key(before)
                && message.approved_promises.contains_key(before) && 3
                * message.approved_promises[before].dom().len() > 2 * total;
            let rival = message.approved_representatives.contains_key(epoch)
                && message.approved_representatives[epoch] != this;
            &&& owner_uid == leader
            &&& epoch > 0
            &&& !message.approved_representatives.contains_key(before)
            &&& first
            &&& !carried || rival
        },
{
}

/// A message gives a promise for the kickout of an epoch exactly if it approves one and approves no
/// representative of the epoch.
pub proof fn law_promise_is_for_a_kickout_without_representative<T>(
    message: MessageView<T>,
    epoch: u64,
)
    ensures
        message.promises(epoch) ==> message.approved_kickouts.contains_key(epoch),
        message.approved_representatives.contains_key(epoch) ==> !message.promises(epoch),
        message.approved_kickouts.contains_key(epoch)
            && !message.approved_representatives.contains_key(epoch) ==> message.promises(epoch),
{
}

/// The promises of a message follow from what it approves alone: not from its data or parents, nor
/// from what has been computed of it.
pub proof fn law_promises_follow_from_approvals<T>(
    message: MessageView<T>,
    other: MessageView<T>,
    epoch: u64,
)
    requires
        message.approved_kickouts == other.approved_kickouts,
        message.approved_representatives == other.approved_representatives,
    ensures
        message.promises(epoch) == other.promises(epoch),
{
}

/// Approving the representative of an epoch through one parent takes back the promise against it,
/// and nothing that is aggregated gives it again.
pub proof fn law_approved_representative_ends_the_promise<T>(
    message: MessageView<T>,
    parents: Seq<MessageView<T>>,
    i: int,
    epoch: u64,
)
    requires
        0 <= i < parents.len(),
        parents[i].approved_representatives.contains_key(epoch),
    ensures
        !message.aggregated(parents).promises(epoch),
{
    law_aggregation_is_complete(message, parents, epoch, 0);
}

/// A message endorses the representative of an epoch exactly if it approves one, an entry of the
/// endorsements in its data is for that epoch, and it approves no promise of its own owner for the
/// kickout of the epoch.
pub proof fn law_endorsement_takes_the_part_and_no_promise<T>(
    message: MessageView<T>,
    epoch: u64,
)
    ensures
        message.endorses(epoch) <==> {
            &&& message.approved_representatives.contains_key(epoch)
            &&& exists|i: int|
                0 <= i < message.data.body.endorsements@.len() && (
                #[trigger] message.data.body.endorsements@[i]).epoch == epoch
            &&& !(message.approved_promises.contains_key(epoch)
                && message.approved_promises[epoch].contains_key(message.data.body.owner_uid))
        },
        message.data.body.endorsements@.len() == 0 ==> !message.endorses(epoch),
{
}

/// The endorsements of a message follow from its data and from what it approves alone: not from
/// its parents, nor from what has been computed of it.
pub proof fn law_endorsements_follow_from_data_and_approvals<T>(
    message: MessageView<T>,
    other: MessageView<T>,
    epoch: u64,
)
    requires
        message.data == other.data,
        message.approved_representatives == other.approved_representatives,
        message.approved_promises == other.approved_promises,
    ensures
        message.endorses(epoch) == other.endorses(epoch),
{
}

/// Computing a message gives it its epoch and keeps its data, its parents, and the kickouts,
/// endorsements and promises that it has aggregated.
pub proof fn law_populated_message_has_its_epoch<T>(
    message: MessageView<T>,
    this: MessageRef,
    parents: Seq<MessageView<T>>,
    epoch: u64,
    leader: u64,
    total: nat,
)
    ensures
        ({
            let aggregated = message.aggregated(parents);
            let populated = message.populated(this, parents, epoch, leader, total);
            &&& populated.computed_epoch == Some(epoch)
            &&& populated.data == message.data
            &&& populated.parents == message.parents
            &&& populated.approved_kickouts == aggregated.approved_kickouts
            &&& populated.approved_endorsements == aggregated.approved_endorsements
            &&& populated.approved_promises == aggregated.approved_promises
        }),
{
}

/// A computed message is filed in its epoch under its owner, unless one of the owner was there.
/// Everything else that is filed by epoch and owner is what it has aggregated.
pub proof fn law_populated_message_is_filed_once<T>(
    message: MessageView<T>,
    this: MessageRef,
    parents: Seq<MessageView<T>>,
    epoch: u64,
    leader: u64,
    total: nat,
    e: u64,
    owner_uid: u64,
)
    ensures
        ({
            let before = message.aggregated(parents).approved_epochs;
            let after = message.populated(this, parents, epoch, leader, total).approved_epochs;
            let was_there = before.contains_key(e) && before[e].contains_key(owner_uid);
            let own = e == epoch && owner_uid == message.data.body.owner_uid;
            &&& after.contains_key(e) <==> before.contains_key(e) || e == epoch
            &&& after.contains_key(e) && after[e].contains_key(owner_uid) <==> was_there || own
            &&& was_there ==> after[e][owner_uid] == before[e][owner_uid]
            &&& own && !was_there ==> after[e][owner_uid] == this
        }),
{
}

/// A computed message is filed as the representative of its epoch if it is one. All other
/// representatives that it approves are those that it has aggregated.
pub proof fn law_populated_representative_is_filed<T>(
    message: MessageView<T>,
    this: MessageRef,
    parents: Seq<MessageView<T>>,
    epoch: u64,
    leader: u64,
    total: nat,
    e: u64,
)
    ensures
        ({
            let before = message.aggregated(parents).approved_representatives;
            let populated = message.populated(this, parents, epoch, leader, total);
            let after = populated.approved_representatives;
            let own = e == epoch && populated.computed_is_representative == Some(true);
            &&& after.contains_key(e) <==> before.contains_key(e) || own
            &&& own ==> after[e] == this
            &&& before.contains_key(e) && !own ==> after[e] == before[e]
        }),
{
}

/// What makes a message a representative, in terms of what it and its parents approved before it
/// was computed. It is one if it is the leader's, whatever representative of the epoch it or a
/// parent approves is itself, and the epoch is the first, or it or a parent approves a
/// representative of the epoch before, or a kickout of that and, together, promises of more than
/// two thirds of the witnesses. `promisers` are the owners of those promises.
pub proof fn law_message_of_the_leader_becomes_representative<T>(
    message: MessageView<T>,
    this: MessageRef,
    parents: Seq<MessageView<T>>,
    epoch: u64,
    leader: u64,
    total: nat,
    promisers: Set<u64>,
)
    requires
        message.data.body.owner_uid == leader,
        message.approved_representatives.contains_key(epoch)
            ==> message.approved_representatives[epoch] == this,
        forall|i: int|
            0 <= i < parents.len() && (
            #[trigger] parents[i]).approved_representatives.contains_key(epoch)
                ==> parents[i].approved_representatives[epoch] == this,
        epoch > 0 ==> forall|owner_uid: u64| #[trigger]
            promisers.contains(owner_uid) <==> {
                let before = (epoch - 1) as u64;
                ||| message.approved_promises.contains_key(before)
                    && message.approved_promises[before].contains_key(owner_uid)
                ||| exists|i: int|
                    0 <= i < parents.len() && (
                    #[trigger] parents[i]).approved_promises.contains_key(before)
                        && parents[i].approved_promises[before].contains_key(owner_uid)
            },
        ({
            let before = (epoch - 1) as u64;
            ||| epoch == 0
            ||| message.approved_representatives.contains_key(before)
            ||| exists|i: int|
                0 <= i < parents.len() && (
                #[trigger] parents[i]).approved_representatives.contains_key(before)
            ||| 3 * promisers.len() > 2 * total && {
                ||| message.approved_kickouts.contains_key(before)
                ||| exists|i: int|
                    0 <= i < parents.len() && (
                    #[trigger] parents[i]).approved_kickouts.contains_key(before)
            }
        }),
    ensures
        ({
            let populated = message.populated(this, parents, epoch, leader, total);
            &&& populated.computed_is_representative == Some(true)
            &&& populated.computed_is_kickout == Some(false)
            &&& populated.approved_representatives.contains_key(epoch)
            &&& populated.approved_representatives[epoch] == this
        }),
{
    let aggregated = message.aggregated(parents);
    law_aggregation_is_complete(message, parents, epoch, 0);
    lemmas::lemma_overlaid_says(
        message.approved_representatives,
        model::representatives_of(parents),
        epoch,
        this,
    );
    if epoch > 0 {
        let before = (epoch - 1) as u64;
        law_aggregation_is_complete(message, parents, before, 0);
        lemmas::lemma_promisers_are(message, parents, before, promisers);
    }
}

/// What keeps a message from being a representative, in the same terms: neither it nor a parent
/// approves a representative of the epoch before, and they approve no kickout of that either, or
/// promises of too few witnesses. `promisers` are the owners of those promises. The message is a
/// kickout then if it is the leader's and neither it nor a parent approves a message of the leader
/// in the epoch, and none if it is another node's.
pub proof fn law_message_does_not_become_representative<T>(
    message: MessageView<T>,
    this: MessageRef,
    parents: Seq<MessageView<T>>,
    epoch: u64,
    leader: u64,
    total: nat,
    promisers: Set<u64>,
)
    requires
        epoch > 0,
        !message.approved_representatives.contains_key((epoch - 1) as u64),
        forall|i: int|
            0 <= i < parents.len() ==> !(
            #[trigger] parents[i]).approved_representatives.contains_key((epoch - 1) as u64),
        forall|owner_uid: u64| #[trigger]
            promisers.contains(owner_uid) <==> {
                let before = (epoch - 1) as u64;
                ||| message.approved_promises.contains_key(before)
                    && message.approved_promises[before].contains_key(owner_uid)
                ||| exists|i: int|
                    0 <= i < parents.len() && (
                    #[trigger] parents[i]).approved_promises.contains_key(before)
                        && parents[i].approved_promises[before].contains_key(owner_uid)
            },
        ({
            let before = (epoch - 1) as u64;
            ||| 3 * promisers.len() <= 2 * total
            ||| {
                &&& !message.approved_kickouts.contains_key(before)
                &&& forall|i: int|
                    0 <= i < parents.len() ==> !(
                    #[trigger] parents[i]).approved_kickouts.contains_key(before)
            }
        }),
    ensures
        ({
            let populated = message.populated(this, parents, epoch, leader, total);
            &&& populated.computed_is_representative == Some(false)
            &&& message.data.body.owner_uid != leader ==> populated.computed_is_kickout == Some(
                false,
            )
            &&& ({
                &&& message.data.body.owner_uid == leader
                &&& !(message.approved_epochs.contains_key(epoch)
                    && message.approved_epochs[epoch].contains_key(leader))
                &&& forall|i: int|
                    0 <= i < parents.len() && (#[trigger] parents[i]).approved_epochs.contains_key(
                        epoch,
                    ) ==> !parents[i].approved_epochs[epoch].contains_key(leader)
            }) ==> populated.computed_is_kickout == Some(true)
        }),
{
    let before = (epoch - 1) as u64;
    law_aggregation_is_complete(message, parents, epoch, leader);
    law_aggregation_is_complete(message, parents, before, 0);
    lemmas::lemma_promisers_are(message, parents, before, promisers);
    if model::approved_in(parents, leader, epoch) {
        let i = choose|i: int|
            0 <= i < parents.len() && maps::files(
                (#[trigger] parents[i]).approved_epochs,
                epoch,
                leader,
            );
        assert(parents[i].approved_epochs.contains_key(epoch));
    }
}

/// A message of another node than the leader is neither a representative nor a kickout, and files
/// no representative of its own.
pub proof fn law_message_of_another_node_is_neither<T>(
    message: MessageView<T>,
    this: MessageRef,
    parents: Seq<MessageView<T>>,
    epoch: u64,
    leader: u64,
    total: nat,
)
    requires
        message.data.body.owner_uid != leader,
    ensures
        ({
            let populated = message.populated(this, parents, epoch, leader, total);
            &&& populated.computed_is_representative == Some(false)
            &&& populated.computed_is_kickout == Some(false)
            &&& populated.approved_representatives == message.aggregated(
                parents,
            ).approved_representatives
        }),
{
}

/// A message whose only parent is a representative of its epoch is not another one: it approves
/// the parent as the representative.
pub proof fn law_second_message_of_the_leader_represents_nothing<T>(
    first: MessageView<T>,
    second: MessageView<T>,
    one: MessageRef,
    two: MessageRef,
    parents: Seq<MessageView<T>>,
    epoch: u64,
    leader: u64,
    total: nat,
)
    requires
        one != two,
        first.populated(one, parents, epoch, leader, total).computed_is_representative == Some(
            true,
        ),
    ensures
        ({
            let parent = first.populated(one, parents, epoch, leader, total);
            let child = second.populated(two, seq![parent], epoch, leader, total);
            &&& child.computed_is_representative == Some(false)
            &&& child.approved_representatives.contains_key(epoch)
            &&& child.approved_representatives[epoch] == one
        }),
{
    let parent = first.populated(one, parents, epoch, leader, total);
    let above = seq![parent];
    assert(above[0].approved_representatives.contains_key(epoch));
    law_aggregation_prefers_the_last_parent(second, above, epoch);
}

/// The leader of an epoch that approves, through one of its parents, a message that is a
/// representative of the epoch before, and no representative of its own epoch, represents that.
pub proof fn law_representative_follows_a_representative<T>(
    earlier: MessageView<T>,
    earlier_ref: MessageRef,
    earlier_parents: Seq<MessageView<T>>,
    earlier_leader: u64,
    earlier_total: nat,
    message: MessageView<T>,
    this: MessageRef,
    parents: Seq<MessageView<T>>,
    epoch: u64,
    total: nat,
)
    requires
        epoch > 0,
        parents.contains(
            earlier.populated(
                earlier_ref,
                earlier_parents,
                (epoch - 1) as u64,
                earlier_leader,
                earlier_total,
            ),
        ),
        earlier.populated(
            earlier_ref,
            earlier_parents,
            (epoch - 1) as u64,
            earlier_leader,
            earlier_total,
        ).computed_is_representative == Some(true),
        !message.approved_representatives.contains_key(epoch),
        forall|i: int|
            0 <= i < parents.len() ==> !(
            #[trigger] parents[i]).approved_representatives.contains_key(epoch),
    ensures
        message.populated(
            this,
            parents,
            epoch,
            message.data.body.owner_uid,
            total,
        ).computed_is_representative == Some(true),
{
    let before = (epoch - 1) as u64;
    let parent = earlier.populated(
        earlier_ref,
        earlier_parents,
        before,
        earlier_leader,
        earlier_total,
    );
    let i = choose|i: int| 0 <= i < parents.len() && parents[i] == parent;
    assert(parents[i].approved_representatives.contains_key(before));
    law_aggregation_is_complete(message, parents, epoch, 0);
    law_aggregation_is_complete(message, parents, before, 0);
}

/// A message of the owner that has been computed counts for the next one: among its parents, it
/// makes the previous epoch at least its own.
pub proof fn law_computed_message_counts_for_the_next<T>(
    message: MessageView<T>,
    this: MessageRef,
    parents: Seq<MessageView<T>>,
    epoch: u64,
    leader: u64,
    total: nat,
    next_parents: Seq<MessageView<T>>,
    starting_epoch: u64,
)
    requires
        next_parents.contains(message.populated(this, parents, epoch, leader, total)),
    ensures
        model::prev_epoch_of(next_parents, message.data.body.owner_uid, starting_epoch) >= epoch,
{
    let parent = message.populated(this, parents, epoch, leader, total);
    let i = choose|i: int| 0 <= i < next_parents.len() && next_parents[i] == parent;
    assert(maps::files(next_parents[i].approved_epochs, epoch, message.data.body.owner_uid));
    assert(model::approved_in(next_parents, message.data.body.owner_uid, epoch));
    law_prev_epoch_is_the_last(next_parents, message.data.body.owner_uid, starting_epoch);
}

/// Where nested maps are laid over each other, the upper one counts, entry by entry; what it does
/// not have stays.
pub proof fn law_upper_map_counts(
    lower: Map<u64, Map<u64, MessageRef>>,
    upper: Map<u64, Map<u64, MessageRef>>,
    epoch: u64,
    owner_uid: u64,
)
    ensures
        ({
            let both = maps::lay_over_nested(lower, upper);
            let above = upper.contains_key(epoch) && upper[epoch].contains_key(owner_uid);
            let below = lower.contains_key(epoch) && lower[epoch].contains_key(owner_uid);
            &&& both.contains_key(epoch) <==> lower.contains_key(epoch) || upper.contains_key(epoch)
            &&& both.contains_key(epoch) && both[epoch].contains_key(owner_uid) <==> above || below
            &&& above ==> both[epoch][owner_uid] == upper[epoch][owner_uid]
            &&& below && !above ==> both[epoch][owner_uid] == lower[epoch][owner_uid]
        }),
{
}

/// A message is filed in an epoch under an owner exactly if the map has the epoch and there the
/// owner. What an epoch files is what the map has there, and nothing where it has none.
pub proof fn law_filed_by_epoch_and_owner(
    m: Map<u64, Map<u64, MessageRef>>,
    epoch: u64,
    owner_uid: u64,
)
    ensures
        maps::files(m, epoch, owner_uid) <==> m.contains_key(epoch) && m[epoch].contains_key(
            owner_uid,
        ),
        m.contains_key(epoch) ==> maps::slice(m, epoch) == m[epoch],
        !m.contains_key(epoch) ==> !maps::slice(m, epoch).contains_key(owner_uid),
{
}

/// Nested maps are seen with everything in them.
pub proof fn law_nested_maps_are_seen_in_full(
    m: Map<u64, HashMap<u64, MessageRef>>,
    epoch: u64,
)
    ensures
        maps::nested_view(m).contains_key(epoch) <==> m.contains_key(epoch),
        m.contains_key(epoch) ==> maps::nested_view(m)[epoch] == m[epoch]@,
{
}

} // verus!
