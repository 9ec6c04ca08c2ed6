//! Facts about the model that the proofs of the operations need.

use crate::maps;
use crate::message::MessageRef;
use crate::model;
use crate::model::{DagView, MessageView};
use crate::witness;
use crate::witness::WitnessSelectorLike;
use std::collections::HashSet;
use vstd::prelude::*;

verus! {

/// What is left of a sequence after filtering was in it before.
pub proof fn lemma_filter_keeps_members<A>(s: Seq<A>, pred: spec_fn(A) -> bool)
    ensures
        forall|i: int| 0 <= i < s.filter(pred).len() ==> s.contains(#[trigger] s.filter(pred)[i]),
{
    assert forall|i: int| 0 <= i < s.filter(pred).len() implies s.contains(
        #[trigger] s.filter(pred)[i],
    ) by {
        s.lemma_filter_contains_rev(pred, s.filter(pred)[i]);
    }
}

/// Filtering changes nothing where everything passes.
pub proof fn lemma_filter_all<A>(s: Seq<A>, pred: spec_fn(A) -> bool)
    requires
        forall|i: int| 0 <= i < s.len() ==> pred(#[trigger] s[i]),
    ensures
        s.filter(pred) == s,
    decreases s.len(),
{
    reveal(Seq::filter);
    if s.len() > 0 {
        lemma_filter_all(s.drop_last(), pred);
        assert(s.drop_last().push(s.last()) =~= s);
    }
}

/// Taking one element more of a sequence appends that element.
pub proof fn lemma_take_one_more<A>(s: Seq<A>, n: int)
    requires
        0 <= n < s.len(),
    ensures
        s.take(n + 1).len() == n + 1,
        s.take(n + 1).drop_last() == s.take(n),
        s.take(n + 1).last() == s[n],
{
    assert(s.take(n + 1).drop_last() =~= s.take(n));
}

/// Taking all elements of a sequence changes nothing.
pub proof fn lemma_take_all<A>(s: Seq<A>)
    ensures
        s.take(s.len() as int) == s,
{
    assert(s.take(s.len() as int) =~= s);
}

/// Laying maps over each other adds no references.
pub proof fn lemma_overlaid_within(
    own: Map<u64, MessageRef>,
    layers: Seq<Map<u64, MessageRef>>,
    count: nat,
)
    requires
        model::within(own, count),
        forall|i: int| 0 <= i < layers.len() ==> model::within(#[trigger] layers[i], count),
    ensures
        model::within(model::overlaid(own, layers), count),
    decreases layers.len(),
{
    if layers.len() > 0 {
        lemma_overlaid_within(own, layers.drop_last(), count);
    }
}

/// Laying maps over each other epoch by epoch adds no references.
pub proof fn lemma_overlaid_nested_within(
    own: Map<u64, Map<u64, MessageRef>>,
    layers: Seq<Map<u64, Map<u64, MessageRef>>>,
    count: nat,
)
    requires
        model::nested_within(own, count),
        forall|i: int| 0 <= i < layers.len() ==> model::nested_within(#[trigger] layers[i], count),
    ensures
        model::nested_within(model::overlaid_nested(own, layers), count),
    decreases layers.len(),
{
    if layers.len() > 0 {
        lemma_overlaid_nested_within(own, layers.drop_last(), count);
    }
}

/// What a message takes over from its parents refers to messages of the DAG.
pub proof fn lemma_aggregated_within<T>(dag: DagView<T>, this: MessageRef)
    requires
        dag.well_formed(),
        dag.holds(this),
    ensures
        dag.at(this).aggregated(dag.parents_of(this)).refers_within(dag.messages.len()),
{
    let own = dag.at(this);
    let parents = dag.parents_of(this);
    let count = dag.messages.len();
    assert forall|i: int| 0 <= i < parents.len() implies (#[trigger] parents[i]).refers_within(
        count,
    ) by {
        assert(0 <= own.parents[i].place() < count);
    }
    lemma_overlaid_nested_within(own.approved_epochs, model::epochs_of(parents), count);
    lemma_overlaid_within(own.approved_representatives, model::representatives_of(parents), count);
    lemma_overlaid_within(own.approved_kickouts, model::kickouts_of(parents), count);
    lemma_overlaid_nested_within(own.approved_endorsements, model::endorsements_of(parents), count);
    lemma_overlaid_nested_within(own.approved_promises, model::promises_of(parents), count);
}

/// One more parent adds the epochs in which it approves messages of `owner_uid`.
pub proof fn lemma_approved_in_one_more<T>(parents: Seq<MessageView<T>>, n: int, owner_uid: u64)
    requires
        0 <= n < parents.len(),
    ensures
        forall|epoch: u64| #[trigger]
            model::approved_in(parents.take(n + 1), owner_uid, epoch) <==> {
                ||| model::approved_in(parents.take(n), owner_uid, epoch)
                ||| maps::files(parents[n].approved_epochs, epoch, owner_uid)
            },
{
    assert forall|epoch: u64| #[trigger]
        model::approved_in(parents.take(n + 1), owner_uid, epoch) == {
            ||| model::approved_in(parents.take(n), owner_uid, epoch)
            ||| maps::files(parents[n].approved_epochs, epoch, owner_uid)
        } by {
        lemma_approved_in_step(parents, n, owner_uid, epoch);
    }
}

/// One more parent adds the nodes of which it approves messages in `epoch`.
pub proof fn lemma_owners_in_one_more<T>(parents: Seq<MessageView<T>>, n: int, epoch: u64)
    requires
        0 <= n < parents.len(),
    ensures
        forall|owner_uid: u64| #[trigger]
            model::owners_in(parents.take(n + 1), epoch).contains(owner_uid) <==> {
                ||| model::owners_in(parents.take(n), epoch).contains(owner_uid)
                ||| maps::files(parents[n].approved_epochs, epoch, owner_uid)
            },
{
    assert forall|owner_uid: u64| #[trigger]
        model::owners_in(parents.take(n + 1), epoch).contains(owner_uid) == {
            ||| model::owners_in(parents.take(n), epoch).contains(owner_uid)
            ||| maps::files(parents[n].approved_epochs, epoch, owner_uid)
        } by {
        lemma_approved_in_step(parents, n, owner_uid, epoch);
    }
}

proof fn lemma_approved_in_step<T>(
    parents: Seq<MessageView<T>>,
    n: int,
    owner_uid: u64,
    epoch: u64,
)
    requires
        0 <= n < parents.len(),
    ensures
        model::approved_in(parents.take(n + 1), owner_uid, epoch) <==> {
            ||| model::approved_in(parents.take(n), owner_uid, epoch)
            ||| maps::files(parents[n].approved_epochs, epoch, owner_uid)
        },
{
    let fewer = parents.take(n);
    let more = parents.take(n + 1);
    assert(forall|i: int| 0 <= i < n ==> fewer[i] == #[trigger] more[i]);
    assert(more[n] == parents[n]);
    if model::approved_in(fewer, owner_uid, epoch) {
        let i = choose|i: int|
            0 <= i < fewer.len() && maps::files(
                (#[trigger] fewer[i]).approved_epochs,
                epoch,
                owner_uid,
            );
        assert(maps::files(more[i].approved_epochs, epoch, owner_uid));
    }
}

/// A set of node uids is no larger than one that holds it.
pub proof fn lemma_uids_len_subset(few: Set<u64>, many: Set<u64>)
    requires
        few.subset_of(many),
    ensures
        many.finite(),
        few.len() <= many.len(),
{
    broadcast use vstd::set_lib::full_set_properties;

    assert(many =~= Set::<u64>::full().intersect(many));
    vstd::set_lib::lemma_len_subset(few, many);
}

/// The first `n` parents approve messages of no more nodes than all of them.
pub proof fn lemma_owners_in_prefix<T>(parents: Seq<MessageView<T>>, n: int, epoch: u64)
    requires
        0 <= n <= parents.len(),
    ensures
        model::owners_in(parents.take(n), epoch).len() <= model::owners_in(parents, epoch).len(),
{
    let few = model::owners_in(parents.take(n), epoch);
    let many = model::owners_in(parents, epoch);
    assert forall|owner_uid: u64| few.contains(owner_uid) implies many.contains(owner_uid) by {
        let i = choose|i: int|
            0 <= i < n && maps::files(
                (#[trigger] parents.take(n)[i]).approved_epochs,
                epoch,
                owner_uid,
            );
        assert(maps::files(parents[i].approved_epochs, epoch, owner_uid));
    }
    lemma_uids_len_subset(few, many);
}

/// The entry for `key` in the last one of `layers` that has one.
pub open spec fn top(layers: Seq<Map<u64, MessageRef>>, key: u64) -> Option<MessageRef>
    decreases layers.len(),
{
    if layers.len() == 0 {
        None
    } else if layers.last().contains_key(key) {
        Some(layers.last()[key])
    } else {
        top(layers.drop_last(), key)
    }
}

/// An entry of maps laid over each other is that of the last layer that has one, or else that of
/// `own`.
pub proof fn lemma_overlaid_entry(
    own: Map<u64, MessageRef>,
    layers: Seq<Map<u64, MessageRef>>,
    key: u64,
)
    ensures
        model::overlaid(own, layers).get(key) == match top(layers, key) {
            Some(message) => Some(message),
            None => own.get(key),
        },
    decreases layers.len(),
{
    if layers.len() > 0 {
        lemma_overlaid_entry(own, layers.drop_last(), key);
    }
}

/// Which layer the entry comes from.
pub proof fn lemma_top(layers: Seq<Map<u64, MessageRef>>, key: u64)
    ensures
        match top(layers, key) {
            Some(message) => exists|i: int|
                0 <= i < layers.len() && (#[trigger] layers[i]).get(key) == Some(message),
            None => forall|i: int|
                0 <= i < layers.len() ==> (#[trigger] layers[i]).get(key) is None,
        },
    decreases layers.len(),
{
    if layers.len() > 0 && !layers.last().contains_key(key) {
        let lower = layers.drop_last();
        lemma_top(lower, key);
        assert forall|i: int|
            0 <= i < layers.len() && top(layers, key) is None implies (
        #[trigger] layers[i]).get(key) is None by {
            if i < lower.len() {
                assert(lower[i] == layers[i]);
            }
        }
        if top(lower, key) is Some {
            let i = choose|i: int|
                0 <= i < lower.len() && (#[trigger] lower[i]).get(key) == top(lower, key);
            assert(layers[i].get(key) == top(lower, key));
        }
    } else if layers.len() > 0 {
        assert(layers[layers.len() - 1].get(key) == top(layers, key));
    }
}

/// A layer with an entry and none above it is the one that counts.
pub proof fn lemma_top_is_last(layers: Seq<Map<u64, MessageRef>>, key: u64, i: int)
    requires
        0 <= i < layers.len(),
        layers[i].contains_key(key),
        forall|j: int| i < j < layers.len() ==> !(#[trigger] layers[j]).contains_key(key),
    ensures
        top(layers, key) == Some(layers[i][key]),
    decreases layers.len(),
{
    if i < layers.len() - 1 {
        let lower = layers.drop_last();
        assert(!layers[layers.len() - 1].contains_key(key));
        assert(forall|j: int| 0 <= j < lower.len() ==> #[trigger] lower[j] == layers[j]);
        lemma_top_is_last(lower, key, i);
    }
}

/// A key is in maps laid over each other if it is in one of them.
pub proof fn lemma_overlaid_contains(
    own: Map<u64, MessageRef>,
    layers: Seq<Map<u64, MessageRef>>,
    key: u64,
)
    ensures
        model::overlaid(own, layers).contains_key(key) <==> {
            ||| own.contains_key(key)
            ||| exists|i: int| 0 <= i < layers.len() && (#[trigger] layers[i]).contains_key(key)
        },
    decreases layers.len(),
{
    lemma_overlaid_entry(own, layers, key);
    lemma_top(layers, key);
    assert(model::overlaid(own, layers).get(key) is Some == model::overlaid(
        own,
        layers,
    ).contains_key(key));
    if exists|i: int| 0 <= i < layers.len() && (#[trigger] layers[i]).contains_key(key) {
        let i = choose|i: int| 0 <= i < layers.len() && (#[trigger] layers[i]).contains_key(key);
        assert(layers[i].get(key) is Some);
    }
    if top(layers, key) is Some {
        let i = choose|i: int|
            0 <= i < layers.len() && (#[trigger] layers[i]).get(key) == top(layers, key);
        assert(layers[i].contains_key(key));
    }
}

/// Maps that are among those of a stack already change nothing when they are laid under it.
pub proof fn lemma_overlaid_absorbs(
    own: Map<u64, MessageRef>,
    few: Seq<Map<u64, MessageRef>>,
    many: Seq<Map<u64, MessageRef>>,
)
    requires
        forall|i: int| 0 <= i < few.len() ==> many.contains(#[trigger] few[i]),
    ensures
        model::overlaid(model::overlaid(own, few), many) == model::overlaid(own, many),
{
    let first = model::overlaid(own, few);
    let twice = model::overlaid(first, many);
    let once = model::overlaid(own, many);
    assert forall|key: u64| #[trigger] twice.get(key) == once.get(key) by {
        lemma_overlaid_entry(own, few, key);
        lemma_overlaid_entry(first, many, key);
        lemma_overlaid_entry(own, many, key);
        lemma_top(few, key);
        lemma_top(many, key);
        if top(many, key) is None && top(few, key) is Some {
            let i = choose|i: int|
                0 <= i < few.len() && (#[trigger] few[i]).get(key) == top(few, key);
            let j = choose|j: int| 0 <= j < many.len() && many[j] == few[i];
            assert(many[j].get(key) is None);
        }
    }
    lemma_same_entries(twice, once);
}

/// Maps with the same entries are the same.
pub proof fn lemma_same_entries<V>(a: Map<u64, V>, b: Map<u64, V>)
    requires
        forall|key: u64| #[trigger] a.get(key) == b.get(key),
    ensures
        a == b,
{
    assert forall|key: u64|
        {
            &&& #[trigger] a.dom().contains(key) == b.dom().contains(key)
            &&& a.dom().contains(key) ==> a[key] == b[key]
        } by {
        assert(a.get(key) == b.get(key));
    }
    assert(a.dom() =~= b.dom());
    assert(a =~= b);
}

/// What each of `layers` files in `epoch`.
pub open spec fn slices(layers: Seq<Map<u64, Map<u64, MessageRef>>>, epoch: u64) -> Seq<
    Map<u64, MessageRef>,
> {
    Seq::new(layers.len(), |i: int| maps::slice(layers[i], epoch))
}

/// Within an epoch, nested maps are laid over each other as plain ones are. An epoch is there if
/// it is in one of the maps.
pub proof fn lemma_overlaid_slice(
    own: Map<u64, Map<u64, MessageRef>>,
    layers: Seq<Map<u64, Map<u64, MessageRef>>>,
    epoch: u64,
)
    ensures
        maps::slice(model::overlaid_nested(own, layers), epoch) == model::overlaid(
            maps::slice(own, epoch),
            slices(layers, epoch),
        ),
        model::overlaid_nested(own, layers).contains_key(epoch) <==> {
            ||| own.contains_key(epoch)
            ||| exists|i: int| 0 <= i < layers.len() && (#[trigger] layers[i]).contains_key(epoch)
        },
    decreases layers.len(),
{
    if layers.len() > 0 {
        let lower = layers.drop_last();
        lemma_overlaid_slice(own, lower, epoch);
        assert(slices(layers, epoch).drop_last() =~= slices(lower, epoch));
        assert(slices(layers, epoch).last() == maps::slice(layers.last(), epoch));
        assert(maps::slice(model::overlaid_nested(own, layers), epoch) =~= maps::slice(
            model::overlaid_nested(own, lower),
            epoch,
        ).union_prefer_right(maps::slice(layers.last(), epoch)));
        assert(forall|i: int| 0 <= i < lower.len() ==> #[trigger] lower[i] == layers[i]);
        assert(layers[layers.len() - 1] == layers.last());
        if exists|i: int| 0 <= i < lower.len() && (#[trigger] lower[i]).contains_key(epoch) {
            let i = choose|i: int|
                0 <= i < lower.len() && (#[trigger] lower[i]).contains_key(epoch);
            assert(layers[i].contains_key(epoch));
        }
        if exists|i: int| 0 <= i < layers.len() && (#[trigger] layers[i]).contains_key(epoch) {
            let i = choose|i: int|
                0 <= i < layers.len() && (#[trigger] layers[i]).contains_key(epoch);
            if i < lower.len() {
                assert(lower[i].contains_key(epoch));
            }
        }
    }
}

/// A message is filed in nested maps laid over each other if it is in one of them.
pub proof fn lemma_overlaid_nested_files(
    own: Map<u64, Map<u64, MessageRef>>,
    layers: Seq<Map<u64, Map<u64, MessageRef>>>,
    epoch: u64,
    owner_uid: u64,
)
    ensures
        maps::files(model::overlaid_nested(own, layers), epoch, owner_uid) <==> {
            ||| maps::files(own, epoch, owner_uid)
            ||| exists|i: int|
                0 <= i < layers.len() && maps::files(#[trigger] layers[i], epoch, owner_uid)
        },
{
    lemma_overlaid_slice(own, layers, epoch);
    let inner = slices(layers, epoch);
    lemma_overlaid_contains(maps::slice(own, epoch), inner, owner_uid);
    assert(forall|i: int|
        0 <= i < layers.len() ==> (maps::files(#[trigger] layers[i], epoch, owner_uid)
            == inner[i].contains_key(owner_uid)));
    if exists|i: int| 0 <= i < inner.len() && (#[trigger] inner[i]).contains_key(owner_uid) {
        let i = choose|i: int|
            0 <= i < inner.len() && (#[trigger] inner[i]).contains_key(owner_uid);
        assert(maps::files(layers[i], epoch, owner_uid));
    }
    if exists|i: int| 0 <= i < layers.len() && maps::files(#[trigger] layers[i], epoch, owner_uid) {
        let i = choose|i: int|
            0 <= i < layers.len() && maps::files(#[trigger] layers[i], epoch, owner_uid);
        assert(inner[i].contains_key(owner_uid));
    }
}

/// Nested maps that are among those of a stack already change nothing when they are laid under it.
pub proof fn lemma_overlaid_nested_absorbs(
    own: Map<u64, Map<u64, MessageRef>>,
    few: Seq<Map<u64, Map<u64, MessageRef>>>,
    many: Seq<Map<u64, Map<u64, MessageRef>>>,
)
    requires
        forall|i: int| 0 <= i < few.len() ==> many.contains(#[trigger] few[i]),
    ensures
        model::overlaid_nested(model::overlaid_nested(own, few), many) == model::overlaid_nested(
            own,
            many,
        ),
{
    let first = model::overlaid_nested(own, few);
    let twice = model::overlaid_nested(first, many);
    let once = model::overlaid_nested(own, many);
    assert forall|epoch: u64| #[trigger] twice.get(epoch) == once.get(epoch) by {
        lemma_overlaid_slice(own, few, epoch);
        lemma_overlaid_slice(first, many, epoch);
        lemma_overlaid_slice(own, many, epoch);
        assert forall|i: int| 0 <= i < few.len() implies slices(many, epoch).contains(
            #[trigger] slices(few, epoch)[i],
        ) by {
            let j = choose|j: int| 0 <= j < many.len() && many[j] == few[i];
            assert(slices(many, epoch)[j] == slices(few, epoch)[i]);
        }
        lemma_overlaid_absorbs(maps::slice(own, epoch), slices(few, epoch), slices(many, epoch));
        if exists|i: int| 0 <= i < few.len() && (#[trigger] few[i]).contains_key(epoch) {
            let i = choose|i: int| 0 <= i < few.len() && (#[trigger] few[i]).contains_key(epoch);
            let j = choose|j: int| 0 <= j < many.len() && many[j] == few[i];
            assert(many[j].contains_key(epoch));
        }
    }
    lemma_same_entries(twice, once);
}

/// What is read of members of a sequence is among what is read of all of it.
pub proof fn lemma_members_carry<A, B>(few: Seq<A>, many: Seq<A>, read: spec_fn(A) -> B)
    requires
        forall|i: int| 0 <= i < few.len() ==> many.contains(#[trigger] few[i]),
    ensures
        forall|i: int|
            0 <= i < few.len() ==> many.map_values(read).contains(
                #[trigger] few.map_values(read)[i],
            ),
{
    assert forall|i: int| 0 <= i < few.len() implies many.map_values(read).contains(
        #[trigger] few.map_values(read)[i],
    ) by {
        let j = choose|j: int| 0 <= j < many.len() && many[j] == few[i];
        assert(many.map_values(read)[j] == few.map_values(read)[i]);
    }
}

/// Messages that are among `many` already change nothing when they are aggregated before them.
pub proof fn lemma_aggregated_absorbs<T>(
    message: MessageView<T>,
    few: Seq<MessageView<T>>,
    many: Seq<MessageView<T>>,
)
    requires
        forall|i: int| 0 <= i < few.len() ==> many.contains(#[trigger] few[i]),
    ensures
        message.aggregated(few).aggregated(many) == message.aggregated(many),
{
    lemma_members_carry(few, many, model::epochs());
    lemma_members_carry(few, many, model::representatives());
    lemma_members_carry(few, many, model::kickouts());
    lemma_members_carry(few, many, model::endorsements());
    lemma_members_carry(few, many, model::promises());
    lemma_overlaid_nested_absorbs(
        message.approved_epochs,
        model::epochs_of(few),
        model::epochs_of(many),
    );
    lemma_overlaid_absorbs(
        message.approved_representatives,
        model::representatives_of(few),
        model::representatives_of(many),
    );
    lemma_overlaid_absorbs(
        message.approved_kickouts,
        model::kickouts_of(few),
        model::kickouts_of(many),
    );
    lemma_overlaid_nested_absorbs(
        message.approved_endorsements,
        model::endorsements_of(few),
        model::endorsements_of(many),
    );
    lemma_overlaid_nested_absorbs(
        message.approved_promises,
        model::promises_of(few),
        model::promises_of(many),
    );
}

/// More parents approve more.
pub proof fn lemma_approved_in_monotone<T>(few: Seq<MessageView<T>>, many: Seq<MessageView<T>>)
    requires
        forall|i: int| 0 <= i < few.len() ==> many.contains(#[trigger] few[i]),
    ensures
        forall|owner_uid: u64, epoch: u64| #[trigger]
            model::approved_in(few, owner_uid, epoch) ==> model::approved_in(
                many,
                owner_uid,
                epoch,
            ),
{
    assert forall|owner_uid: u64, epoch: u64| #[trigger]
        model::approved_in(few, owner_uid, epoch) implies model::approved_in(
        many,
        owner_uid,
        epoch,
    ) by {
        let i = choose|i: int|
            0 <= i < few.len() && maps::files(
                (#[trigger] few[i]).approved_epochs,
                epoch,
                owner_uid,
            );
        let j = choose|j: int| 0 <= j < many.len() && many[j] == few[i];
        assert(maps::files(many[j].approved_epochs, epoch, owner_uid));
    }
}

/// Among the epochs up to `bound` in which `parents` approve a message of `owner_uid` there is a
/// last one.
pub proof fn lemma_last_epoch_exists<T>(
    parents: Seq<MessageView<T>>,
    owner_uid: u64,
    bound: u64,
)
    requires
        exists|epoch: u64| #[trigger]
            model::approved_in(parents, owner_uid, epoch) && epoch <= bound,
    ensures
        exists|last: u64| #[trigger]
            model::approved_in(parents, owner_uid, last) && last <= bound && forall|epoch: u64|
                #[trigger]
                model::approved_in(parents, owner_uid, epoch) && epoch <= bound ==> epoch <= last,
    decreases bound,
{
    if model::approved_in(parents, owner_uid, bound) {
    } else if bound > 0 {
        let epoch = choose|epoch: u64| #[trigger]
            model::approved_in(parents, owner_uid, epoch) && epoch <= bound;
        assert(epoch <= bound - 1);
        lemma_last_epoch_exists(parents, owner_uid, (bound - 1) as u64);
        let last = choose|last: u64| #[trigger]
            model::approved_in(parents, owner_uid, last) && last <= bound - 1 && forall|epoch: u64|
                #[trigger]
                model::approved_in(parents, owner_uid, epoch) && epoch <= bound - 1 ==> epoch
                    <= last;
        assert(model::approved_in(parents, owner_uid, last));
    }
}

/// An entry that is the only one for its key, or says the same, stays when the maps are laid over
/// each other again.
pub proof fn lemma_overlaid_keeps_insert(
    own: Map<u64, MessageRef>,
    layers: Seq<Map<u64, MessageRef>>,
    key: u64,
    message: MessageRef,
)
    ensures
        ({
            let once = model::overlaid(own, layers);
            (once.contains_key(key) ==> once[key] == message) ==> model::overlaid(
                once.insert(key, message),
                layers,
            ) == once.insert(key, message)
        }),
{
    let once = model::overlaid(own, layers);
    let added = once.insert(key, message);
    let again = model::overlaid(added, layers);
    if once.contains_key(key) ==> once[key] == message {
        assert forall|k: u64| #[trigger] again.get(k) == added.get(k) by {
            lemma_overlaid_entry(own, layers, k);
            lemma_overlaid_entry(added, layers, k);
            assert(once.get(k) is Some == once.contains_key(k));
        }
        lemma_same_entries(again, added);
    }
}

/// An entry that is the only one for its epoch and owner stays when the maps are laid over each
/// other again.
pub proof fn lemma_overlaid_nested_keeps_insert(
    own: Map<u64, Map<u64, MessageRef>>,
    layers: Seq<Map<u64, Map<u64, MessageRef>>>,
    epoch: u64,
    owner_uid: u64,
    message: MessageRef,
)
    ensures
        ({
            let once = model::overlaid_nested(own, layers);
            let added = once.insert(epoch, maps::slice(once, epoch).insert(owner_uid, message));
            !maps::files(once, epoch, owner_uid) ==> model::overlaid_nested(added, layers) == added
        }),
{
    let once = model::overlaid_nested(own, layers);
    let added = once.insert(epoch, maps::slice(once, epoch).insert(owner_uid, message));
    let again = model::overlaid_nested(added, layers);
    if !maps::files(once, epoch, owner_uid) {
        assert forall|e: u64| #[trigger] again.get(e) == added.get(e) by {
            lemma_overlaid_slice(own, layers, e);
            lemma_overlaid_slice(added, layers, e);
            let inner = slices(layers, e);
            if e == epoch {
                lemma_overlaid_keeps_insert(maps::slice(own, e), inner, owner_uid, message);
            } else {
                assert(maps::slice(added, e) == maps::slice(once, e));
                assert forall|i: int| 0 <= i < inner.len() implies inner.contains(
                    #[trigger] inner[i],
                ) by {}
                lemma_overlaid_absorbs(maps::slice(own, e), inner, inner);
            }
        }
        lemma_same_entries(again, added);
    }
}

/// Laying maps over each other files nothing new.
pub proof fn lemma_overlaid_files_only<T>(
    own: Map<u64, MessageRef>,
    layers: Seq<Map<u64, MessageRef>>,
    dag: DagView<T>,
    fits: spec_fn(u64, MessageView<T>) -> bool,
)
    requires
        model::files_only(own, dag, fits),
        forall|i: int|
            0 <= i < layers.len() ==> model::files_only(#[trigger] layers[i], dag, fits),
    ensures
        model::files_only(model::overlaid(own, layers), dag, fits),
    decreases layers.len(),
{
    if layers.len() > 0 {
        lemma_overlaid_files_only(own, layers.drop_last(), dag, fits);
        assert(model::files_only(layers[layers.len() - 1], dag, fits));
    }
}

/// Laying maps over each other epoch by epoch files nothing new.
pub proof fn lemma_overlaid_nested_files_by_owner<T>(
    own: Map<u64, Map<u64, MessageRef>>,
    layers: Seq<Map<u64, Map<u64, MessageRef>>>,
    dag: DagView<T>,
    fits: spec_fn(u64, MessageView<T>) -> bool,
)
    requires
        model::files_by_owner(own, dag, fits),
        forall|i: int|
            0 <= i < layers.len() ==> model::files_by_owner(#[trigger] layers[i], dag, fits),
    ensures
        model::files_by_owner(model::overlaid_nested(own, layers), dag, fits),
    decreases layers.len(),
{
    if layers.len() > 0 {
        let lower = model::overlaid_nested(own, layers.drop_last());
        let upper = layers[layers.len() - 1];
        let all = model::overlaid_nested(own, layers);
        lemma_overlaid_nested_files_by_owner(own, layers.drop_last(), dag, fits);
        assert(model::files_by_owner(upper, dag, fits));
        assert forall|epoch: u64, owner_uid: u64| #[trigger]
            maps::files(all, epoch, owner_uid) implies {
            let filed = dag.at(all[epoch][owner_uid]);
            fits(epoch, filed) && filed.owner_uid() == owner_uid
        } by {
            assert(maps::files(upper, epoch, owner_uid) || maps::files(lower, epoch, owner_uid));
        }
    }
}

/// Messages that are under their owners can be filed for an epoch.
pub proof fn lemma_insert_files_by_owner<T>(
    m: Map<u64, Map<u64, MessageRef>>,
    epoch: u64,
    owners: Map<u64, MessageRef>,
    dag: DagView<T>,
)
    requires
        model::files_by_owner(m, dag, model::anything()),
        forall|owner_uid: u64| #[trigger]
            owners.contains_key(owner_uid) ==> dag.at(owners[owner_uid]).owner_uid() == owner_uid,
    ensures
        model::files_by_owner(m.insert(epoch, owners), dag, model::anything()),
{
    let filing = m.insert(epoch, owners);
    assert forall|e: u64, owner_uid: u64| #[trigger] maps::files(filing, e, owner_uid) implies {
        let filed = dag.at(filing[e][owner_uid]);
        model::anything()(e, filed) && filed.owner_uid() == owner_uid
    } by {
        assert(e == epoch || maps::files(m, e, owner_uid));
    }
}

/// What `m` files fits in another DAG too, if what fits before does so after.
pub proof fn lemma_files_only_elsewhere<T>(
    m: Map<u64, MessageRef>,
    before: DagView<T>,
    after: DagView<T>,
    fits: spec_fn(u64, MessageView<T>) -> bool,
)
    requires
        model::within(m, before.messages.len()),
        model::files_only(m, before, fits),
        forall|epoch: u64, i: int|
            0 <= i < before.messages.len() && #[trigger] fits(epoch, before.messages[i]) ==> fits(
                epoch,
                after.messages[i],
            ),
    ensures
        model::files_only(m, after, fits),
{
}

/// What `m` files by owner fits in another DAG too, if what fits before does so after.
pub proof fn lemma_files_by_owner_elsewhere<T>(
    m: Map<u64, Map<u64, MessageRef>>,
    before: DagView<T>,
    after: DagView<T>,
    fits: spec_fn(u64, MessageView<T>) -> bool,
)
    requires
        model::nested_within(m, before.messages.len()),
        model::files_by_owner(m, before, fits),
        before.computed_in(after),
        forall|epoch: u64, i: int|
            0 <= i < before.messages.len() && #[trigger] fits(epoch, before.messages[i]) ==> fits(
                epoch,
                after.messages[i],
            ),
    ensures
        model::files_by_owner(m, after, fits),
{
    assert forall|epoch: u64, owner_uid: u64| #[trigger]
        maps::files(m, epoch, owner_uid) implies {
        let filed = after.at(m[epoch][owner_uid]);
        fits(epoch, filed) && filed.owner_uid() == owner_uid
    } by {
        assert(model::within(m[epoch], before.messages.len()));
        assert(fits(epoch, before.messages[m[epoch][owner_uid].place()]));
    }
}

/// What a message files stays true in another DAG with everything that was computed.
pub proof fn lemma_files_truly_elsewhere<T>(
    before: DagView<T>,
    after: DagView<T>,
    message: MessageView<T>,
    leaders: spec_fn(u64) -> u64,
)
    requires
        message.refers_within(before.messages.len()),
        message.files_truly(before, leaders),
        before.computed_in(after),
    ensures
        message.files_truly(after, leaders),
{
    lemma_files_by_owner_elsewhere(
        message.approved_epochs,
        before,
        after,
        model::epoch_members(),
    );
    lemma_files_only_elsewhere(
        message.approved_representatives,
        before,
        after,
        model::standing_for(leaders),
    );
    lemma_files_only_elsewhere(message.approved_kickouts, before, after, model::ousting(leaders));
    lemma_files_by_owner_elsewhere(
        message.approved_endorsements,
        before,
        after,
        model::anything(),
    );
    lemma_files_by_owner_elsewhere(message.approved_promises, before, after, model::anything());
}

/// A DAG stays sound when one message changes, nothing that was computed is lost, and the message
/// files truly what it then holds.
pub proof fn lemma_sound_with<T>(
    dag: DagView<T>,
    this: MessageRef,
    view: MessageView<T>,
    leaders: spec_fn(u64) -> u64,
)
    requires
        dag.well_formed(),
        dag.holds(this),
        dag.sound(leaders),
        dag.computed_in(dag.with(this, view)),
        view.sound_in(dag.with(this, view), leaders),
    ensures
        dag.with(this, view).sound(leaders),
{
    let after = dag.with(this, view);
    assert forall|i: int|
        0 <= i < after.messages.len() implies #[trigger] after.messages[i].sound_in(
        after,
        leaders,
    ) by {
        if i != this.place() {
            assert(after.messages[i] == dag.messages[i]);
            assert(dag.messages[i].sound_in(dag, leaders));
            lemma_files_truly_elsewhere(dag, after, dag.messages[i], leaders);
        }
    }
}

/// What a message takes over from its parents is filed truly, the message itself included, and
/// reaches back, if what they file is and does.
pub proof fn lemma_aggregated_sound<T>(
    dag: DagView<T>,
    this: MessageRef,
    leaders: spec_fn(u64) -> u64,
)
    requires
        dag.well_formed(),
        dag.holds(this),
        dag.sound(leaders),
    ensures
        dag.at(this).aggregated(dag.parents_of(this)).sound_in(dag, leaders),
{
    let own = dag.at(this);
    let parents = dag.parents_of(this);
    assert(dag.messages[this.place()].sound_in(dag, leaders));
    assert forall|i: int| 0 <= i < parents.len() implies {
        &&& (#[trigger] parents[i]).files_truly(dag, leaders)
        &&& parents[i].reaches_back()
    } by {
        assert(own.refers_within(dag.messages.len()));
        assert(0 <= own.parents[i].place() < dag.messages.len());
        assert(dag.messages[own.parents[i].place()].sound_in(dag, leaders));
    }
    lemma_aggregated_files_truly(dag, own, parents, leaders);
    if own.computed_epoch is Some {
        lemma_overlaid_nested_files(
            own.approved_epochs,
            model::epochs_of(parents),
            own.computed_epoch->0,
            own.owner_uid(),
        );
    }
    lemma_aggregated_reaches_back(own, parents);
}

/// What a message takes over is filed truly, if what the others file is.
proof fn lemma_aggregated_files_truly<T>(
    dag: DagView<T>,
    own: MessageView<T>,
    parents: Seq<MessageView<T>>,
    leaders: spec_fn(u64) -> u64,
)
    requires
        own.files_truly(dag, leaders),
        forall|i: int|
            0 <= i < parents.len() ==> (#[trigger] parents[i]).files_truly(dag, leaders),
    ensures
        own.aggregated(parents).files_truly(dag, leaders),
{
    lemma_overlaid_nested_files_by_owner(
        own.approved_epochs,
        model::epochs_of(parents),
        dag,
        model::epoch_members(),
    );
    lemma_overlaid_files_only(
        own.approved_representatives,
        model::representatives_of(parents),
        dag,
        model::standing_for(leaders),
    );
    lemma_overlaid_files_only(
        own.approved_kickouts,
        model::kickouts_of(parents),
        dag,
        model::ousting(leaders),
    );
    lemma_overlaid_nested_files_by_owner(
        own.approved_endorsements,
        model::endorsements_of(parents),
        dag,
        model::anything(),
    );
    lemma_overlaid_nested_files_by_owner(
        own.approved_promises,
        model::promises_of(parents),
        dag,
        model::anything(),
    );
}

/// What a message takes over reaches back, if what the others approve does.
proof fn lemma_aggregated_reaches_back<T>(own: MessageView<T>, parents: Seq<MessageView<T>>)
    requires
        own.reaches_back(),
        forall|i: int| 0 <= i < parents.len() ==> (#[trigger] parents[i]).reaches_back(),
    ensures
        own.aggregated(parents).reaches_back(),
{
    let aggregated = own.aggregated(parents);
    let representatives = model::representatives_of(parents);
    let kickouts = model::kickouts_of(parents);
    assert forall|epoch: u64, before: u64| #[trigger]
        aggregated.approved_representatives.contains_key(epoch) && epoch == before
            + 1 implies {
        ||| aggregated.approved_representatives.contains_key(before)
        ||| #[trigger] aggregated.approved_kickouts.contains_key(before)
    } by {
        lemma_overlaid_contains(own.approved_representatives, representatives, epoch);
        lemma_overlaid_contains(own.approved_representatives, representatives, before);
        lemma_overlaid_contains(own.approved_kickouts, kickouts, before);
        if own.approved_representatives.contains_key(epoch) {
            assert(own.approved_kickouts.contains_key(before)
                || own.approved_representatives.contains_key(before));
        } else {
            let i = choose|i: int|
                0 <= i < representatives.len() && (#[trigger] representatives[i]).contains_key(
                    epoch,
                );
            assert(parents[i].approved_representatives.contains_key(epoch));
            assert(parents[i].approved_kickouts.contains_key(before)
                || parents[i].approved_representatives.contains_key(before));
            assert(representatives[i].contains_key(before) || kickouts[i].contains_key(before));
        }
    }
    if own.computed_is_representative == Some(true) {
        lemma_overlaid_contains(
            own.approved_representatives,
            representatives,
            own.computed_epoch->0,
        );
    }
}

/// Where a message approves no kickout from `earlier` on, it approves a representative of every
/// epoch from there up to one that it approves a representative of.
pub proof fn lemma_reaches_back_to<T>(message: MessageView<T>, epoch: u64, earlier: u64)
    requires
        message.reaches_back(),
        message.approved_representatives.contains_key(epoch),
        earlier <= epoch,
        forall|between: u64|
            earlier <= between < epoch ==> !(#[trigger] message.approved_kickouts.contains_key(
                between,
            )),
    ensures
        message.approved_representatives.contains_key(earlier),
    decreases epoch,
{
    if earlier < epoch {
        assert(!message.approved_kickouts.contains_key((epoch - 1) as u64));
        lemma_reaches_back_to(message, (epoch - 1) as u64, earlier);
    }
}

/// A key is in what a message takes over from `parents` if it was there, or one of them has it.
pub proof fn lemma_taken_over<T>(
    own: Map<u64, MessageRef>,
    parents: Seq<MessageView<T>>,
    read: spec_fn(MessageView<T>) -> Map<u64, MessageRef>,
    key: u64,
)
    ensures
        model::overlaid(own, parents.map_values(read)).contains_key(key) <==> {
            ||| own.contains_key(key)
            ||| exists|i: int|
                0 <= i < parents.len() && read(#[trigger] parents[i]).contains_key(key)
        },
{
    let layers = parents.map_values(read);
    lemma_overlaid_contains(own, layers, key);
    assert forall|i: int| 0 <= i < parents.len() implies read(#[trigger] parents[i])
        == layers[i] by {}
    if exists|i: int| 0 <= i < layers.len() && (#[trigger] layers[i]).contains_key(key) {
        let i = choose|i: int| 0 <= i < layers.len() && (#[trigger] layers[i]).contains_key(key);
        assert(read(parents[i]).contains_key(key));
    }
}

/// An epoch, and a message in it, is in what a message takes over from `parents` if it was there,
/// or one of them has it.
pub proof fn lemma_taken_over_nested<T>(
    own: Map<u64, Map<u64, MessageRef>>,
    parents: Seq<MessageView<T>>,
    read: spec_fn(MessageView<T>) -> Map<u64, Map<u64, MessageRef>>,
    epoch: u64,
    owner_uid: u64,
)
    ensures
        ({
            let all = model::overlaid_nested(own, parents.map_values(read));
            &&& all.contains_key(epoch) <==> {
                ||| own.contains_key(epoch)
                ||| exists|i: int|
                    0 <= i < parents.len() && read(#[trigger] parents[i]).contains_key(epoch)
            }
            &&& maps::files(all, epoch, owner_uid) <==> {
                ||| maps::files(own, epoch, owner_uid)
                ||| exists|i: int|
                    0 <= i < parents.len() && maps::files(
                        read(#[trigger] parents[i]),
                        epoch,
                        owner_uid,
                    )
            }
        }),
{
    let layers = parents.map_values(read);
    lemma_overlaid_slice(own, layers, epoch);
    lemma_overlaid_nested_files(own, layers, epoch, owner_uid);
    assert forall|i: int| 0 <= i < parents.len() implies read(#[trigger] parents[i])
        == layers[i] by {}
    if exists|i: int| 0 <= i < layers.len() && (#[trigger] layers[i]).contains_key(epoch) {
        let i = choose|i: int| 0 <= i < layers.len() && (#[trigger] layers[i]).contains_key(epoch);
        assert(read(parents[i]).contains_key(epoch));
    }
    if exists|i: int| 0 <= i < layers.len() && maps::files(#[trigger] layers[i], epoch, owner_uid) {
        let i = choose|i: int|
            0 <= i < layers.len() && maps::files(#[trigger] layers[i], epoch, owner_uid);
        assert(maps::files(read(parents[i]), epoch, owner_uid));
    }
}

/// Of what a message takes over from `parents`, the entry of the last one that has one counts, and
/// that of the message itself where none has.
pub proof fn lemma_last_parent<T>(
    own: Map<u64, MessageRef>,
    parents: Seq<MessageView<T>>,
    read: spec_fn(MessageView<T>) -> Map<u64, MessageRef>,
    key: u64,
)
    ensures
        ({
            let after = model::overlaid(own, parents.map_values(read));
            &&& forall|i: int|
                #![trigger parents[i]]
                0 <= i < parents.len() && read(parents[i]).contains_key(key) && (forall|j: int|
                    i < j < parents.len() ==> !read(#[trigger] parents[j]).contains_key(key))
                    ==> after.contains_key(key) && after[key] == read(parents[i])[key]
            &&& (forall|j: int|
                0 <= j < parents.len() ==> !read(#[trigger] parents[j]).contains_key(key)) ==> {
                &&& after.contains_key(key) == own.contains_key(key)
                &&& own.contains_key(key) ==> after[key] == own[key]
            }
        }),
{
    let layers = parents.map_values(read);
    let after = model::overlaid(own, layers);
    lemma_overlaid_entry(own, layers, key);
    lemma_top(layers, key);
    assert(after.get(key) is Some == after.contains_key(key));
    assert forall|j: int| 0 <= j < parents.len() implies read(#[trigger] parents[j])
        == layers[j] by {}
    assert forall|i: int|
        #![trigger parents[i]]
        0 <= i < parents.len() && read(parents[i]).contains_key(key) && (forall|j: int|
            i < j < parents.len() ==> !read(#[trigger] parents[j]).contains_key(
                key,
            )) implies after.contains_key(key) && after[key] == read(parents[i])[key] by {
        assert forall|j: int| i < j < layers.len() implies !(
        #[trigger] layers[j]).contains_key(key) by {
            assert(!read(parents[j]).contains_key(key));
        }
        lemma_top_is_last(layers, key, i);
    }
    if forall|j: int|
        0 <= j < parents.len() ==> !read(#[trigger] parents[j]).contains_key(key) {
        if top(layers, key) is Some {
            let i = choose|i: int|
                0 <= i < layers.len() && (#[trigger] layers[i]).get(key) == top(layers, key);
            assert(!read(parents[i]).contains_key(key));
        }
        assert(own.get(key) is Some == own.contains_key(key));
    }
}

/// The same within an epoch, where messages are filed under their owners.
pub proof fn lemma_last_parent_nested<T>(
    own: Map<u64, Map<u64, MessageRef>>,
    parents: Seq<MessageView<T>>,
    read: spec_fn(MessageView<T>) -> Map<u64, Map<u64, MessageRef>>,
    epoch: u64,
    owner_uid: u64,
)
    ensures
        ({
            let after = model::overlaid_nested(own, parents.map_values(read));
            &&& forall|i: int|
                #![trigger parents[i]]
                0 <= i < parents.len() && maps::files(read(parents[i]), epoch, owner_uid) && (
                forall|j: int|
                    i < j < parents.len() ==> !maps::files(
                        read(#[trigger] parents[j]),
                        epoch,
                        owner_uid,
                    )) ==> {
                    &&& maps::files(after, epoch, owner_uid)
                    &&& after[epoch][owner_uid] == read(parents[i])[epoch][owner_uid]
                }
            &&& (forall|j: int|
                0 <= j < parents.len() ==> !maps::files(
                    read(#[trigger] parents[j]),
                    epoch,
                    owner_uid,
                )) ==> {
                &&& maps::files(after, epoch, owner_uid) == maps::files(own, epoch, owner_uid)
                &&& maps::files(own, epoch, owner_uid) ==> after[epoch][owner_uid]
                    == own[epoch][owner_uid]
            }
        }),
{
    let within = |message: MessageView<T>| maps::slice(read(message), epoch);
    let layers = parents.map_values(read);
    lemma_overlaid_slice(own, layers, epoch);
    assert(slices(layers, epoch) =~= parents.map_values(within));
    lemma_last_parent(maps::slice(own, epoch), parents, within, owner_uid);
    assert forall|j: int| 0 <= j < parents.len() implies maps::files(
        read(#[trigger] parents[j]),
        epoch,
        owner_uid,
    ) == within(parents[j]).contains_key(owner_uid) by {}
}

/// Where all entries for `key` say the same, so do the maps laid over each other.
pub proof fn lemma_overlaid_says(
    own: Map<u64, MessageRef>,
    layers: Seq<Map<u64, MessageRef>>,
    key: u64,
    message: MessageRef,
)
    requires
        own.contains_key(key) ==> own[key] == message,
        forall|i: int|
            0 <= i < layers.len() && (#[trigger] layers[i]).contains_key(key) ==> layers[i][key]
                == message,
    ensures
        model::overlaid(own, layers).contains_key(key) ==> model::overlaid(own, layers)[key]
            == message,
    decreases layers.len(),
{
    if layers.len() > 0 {
        lemma_overlaid_says(own, layers.drop_last(), key, message);
        assert(layers.last() == layers[layers.len() - 1]);
    }
}

/// The nodes of which some parent approves a message in an epoch are a set with just these.
pub proof fn lemma_owners_are<T>(parents: Seq<MessageView<T>>, epoch: u64, owners: Set<u64>)
    requires
        forall|owner_uid: u64| #[trigger]
            owners.contains(owner_uid) <==> exists|i: int|
                0 <= i < parents.len() && (#[trigger] parents[i]).approved_epochs.contains_key(
                    epoch,
                ) && parents[i].approved_epochs[epoch].contains_key(owner_uid),
    ensures
        model::owners_in(parents, epoch) == owners,
{
    assert forall|owner_uid: u64| #[trigger]
        owners.contains(owner_uid) == model::owners_in(parents, epoch).contains(owner_uid) by {
        if model::approved_in(parents, owner_uid, epoch) {
            let i = choose|i: int|
                0 <= i < parents.len() && maps::files(
                    (#[trigger] parents[i]).approved_epochs,
                    epoch,
                    owner_uid,
                );
            assert(parents[i].approved_epochs.contains_key(epoch));
        }
        if owners.contains(owner_uid) {
            let i = choose|i: int|
                0 <= i < parents.len() && (#[trigger] parents[i]).approved_epochs.contains_key(
                    epoch,
                ) && parents[i].approved_epochs[epoch].contains_key(owner_uid);
            assert(maps::files(parents[i].approved_epochs, epoch, owner_uid));
        }
    }
    assert(model::owners_in(parents, epoch) =~= owners);
}

/// The recomputed epoch, over the previous epoch and the nodes with messages there.
pub proof fn lemma_recomputed_epoch<T, S: WitnessSelectorLike>(
    message: MessageView<T>,
    parents: Seq<MessageView<T>>,
    starting_epoch: u64,
    selector: &S,
    prev: u64,
    owners: Set<u64>,
    epoch: int,
)
    requires
        prev == model::prev_epoch_of(parents, message.data.body.owner_uid, starting_epoch),
        forall|owner_uid: u64| #[trigger]
            owners.contains(owner_uid) <==> exists|i: int|
                0 <= i < parents.len() && (#[trigger] parents[i]).approved_epochs.contains_key(
                    prev,
                ) && parents[i].approved_epochs[prev].contains_key(owner_uid),
    ensures
        model::may_have_epoch(message, parents, true, starting_epoch, selector, epoch)
            <==> exists|uids: &HashSet<u64>| #[trigger]
            call_ensures(S::epoch_witnesses, (selector, prev), uids) && epoch == (if 3
                * owners.len() > 2 * uids@.len() {
                prev + 1
            } else {
                prev as int
            }),
{
    lemma_owners_are(parents, prev, owners);
    assert(prev == model::prev_epoch_of(parents, message.owner_uid(), starting_epoch));
    if exists|uids: &HashSet<u64>| #[trigger]
        call_ensures(S::epoch_witnesses, (selector, prev), uids) && epoch == (if 3 * owners.len()
            > 2 * uids@.len() {
            prev + 1
        } else {
            prev as int
        }) {
        let uids = choose|uids: &HashSet<u64>| #[trigger]
            call_ensures(S::epoch_witnesses, (selector, prev), uids) && epoch == (if 3
                * owners.len() > 2 * uids@.len() {
                prev + 1
            } else {
                prev as int
            });
        assert(witness::may_count(selector, prev, uids@.len()));
        assert(epoch == model::next_epoch(parents, prev, uids@.len()));
    }
    if model::may_have_epoch(message, parents, true, starting_epoch, selector, epoch) {
        let total = choose|total: nat| #[trigger]
            witness::may_count(selector, prev, total) && epoch == model::next_epoch(
                parents,
                prev,
                total,
            );
        let uids = choose|uids: &HashSet<u64>| #[trigger]
            call_ensures(S::epoch_witnesses, (selector, prev), uids) && uids@.len() == total;
        assert(call_ensures(S::epoch_witnesses, (selector, prev), uids));
        assert(epoch == (if 3 * owners.len() > 2 * uids@.len() {
            prev + 1
        } else {
            prev as int
        }));
    }
}

/// The owners of the promises that a message has for an epoch after aggregation are `promisers`,
/// if these are the owners of those that it or a parent had before.
pub proof fn lemma_promisers_are<T>(
    message: MessageView<T>,
    parents: Seq<MessageView<T>>,
    epoch: u64,
    promisers: Set<u64>,
)
    requires
        forall|owner_uid: u64| #[trigger]
            promisers.contains(owner_uid) <==> {
                ||| message.approved_promises.contains_key(epoch)
                    && message.approved_promises[epoch].contains_key(owner_uid)
                ||| exists|i: int|
                    0 <= i < parents.len() && (
                    #[trigger] parents[i]).approved_promises.contains_key(epoch)
                        && parents[i].approved_promises[epoch].contains_key(owner_uid)
            },
    ensures
        maps::slice(message.aggregated(parents).approved_promises, epoch).dom() == promisers,
        promisers.len() > 0 ==> message.aggregated(parents).approved_promises.contains_key(epoch),
{
    let all = message.aggregated(parents).approved_promises;
    assert forall|owner_uid: u64| #[trigger]
        promisers.contains(owner_uid) == maps::slice(all, epoch).dom().contains(owner_uid) by {
        lemma_taken_over_nested(
            message.approved_promises,
            parents,
            model::promises(),
            epoch,
            owner_uid,
        );
        assert(maps::files(all, epoch, owner_uid) == maps::slice(all, epoch).contains_key(
            owner_uid,
        ));
        if exists|i: int|
            0 <= i < parents.len() && maps::files(
                (#[trigger] parents[i]).approved_promises,
                epoch,
                owner_uid,
            ) {
            let i = choose|i: int|
                0 <= i < parents.len() && maps::files(
                    (#[trigger] parents[i]).approved_promises,
                    epoch,
                    owner_uid,
                );
            assert(parents[i].approved_promises.contains_key(epoch));
        }
    }
    assert(maps::slice(all, epoch).dom() =~= promisers);
    if !all.contains_key(epoch) {
        assert(promisers =~= Set::<u64>::empty());
    }
}

} // verus!
