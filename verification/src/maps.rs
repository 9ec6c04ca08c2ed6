//! The maps in which a message files the messages that it approves, and how the map of one
//! message is laid over that of another.

use crate::message::MessageRef;
use std::collections::{HashMap, HashSet};
use vstd::prelude::*;

verus! {

broadcast use vstd::std_specs::hash::group_hash_axioms;

/// Epoch -> message.
pub type EpochMap = HashMap<u64, MessageRef>;

/// Epoch -> (node uid -> message).
pub type EpochMapMap = HashMap<u64, HashMap<u64, MessageRef>>;

/// What an [`EpochMapMap`] holds, with the inner maps seen as mathematical maps too.
pub open spec fn nested_view(
    m: Map<u64, HashMap<u64, MessageRef>>,
) -> Map<u64, Map<u64, MessageRef>> {
    Map::new(|epoch: u64| m.contains_key(epoch), |epoch: u64| m[epoch]@)
}

/// `upper` laid over `lower`, epoch by epoch: within an epoch the entries of `upper` win.
pub open spec fn lay_over_nested(
    lower: Map<u64, Map<u64, MessageRef>>,
    upper: Map<u64, Map<u64, MessageRef>>,
) -> Map<u64, Map<u64, MessageRef>> {
    Map::new(
        |epoch: u64| lower.contains_key(epoch) || upper.contains_key(epoch),
        |epoch: u64|
            if !upper.contains_key(epoch) {
                lower[epoch]
            } else if !lower.contains_key(epoch) {
                upper[epoch]
            } else {
                lower[epoch].union_prefer_right(upper[epoch])
            },
    )
}

/// Enters everything that `upper` holds into `lower`.
pub fn extend(lower: &mut HashMap<u64, MessageRef>, upper: &HashMap<u64, MessageRef>)
    ensures
        final(lower)@ == old(lower)@.union_prefer_right(upper@),
{
    for entry in it: upper.iter()
        invariant
            forall|key: u64| old(lower)@.contains_key(key) ==> lower@.contains_key(key),
            forall|key: u64| #[trigger]
                lower@.contains_key(key) ==> {
                    ||| old(lower)@.contains_key(key) && lower@[key] == old(lower)@[key]
                    ||| upper@.contains_key(key) && lower@[key] == upper@[key]
                },
            forall|j: int|
                0 <= j < it.seq().len() ==> {
                    &&& upper@.contains_key(*(#[trigger] it.seq()[j]).0)
                    &&& upper@[*it.seq()[j].0] == *it.seq()[j].1
                },
            forall|j: int|
                0 <= j < it.index() ==> {
                    &&& lower@.contains_key(*(#[trigger] it.seq()[j]).0)
                    &&& lower@[*it.seq()[j].0] == upper@[*it.seq()[j].0]
                },
    {
        lower.insert(*entry.0, *entry.1);
    }
    assert(lower@ =~= old(lower)@.union_prefer_right(upper@));
}

/// Enters everything that `upper` holds into `lower`, epoch by epoch.
pub fn extend_nested(lower: &mut EpochMapMap, upper: &EpochMapMap)
    ensures
        nested_view(final(lower)@) == lay_over_nested(
            nested_view(old(lower)@),
            nested_view(upper@),
        ),
{
    let ghost before = nested_view(lower@);
    let ghost merged = lay_over_nested(before, nested_view(upper@));
    for entry in it: upper.iter()
        invariant
            before == nested_view(old(lower)@),
            merged == lay_over_nested(before, nested_view(upper@)),
            forall|epoch: u64| before.contains_key(epoch) ==> #[trigger] lower@.contains_key(epoch),
            forall|epoch: u64| #[trigger]
                lower@.contains_key(epoch) ==> {
                    ||| before.contains_key(epoch) && lower@[epoch]@ == before[epoch]
                    ||| merged.contains_key(epoch) && lower@[epoch]@ == merged[epoch]
                },
            forall|j: int|
                0 <= j < it.seq().len() ==> {
                    &&& upper@.contains_key(*(#[trigger] it.seq()[j]).0)
                    &&& upper@[*it.seq()[j].0] == *it.seq()[j].1
                },
            forall|j: int|
                0 <= j < it.index() ==> {
                    &&& lower@.contains_key(*(#[trigger] it.seq()[j]).0)
                    &&& lower@[*it.seq()[j].0]@ == merged[*it.seq()[j].0]
                },
    {
        let slot = lower.entry(*entry.0).or_insert(HashMap::new());
        extend(slot, entry.1);
    }
    assert(nested_view(lower@) =~= merged);
}

/// Whether `m` files a message of `owner_uid` in `epoch`.
pub open spec fn files(m: Map<u64, Map<u64, MessageRef>>, epoch: u64, owner_uid: u64) -> bool {
    m.contains_key(epoch) && m[epoch].contains_key(owner_uid)
}

/// What `m` files in `epoch`.
pub open spec fn slice(m: Map<u64, Map<u64, MessageRef>>, epoch: u64) -> Map<u64, MessageRef> {
    if m.contains_key(epoch) {
        m[epoch]
    } else {
        Map::empty()
    }
}

/// The last epoch in which `m` files a message of `owner_uid`.
pub fn last_epoch(m: &EpochMapMap, owner_uid: u64) -> (last: Option<u64>)
    ensures
        last matches Some(epoch) ==> files(nested_view(m@), epoch, owner_uid),
        forall|epoch: u64| #[trigger]
            files(nested_view(m@), epoch, owner_uid) ==> last is Some && epoch <= last->0,
{
    let mut last: Option<u64> = None;
    for entry in it: m.iter()
        invariant
            last matches Some(epoch) ==> files(nested_view(m@), epoch, owner_uid),
            forall|j: int|
                0 <= j < it.seq().len() ==> {
                    &&& m@.contains_key(*(#[trigger] it.seq()[j]).0)
                    &&& m@[*it.seq()[j].0] == *it.seq()[j].1
                },
            forall|j: int|
                0 <= j < it.index() && (#[trigger] it.seq()[j]).1@.contains_key(owner_uid) ==> last
                    is Some && *it.seq()[j].0 <= last->0,
    {
        if entry.1.contains_key(&owner_uid) {
            last = match last {
                Some(epoch) if *entry.0 <= epoch => Some(epoch),
                _ => Some(*entry.0),
            };
        }
    }
    assert forall|epoch: u64| #[trigger] files(nested_view(m@), epoch, owner_uid) implies last
        is Some && epoch <= last->0 by {
        assert(m@.contains_key(epoch));
    }
    last
}

/// Enters all keys of `m` into `keys`.
pub fn collect_keys(keys: &mut HashSet<u64>, m: &HashMap<u64, MessageRef>)
    ensures
        final(keys)@ == old(keys)@.union(m@.dom()),
{
    for entry in it: m.iter()
        invariant
            forall|k: u64| old(keys)@.contains(k) ==> keys@.contains(k),
            forall|k: u64| #[trigger]
                keys@.contains(k) ==> old(keys)@.contains(k) || m@.contains_key(k),
            forall|j: int| 0 <= j < it.seq().len() ==> m@.contains_key(*(#[trigger] it.seq()[j]).0),
            forall|j: int| 0 <= j < it.index() ==> keys@.contains(*(#[trigger] it.seq()[j]).0),
    {
        keys.insert(*entry.0);
    }
    assert(keys@ =~= old(keys)@.union(m@.dom()));
}

/// Files `message` under `owner_uid` in `epoch`, unless a message of that owner is there already.
pub fn file(m: &mut EpochMapMap, epoch: u64, owner_uid: u64, message: MessageRef)
    ensures
        nested_view(final(m)@) == if files(nested_view(old(m)@), epoch, owner_uid) {
            nested_view(old(m)@)
        } else {
            nested_view(old(m)@).insert(
                epoch,
                slice(nested_view(old(m)@), epoch).insert(owner_uid, message),
            )
        },
{
    let ghost before = nested_view(m@);
    let owners = m.entry(epoch).or_insert(HashMap::new());
    if !owners.contains_key(&owner_uid) {
        owners.insert(owner_uid, message);
    }
    assert(nested_view(m@) =~= if files(before, epoch, owner_uid) {
        before
    } else {
        before.insert(epoch, slice(before, epoch).insert(owner_uid, message))
    });
}

/// Appends `message` to `list`, unless it is there already.
pub fn push_once(list: &mut Vec<MessageRef>, message: MessageRef)
    requires
        old(list)@.no_duplicates(),
    ensures
        final(list)@ == if old(list)@.contains(message) {
            old(list)@
        } else {
            old(list)@.push(message)
        },
        final(list)@.no_duplicates(),
        forall|other: MessageRef| #[trigger]
            final(list)@.contains(other) <==> old(list)@.contains(other) || other == message,
{
    broadcast use vstd::seq_lib::group_seq_properties;

    let mut i: usize = 0;
    while i < list.len()
        invariant
            *list == *old(list),
            list@.no_duplicates(),
            i <= list@.len(),
            forall|j: int| 0 <= j < i ==> list@[j] != message,
        decreases list@.len() - i,
    {
        if list[i] == message {
            assert(list@.contains(message));
            return;
        }
        i += 1;
    }
    list.push(message);
}

} // verus!
