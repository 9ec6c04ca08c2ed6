use std::collections::{HashMap, HashSet};
use txflow::{
    exceeds_two_thirds, Dag, Endorsement, Message, MessageDataBody, MessageRef, SignedMessageData,
    WitnessSelectorLike,
};

fn message(dag: &mut Dag<&'static str>, owner_uid: u64, epoch: u64) -> MessageRef {
    Message::new(
        dag,
        SignedMessageData {
            owner_sig: 7,
            hash: 8,
            body: MessageDataBody {
                owner_uid,
                parents: vec![],
                epoch,
                payload: "payload",
                endorsements: vec![Endorsement { epoch: 0, signature: 5 }],
            },
        },
    )
}

/// Every epoch has the same witnesses, and the witness with the number of the epoch leads it.
struct RoundRobin {
    witnesses: HashSet<u64>,
}

impl RoundRobin {
    fn new(count: u64) -> RoundRobin {
        RoundRobin { witnesses: (0..count).collect() }
    }
}

impl WitnessSelectorLike for RoundRobin {
    fn epoch_witnesses(&self, _epoch: u64) -> &HashSet<u64> {
        &self.witnesses
    }
    fn epoch_leader(&self, epoch: u64) -> u64 {
        epoch % self.witnesses.len() as u64
    }
}

#[test]
fn new_message_is_blank() {
    let mut dag = Dag::new();
    let a = message(&mut dag, 3, 4);
    let b = message(&mut dag, 5, 6);
    assert_ne!(a, b);
    let m = dag.get(a);
    assert_eq!(m.data().owner_sig, 7);
    assert_eq!(m.data.hash, 8);
    assert_eq!(m.data().body.owner_uid, 3);
    assert_eq!(m.data().body.epoch, 4);
    assert_eq!(m.data().body.payload, "payload");
    assert!(m.parents().is_empty());
    assert_eq!(m.computed_epoch(), None);
    assert_eq!(m.computed_is_representative(), None);
    assert_eq!(m.computed_is_kickout(), None);
    assert!(m.approved_epochs().is_empty());
    assert!(m.approved_representatives().is_empty());
    assert!(m.approved_kickouts().is_empty());
    assert!(m.approved_endorsements().is_empty());
    assert!(m.approved_promises().is_empty());
    assert_eq!(dag.get(b).data().body.owner_uid, 5);
}

#[test]
fn unlink_undoes_link() {
    let mut dag = Dag::new();
    let a = message(&mut dag, 0, 0);
    let b = message(&mut dag, 1, 0);
    let c = message(&mut dag, 2, 0);
    Message::link(&mut dag, a, c);
    Message::link(&mut dag, b, c);
    assert_eq!(dag.get(c).parents(), &vec![a, b]);
    Message::unlink(&mut dag, b, c);
    assert_eq!(dag.get(c).parents(), &vec![a]);
    Message::unlink(&mut dag, b, c);
    assert_eq!(dag.get(c).parents(), &vec![a]);
}

#[test]
fn unlink_takes_out_every_link() {
    let mut dag = Dag::new();
    let a = message(&mut dag, 0, 0);
    let b = message(&mut dag, 1, 0);
    let c = message(&mut dag, 2, 0);
    let d = message(&mut dag, 3, 0);
    for p in [a, b, a, c, a] {
        Message::link(&mut dag, p, d);
    }
    Message::unlink(&mut dag, a, d);
    assert_eq!(dag.get(d).parents(), &vec![b, c]);
    assert!(dag.get(a).parents().is_empty());
}

#[test]
fn messages_may_be_linked_in_a_circle() {
    let mut dag = Dag::new();
    let a = message(&mut dag, 0, 0);
    let b = message(&mut dag, 1, 0);
    Message::link(&mut dag, a, b);
    Message::link(&mut dag, b, a);
    Message::insert_approved_epoch(&mut dag, a, 3, HashMap::from([(0, a)]));
    Message::aggregate_parents(&mut dag, b);
    Message::aggregate_parents(&mut dag, a);
    assert_eq!(dag.get(a).approved_epochs(), dag.get(b).approved_epochs());
    Message::link(&mut dag, a, a);
    assert_eq!(dag.get(a).parents(), &vec![b, a]);
}

#[test]
fn aggregation_merges_within_an_epoch_and_the_last_parent_counts() {
    let mut dag = Dag::new();
    let a = message(&mut dag, 0, 0);
    let b = message(&mut dag, 0, 0);
    let p = message(&mut dag, 1, 0);
    let q = message(&mut dag, 2, 0);
    let c = message(&mut dag, 3, 0);
    Message::insert_approved_epoch(&mut dag, p, 5, HashMap::from([(0, a), (1, p)]));
    Message::insert_approved_epoch(&mut dag, q, 5, HashMap::from([(0, b), (2, q)]));
    Message::insert_approved_epoch(&mut dag, c, 5, HashMap::from([(2, c), (3, c)]));
    Message::insert_approved_epoch(&mut dag, c, 6, HashMap::from([(3, c)]));
    Message::insert_approved_epoch(&mut dag, q, 7, HashMap::new());
    Message::link(&mut dag, p, c);
    Message::link(&mut dag, q, c);
    Message::aggregate_parents(&mut dag, c);
    let expected = HashMap::from([
        (5, HashMap::from([(0, b), (1, p), (2, q), (3, c)])),
        (6, HashMap::from([(3, c)])),
        (7, HashMap::new()),
    ]);
    assert_eq!(dag.get(c).approved_epochs(), &expected);

    // Once more changes nothing, nor does the parent's being linked again in between.
    Message::aggregate_parents(&mut dag, c);
    assert_eq!(dag.get(c).approved_epochs(), &expected);
    assert_eq!(dag.get(p).approved_epochs().len(), 1);

    // In the other order the other parent counts.
    Message::unlink(&mut dag, p, c);
    Message::link(&mut dag, p, c);
    Message::aggregate_parents(&mut dag, c);
    assert_eq!(dag.get(c).approved_epochs()[&5][&0], a);
}

#[test]
fn parents_linked_later_can_be_aggregated_then() {
    let mut dag = Dag::new();
    let p = message(&mut dag, 1, 0);
    let q = message(&mut dag, 2, 0);
    let early = message(&mut dag, 3, 0);
    let late = message(&mut dag, 3, 0);
    Message::insert_approved_epoch(&mut dag, p, 5, HashMap::from([(1, p)]));
    Message::insert_approved_epoch(&mut dag, q, 5, HashMap::from([(1, q)]));
    Message::link(&mut dag, p, early);
    Message::aggregate_parents(&mut dag, early);
    Message::link(&mut dag, q, early);
    Message::aggregate_parents(&mut dag, early);
    Message::link(&mut dag, p, late);
    Message::link(&mut dag, q, late);
    Message::aggregate_parents(&mut dag, late);
    assert_eq!(dag.get(early).approved_epochs(), dag.get(late).approved_epochs());
    assert_eq!(dag.get(late).approved_epochs()[&5][&1], q);
}

#[test]
fn previous_epoch_is_the_last_one_of_the_owner() {
    let mut dag = Dag::new();
    let p = message(&mut dag, 1, 0);
    let q = message(&mut dag, 2, 0);
    let c = message(&mut dag, 1, 0);
    assert_eq!(Message::prev_epoch(&dag, c, 17), 17);
    Message::insert_approved_epoch(&mut dag, p, 3, HashMap::from([(1, p)]));
    Message::insert_approved_epoch(&mut dag, p, 8, HashMap::from([(2, p)]));
    Message::insert_approved_epoch(&mut dag, q, 5, HashMap::from([(1, q)]));
    Message::insert_approved_epoch(&mut dag, q, 4, HashMap::from([(1, q)]));
    // The message's own files do not count.
    Message::insert_approved_epoch(&mut dag, c, 9, HashMap::from([(1, c)]));
    Message::link(&mut dag, p, c);
    assert_eq!(Message::prev_epoch(&dag, c, 17), 3);
    Message::link(&mut dag, q, c);
    assert_eq!(Message::prev_epoch(&dag, c, 17), 5);
    // In the other order too.
    Message::unlink(&mut dag, p, c);
    Message::link(&mut dag, p, c);
    assert_eq!(Message::prev_epoch(&dag, c, 17), 5);
}

#[test]
fn two_thirds_are_exceeded_strictly() {
    assert!(!exceeds_two_thirds(0, 0));
    assert!(exceeds_two_thirds(1, 0));
    assert!(!exceeds_two_thirds(0, 1));
    assert!(exceeds_two_thirds(1, 1));
    assert!(!exceeds_two_thirds(1, 2));
    assert!(exceeds_two_thirds(2, 2));
    assert!(!exceeds_two_thirds(2, 3));
    assert!(exceeds_two_thirds(3, 3));
    assert!(!exceeds_two_thirds(2, 4));
    assert!(exceeds_two_thirds(3, 4));
    assert!(!exceeds_two_thirds(usize::MAX / 3 * 2, usize::MAX));
    assert!(exceeds_two_thirds(usize::MAX / 3 * 2 + 1, usize::MAX));
    for total in 0..50 {
        for count in 0..60 {
            assert_eq!(exceeds_two_thirds(count, total), count > total * 2 / 3);
        }
    }
}

#[test]
fn promotion_counts_the_owners_over_all_parents() {
    let mut dag = Dag::new();
    let p = message(&mut dag, 0, 0);
    let q = message(&mut dag, 1, 0);
    let r = message(&mut dag, 2, 0);
    let c = message(&mut dag, 3, 0);
    Message::insert_approved_epoch(&mut dag, p, 2, HashMap::from([(0, p), (1, p)]));
    Message::insert_approved_epoch(&mut dag, q, 2, HashMap::from([(1, q)]));
    Message::insert_approved_epoch(&mut dag, r, 2, HashMap::from([(9, r)]));
    assert!(!Message::should_promote_among(&dag, c, 2, 4));
    Message::link(&mut dag, p, c);
    Message::link(&mut dag, q, c);
    // Two owners, one of them twice.
    assert!(!Message::should_promote_among(&dag, c, 2, 4));
    assert!(!Message::should_promote(&dag, c, 2, &RoundRobin::new(4)));
    assert!(Message::should_promote_among(&dag, c, 2, 2));
    Message::link(&mut dag, r, c);
    assert!(Message::should_promote_among(&dag, c, 2, 4));
    assert!(Message::should_promote(&dag, c, 2, &RoundRobin::new(4)));
    assert!(!Message::should_promote_among(&dag, c, 2, 5));
    assert!(!Message::should_promote_among(&dag, c, 3, 4));
    // More parents do not change that.
    Message::link(&mut dag, q, c);
    assert!(Message::should_promote_among(&dag, c, 2, 4));
}

#[test]
fn epoch_is_taken_from_the_data_on_request() {
    let mut dag = Dag::new();
    let selector = RoundRobin::new(4);
    let a = message(&mut dag, 2, 6);
    Message::populate_from_parents(&mut dag, a, false, 1, &selector);
    assert_eq!(dag.get(a).computed_epoch(), Some(6));
    assert_eq!(dag.get(a).approved_epochs(), &HashMap::from([(6, HashMap::from([(2, a)]))]));
    // It leads the epoch, but approves no representative of the one before.
    assert_eq!(dag.get(a).computed_is_representative(), Some(false));
    assert_eq!(dag.get(a).computed_is_kickout(), Some(true));
    assert!(dag.get(a).approved_representatives().is_empty());
    let b = message(&mut dag, 2, 6);
    Message::populate_from_parents(&mut dag, b, true, 1, &selector);
    assert_eq!(dag.get(b).computed_epoch(), Some(1));
}

#[test]
fn message_is_filed_in_its_epoch_beside_those_of_other_owners() {
    let mut dag = Dag::new();
    let a = message(&mut dag, 1, 3);
    let b = message(&mut dag, 2, 3);
    let c = message(&mut dag, 2, 3);
    Message::populate_in_epoch(&mut dag, a, 3, 0, 4);
    Message::link(&mut dag, a, b);
    Message::populate_in_epoch(&mut dag, b, 3, 0, 4);
    let expected = HashMap::from([(3, HashMap::from([(1, a), (2, b)]))]);
    assert_eq!(dag.get(b).approved_epochs(), &expected);
    assert_eq!(dag.get(b).computed_epoch(), Some(3));
    // A message of the same owner that is there already stays.
    Message::link(&mut dag, b, c);
    Message::populate_in_epoch(&mut dag, c, 3, 0, 4);
    assert_eq!(dag.get(c).approved_epochs(), &expected);
    assert_eq!(dag.get(c).computed_epoch(), Some(3));
    // An epoch without messages is no obstacle.
    let d = message(&mut dag, 5, 3);
    Message::insert_approved_epoch(&mut dag, d, 3, HashMap::new());
    Message::populate_in_epoch(&mut dag, d, 3, 0, 4);
    assert_eq!(dag.get(d).approved_epochs(), &HashMap::from([(3, HashMap::from([(5, d)]))]));
}

#[test]
fn epochs_of_an_owner_never_go_back() {
    let mut dag = Dag::new();
    let selector = RoundRobin::new(4);
    let d = message(&mut dag, 3, 10);
    Message::populate_from_parents(&mut dag, d, false, 0, &selector);
    let e = message(&mut dag, 1, 10);
    Message::link(&mut dag, d, e);
    Message::populate_from_parents(&mut dag, e, false, 0, &selector);
    let f = message(&mut dag, 1, 0);
    Message::link(&mut dag, e, f);
    assert_eq!(Message::prev_epoch(&dag, f, 0), 10);
    Message::populate_from_parents(&mut dag, f, true, 0, &selector);
    assert_eq!(dag.get(f).computed_epoch(), Some(10));
}

#[test]
fn only_the_first_message_of_the_leader_represents_the_epoch() {
    let mut dag = Dag::new();
    let selector = RoundRobin::new(4);
    let first = message(&mut dag, 0, 0);
    let second = message(&mut dag, 0, 0);
    let fork = message(&mut dag, 0, 0);
    Message::populate_from_parents(&mut dag, first, false, 0, &selector);
    Message::link(&mut dag, first, second);
    Message::populate_from_parents(&mut dag, second, false, 0, &selector);
    Message::populate_from_parents(&mut dag, fork, false, 0, &selector);
    assert_eq!(dag.get(first).computed_is_representative(), Some(true));
    assert_eq!(dag.get(first).approved_representatives(), &HashMap::from([(0, first)]));
    assert_eq!(dag.get(second).computed_is_representative(), Some(false));
    assert_eq!(dag.get(second).approved_representatives(), &HashMap::from([(0, first)]));
    // A fork does not know of the other one.
    assert_eq!(dag.get(fork).computed_is_representative(), Some(true));
}

#[test]
fn message_of_another_node_is_no_representative() {
    let mut dag = Dag::new();
    let selector = RoundRobin::new(4);
    let a = message(&mut dag, 3, 0);
    Message::populate_from_parents(&mut dag, a, false, 0, &selector);
    assert_eq!(dag.get(a).computed_is_representative(), Some(false));
    assert!(dag.get(a).approved_representatives().is_empty());
    // So the leader of the next epoch approves no representative with it.
    let b = message(&mut dag, 1, 1);
    Message::link(&mut dag, a, b);
    Message::populate_from_parents(&mut dag, b, false, 0, &selector);
    assert_eq!(dag.get(b).computed_is_representative(), Some(false));
    assert!(!Message::is_representative(&dag, b, &selector));
}

#[test]
fn representatives_form_a_chain() {
    let mut dag = Dag::new();
    let selector = RoundRobin::new(4);
    let mut chain: Vec<MessageRef> = vec![];
    for epoch in 0..6 {
        let m = message(&mut dag, epoch % 4, epoch);
        if let Some(last) = chain.last() {
            Message::link(&mut dag, *last, m);
        }
        Message::populate_from_parents(&mut dag, m, false, 0, &selector);
        chain.push(m);
        assert_eq!(dag.get(m).computed_is_representative(), Some(true));
        assert!(Message::is_representative(&dag, m, &selector));
        let approved = dag.get(m).approved_representatives();
        assert_eq!(approved.len(), chain.len());
        for (earlier, representative) in chain.iter().enumerate() {
            assert_eq!(approved[&(earlier as u64)], *representative);
        }
    }
}

#[test]
fn populating_again_changes_nothing() {
    let mut dag = Dag::new();
    let selector = RoundRobin::new(4);
    let a = message(&mut dag, 0, 0);
    let b = message(&mut dag, 1, 1);
    Message::populate_from_parents(&mut dag, a, false, 0, &selector);
    Message::link(&mut dag, a, b);
    for _ in 0..2 {
        Message::populate_from_parents(&mut dag, b, false, 0, &selector);
        let m = dag.get(b);
        assert_eq!(m.computed_epoch(), Some(1));
        assert_eq!(m.computed_is_representative(), Some(true));
        assert_eq!(m.computed_is_kickout(), Some(false));
        assert_eq!(m.approved_representatives(), &HashMap::from([(0, a), (1, b)]));
        assert_eq!(
            m.approved_epochs(),
            &HashMap::from([(0, HashMap::from([(0, a)])), (1, HashMap::from([(1, b)]))])
        );
        assert_eq!(m.parents(), &vec![a]);
    }
    // The parent is untouched.
    assert_eq!(dag.get(a).approved_representatives(), &HashMap::from([(0, a)]));
}

#[test]
fn owner_moves_on_once_the_epoch_is_over() {
    let mut dag = Dag::new();
    let selector = RoundRobin::new(4);
    let own = message(&mut dag, 3, 5);
    Message::populate_from_parents(&mut dag, own, false, 0, &selector);
    let next = message(&mut dag, 3, 0);
    Message::link(&mut dag, own, next);
    for owner in 0..2 {
        let m = message(&mut dag, owner, 5);
        Message::populate_from_parents(&mut dag, m, false, 0, &selector);
        Message::populate_from_parents(&mut dag, next, true, 0, &selector);
        assert_eq!(dag.get(next).computed_epoch(), Some(5));
        Message::link(&mut dag, m, next);
    }
    Message::populate_from_parents(&mut dag, next, true, 0, &selector);
    assert_eq!(dag.get(next).computed_epoch(), Some(6));
}

#[test]
fn leader_that_misses_the_representative_kicks_it_out() {
    let mut dag = Dag::new();
    let selector = RoundRobin::new(4);
    // Node 1 leads epoch 1.
    let first = message(&mut dag, 1, 1);
    Message::populate_from_parents(&mut dag, first, false, 0, &selector);
    assert_eq!(dag.get(first).computed_is_representative(), Some(false));
    assert_eq!(dag.get(first).computed_is_kickout(), Some(true));
    assert!(Message::is_kickout(&dag, first, &selector));
    assert!(dag.get(first).approved_representatives().is_empty());
    // Its next message is not its first one.
    let second = message(&mut dag, 1, 1);
    Message::link(&mut dag, first, second);
    Message::populate_from_parents(&mut dag, second, false, 0, &selector);
    assert_eq!(dag.get(second).computed_is_kickout(), Some(false));
    assert!(!Message::is_kickout(&dag, second, &selector));
    // Another node kicks nothing out.
    let other = message(&mut dag, 2, 1);
    Message::populate_from_parents(&mut dag, other, false, 0, &selector);
    assert_eq!(dag.get(other).computed_is_kickout(), Some(false));
    assert!(!Message::is_kickout_of(&dag, other, 1, 1, 4));
    assert!(Message::is_kickout_of(&dag, other, 1, 2, 4));
    // Nothing is before the first epoch.
    assert!(!Message::is_kickout_of(&dag, other, 0, 2, 4));
}

#[test]
fn representative_is_no_kickout() {
    let mut dag = Dag::new();
    let selector = RoundRobin::new(4);
    let a = message(&mut dag, 0, 0);
    let b = message(&mut dag, 1, 1);
    Message::populate_from_parents(&mut dag, a, false, 0, &selector);
    Message::link(&mut dag, a, b);
    Message::populate_from_parents(&mut dag, b, false, 0, &selector);
    for m in [a, b] {
        assert_eq!(dag.get(m).computed_is_representative(), Some(true));
        assert_eq!(dag.get(m).computed_is_kickout(), Some(false));
        assert!(!Message::is_kickout(&dag, m, &selector));
    }
}

/// A message of node 1 in epoch 1, which approves a kickout of epoch 0 and promises for it of the
/// given nodes.
fn kicker(dag: &mut Dag<&'static str>, promisers: &[u64]) -> MessageRef {
    let kickout = message(dag, 1, 1);
    let m = message(dag, 1, 1);
    Message::insert_approved_kickout(dag, m, 0, kickout);
    let mut promises = HashMap::new();
    for owner in promisers {
        promises.insert(*owner, message(dag, *owner, 1));
    }
    Message::insert_approved_promises(dag, m, 0, promises);
    m
}

#[test]
fn kickout_is_carried_by_more_than_two_thirds_of_promises() {
    let mut dag = Dag::new();
    let selector = RoundRobin::new(4);
    let few = kicker(&mut dag, &[1, 2]);
    let many = kicker(&mut dag, &[1, 2, 3]);
    assert!(!Message::is_representative_of(&dag, few, 1, 1, 4));
    assert!(Message::is_representative_of(&dag, few, 1, 1, 2));
    assert!(Message::is_representative_of(&dag, many, 1, 1, 4));
    assert!(!Message::is_representative_of(&dag, many, 1, 1, 5));
    assert!(!Message::is_representative_of(&dag, many, 1, 2, 4));
    assert!(!Message::is_representative_of(&dag, many, 2, 1, 4));
    Message::populate_from_parents(&mut dag, few, false, 0, &selector);
    assert_eq!(dag.get(few).computed_is_representative(), Some(false));
    assert_eq!(dag.get(few).computed_is_kickout(), Some(true));
    Message::populate_from_parents(&mut dag, many, false, 0, &selector);
    assert_eq!(dag.get(many).computed_is_representative(), Some(true));
    // The former takes the precedence.
    assert_eq!(dag.get(many).computed_is_kickout(), Some(false));
    assert_eq!(dag.get(many).approved_representatives(), &HashMap::from([(1, many)]));
    assert!(Message::is_representative(&dag, many, &selector));
    assert!(!Message::is_kickout(&dag, many, &selector));
    // It stays a representative when computed again.
    Message::populate_from_parents(&mut dag, many, false, 0, &selector);
    assert_eq!(dag.get(many).computed_is_representative(), Some(true));
}

#[test]
fn promises_carry_nothing_without_the_kickout() {
    let mut dag = Dag::new();
    let a = message(&mut dag, 1, 1);
    let promises = HashMap::from([(0, a), (1, a), (2, a), (3, a)]);
    Message::insert_approved_promises(&mut dag, a, 0, promises);
    assert!(!Message::is_representative_of(&dag, a, 1, 1, 4));
    Message::insert_approved_kickout(&mut dag, a, 0, a);
    assert!(Message::is_representative_of(&dag, a, 1, 1, 4));
    // Nor the kickout without promises.
    let b = message(&mut dag, 1, 1);
    Message::insert_approved_kickout(&mut dag, b, 0, a);
    assert!(!Message::is_representative_of(&dag, b, 1, 1, 4));
    assert!(!Message::is_representative_of(&dag, b, 1, 1, 0));
}

#[test]
fn kickout_is_approved_through_the_parents() {
    let mut dag = Dag::new();
    let selector = RoundRobin::new(4);
    let p = kicker(&mut dag, &[1, 2]);
    let q = kicker(&mut dag, &[2, 3]);
    let c = message(&mut dag, 1, 1);
    let endorsement = message(&mut dag, 6, 0);
    Message::insert_approved_endorsements(&mut dag, q, 4, HashMap::from([(6, endorsement)]));
    Message::link(&mut dag, p, c);
    Message::populate_from_parents(&mut dag, c, false, 0, &selector);
    assert_eq!(dag.get(c).computed_is_representative(), Some(false));
    Message::link(&mut dag, q, c);
    Message::aggregate_parents(&mut dag, c);
    assert_eq!(dag.get(c).approved_kickouts(), dag.get(q).approved_kickouts());
    assert_eq!(dag.get(c).approved_endorsements()[&4][&6], endorsement);
    let promises = &dag.get(c).approved_promises()[&0];
    assert_eq!(promises.len(), 3);
    assert_eq!(promises[&1], dag.get(p).approved_promises()[&0][&1]);
    assert_eq!(promises[&2], dag.get(q).approved_promises()[&0][&2]);
    // The promises of both together carry it.
    assert!(Message::is_representative(&dag, c, &selector));
    Message::populate_from_parents(&mut dag, c, false, 0, &selector);
    assert_eq!(dag.get(c).computed_is_representative(), Some(true));
}

#[test]
fn promise_is_given_where_the_representative_is_not_approved() {
    let mut dag = Dag::new();
    let selector = RoundRobin::new(4);
    let representative = message(&mut dag, 0, 0);
    Message::populate_from_parents(&mut dag, representative, false, 0, &selector);
    let m = message(&mut dag, 3, 0);
    assert!(dag.get(m).promises_for_kickouts().is_empty());
    let k0 = message(&mut dag, 1, 1);
    let k5 = message(&mut dag, 2, 6);
    Message::insert_approved_kickout(&mut dag, m, 0, k0);
    assert_eq!(dag.get(m).promises_for_kickouts(), vec![k0]);
    Message::insert_approved_kickout(&mut dag, m, 5, k5);
    let promises = dag.get(m).promises_for_kickouts();
    assert_eq!(promises.len(), 2);
    assert!(promises.contains(&k0) && promises.contains(&k5));
    // A message that is the kickout of two epochs is given one promise.
    Message::insert_approved_kickout(&mut dag, m, 7, k5);
    assert_eq!(dag.get(m).promises_for_kickouts().len(), 2);
    // With the representative of epoch 0 the promise against it is gone.
    Message::link(&mut dag, representative, m);
    Message::aggregate_parents(&mut dag, m);
    assert_eq!(dag.get(m).promises_for_kickouts(), vec![k5]);
}

#[test]
fn representative_with_its_part_endorses_itself() {
    let mut dag = Dag::new();
    let selector = RoundRobin::new(4);
    let a = message(&mut dag, 0, 0);
    assert!(dag.get(a).endorsements_for_representatives().is_empty());
    Message::populate_from_parents(&mut dag, a, false, 0, &selector);
    assert_eq!(dag.get(a).endorsements_for_representatives(), vec![a]);
    let b = message(&mut dag, 0, 0);
    dag.data_mut(b).body.endorsements.clear();
    Message::populate_from_parents(&mut dag, b, false, 0, &selector);
    assert_eq!(dag.get(b).computed_is_representative(), Some(true));
    assert!(dag.get(b).endorsements_for_representatives().is_empty());
}

#[test]
fn endorsement_takes_a_part_and_no_promise_by_the_same_node() {
    let mut dag = Dag::new();
    let selector = RoundRobin::new(4);
    let r0 = message(&mut dag, 0, 0);
    let r1 = message(&mut dag, 1, 1);
    Message::populate_from_parents(&mut dag, r0, false, 0, &selector);
    Message::link(&mut dag, r0, r1);
    Message::populate_from_parents(&mut dag, r1, false, 0, &selector);
    let m = message(&mut dag, 3, 1);
    Message::link(&mut dag, r1, m);
    Message::populate_from_parents(&mut dag, m, false, 0, &selector);
    // It holds the part for epoch 0 alone.
    assert_eq!(dag.get(m).endorsements_for_representatives(), vec![r0]);
    dag.data_mut(m).body.endorsements.push(Endorsement { epoch: 1, signature: 6 });
    dag.data_mut(m).body.endorsements.push(Endorsement { epoch: 9, signature: 6 });
    dag.data_mut(m).body.endorsements.push(Endorsement { epoch: 1, signature: 6 });
    let endorsed = dag.get(m).endorsements_for_representatives();
    assert_eq!(endorsed.len(), 2);
    assert!(endorsed.contains(&r0) && endorsed.contains(&r1));
    // A promise by another node does not matter, one by the same node does.
    Message::insert_approved_promises(&mut dag, m, 0, HashMap::from([(2, r0)]));
    assert_eq!(dag.get(m).endorsements_for_representatives().len(), 2);
    Message::insert_approved_promises(&mut dag, m, 0, HashMap::from([(3, m)]));
    assert_eq!(dag.get(m).endorsements_for_representatives(), vec![r1]);
}

#[test]
fn computed_epoch_can_be_set() {
    let mut dag = Dag::new();
    let selector = RoundRobin::new(4);
    let a = message(&mut dag, 2, 0);
    dag.set_computed_epoch(a, Some(2));
    assert_eq!(dag.get(a).computed_epoch(), Some(2));
    assert!(!Message::is_representative(&dag, a, &selector));
    assert!(Message::is_kickout(&dag, a, &selector));
    dag.set_computed_epoch(a, None);
    assert_eq!(dag.get(a).computed_epoch, None);
    assert!(dag.get(a).approved_epochs().is_empty());
}

#[test]
fn data_can_be_changed_in_place() {
    let mut dag = Dag::new();
    let a = message(&mut dag, 0, 0);
    let b = message(&mut dag, 1, 1);
    Message::link(&mut dag, a, b);
    dag.data_mut(b).body.owner_uid = 9;
    assert_eq!(dag.get(b).data().body.owner_uid, 9);
    assert_eq!(dag.get(b).parents(), &vec![a]);
    assert_eq!(dag.get(a).data().body.owner_uid, 0);
}
