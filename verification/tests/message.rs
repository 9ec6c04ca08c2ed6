use std::collections::{HashMap, HashSet};
use txflow::{
    Dag, Message, MessageDataBody, MessageRef, SignedMessageData, WitnessSelectorLike,
};

pub struct FakePayload {}

fn simple_message(dag: &mut Dag<FakePayload>) -> MessageRef {
    Message::new(
        dag,
        SignedMessageData {
            owner_sig: 0,
            hash: 0,
            body: MessageDataBody {
                owner_uid: 0,
                parents: vec![],
                epoch: 0,
                payload: FakePayload {},
                endorsements: vec![],
            },
        },
    )
}

#[test]
fn two_nodes() {
    let mut dag = Dag::new();
    let a = simple_message(&mut dag);
    let b = simple_message(&mut dag);
    Message::link(&mut dag, a, b);
}

#[test]
fn three_nodes() {
    let mut dag = Dag::new();
    let a = simple_message(&mut dag);
    let b = simple_message(&mut dag);
    let c = simple_message(&mut dag);
    Message::link(&mut dag, a, b);
    Message::link(&mut dag, b, c);
    Message::link(&mut dag, a, c);
}

#[test]
fn unlink() {
    let mut dag = Dag::new();
    let a = simple_message(&mut dag);
    let b = simple_message(&mut dag);
    Message::link(&mut dag, a, b);
    Message::unlink(&mut dag, a, b);
    assert!(dag.get(b).parents().is_empty());
}

#[test]
fn test_mapmap_aggregation() {
    let mut dag = Dag::new();
    let pp1 = simple_message(&mut dag);
    let pp2 = simple_message(&mut dag);
    let p1 = simple_message(&mut dag);
    let p2 = simple_message(&mut dag);
    let c = simple_message(&mut dag);
    Message::link(&mut dag, pp1, p1);
    Message::link(&mut dag, pp2, p2);
    Message::link(&mut dag, p1, c);
    Message::link(&mut dag, p2, c);
    Message::insert_approved_epoch(&mut dag, p1, 10, HashMap::from([(0, pp1)]));
    Message::insert_approved_epoch(&mut dag, p2, 11, HashMap::from([(1, pp2)]));
    Message::aggregate_parents(&mut dag, c);
    let expected: HashMap<u64, HashMap<u64, MessageRef>> = HashMap::from([
        (10, HashMap::from([(0, pp1)])),
        (11, HashMap::from([(1, pp2)])),
    ]);
    let actual = dag.get(c).approved_epochs();
    assert_eq!(actual.len(), expected.len());
    for (epoch, epoch_content) in &expected {
        assert!(actual.contains_key(epoch));
        for (uid, message) in epoch_content {
            assert_eq!(message, actual.get(epoch).unwrap().get(uid).unwrap());
        }
    }
}

struct FakeWitnessSelector {
    schedule: HashMap<u64, HashSet<u64>>,
}

impl FakeWitnessSelector {
    fn new() -> FakeWitnessSelector {
        FakeWitnessSelector {
            schedule: HashMap::from([
                (0, HashSet::from([0, 1, 2, 3])),
                (1, HashSet::from([1, 2, 3, 4])),
                (9, HashSet::from([0, 1, 2, 3])),
                (10, HashSet::from([1, 2, 3, 4])),
            ]),
        }
    }
}

impl WitnessSelectorLike for FakeWitnessSelector {
    fn epoch_witnesses(&self, epoch: u64) -> &HashSet<u64> {
        self.schedule.get(&epoch).unwrap()
    }
    fn epoch_leader(&self, epoch: u64) -> u64 {
        *self.epoch_witnesses(epoch).iter().min().unwrap()
    }
}

type FakeGraph = (Dag<FakePayload>, MessageRef, MessageRef, MessageRef, MessageRef, MessageRef);

fn simple_graph(
    epoch_a: u64, owner_a: u64,
    epoch_b: u64, owner_b: u64,
    epoch_c: u64, owner_c: u64,
    epoch_d: u64, owner_d: u64,
    starting_epoch: u64, owner_e: u64,
) -> FakeGraph {
    let selector = FakeWitnessSelector::new();
    let mut dag = Dag::new();
    let a = simple_message(&mut dag);
    let b = simple_message(&mut dag);
    let c = simple_message(&mut dag);
    let d = simple_message(&mut dag);
    let e = simple_message(&mut dag);
    for (m, epoch, owner) in [
        (a, epoch_a, owner_a),
        (b, epoch_b, owner_b),
        (c, epoch_c, owner_c),
        (d, epoch_d, owner_d),
    ] {
        let data = dag.data_mut(m);
        data.body.epoch = epoch;
        data.body.owner_uid = owner;
    }
    dag.data_mut(e).body.owner_uid = owner_e;
    for m in [a, b, c, d] {
        Message::populate_from_parents(&mut dag, m, false, starting_epoch, &selector);
        Message::link(&mut dag, m, e);
    }
    Message::populate_from_parents(&mut dag, e, true, starting_epoch, &selector);
    (dag, a, b, c, d, e)
}

#[test]
fn test_epoch_computation_no_promo() {
    let starting_epoch = 9;
    // Corner case of having messages for epoch 10 without messages for epoch 9.
    let (dag, _a, _b, _c, _d, e) =
        simple_graph(9, 0, 10, 1, 10, 2, 10, 3, starting_epoch, 0);

    assert_eq!(dag.get(e).computed_epoch.unwrap(), 9);
}

#[test]
fn test_epoch_computation_promo() {
    let starting_epoch = 9;
    let (dag, _a, _b, _c, _d, e) =
        simple_graph(9, 0, 9, 1, 9, 2, 10, 3, starting_epoch, 0);

    assert_eq!(dag.get(e).computed_epoch.unwrap(), 10);
}

#[test]
fn test_representatives_scenarios_a_b() {
    let starting_epoch = 0;
    let (dag, a, b, c, d, e) =
        simple_graph(0, 0, 0, 1, 0, 2, 1, 3, starting_epoch, 1);

    assert!(dag.get(a).computed_is_representative().unwrap());
    assert!(!dag.get(b).computed_is_representative().unwrap());
    assert!(!dag.get(c).computed_is_representative().unwrap());
    assert!(!dag.get(d).computed_is_representative().unwrap());
    assert_eq!(dag.get(e).computed_epoch.unwrap(), 1);
    assert!(dag.get(e).computed_is_representative().unwrap());
}
