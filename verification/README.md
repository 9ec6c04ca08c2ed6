# txflow

Messages of the TxFlow DAG, verified with Verus.

Every message approves its parents and, through them, what they approve. From that a message
computes its epoch, whether it is a representative of the epoch or a kickout of the one before, and
which kickouts it gives a promise for and which representatives it endorses, given the witnesses and
the leader of each epoch.

- `src/message.rs`: the DAG, its messages and the operations on them
- `src/maps.rs`: the maps in which a message files what it approves
- `src/types.rs`: the signed data of a message
- `src/witness.rs`: the trait that names the witnesses and the leader of an epoch
- `src/model.rs`: the mathematical model in which the contracts are stated
- `src/laws.rs`: what holds of the operations together
- `src/lemmas.rs`: facts that the proofs need
- `tests/`: the library at work
