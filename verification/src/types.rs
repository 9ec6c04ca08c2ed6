//! What the owner of a message puts into it and signs.

use vstd::prelude::*;

verus! {

/// The part of the BLS signature by which the owner of a message endorses the representative
/// message of an epoch.
#[derive(Clone, Copy, Debug, PartialEq, Eq, Structural)]
pub struct Endorsement {
    /// The epoch whose representative is endorsed.
    pub epoch: u64,
    /// The owner's share of the signature.
    pub signature: u128,
}

/// The signed part of a message; `P` is the payload.
#[derive(Debug)]
pub struct MessageDataBody<P> {
    /// The node that created the message.
    pub owner_uid: u64,
    /// Hashes of the messages that this one approves directly.
    pub parents: Vec<u64>,
    /// The epoch that the owner claims for the message.
    pub epoch: u64,
    pub payload: P,
    /// The representatives that the owner endorses with this message.
    pub endorsements: Vec<Endorsement>,
}

/// A message body with its hash and the owner's signature of that hash.
#[derive(Debug)]
pub struct SignedMessageData<P> {
    pub owner_sig: u128,
    pub hash: u64,
    pub body: MessageDataBody<P>,
}

} // verus!
