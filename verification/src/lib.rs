//! Messages of the TxFlow DAG, and what a message learns from those that it approves: its epoch,
//! and whether it represents that epoch.
//!
//! A [`Dag`] owns the messages, which refer to each other by [`MessageRef`]. [`Message`] has the
//! operations: a message is added, linked to the messages that it approves, and then populated
//! from them. Module [`model`] says what each operation does, and module [`laws`] what holds of
//! them together.

pub mod laws;
mod lemmas;
pub mod maps;
mod message;
pub mod model;
mod types;
pub mod witness;

pub use maps::{EpochMap, EpochMapMap};
pub use message::{exceeds_two_thirds, Dag, Message, MessageRef};
pub use types::{Endorsement, MessageDataBody, SignedMessageData};
pub use witness::WitnessSelectorLike;
