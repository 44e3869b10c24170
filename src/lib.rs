//! NeoBFT: Byzantine-fault-tolerant state-machine replication whose total
//! order comes from an in-network sequencer.
//!
//! The sequencer numbers and authenticates client requests, replicas check
//! the authentication, commit in sequence order and reply, and clients wait
//! for a quorum of replies.
pub mod app;
pub mod client;
mod crypto;
pub mod message;
pub mod node;
pub mod packet;
pub mod protocol;
pub mod replica;
pub mod rx;
pub mod seq;
pub mod unreplicated;
pub mod wire;

pub use crate::app::App;
pub use crate::client::Client;
pub use crate::message::{Message, Multicast, MulticastCrypto, NetAddr, NodeAddr, Reply, Request};
pub use crate::node::{NodeEffect, NodeEvent};
pub use crate::protocol::Protocol;
pub use crate::replica::Replica;
pub use crate::seq::Sequencer;
