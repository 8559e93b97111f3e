//! The messages that nodes exchange.
use crate::broadcast::BroadcastToken;
use crate::identity::PublicKeyBytes;
use vstd::prelude::*;

verus! {

/// A network message.
pub enum NetworkMessage {
    /// A liveness announcement, with the sender's public key.
    Alive(PublicKeyBytes),
    /// The sender (by public key) holds the payload of the token.
    Ack(PublicKeyBytes, BroadcastToken),
    /// A payload relay.
    Message(BroadcastToken, Vec<u8>),
}

} // verus!
