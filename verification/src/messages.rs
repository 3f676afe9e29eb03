//! Messages between peers: the envelope that carries a message's type id
//! and bytes, the trait of message types, and the events that the network
//! layer reports.

use std::collections::HashMap;
use vstd::prelude::*;

verus! {

/// postcard's variable-length encoding of an unsigned integer: seven bits
/// per byte, least significant first, the top bit set on every byte but the
/// last.
pub open spec fn varint(n: nat) -> Seq<u8>
    decreases n,
{
    if n < 128 {
        seq![n as u8]
    } else {
        seq![(n % 128 + 128) as u8] + varint(n / 128)
    }
}

/// The bytes of an envelope: its type id, the length of the message, the
/// message.
pub open spec fn encode_message_infos(message_id: u32, message: Seq<u8>) -> Seq<u8> {
    varint(message_id as nat) + varint(message.len()) + message
}

/// What postcard decodes from `bytes` as a pair of a `u32` and a byte
/// vector, when it decodes anything.
pub uninterp spec fn postcard_decode_message_infos(bytes: Seq<u8>) -> Option<(u32, Seq<u8>)>;

/// `postcard::to_allocvec` on the pair (type id, message bytes).
/// Trusted: postcard writes the `u32` and the vector's length as varints and
/// then the bytes, and never fails when writing to a vector; what it writes
/// is decoded back to the same pair.
#[verifier::external_body]
fn postcard_encode_pair(message_id: u32, message: &Vec<u8>) -> (r: Option<Vec<u8>>)
    ensures
        r is Some,
        r->0@ == encode_message_infos(message_id, message@),
        postcard_decode_message_infos(r->0@) == Some((message_id, message@)),
{
    postcard::to_allocvec(&(message_id, message)).ok()
}

/// `postcard::from_bytes` for the pair (type id, message bytes).
/// Trusted: the result is postcard's decoding of `bytes`, `None` when it
/// reports an error.
#[verifier::external_body]
fn postcard_decode_pair(bytes: &[u8]) -> (r: Option<(u32, Vec<u8>)>)
    ensures
        match r {
            Some((id, m)) => postcard_decode_message_infos(bytes@) == Some((id, m@)),
            None => postcard_decode_message_infos(bytes@) is None,
        },
{
    postcard::from_bytes::<(u32, Vec<u8>)>(bytes).ok()
}

/// The envelope of every message: the id its type was registered under,
/// and the message's own bytes.
pub struct MessageInfos {
    pub message_id: u32,
    pub message: Vec<u8>,
}

impl MessageInfos {
    /// The envelope's bytes.
    pub fn to_bytes(&self) -> (r: Vec<u8>)
        ensures
            r@ == encode_message_infos(self.message_id, self.message@),
            postcard_decode_message_infos(r@) == Some((self.message_id, self.message@)),
    {
        match postcard_encode_pair(self.message_id, &self.message) {
            Some(v) => v,
            None => Vec::new(),
        }
    }

    /// Reads an envelope; `None` when the bytes are not one.
    pub fn from_bytes(bytes: &Vec<u8>) -> (r: Option<MessageInfos>)
        ensures
            match r {
                Some(m) => postcard_decode_message_infos(bytes@) == Some((m.message_id, m.message@)),
                None => postcard_decode_message_infos(bytes@) is None,
            },
    {
        match postcard_decode_pair(bytes.as_slice()) {
            Some((message_id, message)) => Some(MessageInfos { message_id, message }),
            None => None,
        }
    }
}

/// A type of message that peers exchange.
pub trait MessageTrait {
    fn deserialize(data: &[u8]) -> Self where Self: Sized;

    /// Whether the message belongs to the authentication handshake.
    fn as_authentication(&self) -> (r: bool)
        default_ensures
            !r,
    {
        false
    }
}

/// A port of a server connection came up.
pub struct ServerPortConnected {
    pub port_id: u32,
    pub connection_id: u32,
}

/// A port of a server connection went down.
pub struct ServerPortDisconnected<E> {
    pub port_id: u32,
    pub connection_id: u32,
    pub error: Option<E>,
    pub was_connected: bool,
}

/// Sessions accepted on a port, not yet authenticated.
pub struct AnonymousPeersAcceptedOnPort {
    pub port_id: u32,
    pub connection_id: u32,
    pub seasons_uuids: Vec<u128>,
}

/// Sessions a port dropped, with their peer and the reason.
pub struct PeersDroppedServer<E> {
    pub port_id: u32,
    pub connection_id: u32,
    pub peers: HashMap<u128, (Option<u128>, E)>,
}

/// A port of a client connection came up.
pub struct ClientPortConnected {
    pub port_id: u32,
    pub connection_id: u32,
}

/// A port of a client connection went down.
pub struct ClientPortDisconnected<E> {
    pub port_id: u32,
    pub connection_id: u32,
    pub error: Option<E>,
    pub was_connected: bool,
}

/// The server confirmed a port of a client connection.
pub struct ClientPortAuthenticated {
    pub port_id: u32,
    pub connection_id: u32,
}

/// A message from an authenticated peer.
pub struct MessageReceivedFromPeer<T> {
    pub message: T,
    pub peer_uuid: u128,
    pub session_uuid: u128,
    pub port_id: u32,
    pub connection_id: u32,
}

/// A message from a session that is not authenticated yet.
pub struct MessageReceivedFromAnonymousPeer<T> {
    pub message: T,
    pub session_uuid: u128,
    pub port_id: u32,
    pub connection_id: u32,
}

/// A message from the server.
pub struct MessageReceivedFromServer<T> {
    pub message: T,
    pub port_id: u32,
    pub connection_id: u32,
}

} // verus!
