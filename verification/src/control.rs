use vstd::prelude::*;

use crate::json::{
    json_object_with_str, json_str_at, json_u64_at, spec_json_parses, spec_json_str_at,
    spec_json_u64_at,
};
use crate::packet::{handshake_packet, handshake_packet_spec, lemma_handshake_packet_layout};

verus! {

/// The kinds of control message the relay sends over the control connection.
#[derive(PartialEq, Eq, Structural)]
pub enum ControlKind {
    /// A peer joined: open a stream for it.
    Connect,
    /// A peer left.
    Disconnect,
    /// Anything else, which is ignored.
    Other,
}

/// The fields of a control message that the client reads: its `type`, when
/// that is a string, and its `id`, when that is an unsigned integer.
pub struct ControlMessage {
    pub kind: Option<String>,
    pub peer_id: Option<u64>,
}

/// What a control message with the given `type` field asks for.
pub open spec fn control_kind_spec(kind: Option<Seq<char>>) -> ControlKind {
    match kind {
        Some(k) => if k == "connect"@ {
            ControlKind::Connect
        } else if k == "disconnect"@ {
            ControlKind::Disconnect
        } else {
            ControlKind::Other
        },
        None => ControlKind::Other,
    }
}

/// A peer's stream id: the low byte of the id the relay announced.
pub open spec fn peer_stream_id_spec(peer_id: u64) -> u8 {
    (peer_id % 256) as u8
}

/// The low byte of a peer id announced by the relay.
pub fn peer_stream_id(peer_id: u64) -> (id: u8)
    ensures
        id == peer_stream_id_spec(peer_id),
{
    let low = peer_id % 256;
    low as u8
}

impl ControlMessage {
    /// The `type` field, seen as characters.
    pub open spec fn kind_view(&self) -> Option<Seq<char>> {
        match self.kind {
            Some(k) => Some(k@),
            None => None,
        }
    }

    /// Decodes a control message received from the relay: a JSON document
    /// whose `"type"` field names the kind and whose `"id"` field names a
    /// peer. `None` when the bytes are not JSON.
    pub fn parse(bytes: &[u8]) -> (msg: Option<ControlMessage>)
        ensures
            msg is Some == spec_json_parses(bytes@),
            msg matches Some(m) ==> m.kind_view() == spec_json_str_at(bytes@, "type"@)
                && m.peer_id == spec_json_u64_at(bytes@, "id"@),
    {
        let kind = json_str_at(bytes, "type");
        let peer_id = json_u64_at(bytes, "id");
        match (kind, peer_id) {
            (Some(kind), Some(peer_id)) => Some(ControlMessage { kind, peer_id }),
            _ => None,
        }
    }

    /// What this message asks for: `Connect` for type "connect",
    /// `Disconnect` for type "disconnect", `Other` for any other or missing
    /// type.
    pub fn kind(&self) -> (kind: ControlKind)
        ensures
            kind == control_kind_spec(self.kind_view()),
    {
        match &self.kind {
            Some(k) => {
                let connect = "connect".to_owned();
                let disconnect = "disconnect".to_owned();
                if *k == connect {
                    ControlKind::Connect
                } else if *k == disconnect {
                    ControlKind::Disconnect
                } else {
                    ControlKind::Other
                }
            },
            None => ControlKind::Other,
        }
    }

    /// The stream id of the peer a message names: the low byte of its `id`,
    /// or `None` when the message carries no unsigned `id`.
    pub fn peer(&self) -> (peer: Option<u8>)
        ensures
            peer == (match self.peer_id {
                Some(p) => Some(peer_stream_id_spec(p)),
                None => None::<u8>,
            }),
    {
        match self.peer_id {
            Some(p) => Some(peer_stream_id(p)),
            None => None,
        }
    }
}

/// The heartbeat the client sends on the control connection: the JSON object
/// whose `"type"` is `"hb"`.
pub fn heartbeat() -> (bytes: Vec<u8>)
    ensures
        spec_json_parses(bytes@),
        spec_json_str_at(bytes@, "type"@) == Some("hb"@),
{
    json_object_with_str("type", "hb")
}

/// What the client does when a peer joins: the handshake datagram that
/// introduces it to the peer's stream, and the id under which the stream is
/// opened, which is the client's own id.
pub struct Connection {
    pub handshake: Vec<u8>,
    pub stream_id: u8,
}

/// The response to a "connect" message naming peer `peer_id`, for a client
/// whose own id is `own_id`.
pub fn connect_to(own_id: u8, peer_id: u64) -> (c: Connection)
    ensures
        c.handshake@ == handshake_packet_spec(own_id, peer_stream_id_spec(peer_id)),
        c.stream_id == own_id,
{
    let peer = peer_stream_id(peer_id);
    Connection { handshake: handshake_packet(own_id, peer), stream_id: own_id }
}

/// A peer's stream id is its announced id cut to a byte (`as u8`): an id
/// below 256 is kept as it is, and ids that differ by 256 share a stream id.
pub proof fn lemma_peer_stream_id(peer_id: u64)
    ensures
        peer_stream_id_spec(peer_id) == peer_id as u8,
        peer_id < 256 ==> peer_stream_id_spec(peer_id) == peer_id,
        peer_id >= 256 ==> peer_stream_id_spec(peer_id) == peer_stream_id_spec(
            (peer_id - 256) as u64,
        ),
{
    assert((peer_id % 256) as u8 == peer_id as u8) by (bit_vector);
    if peer_id >= 256 {
        let q = (peer_id - 256) as u64;
        assert((q % 256) as u8 == q as u8) by (bit_vector);
        assert(q as u8 == peer_id as u8) by (bit_vector)
            requires
                peer_id >= 256,
                q == peer_id - 256,
        ;
    }
}

/// The handshake sent when peer `peer_id` joins is exactly
/// `[0, own_id, peer_id as u8]`.
pub proof fn lemma_connect_handshake(own_id: u8, peer_id: u64)
    ensures
        handshake_packet_spec(own_id, peer_stream_id_spec(peer_id)) == seq![
            0u8,
            own_id,
            peer_id as u8,
        ],
{
    lemma_peer_stream_id(peer_id);
    lemma_handshake_packet_layout(own_id, peer_stream_id_spec(peer_id));
    assert(handshake_packet_spec(own_id, peer_stream_id_spec(peer_id)) =~= seq![
        0u8,
        own_id,
        peer_id as u8,
    ]);
}

} // verus!
