use vstd::prelude::*;

verus! {

/// First byte of a datagram that carries one encoded audio frame.
pub const AUDIO_TAG: u8 = 1;

/// First byte of the datagram that introduces this client to a peer's stream.
pub const HANDSHAKE_TAG: u8 = 0;

/// Bytes of an outgoing audio datagram: the audio tag, the sender's id, then
/// the encoded frame.
pub open spec fn audio_packet_spec(own_id: u8, encoded: Seq<u8>) -> Seq<u8> {
    seq![AUDIO_TAG, own_id] + encoded
}

/// Bytes of the handshake datagram: the handshake tag, this client's id and
/// the id of the peer that just joined.
pub open spec fn handshake_packet_spec(own_id: u8, peer_id: u8) -> Seq<u8> {
    seq![HANDSHAKE_TAG, own_id, peer_id]
}

/// Frames one encoded audio frame for the relay: the tag and the sender's id
/// are put in front of the encoded bytes.
pub fn audio_packet(own_id: u8, encoded: Vec<u8>) -> (packet: Vec<u8>)
    requires
        encoded.len() + 2 <= usize::MAX,
    ensures
        packet@ == audio_packet_spec(own_id, encoded@),
{
    let mut packet = encoded;
    packet.insert(0, AUDIO_TAG);
    packet.insert(1, own_id);
    assert(packet@ =~= audio_packet_spec(own_id, encoded@));
    packet
}

/// The handshake datagram that tells the relay which peer this client now
/// listens to.
pub fn handshake_packet(own_id: u8, peer_id: u8) -> (packet: Vec<u8>)
    ensures
        packet@ == handshake_packet_spec(own_id, peer_id),
{
    let mut packet: Vec<u8> = Vec::with_capacity(3);
    packet.push(HANDSHAKE_TAG);
    packet.push(own_id);
    packet.push(peer_id);
    assert(packet@ =~= handshake_packet_spec(own_id, peer_id));
    packet
}

/// Splits a datagram received from the relay into the id of the peer that
/// spoke (its first byte) and the encoded frame (the rest of the `received`
/// bytes that the socket wrote into `buf`).
pub fn split_inbound(buf: &[u8], received: usize) -> (parts: (u8, Vec<u8>))
    requires
        1 <= received <= buf@.len(),
    ensures
        parts.0 == buf@[0],
        parts.1@ == buf@.subrange(1, received as int),
{
    let id = buf[0];
    let mut payload: Vec<u8> = Vec::with_capacity(received - 1);
    let mut i: usize = 1;
    while i < received
        invariant
            1 <= i <= received <= buf@.len(),
            payload@ == buf@.subrange(1, i as int),
        decreases received - i,
    {
        payload.push(buf[i]);
        i = i + 1;
        assert(payload@ =~= buf@.subrange(1, i as int));
    }
    (id, payload)
}

/// An audio datagram is tag 1, then the sender's id, then every byte of the
/// encoded frame, whatever its length.
pub proof fn lemma_audio_packet_layout(own_id: u8, encoded: Seq<u8>)
    ensures
        audio_packet_spec(own_id, encoded).len() == encoded.len() + 2,
        audio_packet_spec(own_id, encoded)[0] == 1,
        audio_packet_spec(own_id, encoded)[1] == own_id,
        audio_packet_spec(own_id, encoded).skip(2) == encoded,
        forall|i: int|
            0 <= i < encoded.len() ==> #[trigger] audio_packet_spec(own_id, encoded)[i + 2]
                == encoded[i],
{
    assert(audio_packet_spec(own_id, encoded).skip(2) =~= encoded);
}

/// A handshake datagram is exactly three bytes: tag 0, this client's id and
/// the peer's id, each as given.
pub proof fn lemma_handshake_packet_layout(own_id: u8, peer_id: u8)
    ensures
        handshake_packet_spec(own_id, peer_id).len() == 3,
        handshake_packet_spec(own_id, peer_id)[0] == 0,
        handshake_packet_spec(own_id, peer_id)[1] == own_id,
        handshake_packet_spec(own_id, peer_id)[2] == peer_id,
{
}

} // verus!
