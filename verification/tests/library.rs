use proxchat::buffers::{mix_plan, StreamBuffers, DECODED_CHANNELS};
use proxchat::chunks::take_full_chunks;
use proxchat::control::{connect_to, heartbeat, peer_stream_id, ControlKind, ControlMessage};
use proxchat::json::{json_object_with_str, json_str_at, json_u64_at};
use proxchat::packet::{audio_packet, handshake_packet, split_inbound, AUDIO_TAG, HANDSHAKE_TAG};
use proxchat::retry::{ReplyStep, SendRetry, REPORT_AFTER};

#[test]
fn audio_packet_puts_tag_and_id_in_front() {
    let p = audio_packet(7, vec![0xAA, 0xBB, 0xCC]);
    assert_eq!(p, vec![AUDIO_TAG, 7, 0xAA, 0xBB, 0xCC]);
    assert_eq!(audio_packet(3, vec![]), vec![1, 3]);
}

#[test]
fn handshake_packet_names_both_ids() {
    assert_eq!(handshake_packet(4, 9), vec![HANDSHAKE_TAG, 4, 9]);
    assert_eq!(handshake_packet(4, 9), vec![0, 4, 9]);
}

#[test]
fn split_inbound_reads_only_received_bytes() {
    let mut buf = [0u8; 1500];
    buf[0] = 12;
    buf[1] = 1;
    buf[2] = 2;
    buf[3] = 3;
    buf[4] = 99;
    let (id, payload) = split_inbound(&buf, 4);
    assert_eq!(id, 12);
    assert_eq!(payload, vec![1, 2, 3]);
}

#[test]
fn split_inbound_of_header_only_datagram() {
    let buf = [5u8, 6, 7];
    let (id, payload) = split_inbound(&buf, 1);
    assert_eq!(id, 5);
    assert!(payload.is_empty());
}

#[test]
fn take_full_chunks_leaves_the_tail() {
    let mut q: Vec<u32> = (1..=7).collect();
    let chunks = take_full_chunks(&mut q, 3);
    assert_eq!(chunks, vec![vec![1, 2, 3], vec![4, 5, 6]]);
    assert_eq!(q, vec![7]);
}

#[test]
fn take_full_chunks_of_short_queue_takes_nothing() {
    let mut q: Vec<u32> = vec![1, 2];
    let chunks = take_full_chunks(&mut q, 480);
    assert!(chunks.is_empty());
    assert_eq!(q, vec![1, 2]);
}

#[test]
fn take_full_chunks_of_exact_multiple_empties_queue() {
    let mut q: Vec<u32> = (0..960).collect();
    let chunks = take_full_chunks(&mut q, 480);
    assert_eq!(chunks.len(), 2);
    assert!(q.is_empty());
    assert_eq!(chunks[1][0], 480);
}

#[test]
fn chunks_and_tail_reassemble_the_queue() {
    let original: Vec<u32> = (0..1001).map(|x| x * 3 + 1).collect();
    let mut q = original.clone();
    let chunks = take_full_chunks(&mut q, 128);
    assert!(chunks.iter().all(|c| c.len() == 128));
    assert!(q.len() < 128);
    let mut whole: Vec<u32> = chunks.into_iter().flatten().collect();
    whole.extend(q);
    assert_eq!(whole, original);
}

#[test]
fn push_decoded_queues_both_channels_of_each_frame() {
    let mut b: StreamBuffers<f32> = StreamBuffers::new();
    b.open_stream(2);
    let decoded = [0.5f32; 960];
    assert!(b.push_decoded(2, &decoded, 240));
    assert_eq!(b.queued(2), Some(240 * DECODED_CHANNELS));
    assert!(b.push_decoded(2, &decoded, 480));
    assert_eq!(b.queued(2), Some(480 + 960));
}

#[test]
fn push_decoded_for_unknown_peer_is_dropped() {
    let mut b: StreamBuffers<u32> = StreamBuffers::new();
    b.open_stream(1);
    assert!(!b.push_decoded(9, &[1, 2, 3, 4], 2));
    assert!(!b.is_open(9));
    assert_eq!(b.queued(9), None);
    assert_eq!(b.queued(1), Some(0));
}

#[test]
fn open_stream_resets_a_queue() {
    let mut b: StreamBuffers<u32> = StreamBuffers::new();
    b.open_stream(4);
    assert!(b.append(4, vec![1, 2, 3]));
    assert_eq!(b.queued(4), Some(3));
    b.open_stream(4);
    assert_eq!(b.queued(4), Some(0));
}

#[test]
fn append_to_closed_stream_is_dropped() {
    let mut b: StreamBuffers<u32> = StreamBuffers::new();
    assert!(!b.append(4, vec![1, 2, 3]));
    assert_eq!(b.queued(4), None);
}

#[test]
fn take_chunks_of_a_stream() {
    let mut b: StreamBuffers<u32> = StreamBuffers::new();
    b.open_stream(1);
    b.append(1, (0..10).collect());
    let chunks = b.take_chunks(1, 4).unwrap();
    assert_eq!(chunks, vec![vec![0, 1, 2, 3], vec![4, 5, 6, 7]]);
    assert_eq!(b.queued(1), Some(2));
    assert!(b.take_chunks(2, 4).is_none());
}

#[test]
fn drain_for_output_takes_a_block_from_each_stream_in_id_order() {
    let mut b: StreamBuffers<u32> = StreamBuffers::new();
    b.open_stream(200);
    b.open_stream(3);
    b.open_stream(50);
    b.append(200, vec![1, 2, 3, 4, 5]);
    b.append(3, vec![10, 20]);
    let shares = b.drain_for_output(3);
    assert_eq!(
        shares,
        vec![(3, vec![10, 20]), (50, vec![]), (200, vec![1, 2, 3])]
    );
    assert_eq!(b.queued(200), Some(2));
    assert_eq!(b.queued(3), Some(0));
    assert_eq!(b.queued(50), Some(0));
}

#[test]
fn mix_plan_gathers_the_samples_of_each_output_slot() {
    let shares: Vec<(u8, Vec<u32>)> = vec![(3, vec![10, 20]), (50, vec![]), (200, vec![1, 2, 3])];
    let columns = mix_plan(&shares, 4);
    assert_eq!(columns, vec![vec![10, 1], vec![20, 2], vec![3], vec![]]);
}

#[test]
fn drained_samples_are_mixed_exactly_once() {
    let mut b: StreamBuffers<u32> = StreamBuffers::new();
    for id in [1u8, 2, 3] {
        b.open_stream(id);
        b.append(id, (0..(id as u32 * 4)).collect());
    }
    let shares = b.drain_for_output(6);
    let taken: usize = shares.iter().map(|s| s.1.len()).sum();
    let columns = mix_plan(&shares, 6);
    let mixed: usize = columns.iter().map(|c| c.len()).sum();
    assert_eq!(taken, 4 + 6 + 6);
    assert_eq!(mixed, taken);
}

#[test]
fn control_kinds() {
    let msg = |k: Option<&str>| ControlMessage { kind: k.map(|s| s.to_string()), peer_id: None };
    assert!(msg(Some("connect")).kind() == ControlKind::Connect);
    assert!(msg(Some("disconnect")).kind() == ControlKind::Disconnect);
    assert!(msg(Some("hb")).kind() == ControlKind::Other);
    assert!(msg(Some("Connect")).kind() == ControlKind::Other);
    assert!(msg(None).kind() == ControlKind::Other);
}

#[test]
fn peer_id_keeps_its_low_byte() {
    assert_eq!(peer_stream_id(7), 7);
    assert_eq!(peer_stream_id(300), 44);
    let m = ControlMessage { kind: Some("connect".to_string()), peer_id: Some(256) };
    assert_eq!(m.peer(), Some(0));
    let m = ControlMessage { kind: Some("connect".to_string()), peer_id: None };
    assert_eq!(m.peer(), None);
}

#[test]
fn connect_sends_handshake_and_opens_own_stream() {
    let c = connect_to(5, 258);
    assert_eq!(c.handshake, vec![0, 5, 2]);
    assert_eq!(c.stream_id, 5);
}

#[test]
fn retry_reports_from_the_fifth_missing_answer() {
    let mut r = SendRetry::new();
    for n in 1..=7 {
        match r.on_reply(false) {
            ReplyStep::Resend { report_failure } => assert_eq!(report_failure, n >= REPORT_AFTER),
            ReplyStep::Delivered => panic!("no answer came"),
        }
        assert_eq!(r.attempts, n);
    }
    assert!(matches!(r.on_reply(true), ReplyStep::Delivered));
    assert_eq!(r.attempts, 7);
}

#[test]
fn retry_delivered_at_once() {
    let mut r = SendRetry::new();
    assert!(matches!(r.on_reply(true), ReplyStep::Delivered));
    assert_eq!(r.attempts, 0);
}

#[test]
fn parse_connect_message() {
    let m = ControlMessage::parse(br#"{"type":"connect","id":300}"#).unwrap();
    assert!(m.kind() == ControlKind::Connect);
    assert_eq!(m.kind, Some("connect".to_string()));
    assert_eq!(m.peer_id, Some(300));
    assert_eq!(m.peer(), Some(44));
}

#[test]
fn parse_message_with_odd_fields() {
    let m = ControlMessage::parse(br#"{"type":5,"id":-1}"#).unwrap();
    assert_eq!(m.kind, None);
    assert_eq!(m.peer_id, None);
    assert!(m.kind() == ControlKind::Other);
    let m = ControlMessage::parse(br#"[1,2]"#).unwrap();
    assert_eq!(m.kind, None);
    assert_eq!(m.peer_id, None);
}

#[test]
fn parse_rejects_non_json() {
    assert!(ControlMessage::parse(b"{\"type\":").is_none());
    assert!(ControlMessage::parse(b"").is_none());
}

#[test]
fn json_field_readers() {
    let doc = br#"{"type":"disconnect","id":7}"#;
    assert_eq!(json_str_at(doc, "type"), Some(Some("disconnect".to_string())));
    assert_eq!(json_str_at(doc, "id"), Some(None));
    assert_eq!(json_u64_at(doc, "id"), Some(Some(7)));
    assert_eq!(json_u64_at(doc, "missing"), Some(None));
    assert_eq!(json_u64_at(b"nope", "id"), None);
}

#[test]
fn heartbeat_bytes() {
    let hb = heartbeat();
    assert_eq!(hb, br#"{"type":"hb"}"#.to_vec());
    let m = ControlMessage::parse(&hb).unwrap();
    assert_eq!(m.kind, Some("hb".to_string()));
    assert!(m.kind() == ControlKind::Other);
}

#[test]
fn json_object_reads_back() {
    let bytes = json_object_with_str("k\"ey", "va\\lue");
    assert_eq!(json_str_at(&bytes, "k\"ey"), Some(Some("va\\lue".to_string())));
}

#[test]
fn oversized_frame_for_unknown_peer_is_dropped() {
    let mut b: StreamBuffers<u32> = StreamBuffers::new();
    assert!(!b.push_decoded(8, &[1, 2], 5));
    assert_eq!(b.queued(8), None);
}

#[test]
fn take_chunks_leaves_length_modulo_chunk() {
    let mut b: StreamBuffers<u32> = StreamBuffers::new();
    b.open_stream(6);
    b.append(6, (0..1003).collect());
    let chunks = b.take_chunks(6, 480).unwrap();
    assert_eq!(chunks.len(), 2);
    assert_eq!(b.queued(6), Some(1003 % 480));
}
