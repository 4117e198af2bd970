use grand_pattern_net::discovery::announcement;
use grand_pattern_net::discovery::is_announcement;
use grand_pattern_net::discovery::scan_step;
use grand_pattern_net::tcp_transport::after_header_read;
use grand_pattern_net::tcp_transport::keep_written;
use grand_pattern_net::tcp_transport::HeaderAction;
use grand_pattern_net::tcp_transport::ReadResult;
use grand_pattern_net::gossip::CellGraph;
use grand_pattern_net::gossip::GossipNode;
use grand_pattern_net::murmur::Murmur;
use grand_pattern_net::serialize::deserialize_graph_state;
use grand_pattern_net::serialize::deserialize_murmur;
use grand_pattern_net::serialize::serialize_graph_state;
use grand_pattern_net::serialize::serialize_murmur;
use grand_pattern_net::tcp_transport::frame_murmur;
use grand_pattern_net::tcp_transport::frame_payload_len;
use grand_pattern_net::tcp_transport::murmur_in_payload;

fn bytes_vibe(x: u8) -> [u8; 16] {
    let mut v = [0u8; 16];
    for i in 0..16 {
        v[i] = x.wrapping_add(i as u8);
    }
    v
}

fn same(v: &[u8; 16]) -> [u8; 16] {
    *v
}

fn same_back(b: [u8; 16]) -> [u8; 16] {
    b
}

#[test]
fn murmur_wire_layout() {
    let m = Murmur::new("room1", &bytes_vibe(10), 2, 7, 0x0102_0304);
    let mut h = m.clone();
    h.hops = 3;
    let data = serialize_murmur(&h, &same);
    assert_eq!(&data[0..16], &bytes_vibe(10)[..]);
    assert_eq!(&data[16..24], b"room1\0\0\0");
    assert_eq!(data[24], 2);
    assert_eq!(data[25], 7);
    assert_eq!(data[26], 3);
    assert_eq!(&data[27..31], &[4, 3, 2, 1]);
    assert_eq!(data[31], 0);
}

#[test]
fn murmur_roundtrip_exact() {
    let m = Murmur::new("kitchen", &bytes_vibe(200), 1, 5, 77);
    let back = deserialize_murmur(&serialize_murmur(&m, &same), &same_back).unwrap();
    assert_eq!(back.source_id, "kitchen");
    assert_eq!(back.vibe, bytes_vibe(200));
    assert_eq!(back.level, 1);
    assert_eq!(back.ttl, 5);
    assert_eq!(back.hops, 0);
    assert_eq!(back.timestamp, 77);
}

#[test]
fn murmur_long_id_is_cut() {
    let m = Murmur::new("abcdefghijk", &bytes_vibe(0), 0, 5, 1);
    let back = deserialize_murmur(&serialize_murmur(&m, &same), &same_back).unwrap();
    assert_eq!(back.source_id, "abcdefgh");
}

#[test]
fn murmur_timestamp_keeps_low_bits() {
    let m = Murmur::new("t", &bytes_vibe(0), 0, 5, (1u64 << 32) + 5);
    let back = deserialize_murmur(&serialize_murmur(&m, &same), &same_back).unwrap();
    assert_eq!(back.timestamp, 5);
}

#[test]
fn murmur_bad_utf8_reads_unknown() {
    let mut data = [0u8; 32];
    data[16] = 0xff;
    data[17] = 0xfe;
    let back = deserialize_murmur(&data, &same_back).unwrap();
    assert_eq!(back.source_id, "unknown");
}

#[test]
fn murmur_empty_id() {
    let data = [0u8; 32];
    let back = deserialize_murmur(&data, &same_back).unwrap();
    assert_eq!(back.source_id, "");
    assert_eq!(back.timestamp, 0);
}

#[test]
fn graph_state_layout() {
    let mut g = CellGraph::new();
    g.add_room("z", bytes_vibe(1));
    g.add_room("a", bytes_vibe(2));
    g.add_edge("z", "a");
    g.set_tick(0x1_0000_0007);
    let data = serialize_graph_state(&g, &same);
    assert_eq!(data.len(), 12 + 2 * 24 + 2 * 16);
    assert_eq!(&data[0..4], &[2, 0, 0, 0]);
    assert_eq!(&data[4..8], &[2, 0, 0, 0]);
    assert_eq!(&data[8..12], &[7, 0, 0, 0]);
    // rooms in id order: "a" then "z"
    assert_eq!(&data[12..20], b"a\0\0\0\0\0\0\0");
    assert_eq!(&data[20..36], &bytes_vibe(2)[..]);
    assert_eq!(&data[36..44], b"z\0\0\0\0\0\0\0");
    assert_eq!(&data[44..60], &bytes_vibe(1)[..]);
    // edges: from "a" to "z", then from "z" to "a"
    assert_eq!(&data[60..68], b"a\0\0\0\0\0\0\0");
    assert_eq!(&data[68..76], b"z\0\0\0\0\0\0\0");
    assert_eq!(&data[76..84], b"z\0\0\0\0\0\0\0");
    assert_eq!(&data[84..92], b"a\0\0\0\0\0\0\0");
}

#[test]
fn graph_state_neighbours_sorted() {
    let mut g = CellGraph::new();
    g.add_room("m", bytes_vibe(0));
    g.add_edge("m", "y");
    g.add_edge("m", "b");
    let data = serialize_graph_state(&g, &same);
    assert_eq!(&data[4..8], &[4, 0, 0, 0]);
    let edges = &data[12 + 24..];
    // keys in order "b", "m", "y"; the neighbours of "m" are "b" then "y"
    assert_eq!(&edges[0..16], b"b\0\0\0\0\0\0\0m\0\0\0\0\0\0\0");
    assert_eq!(&edges[16..32], b"m\0\0\0\0\0\0\0b\0\0\0\0\0\0\0");
    assert_eq!(&edges[32..48], b"m\0\0\0\0\0\0\0y\0\0\0\0\0\0\0");
    assert_eq!(&edges[48..64], b"y\0\0\0\0\0\0\0m\0\0\0\0\0\0\0");
}

#[test]
fn graph_state_roundtrip_keeps_vibes() {
    let mut g = CellGraph::new();
    g.add_room("alpha", bytes_vibe(30));
    g.add_room("beta", bytes_vibe(90));
    g.set_tick(12);
    let back = deserialize_graph_state(&serialize_graph_state(&g, &same), &same_back);
    assert_eq!(back.current_tick(), 12);
    assert_eq!(back.get_room("alpha").unwrap().vibe, bytes_vibe(30));
    assert_eq!(back.get_room("beta").unwrap().vibe, bytes_vibe(90));
    assert!(back.get_room("alpha").unwrap().perceptions.is_empty());
}

#[test]
fn graph_state_short_input_is_empty() {
    let g = deserialize_graph_state(&[1, 2, 3], &same_back);
    assert_eq!(g.room_count(), 0);
    assert_eq!(g.current_tick(), 0);
    assert!(g.edges().is_empty());
}

#[test]
fn graph_state_missing_records_are_skipped() {
    let mut data = vec![5, 0, 0, 0, 3, 0, 0, 0, 9, 0, 0, 0];
    data.extend_from_slice(b"only\0\0\0\0");
    data.extend_from_slice(&bytes_vibe(4));
    data.extend_from_slice(&[1, 2, 3]);
    let g = deserialize_graph_state(&data, &same_back);
    assert_eq!(g.room_count(), 1);
    assert_eq!(g.current_tick(), 9);
    assert!(g.contains_room("only"));
    assert_eq!(g.edges().len(), 1);
    assert!(g.edges()[0].neighbors.is_empty());
}

#[test]
fn graph_state_bad_id_reads_question_mark() {
    let mut data = vec![1, 0, 0, 0, 0, 0, 0, 0, 0, 0, 0, 0];
    data.extend_from_slice(&[0xc3, 0x28, 0, 0, 0, 0, 0, 0]);
    data.extend_from_slice(&bytes_vibe(4));
    let g = deserialize_graph_state(&data, &same_back);
    assert!(g.contains_room("?"));
}

#[test]
fn graph_state_edges_connect_both_ways() {
    let mut data = vec![0, 0, 0, 0, 1, 0, 0, 0, 0, 0, 0, 0];
    data.extend_from_slice(b"a\0\0\0\0\0\0\0b\0\0\0\0\0\0\0");
    let g = deserialize_graph_state(&data, &same_back);
    assert_eq!(g.room_count(), 0);
    assert_eq!(g.edges().len(), 2);
    assert_eq!(g.edges()[0].room_id, "a");
    assert_eq!(g.edges()[0].neighbors, vec!["b".to_string()]);
    assert_eq!(g.edges()[1].room_id, "b");
    assert_eq!(g.edges()[1].neighbors, vec!["a".to_string()]);
}

#[test]
fn frame_carries_murmur() {
    let m = Murmur::new("x", &bytes_vibe(3), 0, 5, 4);
    let payload = serialize_murmur(&m, &same);
    let frame = frame_murmur(&payload);
    assert_eq!(frame.len(), 34);
    assert_eq!(&frame[0..2], &[0, 32]);
    assert_eq!(frame_payload_len(frame[0], frame[1]), Some(32));
    let back = murmur_in_payload(&frame[2..], &same_back).unwrap();
    assert_eq!(back.source_id, "x");
    assert_eq!(back.timestamp, 4);
}

#[test]
fn frame_length_limits() {
    assert_eq!(frame_payload_len(0, 254), Some(254));
    assert_eq!(frame_payload_len(0, 255), None);
    assert_eq!(frame_payload_len(1, 0), None);
    assert!(murmur_in_payload(&[0u8; 31], &same_back).is_none());
    assert!(murmur_in_payload(&[0u8; 40], &same_back).is_some());
}

#[test]
fn announcement_format() {
    let msg = announcement(42);
    assert_eq!(msg, vec![b'G', b'P', b'A', b'N', 42, 0, 0, 0, 0, 0, 0, 0]);
    assert!(is_announcement(&msg, msg.len()));
    assert!(!is_announcement(&msg, 11));
    assert!(!is_announcement(b"GPDS00000000", 12));
    let big = announcement(0x0102_0304_0506_0708);
    assert_eq!(&big[4..], &[8, 7, 6, 5, 4, 3, 2, 1]);
}

#[test]
fn datagrams_are_taken_once() {
    let mut node: GossipNode<[u8; 16]> = GossipNode::new(0, 0);
    let m = Murmur::new("peer", &bytes_vibe(5), 0, 5, 3);
    let mut dgram = serialize_murmur(&m, &same).to_vec();
    dgram.extend_from_slice(&[9, 9, 9]);
    let first = node.accept_datagram(&dgram, &same_back);
    assert_eq!(first.unwrap().source_id, "peer");
    assert!(node.accept_datagram(&dgram, &same_back).is_none());
    assert_eq!(node.seen_count(), 1);
    assert!(node.accept_datagram(&dgram[..31], &same_back).is_none());
    assert_eq!(node.seen_count(), 1);
    let later = Murmur::new("peer", &bytes_vibe(5), 0, 5, 4);
    assert!(node.accept_datagram(&serialize_murmur(&later, &same), &same_back).is_some());
    assert_eq!(node.seen_count(), 2);
}

#[test]
fn graph_state_ignores_insertion_order() {
    let mut g1 = CellGraph::new();
    g1.add_room("z", bytes_vibe(1));
    g1.add_room("a", bytes_vibe(2));
    g1.add_edge("z", "a");
    g1.add_edge("z", "m");
    g1.set_tick(42);
    let mut g2 = CellGraph::new();
    g2.add_edge("m", "z");
    g2.add_room("a", bytes_vibe(2));
    g2.add_edge("a", "z");
    g2.add_room("z", bytes_vibe(1));
    g2.set_tick(42);
    let d1 = serialize_graph_state(&g1, &same);
    assert_eq!(d1, serialize_graph_state(&g1, &same));
    assert_eq!(d1, serialize_graph_state(&g2, &same));
}

#[test]
fn header_read_decisions() {
    assert!(after_header_read(ReadResult::Bytes(2), 0, 32) == HeaderAction::ReadPayload(32));
    assert!(after_header_read(ReadResult::Bytes(2), 0, 255) == HeaderAction::Keep);
    assert!(after_header_read(ReadResult::Bytes(1), 0, 32) == HeaderAction::Keep);
    assert!(after_header_read(ReadResult::Bytes(0), 0, 32) == HeaderAction::Close);
    assert!(after_header_read(ReadResult::WouldBlock, 0, 32) == HeaderAction::Keep);
    assert!(after_header_read(ReadResult::Failed, 0, 32) == HeaderAction::Close);
}

#[test]
fn written_connections_are_kept() {
    let (kept, n) = keep_written(vec!['a', 'b', 'c', 'd'], &vec![true, false, true, false]);
    assert_eq!(kept, vec!['a', 'c']);
    assert_eq!(n, 2);
    let (none, zero) = keep_written(Vec::<u8>::new(), &vec![]);
    assert!(none.is_empty());
    assert_eq!(zero, 0);
}

#[test]
fn discovery_scan_steps() {
    let msg = announcement(7);
    let s = scan_step(0, Some(12), &msg);
    assert!(s.accept && s.go_on);
    let s = scan_step(9, Some(12), &msg);
    assert!(s.accept && !s.go_on);
    let s = scan_step(3, Some(11), &msg);
    assert!(!s.accept && s.go_on);
    let s = scan_step(3, None, &msg);
    assert!(!s.accept && !s.go_on);
}

#[test]
fn framed_murmur_reads_back() {
    let m = Murmur::new("hall", &bytes_vibe(8), 2, 4, 99);
    let frame = frame_murmur(&serialize_murmur(&m, &same));
    let len = frame_payload_len(frame[0], frame[1]).unwrap();
    assert_eq!(len, 32);
    let back = murmur_in_payload(&frame[2..2 + len], &same_back).unwrap();
    assert_eq!(back.source_id, "hall");
    assert_eq!(back.vibe, bytes_vibe(8));
    assert_eq!((back.level, back.ttl, back.hops, back.timestamp), (2, 4, 0, 99));
}

#[test]
fn node_getters() {
    let mut node: GossipNode<[u8; 16]> = GossipNode::new(4, 7000);
    assert_eq!(node.id(), 4);
    assert_eq!(node.port(), 7000);
    node.graph_mut().add_room("k", bytes_vibe(0));
    assert!(node.graph().contains_room("k"));
    assert!(node.peers().is_empty());
}
