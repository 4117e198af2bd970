use grand_pattern_net::coord::coordinate_tick;
use grand_pattern_net::discovery::mock_discover_peers;
use grand_pattern_net::discovery::PeerAddr;
use grand_pattern_net::gossip::CellGraph;
use grand_pattern_net::gossip::GossipNode;
use grand_pattern_net::murmur::Murmur;
use grand_pattern_net::room::Room;
use grand_pattern_net::serialize::deserialize_graph_state;
use grand_pattern_net::serialize::deserialize_murmur;
use grand_pattern_net::serialize::serialize_graph_state;
use grand_pattern_net::serialize::serialize_murmur;

/// The vibe the tests work with: 16 dimensions in [0, 1].
type Vibe = [f64; 16];

fn make_test_vibe(val: f64) -> Vibe {
    let mut dims = [0.5f64; 16];
    dims[0] = val;
    dims[1] = 1.0 - val;
    dims
}

/// Blending a peer's vibe into a room's, 30% of the way.
fn blend(a: &Vibe, b: &Vibe) -> Vibe {
    let r = 0.3f64;
    let mut dims = [0.0; 16];
    for i in 0..16 {
        dims[i] = a[i] * (1.0 - r) + b[i] * r;
    }
    dims
}

fn diffuse_half(v: &Vibe, neighbors: &Vec<Vibe>) -> Vibe {
    if neighbors.is_empty() {
        return *v;
    }
    let n = neighbors.len() as f64;
    let mut avg = [0.0; 16];
    for nb in neighbors {
        for i in 0..16 {
            avg[i] += nb[i] / n;
        }
    }
    let mut dims = [0.0; 16];
    for i in 0..16 {
        dims[i] = v[i] * 0.5 + avg[i] * 0.5;
    }
    dims
}

fn quantize(v: &Vibe) -> [u8; 16] {
    let mut out = [0u8; 16];
    for i in 0..16 {
        out[i] = (v[i].clamp(0.0, 1.0) * 255.0) as u8;
    }
    out
}

fn dequantize(b: [u8; 16]) -> Vibe {
    let mut dims = [0.5f64; 16];
    for i in 0..16 {
        dims[i] = b[i] as f64 / 255.0;
    }
    dims
}

fn node_with_room(id: usize, room: &str, vibe: Vibe) -> GossipNode<Vibe> {
    let mut n = GossipNode::new(id, 0);
    n.graph.add_room(room, vibe);
    n
}

// ---- Test 1: Gossip node creation ----
#[test]
fn test_gossip_node_creation() {
    let node = GossipNode::<Vibe>::new(1, 9090);
    assert_eq!(node.id, 1);
    assert_eq!(node.port, 9090);
    assert!(node.peers.is_empty());
    assert!(node.graph.rooms().is_empty());
}

// ---- Test 2: Add peer ----
#[test]
fn test_add_peer() {
    let mut node = GossipNode::<Vibe>::new(0, 9000);
    let addr = PeerAddr::v4([127, 0, 0, 1], 9001);
    node.add_peer(addr);
    assert_eq!(node.peers.len(), 1);
    assert_eq!(node.peers[0], addr);
    node.add_peer(addr);
    assert_eq!(node.peers.len(), 1);
}

// ---- Test 3: Tick updates graph ----
#[test]
fn test_tick_updates_graph() {
    let mut node = GossipNode::<Vibe>::new(0, 9000);
    node.graph.add_room("r1", [0.5; 16]);
    assert_eq!(node.graph.current_tick(), 0);
    let t = node.tick();
    assert_eq!(t, 1);
    assert_eq!(node.graph.current_tick(), 1);
}

// ---- Test 4: Serialize/deserialize murmur roundtrip ----
#[test]
fn test_serialize_deserialize_murmur() {
    let v = make_test_vibe(0.8);
    let murmur = Murmur::new("room1", &v, 1, 5, 42);
    let data = serialize_murmur(&murmur, &quantize);
    assert_eq!(data.len(), 32);
    let restored = deserialize_murmur(&data, &dequantize).unwrap();
    assert_eq!(restored.source_id, "room1");
    assert_eq!(restored.level, 1);
    assert_eq!(restored.ttl, 5);
    assert_eq!(restored.timestamp, 42);
    for i in 0..16 {
        let diff = (restored.vibe[i] - murmur.vibe[i]).abs();
        assert!(diff < 0.01, "dim {} differs by {}", i, diff);
    }
}

// ---- Test 5: Serialize/deserialize graph roundtrip ----
#[test]
fn test_serialize_deserialize_graph() {
    let mut graph = CellGraph::new();
    graph.add_room("alpha", make_test_vibe(0.3));
    graph.add_room("beta", make_test_vibe(0.7));
    graph.add_edge("alpha", "beta");
    graph.set_tick(10);

    let data = serialize_graph_state(&graph, &quantize);
    let restored = deserialize_graph_state(&data, &dequantize);

    assert_eq!(restored.room_count(), 2);
    assert_eq!(restored.current_tick(), 10);
    assert!(restored.contains_room("alpha"));
    assert!(restored.contains_room("beta"));
}

// ---- Test 6: Integrate murmur from peer ----
#[test]
fn test_integrate_murmur() {
    let mut graph = CellGraph::new();
    graph.add_room("room1", make_test_vibe(0.5));

    let murmur = Murmur::new("room1", &make_test_vibe(0.9), 0, 5, 0);
    graph.integrate_murmur(&murmur, &blend);

    let room = graph.get_room("room1").unwrap();
    assert!((room.vibe[0] - 0.62).abs() < 0.01);
}

// ---- Test 7: Integrate ignores expired murmurs ----
#[test]
fn test_integrate_ignores_expired() {
    let mut graph = CellGraph::new();
    graph.set_tick(100);
    graph.add_room("room1", make_test_vibe(0.5));

    let murmur = Murmur::new("room1", &make_test_vibe(0.9), 0, 5, 0);
    graph.integrate_murmur(&murmur, &blend);

    let room = graph.get_room("room1").unwrap();
    assert!((room.vibe[0] - 0.5).abs() < 0.01);
}

// ---- Test 8: Integrate handles unknown room gracefully ----
#[test]
fn test_integrate_unknown_room() {
    let mut graph = CellGraph::new();
    assert!(graph.rooms().is_empty());

    let murmur = Murmur::new("newroom", &make_test_vibe(0.8), 0, 5, 0);
    graph.integrate_murmur(&murmur, &blend);

    assert!(graph.contains_room("newroom"));
    let room = graph.get_room("newroom").unwrap();
    assert!((room.vibe[0] - 0.8).abs() < 0.01);
}

// ---- Test 9: Two nodes gossip to each other ----
#[test]
fn test_two_nodes_gossip() {
    let n1 = node_with_room(1, "room1", make_test_vibe(0.2));
    let n2 = node_with_room(2, "room2", make_test_vibe(0.8));

    let mut nodes = vec![n1, n2];
    coordinate_tick(&mut nodes, &blend);

    assert!(nodes[0].graph.contains_room("room2"));
    assert!(nodes[1].graph.contains_room("room1"));
}

// ---- Test 10: Three nodes gossip in triangle ----
#[test]
fn test_three_nodes_triangle() {
    let mut nodes: Vec<GossipNode<Vibe>> = (0..3)
        .map(|i| node_with_room(i, &format!("r{}", i), make_test_vibe(i as f64 * 0.3)))
        .collect();

    coordinate_tick(&mut nodes, &blend);

    for node in &nodes {
        assert!(node.graph.contains_room("r0"));
        assert!(node.graph.contains_room("r1"));
        assert!(node.graph.contains_room("r2"));
    }
}

// ---- Test 11: Discovery finds peers (mock) ----
#[test]
fn test_discovery_mock() {
    let peers = mock_discover_peers(5, 8000);
    assert_eq!(peers.len(), 5);
    for (i, p) in peers.iter().enumerate() {
        assert_eq!(p.port(), 8000 + i as u16);
    }
}

// ---- Test 13: Distributed tick coordination ----
#[test]
fn test_coordinate_tick() {
    let mut nodes: Vec<GossipNode<Vibe>> = (0..4)
        .map(|i| node_with_room(i, &format!("r{}", i), make_test_vibe(0.5)))
        .collect();

    coordinate_tick(&mut nodes, &blend);
    for node in &nodes {
        assert_eq!(node.graph.current_tick(), 1);
    }
}

// ---- Test 15: Node with no peers handles gracefully ----
#[test]
fn test_no_peers_graceful() {
    let mut node = node_with_room(0, "solo", make_test_vibe(0.5));
    node.tick();
    assert_eq!(node.graph.current_tick(), 1);
}

// ---- Test 16: Duplicate murmur detection ----
#[test]
fn test_duplicate_murmur_detection() {
    let mut node = GossipNode::new(0, 0);
    let murmur = Murmur::new("src", &make_test_vibe(0.5), 0, 5, 1);

    node.integrate_murmur(murmur.clone(), &blend);
    node.integrate_murmur(murmur.clone(), &blend);
    assert!(node.graph.contains_room("src"));
    assert_eq!(node.graph.room_count(), 1);
}

// ---- Test 17: Murmur ordering (newer overwrites older) ----
#[test]
fn test_murmur_ordering() {
    let mut graph = CellGraph::new();
    graph.add_room("r1", make_test_vibe(0.1));

    let old = Murmur::new("r1", &make_test_vibe(0.2), 0, 5, 0);
    graph.integrate_murmur(&old, &blend);
    let after_old = graph.get_room("r1").unwrap().vibe[0];

    let new = Murmur::new("r1", &make_test_vibe(0.9), 0, 5, 1);
    graph.integrate_murmur(&new, &blend);
    let after_new = graph.get_room("r1").unwrap().vibe[0];

    assert!(after_new > after_old);
}

// ---- Test 18: Network partition recovery ----
#[test]
fn test_partition_recovery() {
    let mut n1 = node_with_room(1, "a", make_test_vibe(0.1));
    let mut n2 = node_with_room(2, "b", make_test_vibe(0.9));

    // Partition: tick independently
    n1.tick();
    n2.tick();

    // Recovery: coordinate again
    let mut nodes = vec![n1, n2];
    coordinate_tick(&mut nodes, &blend);
    assert!(nodes[0].graph.contains_room("b"));
    assert!(nodes[1].graph.contains_room("a"));
}

// ---- Test 19: Large message handling ----
#[test]
fn test_large_graph_serialization() {
    let mut graph = CellGraph::new();
    for i in 0..100 {
        graph.add_room(&format!("r{:03}", i), make_test_vibe((i % 10) as f64 / 10.0));
        if i > 0 {
            graph.add_edge(&format!("r{:03}", i - 1), &format!("r{:03}", i));
        }
    }
    graph.set_tick(50);

    let data = serialize_graph_state(&graph, &quantize);
    let restored = deserialize_graph_state(&data, &dequantize);

    assert_eq!(restored.room_count(), 100);
    assert_eq!(restored.current_tick(), 50);
}

// ---- Test 20: Concurrent send/receive (via coordinated tick) ----
#[test]
fn test_concurrent_send_receive() {
    let mut nodes: Vec<GossipNode<Vibe>> = (0..5)
        .map(|i| node_with_room(i, &format!("r{}", i), make_test_vibe(i as f64 / 5.0)))
        .collect();

    for _ in 0..10 {
        coordinate_tick(&mut nodes, &blend);
    }
    for node in &nodes {
        assert_eq!(node.graph.current_tick(), 10);
        assert!(node.graph.room_count() >= 5);
    }
}

// ---- Test 21: Node joins mid-simulation ----
#[test]
fn test_node_joins_mid_simulation() {
    let mut nodes: Vec<GossipNode<Vibe>> = (0..2)
        .map(|i| {
            node_with_room(i + 1, &['a', 'b'][i].to_string(), make_test_vibe(0.3 + i as f64 * 0.4))
        })
        .collect();

    coordinate_tick(&mut nodes, &blend);

    // New node joins
    let n3 = node_with_room(3, "c", make_test_vibe(0.5));
    nodes.push(n3);

    coordinate_tick(&mut nodes, &blend);

    assert!(nodes[0].graph.contains_room("c"));
    assert!(nodes[2].graph.contains_room("a"));
    assert!(nodes[2].graph.contains_room("b"));
}

// ---- Test 22: Node leaves mid-simulation ----
#[test]
fn test_node_leaves_mid_simulation() {
    let mut nodes: Vec<GossipNode<Vibe>> = (0..3)
        .map(|i| {
            node_with_room(
                i + 1,
                &['a', 'b', 'c'][i].to_string(),
                make_test_vibe(0.3 + i as f64 * 0.2),
            )
        })
        .collect();

    coordinate_tick(&mut nodes, &blend);

    // Node 3 "leaves"
    nodes.pop();

    coordinate_tick(&mut nodes, &blend);
    assert!(nodes[0].graph.contains_room("c"));
}

// ---- Test 23: Performance: 100 nodes gossip ----
#[test]
fn test_100_nodes_performance() {
    let mut nodes: Vec<GossipNode<Vibe>> = (0..100)
        .map(|i| node_with_room(i, &format!("r{}", i), make_test_vibe((i % 10) as f64 / 10.0)))
        .collect();

    let start = std::time::Instant::now();
    coordinate_tick(&mut nodes, &blend);
    let elapsed = start.elapsed();

    assert!(elapsed.as_millis() < 5000, "Took {}ms", elapsed.as_millis());
    let avg_rooms: f64 =
        nodes.iter().map(|n| n.graph.room_count() as f64).sum::<f64>() / 100.0;
    assert!(avg_rooms >= 50.0, "Avg rooms: {}", avg_rooms);
}

// ---- Test 24: Compression reduces message size ----
#[test]
fn test_murmur_compact_size() {
    let murmur = Murmur::new("room1", &make_test_vibe(0.5), 0, 5, 100);
    let data = serialize_murmur(&murmur, &quantize);
    assert_eq!(data.len(), 32);
    assert!(data.len() < 64);
}

// ---- Test 25: All operations deterministic ----
#[test]
fn test_deterministic_serialization() {
    let mut graph = CellGraph::new();
    graph.add_room("z", make_test_vibe(0.1));
    graph.add_room("a", make_test_vibe(0.9));
    graph.add_edge("z", "a");
    graph.set_tick(42);

    let data1 = serialize_graph_state(&graph, &quantize);
    let data2 = serialize_graph_state(&graph, &quantize);
    assert_eq!(data1, data2);

    let restored = deserialize_graph_state(&data1, &dequantize);
    assert_eq!(restored.room_count(), 2);
    assert_eq!(restored.current_tick(), 42);
}

// ---- Test 26: Murmur decay ----
#[test]
fn test_murmur_decay() {
    let m = Murmur::new("x", &make_test_vibe(0.5), 0, 3, 0);
    let d = m.decay();
    assert_eq!(d.ttl, 2);
    assert_eq!(d.hops, 1);
}

// ---- Test 27: Murmur expiry ----
#[test]
fn test_murmur_expiry() {
    let m = Murmur::new("x", &make_test_vibe(0.5), 0, 0, 0);
    assert!(m.is_expired(0));

    let m2 = Murmur::new("x", &make_test_vibe(0.5), 0, 5, 0);
    assert!(!m2.is_expired(1));
    assert!(m2.is_expired(61));
}

// ---- Test 29: Graph diffusion ----
#[test]
fn test_graph_diffusion() {
    let mut graph = CellGraph::new();
    graph.add_room("a", make_test_vibe(0.0));
    graph.add_room("b", make_test_vibe(1.0));
    graph.add_edge("a", "b");

    assert!(graph.rooms_cover_edges());
    graph.diffuse_all(&diffuse_half);

    let ra = graph.get_room("a").unwrap();
    let rb = graph.get_room("b").unwrap();
    assert!(ra.vibe[0] > 0.0);
    assert!(rb.vibe[0] < 1.0);
}

// ---- Test 30: Room tick perception ----
#[test]
fn test_room_tick() {
    let mut room = Room::new("test", make_test_vibe(0.5));
    room.tick();
    room.tick();
    room.tick();
    assert!(!room.perceptions.is_empty());
}

#[test]
fn test_mock_discovery() {
    let peers = mock_discover_peers(3, 9000);
    assert_eq!(peers.len(), 3);
    assert_eq!(peers[0].port(), 9000);
    assert_eq!(peers[1].port(), 9001);
    assert_eq!(peers[2].port(), 9002);
}
