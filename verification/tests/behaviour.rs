use grand_pattern_net::coord::coordinate_tick;
use grand_pattern_net::discovery::mock_discover_peers;
use grand_pattern_net::gossip::CellGraph;
use grand_pattern_net::gossip::GossipNode;
use grand_pattern_net::murmur::Murmur;
use grand_pattern_net::room::Room;

fn pick_second(_a: &u32, b: &u32) -> u32 {
    *b
}

fn sum_blend(a: &u32, b: &u32) -> u32 {
    a * 100 + b
}

#[test]
fn perceptions_are_capped() {
    let mut room = Room::new("r", 0u32);
    for i in 0..150u32 {
        room.perceive(Some(&i));
    }
    assert_eq!(room.perceptions.len(), 100);
    assert_eq!(room.perceptions[0], 50);
    assert_eq!(room.perceptions[99], 149);
    room.perceive(None);
    assert_eq!(room.perceptions[99], 0);
    assert_eq!(room.perceptions[0], 51);
}

#[test]
fn prediction_window_is_last_ten() {
    let mut room = Room::new("r", 0u32);
    assert!(room.recent_perceptions().is_empty());
    for i in 0..3u32 {
        room.perceive(Some(&i));
    }
    assert_eq!(room.recent_perceptions(), vec![0, 1, 2]);
    for i in 3..25u32 {
        room.perceive(Some(&i));
    }
    assert_eq!(room.recent_perceptions(), (15..25).collect::<Vec<u32>>());
}

#[test]
fn room_diffuse_uses_neighbour_vibes() {
    let mut a = Room::new("a", 1u32);
    let b = Room::new("b", 2u32);
    let c = Room::new("c", 3u32);
    a.diffuse(&[&b, &c], &|v: &u32, nbs: &Vec<u32>| *v * 1000 + nbs[0] * 10 + nbs[1]);
    assert_eq!(a.vibe, 1023);
}

#[test]
fn add_room_replaces_and_keeps_edges() {
    let mut g = CellGraph::new();
    g.add_room("a", 1u32);
    g.add_edge("a", "b");
    g.tick();
    assert_eq!(g.get_room("a").unwrap().perceptions, vec![1]);
    g.add_room("a", 7u32);
    assert_eq!(g.room_count(), 1);
    assert_eq!(g.get_room("a").unwrap().vibe, 7);
    assert!(g.get_room("a").unwrap().perceptions.is_empty());
    assert_eq!(g.edges().len(), 2);
    assert_eq!(g.edges()[0].neighbors, vec!["b".to_string()]);
}

#[test]
fn add_edge_connects_both_ways() {
    let mut g: CellGraph<u32> = CellGraph::new();
    g.add_edge("x", "y");
    g.add_edge("x", "z");
    assert_eq!(g.edges()[0].room_id, "x");
    assert_eq!(g.edges()[0].neighbors, vec!["y".to_string(), "z".to_string()]);
    assert_eq!(g.edges()[1].neighbors, vec!["x".to_string()]);
    assert_eq!(g.edges()[2].room_id, "z");
    assert!(!g.rooms_cover_edges());
}

#[test]
fn collect_murmurs_one_per_room() {
    let mut g = CellGraph::new();
    g.add_room("a", 1u32);
    g.add_room("b", 2u32);
    g.set_tick(9);
    let ms = g.collect_murmurs();
    assert_eq!(ms.len(), 2);
    assert_eq!(ms[0].source_id, "a");
    assert_eq!(ms[1].vibe, 2);
    assert_eq!(ms[1].level, 0);
    assert_eq!(ms[1].ttl, 5);
    assert_eq!(ms[1].hops, 0);
    assert_eq!(ms[1].timestamp, 9);
    assert_eq!(g.room_vibes(), vec![1, 2]);
}

#[test]
fn integrate_blends_known_room() {
    let mut g = CellGraph::new();
    g.add_room("a", 3u32);
    g.integrate_murmur(&Murmur::new("a", &4u32, 0, 5, 0), &sum_blend);
    assert_eq!(g.get_room("a").unwrap().vibe, 304);
    g.integrate_murmur(&Murmur::new("a", &9u32, 0, 0, 0), &sum_blend);
    assert_eq!(g.get_room("a").unwrap().vibe, 304);
    g.set_tick(61);
    g.integrate_murmur(&Murmur::new("a", &9u32, 0, 5, 0), &sum_blend);
    assert_eq!(g.get_room("a").unwrap().vibe, 304);
    g.integrate_murmur(&Murmur::new("a", &9u32, 0, 5, 1), &sum_blend);
    assert_eq!(g.get_room("a").unwrap().vibe, 30409);
}

#[test]
fn decay_stops_at_zero_ttl() {
    let m = Murmur::new("x", &0u32, 0, 0, 0);
    let d = m.decay();
    assert_eq!(d.ttl, 0);
    assert_eq!(d.hops, 1);
    assert_eq!(d.decay().hops, 2);
}

#[test]
fn expiry_uses_saturating_age() {
    let m = Murmur::new("x", &0u32, 0, 5, 100);
    assert!(!m.is_expired(0));
    assert!(!m.is_expired(160));
    assert!(m.is_expired(161));
}

#[test]
fn diffusion_on_u32() {
    let mut g = CellGraph::new();
    g.add_room("a", 1u32);
    g.add_room("b", 2u32);
    g.add_room("c", 3u32);
    g.add_edge("a", "b");
    g.add_edge("a", "ghost");
    g.diffuse_all(&|v: &u32, nbs: &Vec<u32>| *v * 10 + nbs.len() as u32);
    assert_eq!(g.get_room("a").unwrap().vibe, 11);
    assert_eq!(g.get_room("b").unwrap().vibe, 21);
    assert_eq!(g.get_room("c").unwrap().vibe, 30);
}

#[test]
fn label_named_rooms_are_taken_in() {
    let mut n1 = GossipNode::new(1, 0);
    n1.graph_mut().add_room("node-2", 5u32);
    let n2 = GossipNode::new(2, 0);
    let mut nodes = vec![n1, n2];
    coordinate_tick(&mut nodes, &pick_second);
    assert!(nodes[0].graph().contains_room("node-2"));
    assert!(nodes[1].graph().contains_room("node-2"));
    assert_eq!(nodes[1].graph().current_tick(), 1);
}

#[test]
fn nodes_pass_over_their_own_murmurs() {
    let mut n = GossipNode::new(0, 0);
    n.graph_mut().add_room("r", 7u32);
    let mut nodes = vec![n];
    coordinate_tick(&mut nodes, &sum_blend);
    assert_eq!(nodes[0].graph().get_room("r").unwrap().vibe, 7);
}

#[test]
fn shared_rooms_blend_only_others_murmurs() {
    let mut n1 = GossipNode::new(1, 0);
    n1.graph_mut().add_room("s", 1u32);
    let mut n2 = GossipNode::new(2, 0);
    n2.graph_mut().add_room("s", 2u32);
    let mut nodes = vec![n1, n2];
    coordinate_tick(&mut nodes, &sum_blend);
    assert_eq!(nodes[0].graph().get_room("s").unwrap().vibe, 102);
    assert_eq!(nodes[1].graph().get_room("s").unwrap().vibe, 201);
}

#[test]
fn stale_nodes_do_not_learn() {
    let mut n1 = GossipNode::new(1, 0);
    n1.graph.add_room("a", 1u32);
    let mut n2 = GossipNode::new(2, 0);
    n2.graph.set_tick(100);
    let mut nodes = vec![n1, n2];
    coordinate_tick(&mut nodes, &pick_second);
    assert!(!nodes[1].graph.contains_room("a"));
}

#[test]
fn mock_ports_wrap_offset() {
    let peers = mock_discover_peers(3, 65533);
    assert_eq!(peers[2].port(), 65535);
    assert!(mock_discover_peers(0, 65535).is_empty());
}
