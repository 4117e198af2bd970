//! Distributed tick coordination: every node ticks, then every node takes
//! in the murmurs of all the other nodes.

use vstd::prelude::*;

use crate::gossip::{
    has_room, integration_step, murmur_views, room_index, room_murmur, room_murmurs,
    ticked, ticked_graph, GossipNode, GraphView, NodeView,
};
use crate::murmur::{spec_is_expired, Murmur, MurmurView};

verus! {

pub open spec fn node_views<V>(ns: Seq<GossipNode<V>>) -> Seq<NodeView<V>> {
    ns.map_values(|n: GossipNode<V>| n@)
}

/// A node after one tick of its graph.
pub open spec fn ticked_node<V>(n: NodeView<V>) -> NodeView<V> {
    NodeView { graph: ticked_graph(n.graph), ..n }
}

pub open spec fn ticked_nodes<V>(ns: Seq<NodeView<V>>) -> Seq<NodeView<V>> {
    ns.map_values(|n: NodeView<V>| ticked_node(n))
}

/// The murmurs of all the nodes' graphs: node by node, room by room.
pub open spec fn fleet_murmurs<V>(ns: Seq<NodeView<V>>) -> Seq<MurmurView<V>>
    decreases ns.len(),
{
    if ns.len() == 0 {
        Seq::empty()
    } else {
        fleet_murmurs(ns.drop_last()) + room_murmurs(ns.last().graph)
    }
}

/// For each of `fleet_murmurs(ns)`, the position in `ns` of the node it
/// came from.
pub open spec fn fleet_origins<V>(ns: Seq<NodeView<V>>) -> Seq<int>
    decreases ns.len(),
{
    if ns.len() == 0 {
        Seq::empty()
    } else {
        fleet_origins(ns.drop_last()) + Seq::new(
            ns.last().graph.rooms.len(),
            |k: int| ns.len() - 1,
        )
    }
}

/// How the graph of the node at position `me` goes from `pre` to `post` on
/// murmur `m` from the node at position `from`: its own murmurs are passed
/// over, any other is taken in.
pub open spec fn gossip_step<V, F: Fn(&V, &V) -> V>(
    pre: GraphView<V>,
    post: GraphView<V>,
    m: MurmurView<V>,
    from: int,
    me: int,
    blend: &F,
) -> bool {
    if from == me {
        post == pre
    } else {
        integration_step(pre, post, m, blend)
    }
}

/// `chain` is a run of the graph of the node at position `me` through the
/// murmurs `ms`, which came from the nodes at positions `origins`.
pub open spec fn gossip_chain<V, F: Fn(&V, &V) -> V>(
    chain: Seq<GraphView<V>>,
    ms: Seq<MurmurView<V>>,
    origins: Seq<int>,
    me: int,
    blend: &F,
) -> bool {
    &&& chain.len() == ms.len() + 1
    &&& origins.len() == ms.len()
    &&& forall|k: int|
        0 <= k < ms.len() ==> #[trigger] gossip_step(
            chain[k],
            chain[k + 1],
            ms[k],
            origins[k],
            me,
            blend,
        )
}

/// The graph of the node at position `me` goes from `pre` to `post` by
/// taking in, in order, those of the murmurs `ms` that came from other
/// nodes.
pub open spec fn gossiped<V, F: Fn(&V, &V) -> V>(
    pre: GraphView<V>,
    post: GraphView<V>,
    ms: Seq<MurmurView<V>>,
    origins: Seq<int>,
    me: int,
    blend: &F,
) -> bool {
    exists|chain: Seq<GraphView<V>>|
        #[trigger] gossip_chain(chain, ms, origins, me, blend) && chain[0] == pre && chain[ms.len() as int]
            == post
}

/// Node `post` is node `pre`, at position `me` in a fleet that sent the
/// murmurs `ms` from `origins`, after a coordinated tick: ticked, then the
/// other nodes' murmurs taken in.
pub open spec fn coordinated<V, F: Fn(&V, &V) -> V>(
    pre: NodeView<V>,
    post: NodeView<V>,
    ms: Seq<MurmurView<V>>,
    origins: Seq<int>,
    me: int,
    blend: &F,
) -> bool {
    &&& post.id == pre.id
    &&& post.port == pre.port
    &&& post.peers == pre.peers
    &&& post.seen == pre.seen
    &&& gossiped(ticked_graph(pre.graph), post.graph, ms, origins, me, blend)
}

/// One coordinated tick of a fleet of nodes: every node ticks; then the
/// murmurs of all nodes' rooms are collected (node by node, room by room,
/// after the ticks); then every node takes in, in that order, each of
/// them that came from another node (see `CellGraph::integrate_murmur`).
pub fn coordinate_tick<V: Copy, F: Fn(&V, &V) -> V>(nodes: &mut Vec<GossipNode<V>>, blend: &F)
    requires
        forall|i: int| 0 <= i < old(nodes)@.len() ==> #[trigger] old(nodes)@[i].wf(),
        forall|i: int| 0 <= i < old(nodes)@.len() ==> #[trigger] old(nodes)@[i]@.graph.tick < u64::MAX,
        forall|a: &V, b: &V| #[trigger] blend.requires((a, b)),
    ensures
        final(nodes)@.len() == old(nodes)@.len(),
        forall|i: int| 0 <= i < final(nodes)@.len() ==> #[trigger] final(nodes)@[i].wf(),
        forall|i: int|
            0 <= i < final(nodes)@.len() ==> #[trigger] coordinated(
                old(nodes)@[i]@,
                final(nodes)@[i]@,
                fleet_murmurs(ticked_nodes(node_views(old(nodes)@))),
                fleet_origins(ticked_nodes(node_views(old(nodes)@))),
                i,
                blend,
            ),
{
    let ghost n0 = nodes@;
    let ghost t = ticked_nodes(node_views(n0));
    let len = nodes.len();

    // Every node ticks.
    let mut i: usize = 0;
    while i < len
        invariant
            len == n0.len(),
            i <= len,
            nodes@.len() == len,
            t == ticked_nodes(node_views(n0)),
            forall|k: int| 0 <= k < n0.len() ==> #[trigger] n0[k].wf(),
            forall|k: int| 0 <= k < n0.len() ==> #[trigger] n0[k]@.graph.tick < u64::MAX,
            forall|k: int| 0 <= k < i ==> #[trigger] nodes@[k]@ == t[k] && nodes@[k].wf(),
            forall|k: int| i <= k < len ==> #[trigger] nodes@[k] == n0[k],
        decreases len - i,
    {
        assert(nodes@[i as int] == n0[i as int]);
        nodes[i].tick();
        assert(nodes@[i as int]@ =~= t[i as int]);
        i += 1;
    }

    // The murmurs of all nodes, collected after the ticks, with the
    // position of the node each came from.
    let ghost ms = fleet_murmurs(t);
    let ghost os = fleet_origins(t);
    let mut all: Vec<Murmur<V>> = Vec::new();
    let mut origins: Vec<usize> = Vec::new();
    let mut i: usize = 0;
    assert(t.subrange(0, 0) =~= Seq::<NodeView<V>>::empty());
    assert(origins@.map_values(|x: usize| x as int) =~= Seq::<int>::empty());
    while i < len
        invariant
            len == n0.len(),
            i <= len,
            nodes@.len() == len,
            t.len() == len,
            forall|k: int| 0 <= k < len ==> #[trigger] nodes@[k]@ == t[k] && nodes@[k].wf(),
            murmur_views(all@) == fleet_murmurs(t.subrange(0, i as int)),
            origins@.map_values(|x: usize| x as int) == fleet_origins(t.subrange(0, i as int)),
            origins@.len() == all@.len(),
        decreases len - i,
    {
        let mut mine = nodes[i].graph().collect_murmurs();
        let count = mine.len();
        let ghost before = all@;
        let ghost mine_v = mine@;
        let ghost before_o = origins@.map_values(|x: usize| x as int);
        assert(before_o.len() == before.len());
        all.append(&mut mine);
        let mut c: usize = 0;
        while c < count
            invariant
                c <= count,
                before_o.len() + count == all@.len(),
                origins@.map_values(|x: usize| x as int) == before_o + Seq::new(
                    c as nat,
                    |k: int| i as int,
                ),
            decreases count - c,
        {
            let ghost prev = origins@;
            origins.push(i);
            assert(origins@.map_values(|x: usize| x as int) =~= prev.map_values(|x: usize| x as int).push(
                i as int,
            ));
            c += 1;
            assert(origins@.map_values(|x: usize| x as int) =~= before_o + Seq::new(
                c as nat,
                |k: int| i as int,
            ));
        }
        proof {
            assert(nodes@[i as int]@ == t[i as int]);
            assert(murmur_views(all@) =~= murmur_views(before) + murmur_views(mine_v));
            assert(t.subrange(0, i + 1).drop_last() =~= t.subrange(0, i as int));
            assert(t.subrange(0, i + 1).len() - 1 == i);
            assert(murmur_views(mine_v).len() == t[i as int].graph.rooms.len());
        }
        i += 1;
    }
    assert(t.subrange(0, len as int) =~= t);
    assert(murmur_views(all@) == ms);
    assert(origins@.map_values(|x: usize| x as int) == os);

    // Every node takes in the other nodes' murmurs.
    let mut i: usize = 0;
    while i < len
        invariant
            len == n0.len(),
            i <= len,
            nodes@.len() == len,
            t == ticked_nodes(node_views(n0)),
            murmur_views(all@) == ms,
            origins@.map_values(|x: usize| x as int) == os,
            ms.len() == os.len(),
            forall|a: &V, b: &V| #[trigger] blend.requires((a, b)),
            forall|k: int| i <= k < len ==> #[trigger] nodes@[k]@ == t[k] && nodes@[k].wf(),
            forall|k: int|
                0 <= k < i ==> #[trigger] coordinated(n0[k]@, nodes@[k]@, ms, os, k, blend),
            forall|k: int| 0 <= k < i ==> #[trigger] nodes@[k].wf(),
        decreases len - i,
    {
        let ghost snapshot = nodes@;
        let ghost mut chain: Seq<GraphView<V>> = seq![t[i as int].graph];
        let mut j: usize = 0;
        while j < all.len()
            invariant
                i < len,
                nodes@.len() == len,
                murmur_views(all@) == ms,
                origins@.map_values(|x: usize| x as int) == os,
                ms.len() == os.len(),
                j <= all@.len(),
                forall|a: &V, b: &V| #[trigger] blend.requires((a, b)),
                forall|k: int| 0 <= k < len && k != i ==> #[trigger] nodes@[k] == snapshot[k],
                nodes@[i as int].wf(),
                nodes@[i as int]@.id == t[i as int].id,
                nodes@[i as int]@.port == t[i as int].port,
                nodes@[i as int]@.peers == t[i as int].peers,
                nodes@[i as int]@.seen == t[i as int].seen,
                chain.len() == j + 1,
                chain[0] == t[i as int].graph,
                chain[j as int] == nodes@[i as int]@.graph,
                forall|k: int|
                    0 <= k < j ==> #[trigger] gossip_step(
                        chain[k],
                        chain[k + 1],
                        ms[k],
                        os[k],
                        i as int,
                        blend,
                    ),
            decreases all@.len() - j,
        {
            let m = &all[j];
            assert(m@ == ms[j as int]);
            assert(origins@[j as int] as int == os[j as int]);
            if origins[j] != i {
                let copy = Murmur {
                    source_id: m.source_id.clone(),
                    vibe: m.vibe,
                    level: m.level,
                    ttl: m.ttl,
                    hops: m.hops,
                    timestamp: m.timestamp,
                };
                nodes[i].integrate_murmur(copy, blend);
            }
            proof {
                chain = chain.push(nodes@[i as int]@.graph);
                assert(gossip_step(
                    chain[j as int],
                    chain[j + 1],
                    ms[j as int],
                    os[j as int],
                    i as int,
                    blend,
                ));
            }
            j += 1;
        }
        proof {
            assert(gossip_chain(chain, ms, os, i as int, blend));
            assert(t[i as int] == ticked_node(n0[i as int]@));
            assert(coordinated(n0[i as int]@, nodes@[i as int]@, ms, os, i as int, blend));
            assert forall|k: int| i + 1 <= k < len implies #[trigger] nodes@[k]@ == t[k]
                && nodes@[k].wf() by {
                assert(nodes@[k] == snapshot[k]);
            }
            assert forall|k: int| 0 <= k < i + 1 implies #[trigger] coordinated(
                n0[k]@,
                nodes@[k]@,
                ms,
                os,
                k,
                blend,
            ) by {
                if k < i {
                    assert(nodes@[k] == snapshot[k]);
                }
            }
            assert forall|k: int| 0 <= k < i + 1 implies #[trigger] nodes@[k].wf() by {
                if k < i {
                    assert(nodes@[k] == snapshot[k]);
                }
            }
        }
        i += 1;
    }
}

// ---------------------------------------------------------------------------
// Coordinated ticks spread rooms
// ---------------------------------------------------------------------------

proof fn lemma_step_keeps_rooms<V, F: Fn(&V, &V) -> V>(
    pre: GraphView<V>,
    post: GraphView<V>,
    m: MurmurView<V>,
    from: int,
    me: int,
    blend: &F,
)
    requires
        gossip_step(pre, post, m, from, me, blend),
    ensures
        post.tick == pre.tick,
        forall|x: Seq<char>| has_room(pre.rooms, x) ==> has_room(post.rooms, x),
        from != me && !spec_is_expired(m.ttl, m.timestamp, pre.tick) ==> has_room(
            post.rooms,
            m.source_id,
        ),
{
    let taken = from != me && !spec_is_expired(m.ttl, m.timestamp, pre.tick);
    assert forall|x: Seq<char>| has_room(pre.rooms, x) implies has_room(post.rooms, x) by {
        let j = choose|j: int| 0 <= j < pre.rooms.len() && #[trigger] pre.rooms[j].id == x;
        if taken {
            if has_room(pre.rooms, m.source_id) {
                let i = room_index(pre.rooms, m.source_id);
                if j != i {
                    assert(post.rooms[j] == pre.rooms[j]);
                }
                assert(post.rooms[j].id == x);
            } else {
                assert(post.rooms[j] == pre.rooms[j]);
            }
        }
    }
    if taken {
        if has_room(pre.rooms, m.source_id) {
            let i = room_index(pre.rooms, m.source_id);
            assert(post.rooms[i].id == m.source_id);
        } else {
            assert(post.rooms[pre.rooms.len() as int].id == m.source_id);
        }
    }
}

proof fn lemma_chain_keeps_rooms<V, F: Fn(&V, &V) -> V>(
    chain: Seq<GraphView<V>>,
    ms: Seq<MurmurView<V>>,
    origins: Seq<int>,
    me: int,
    blend: &F,
    a: int,
    b: int,
)
    requires
        gossip_chain(chain, ms, origins, me, blend),
        0 <= a <= b <= ms.len(),
    ensures
        chain[b].tick == chain[a].tick,
        forall|x: Seq<char>| has_room(chain[a].rooms, x) ==> has_room(chain[b].rooms, x),
    decreases b - a,
{
    if a < b {
        lemma_chain_keeps_rooms(chain, ms, origins, me, blend, a, b - 1);
        let k = b - 1;
        assert(gossip_step(chain[k], chain[k + 1], ms[k], origins[k], me, blend));
        lemma_step_keeps_rooms(chain[k], chain[k + 1], ms[k], origins[k], me, blend);
    }
}

proof fn lemma_fleet_murmur_index<V>(ns: Seq<NodeView<V>>, j: int, r: int)
    requires
        0 <= j < ns.len(),
        0 <= r < ns[j].graph.rooms.len(),
    ensures
        fleet_murmurs(ns).len() == fleet_origins(ns).len(),
        exists|k: int|
            0 <= k < fleet_murmurs(ns).len() && #[trigger] fleet_murmurs(ns)[k] == room_murmur(
                ns[j].graph.rooms[r],
                ns[j].graph.tick,
            ) && fleet_origins(ns)[k] == j,
    decreases ns.len(),
{
    let prev = fleet_murmurs(ns.drop_last());
    let prev_o = fleet_origins(ns.drop_last());
    let last = room_murmurs(ns.last().graph);
    assert(fleet_murmurs(ns) == prev + last);
    if j == ns.len() - 1 {
        lemma_fleet_lengths(ns.drop_last());
        let k = prev.len() + r;
        assert(fleet_murmurs(ns)[k] == last[r]);
        assert(fleet_origins(ns)[k] == j);
    } else {
        assert(ns.drop_last()[j] == ns[j]);
        lemma_fleet_murmur_index(ns.drop_last(), j, r);
        let k = choose|k: int|
            0 <= k < prev.len() && #[trigger] prev[k] == room_murmur(
                ns[j].graph.rooms[r],
                ns[j].graph.tick,
            ) && prev_o[k] == j;
        assert(fleet_murmurs(ns)[k] == prev[k]);
        assert(fleet_origins(ns)[k] == prev_o[k]);
    }
    lemma_fleet_lengths(ns);
}

proof fn lemma_fleet_lengths<V>(ns: Seq<NodeView<V>>)
    ensures
        fleet_murmurs(ns).len() == fleet_origins(ns).len(),
    decreases ns.len(),
{
    if ns.len() > 0 {
        lemma_fleet_lengths(ns.drop_last());
    }
}

/// After a coordinated tick of nodes that were all at the same tick, every
/// node is one tick further and has a room for every room of every node.
pub proof fn lemma_coordination_spreads_rooms<V, F: Fn(&V, &V) -> V>(
    pre: Seq<NodeView<V>>,
    post: Seq<NodeView<V>>,
    blend: &F,
)
    requires
        post.len() == pre.len(),
        forall|i: int|
            0 <= i < pre.len() ==> #[trigger] coordinated(
                pre[i],
                post[i],
                fleet_murmurs(ticked_nodes(pre)),
                fleet_origins(ticked_nodes(pre)),
                i,
                blend,
            ),
        forall|i: int, j: int|
            0 <= i < pre.len() && 0 <= j < pre.len() ==> #[trigger] pre[i].graph.tick
                == #[trigger] pre[j].graph.tick,
        forall|i: int| 0 <= i < pre.len() ==> #[trigger] pre[i].graph.tick < u64::MAX,
    ensures
        forall|i: int| 0 <= i < pre.len() ==> #[trigger] post[i].graph.tick == pre[i].graph.tick + 1,
        forall|i: int, j: int, r: int|
            0 <= i < pre.len() && 0 <= j < pre.len() && 0 <= r < pre[j].graph.rooms.len()
                ==> has_room(#[trigger] post[i].graph.rooms, #[trigger] pre[j].graph.rooms[r].id),
{
    let t = ticked_nodes(pre);
    let ms = fleet_murmurs(t);
    let os = fleet_origins(t);
    assert forall|i: int| 0 <= i < pre.len() implies #[trigger] post[i].graph.tick
        == pre[i].graph.tick + 1 by {
        assert(coordinated(pre[i], post[i], ms, os, i, blend));
        let chain = choose|chain: Seq<GraphView<V>>|
            #[trigger] gossip_chain(chain, ms, os, i, blend) && chain[0] == ticked_graph(
                pre[i].graph,
            ) && chain[ms.len() as int] == post[i].graph;
        lemma_chain_keeps_rooms(chain, ms, os, i, blend, 0, ms.len() as int);
    }
    assert forall|i: int, j: int, r: int|
        0 <= i < pre.len() && 0 <= j < pre.len() && 0 <= r < pre[j].graph.rooms.len() implies has_room(
        #[trigger] post[i].graph.rooms,
        #[trigger] pre[j].graph.rooms[r].id,
    ) by {
        assert(coordinated(pre[i], post[i], ms, os, i, blend));
        let chain = choose|chain: Seq<GraphView<V>>|
            #[trigger] gossip_chain(chain, ms, os, i, blend) && chain[0] == ticked_graph(pre[i].graph)
                && chain[ms.len() as int] == post[i].graph;
        assert(t[j] == ticked_node(pre[j]));
        assert(t[j].graph.rooms[r] == ticked(pre[j].graph.rooms[r]));
        if j == i {
            assert(chain[0].rooms[r].id == pre[i].graph.rooms[r].id);
            assert(has_room(chain[0].rooms, pre[i].graph.rooms[r].id));
            lemma_chain_keeps_rooms(chain, ms, os, i, blend, 0, ms.len() as int);
        } else {
            lemma_fleet_murmur_index(t, j, r);
            let m = room_murmur(t[j].graph.rooms[r], t[j].graph.tick);
            let k = choose|k: int| 0 <= k < ms.len() && #[trigger] ms[k] == m && os[k] == j;
            lemma_chain_keeps_rooms(chain, ms, os, i, blend, 0, k);
            assert(pre[i].graph.tick == pre[j].graph.tick);
            assert(!spec_is_expired(m.ttl, m.timestamp, chain[k].tick));
            assert(gossip_step(chain[k], chain[k + 1], ms[k], os[k], i, blend));
            lemma_step_keeps_rooms(chain[k], chain[k + 1], ms[k], os[k], i, blend);
            lemma_chain_keeps_rooms(chain, ms, os, i, blend, k + 1, ms.len() as int);
        }
    }
}

} // verus!
