use vstd::prelude::*;

use crate::murmur::{spec_is_expired, Murmur, MurmurView};
use crate::discovery::PeerAddr;
use crate::room::{perceived, Room, RoomView};
use crate::serialize::{dequantized_from, deserialize_murmur, parse_murmur, wire_of, MURMUR_WIRE_LEN};

verus! {

/// Level given to the murmurs a graph sends about its own rooms.
pub const MURMUR_LEVEL: u8 = 0;

/// Time to live given to the murmurs a graph sends about its own rooms.
pub const MURMUR_TTL: u8 = 5;

/// The neighbour list of one room id.
#[derive(Clone, Debug)]
pub struct Adjacency {
    pub room_id: String,
    pub neighbors: Vec<String>,
}

/// An adjacency entry seen from the outside: the id and its neighbours' ids.
pub type AdjacencyView = (Seq<char>, Seq<Seq<char>>);

pub open spec fn string_views(s: Seq<String>) -> Seq<Seq<char>> {
    s.map_values(|x: String| x@)
}

impl View for Adjacency {
    type V = AdjacencyView;

    open spec fn view(&self) -> AdjacencyView {
        (self.room_id@, string_views(self.neighbors@))
    }
}

/// Rooms connected by edges, with a tick counter.
///
/// Rooms are kept in the order they were first added, edges in the order
/// their first endpoint was first mentioned; no room id and no edge key
/// occurs twice.
#[derive(Clone, Debug)]
pub struct CellGraph<V> {
    rooms: Vec<Room<V>>,
    edges: Vec<Adjacency>,
    tick_count: u64,
}

#[verifier::ext_equal]
pub ghost struct GraphView<V> {
    pub rooms: Seq<RoomView<V>>,
    pub edges: Seq<AdjacencyView>,
    pub tick: u64,
}

impl<V> View for CellGraph<V> {
    type V = GraphView<V>;

    closed spec fn view(&self) -> GraphView<V> {
        GraphView {
            rooms: self.rooms@.map_values(|r: Room<V>| r@),
            edges: self.edges@.map_values(|e: Adjacency| e@),
            tick: self.tick_count,
        }
    }
}

// ---------------------------------------------------------------------------
// The model: room lists and adjacency lists keyed by id.
// ---------------------------------------------------------------------------

/// No room id and no adjacency key occurs twice.
pub open spec fn graph_wf<V>(g: GraphView<V>) -> bool {
    &&& room_ids_distinct(g.rooms)
    &&& keys_distinct(g.edges)
}

pub open spec fn has_room<V>(rs: Seq<RoomView<V>>, id: Seq<char>) -> bool {
    exists|i: int| 0 <= i < rs.len() && #[trigger] rs[i].id == id
}

/// The index of the room with the given id (meaningful when there is one).
pub open spec fn room_index<V>(rs: Seq<RoomView<V>>, id: Seq<char>) -> int {
    choose|i: int| 0 <= i < rs.len() && #[trigger] rs[i].id == id
}

pub open spec fn room_vibe<V>(rs: Seq<RoomView<V>>, id: Seq<char>) -> Option<V> {
    if has_room(rs, id) {
        Some(rs[room_index(rs, id)].vibe)
    } else {
        None
    }
}

pub open spec fn room_ids_distinct<V>(rs: Seq<RoomView<V>>) -> bool {
    forall|i: int, j: int| 0 <= i < j < rs.len() ==> #[trigger] rs[i].id != #[trigger] rs[j].id
}

/// The room list after a room is inserted: it replaces the room with the
/// same id in place, or is appended.
pub open spec fn upsert_room<V>(rs: Seq<RoomView<V>>, r: RoomView<V>) -> Seq<RoomView<V>> {
    if has_room(rs, r.id) {
        rs.update(room_index(rs, r.id), r)
    } else {
        rs.push(r)
    }
}

pub open spec fn has_key(es: Seq<AdjacencyView>, id: Seq<char>) -> bool {
    exists|i: int| 0 <= i < es.len() && #[trigger] es[i].0 == id
}

pub open spec fn key_index(es: Seq<AdjacencyView>, id: Seq<char>) -> int {
    choose|i: int| 0 <= i < es.len() && #[trigger] es[i].0 == id
}

pub open spec fn keys_distinct(es: Seq<AdjacencyView>) -> bool {
    forall|i: int, j: int| 0 <= i < j < es.len() ==> #[trigger] es[i].0 != #[trigger] es[j].0
}

/// The adjacency lists once `id` has an entry (an empty one if it had none).
pub open spec fn with_key(es: Seq<AdjacencyView>, id: Seq<char>) -> Seq<AdjacencyView> {
    if has_key(es, id) {
        es
    } else {
        es.push((id, Seq::empty()))
    }
}

/// The adjacency lists after `n` is appended to the neighbours of `id`.
pub open spec fn add_neighbor(es: Seq<AdjacencyView>, id: Seq<char>, n: Seq<char>) -> Seq<
    AdjacencyView,
> {
    if has_key(es, id) {
        let i = key_index(es, id);
        es.update(i, (id, es[i].1.push(n)))
    } else {
        es.push((id, seq![n]))
    }
}

/// The vibes of those of the given ids that name a room, in order.
pub open spec fn neighbor_vibes<V>(rs: Seq<RoomView<V>>, ns: Seq<Seq<char>>) -> Seq<V>
    decreases ns.len(),
{
    if ns.len() == 0 {
        Seq::empty()
    } else {
        let prev = neighbor_vibes(rs, ns.drop_last());
        match room_vibe(rs, ns.last()) {
            Some(v) => prev.push(v),
            None => prev,
        }
    }
}

/// The neighbour vibes of a concatenation of id lists are those of the
/// first list followed by those of the second.
pub proof fn lemma_neighbor_vibes_append<V>(
    rs: Seq<RoomView<V>>,
    ns: Seq<Seq<char>>,
    ms: Seq<Seq<char>>,
)
    ensures
        neighbor_vibes(rs, ns + ms) == neighbor_vibes(rs, ns) + neighbor_vibes(rs, ms),
    decreases ms.len(),
{
    if ms.len() == 0 {
        assert(ns + ms =~= ns);
        assert(neighbor_vibes(rs, ns) + neighbor_vibes(rs, ms) =~= neighbor_vibes(rs, ns));
    } else {
        lemma_neighbor_vibes_append(rs, ns, ms.drop_last());
        assert((ns + ms).drop_last() =~= ns + ms.drop_last());
        assert((ns + ms).last() == ms.last());
        let a = neighbor_vibes(rs, ns);
        let b = neighbor_vibes(rs, ms.drop_last());
        match room_vibe(rs, ms.last()) {
            Some(v) => {
                assert((a + b).push(v) =~= a + b.push(v));
            },
            None => {},
        }
    }
}

/// A single id contributes the vibe of the room it names, or nothing when
/// it names no room.
pub proof fn lemma_neighbor_vibes_single<V>(rs: Seq<RoomView<V>>, x: Seq<char>)
    requires
        room_ids_distinct(rs),
    ensures
        forall|i: int|
            0 <= i < rs.len() && #[trigger] rs[i].id == x ==> neighbor_vibes(rs, seq![x])
                == seq![rs[i].vibe],
        !has_room(rs, x) ==> neighbor_vibes(rs, seq![x]) == Seq::<V>::empty(),
{
    let s = seq![x];
    assert(s.drop_last() =~= Seq::<Seq<char>>::empty());
    assert(s.last() == x);
    assert(neighbor_vibes(rs, Seq::<Seq<char>>::empty()) == Seq::<V>::empty());
    assert forall|i: int| 0 <= i < rs.len() && #[trigger] rs[i].id == x implies neighbor_vibes(
        rs,
        seq![x],
    ) == seq![rs[i].vibe] by {
        lemma_room_index_unique(rs, i);
        assert(Seq::<V>::empty().push(rs[i].vibe) =~= seq![rs[i].vibe]);
    }
}

/// Every id that names a room contributes exactly one vibe: appending such
/// an id appends that room's vibe, and appending any other id changes
/// nothing.
pub proof fn lemma_neighbor_vibes_push<V>(rs: Seq<RoomView<V>>, ns: Seq<Seq<char>>, x: Seq<char>)
    requires
        room_ids_distinct(rs),
    ensures
        forall|i: int|
            0 <= i < rs.len() && #[trigger] rs[i].id == x ==> neighbor_vibes(rs, ns.push(x))
                == neighbor_vibes(rs, ns).push(rs[i].vibe),
        !has_room(rs, x) ==> neighbor_vibes(rs, ns.push(x)) == neighbor_vibes(rs, ns),
{
    lemma_neighbor_vibes_append(rs, ns, seq![x]);
    lemma_neighbor_vibes_single(rs, x);
    assert(ns + seq![x] =~= ns.push(x));
    assert forall|i: int| 0 <= i < rs.len() && #[trigger] rs[i].id == x implies neighbor_vibes(
        rs,
        ns.push(x),
    ) == neighbor_vibes(rs, ns).push(rs[i].vibe) by {
        assert(neighbor_vibes(rs, ns) + seq![rs[i].vibe] =~= neighbor_vibes(rs, ns).push(
            rs[i].vibe,
        ));
    }
    if !has_room(rs, x) {
        assert(neighbor_vibes(rs, ns) + Seq::<V>::empty() =~= neighbor_vibes(rs, ns));
    }
}

/// The neighbour vibes of an id list are, in the list's order, the vibes of
/// the rooms named by those ids that name a room: one vibe for each such id,
/// none for the others.
pub proof fn lemma_neighbor_vibes_filtered<V>(rs: Seq<RoomView<V>>, ns: Seq<Seq<char>>)
    ensures
        neighbor_vibes(rs, ns) == ns.filter(|x: Seq<char>| has_room(rs, x)).map_values(
            |x: Seq<char>| rs[room_index(rs, x)].vibe,
        ),
        neighbor_vibes(rs, ns).len() == ns.filter(|x: Seq<char>| has_room(rs, x)).len(),
    decreases ns.len(),
{
    let pred = |x: Seq<char>| has_room(rs, x);
    let f = |x: Seq<char>| rs[room_index(rs, x)].vibe;
    if ns.len() == 0 {
        assert(ns.filter(pred).map_values(f) =~= Seq::<V>::empty());
    } else {
        lemma_neighbor_vibes_filtered(rs, ns.drop_last());
        let prev = ns.drop_last().filter(pred);
        reveal(Seq::filter);
        assert(ns.filter(pred) == if pred(ns.last()) {
            prev.push(ns.last())
        } else {
            prev
        });
        if pred(ns.last()) {
            assert(prev.push(ns.last()).map_values(f) =~= prev.map_values(f).push(f(ns.last())));
        }
    }
}

pub open spec fn fresh_room<V>(id: Seq<char>, vibe: V) -> RoomView<V> {
    RoomView { id, vibe, perceptions: Seq::empty() }
}

/// A room after one tick: it has perceived its own vibe.
pub open spec fn ticked<V>(r: RoomView<V>) -> RoomView<V> {
    RoomView { perceptions: perceived(r.perceptions, r.vibe), ..r }
}

/// Connecting `a` and `b` makes each a neighbour of the other, and keeps
/// every neighbour any id already had.
pub proof fn lemma_add_edge_connects(es: Seq<AdjacencyView>, a: Seq<char>, b: Seq<char>)
    requires
        keys_distinct(es),
    ensures
        ({
            let post = add_neighbor(add_neighbor(es, a, b), b, a);
            &&& has_key(post, a) && post[key_index(post, a)].1.contains(b)
            &&& has_key(post, b) && post[key_index(post, b)].1.contains(a)
            &&& forall|k: int, x: Seq<char>|
                0 <= k < es.len() && #[trigger] es[k].1.contains(x) ==> has_key(post, es[k].0)
                    && post[key_index(post, es[k].0)].1.contains(x)
        }),
{
    lemma_add_neighbor_facts(es, a, b);
    let mid = add_neighbor(es, a, b);
    lemma_add_neighbor_facts(mid, b, a);
    let post = add_neighbor(mid, b, a);
    assert(has_key(mid, a) && mid[key_index(mid, a)].1.contains(b));
    assert forall|k: int, x: Seq<char>|
        0 <= k < es.len() && #[trigger] es[k].1.contains(x) implies has_key(post, es[k].0)
        && post[key_index(post, es[k].0)].1.contains(x) by {
        assert(has_key(es, es[k].0));
        lemma_key_index_unique(es, k);
        assert(es[key_index(es, es[k].0)].1.contains(x));
        assert(mid[key_index(mid, es[k].0)].1.contains(x));
    }
}

/// Connecting adds one entry to one list: the neighbour list of `id` is
/// what it was (empty if `id` had none) with `n` appended, even when `n` is
/// already in it; every other list stays where it was, unchanged; the number
/// of lists goes up by one exactly when `id` had none.
pub proof fn lemma_add_neighbor_appends(es: Seq<AdjacencyView>, id: Seq<char>, n: Seq<char>)
    requires
        keys_distinct(es),
    ensures
        ({
            let post = add_neighbor(es, id, n);
            let before = if has_key(es, id) {
                es[key_index(es, id)].1
            } else {
                Seq::<Seq<char>>::empty()
            };
            &&& keys_distinct(post)
            &&& has_key(post, id)
            &&& post[key_index(post, id)].1 == before.push(n)
            &&& post.len() == es.len() + if has_key(es, id) {
                0int
            } else {
                1int
            }
            &&& forall|k: int| 0 <= k < es.len() && es[k].0 != id ==> #[trigger] post[k] == es[k]
        }),
{
    lemma_add_neighbor_facts(es, id, n);
    let post = add_neighbor(es, id, n);
    let i: int = if has_key(es, id) { key_index(es, id) } else { es.len() as int };
    assert(post[i].0 == id);
    lemma_key_index_unique(post, i);
    if !has_key(es, id) {
        assert(seq![n] =~= Seq::<Seq<char>>::empty().push(n));
    }
}

/// Making sure `id` has an adjacency list: afterwards it has one, a list it
/// had stays as it was, a missing one is added empty at the end, and every
/// other list is unchanged.
pub proof fn lemma_with_key_adds_empty_list(es: Seq<AdjacencyView>, id: Seq<char>)
    requires
        keys_distinct(es),
    ensures
        keys_distinct(with_key(es, id)),
        has_key(with_key(es, id), id),
        has_key(es, id) ==> with_key(es, id) == es,
        !has_key(es, id) ==> with_key(es, id).len() == es.len() + 1 && with_key(es, id).subrange(
            0,
            es.len() as int,
        ) == es && with_key(es, id).last() == (id, Seq::<Seq<char>>::empty()),
{
    let post = with_key(es, id);
    if !has_key(es, id) {
        assert(post.subrange(0, es.len() as int) =~= es);
        assert(post[es.len() as int].0 == id);
        assert forall|a: int, b: int| 0 <= a < b < post.len() implies #[trigger] post[a].0
            != #[trigger] post[b].0 by {
            if b < es.len() {
                assert(es[a].0 != es[b].0);
            } else {
                assert(es[a].0 != id);
            }
        }
    }
}

proof fn lemma_add_neighbor_facts(es: Seq<AdjacencyView>, id: Seq<char>, n: Seq<char>)
    requires
        keys_distinct(es),
    ensures
        keys_distinct(add_neighbor(es, id, n)),
        has_key(add_neighbor(es, id, n), id),
        add_neighbor(es, id, n)[key_index(add_neighbor(es, id, n), id)].1.contains(n),
        forall|x: Seq<char>, y: Seq<char>|
            has_key(es, x) && #[trigger] es[key_index(es, x)].1.contains(y) ==> has_key(
                add_neighbor(es, id, n),
                x,
            ) && add_neighbor(es, id, n)[key_index(add_neighbor(es, id, n), x)].1.contains(y),
{
    let post = add_neighbor(es, id, n);
    if has_key(es, id) {
        let i = key_index(es, id);
        assert(post[i].0 == id);
        assert(keys_distinct(post)) by {
            assert forall|a: int, b: int| 0 <= a < b < post.len() implies #[trigger] post[a].0
                != #[trigger] post[b].0 by {
                assert(es[a].0 != es[b].0);
            }
        }
        lemma_key_index_unique(post, i);
        assert(post[i].1 == es[i].1.push(n));
        assert(post[i].1[es[i].1.len() as int] == n);
    } else {
        let i = es.len() as int;
        assert(post[i].0 == id);
        assert(keys_distinct(post)) by {
            assert forall|a: int, b: int| 0 <= a < b < post.len() implies #[trigger] post[a].0
                != #[trigger] post[b].0 by {
                if b < es.len() {
                    assert(es[a].0 != es[b].0);
                } else {
                    assert(es[a].0 != id);
                }
            }
        }
        lemma_key_index_unique(post, i);
        assert(post[i].1[0] == n);
    }
    assert forall|x: Seq<char>, y: Seq<char>|
        has_key(es, x) && #[trigger] es[key_index(es, x)].1.contains(y) implies has_key(post, x)
        && post[key_index(post, x)].1.contains(y) by {
        let j = key_index(es, x);
        lemma_key_index_unique(es, j);
        assert(post[j].0 == x);
        lemma_key_index_unique(post, j);
        let w = choose|w: int| 0 <= w < es[j].1.len() && es[j].1[w] == y;
        if has_key(es, id) && j == key_index(es, id) {
            assert(post[j].1[w] == y);
        } else {
            assert(post[j] == es[j]);
            assert(post[j].1[w] == y);
        }
    }
}

/// A graph after one tick: the counter is one up and every room has
/// perceived its own vibe.
pub open spec fn ticked_graph<V>(g: GraphView<V>) -> GraphView<V> {
    GraphView {
        rooms: g.rooms.map_values(|r: RoomView<V>| ticked(r)),
        edges: g.edges,
        tick: (g.tick + 1) as u64,
    }
}

/// The murmur a graph at tick `tick` sends about room `r`.
pub open spec fn room_murmur<V>(r: RoomView<V>, tick: u64) -> MurmurView<V> {
    MurmurView {
        source_id: r.id,
        vibe: r.vibe,
        level: MURMUR_LEVEL,
        ttl: MURMUR_TTL,
        hops: 0,
        timestamp: tick,
    }
}

/// The murmurs graph `g` sends: one per room, in room order.
pub open spec fn room_murmurs<V>(g: GraphView<V>) -> Seq<MurmurView<V>> {
    g.rooms.map_values(|r: RoomView<V>| room_murmur(r, g.tick))
}

pub open spec fn murmur_views<V>(ms: Seq<Murmur<V>>) -> Seq<MurmurView<V>> {
    ms.map_values(|m: Murmur<V>| m@)
}

/// `post` is `pre` after murmur `m` was taken in with `blend`: nothing
/// changes for a stale murmur; otherwise the room with the murmur's source
/// id gets `blend` of its vibe and the murmur's, or, if there is none, a
/// fresh room with the murmur's vibe is added.
pub open spec fn integration_step<V, F: Fn(&V, &V) -> V>(
    pre: GraphView<V>,
    post: GraphView<V>,
    m: MurmurView<V>,
    blend: &F,
) -> bool {
    if spec_is_expired(m.ttl, m.timestamp, pre.tick) {
        post == pre
    } else if has_room(pre.rooms, m.source_id) {
        blended_into(pre, post, room_index(pre.rooms, m.source_id), m.vibe, blend)
    } else {
        &&& post.rooms == pre.rooms.push(fresh_room(m.source_id, m.vibe))
        &&& post.edges == with_key(pre.edges, m.source_id)
        &&& post.tick == pre.tick
    }
}

/// `post` is `pre` with the vibe of room `i` replaced by what `blend`
/// returned for that vibe and `incoming`.
pub open spec fn blended_into<V, F: Fn(&V, &V) -> V>(
    pre: GraphView<V>,
    post: GraphView<V>,
    i: int,
    incoming: V,
    blend: &F,
) -> bool {
    &&& 0 <= i < pre.rooms.len()
    &&& post.edges == pre.edges
    &&& post.tick == pre.tick
    &&& post.rooms.len() == pre.rooms.len()
    &&& forall|j: int| 0 <= j < pre.rooms.len() && j != i ==> #[trigger] post.rooms[j] == pre.rooms[j]
    &&& post.rooms[i].id == pre.rooms[i].id
    &&& post.rooms[i].perceptions == pre.rooms[i].perceptions
    &&& blend.ensures((&pre.rooms[i].vibe, &incoming), post.rooms[i].vibe)
}

/// Adding a room: afterwards exactly one room has its id, and it is the new
/// room; every room with another id stays where it was, unchanged; the room
/// count goes up by one exactly when no room had that id.
pub proof fn lemma_upsert_room_replaces_or_appends<V>(rs: Seq<RoomView<V>>, r: RoomView<V>)
    requires
        room_ids_distinct(rs),
    ensures
        ({
            let post = upsert_room(rs, r);
            &&& room_ids_distinct(post)
            &&& has_room(post, r.id)
            &&& post[room_index(post, r.id)] == r
            &&& post.len() == rs.len() + if has_room(rs, r.id) {
                0int
            } else {
                1int
            }
            &&& forall|i: int| 0 <= i < rs.len() && rs[i].id != r.id ==> #[trigger] post[i] == rs[i]
            &&& forall|x: Seq<char>| x != r.id ==> (#[trigger] has_room(post, x) <==> has_room(rs, x))
        }),
{
    let post = upsert_room(rs, r);
    let k: int = if has_room(rs, r.id) { room_index(rs, r.id) } else { rs.len() as int };
    assert(post[k] == r);
    assert forall|a: int, b: int| 0 <= a < b < post.len() implies #[trigger] post[a].id
        != #[trigger] post[b].id by {
        if a != k && b != k {
            assert(post[a] == rs[a] && post[b] == rs[b]);
        } else if a == k {
            if b < rs.len() {
                assert(post[b] == rs[b]);
                if has_room(rs, r.id) {
                    assert(rs[k].id == r.id);
                }
            }
        } else {
            assert(post[a] == rs[a]);
            if has_room(rs, r.id) {
                assert(rs[k].id == r.id);
            }
        }
    }
    lemma_room_index_unique(post, k);
    assert forall|x: Seq<char>| x != r.id implies (#[trigger] has_room(post, x) <==> has_room(rs, x)) by {
        if has_room(post, x) {
            let j = choose|j: int| 0 <= j < post.len() && post[j].id == x;
            assert(j != k);
            assert(rs[j].id == x);
        }
        if has_room(rs, x) {
            let j = choose|j: int| 0 <= j < rs.len() && rs[j].id == x;
            if has_room(rs, r.id) {
                assert(j != k);
            }
            assert(post[j].id == x);
        }
    }
}

/// Taking in a murmur: a stale one changes nothing. A live one leaves the
/// tick as it was, and a room with the murmur's source id: the room that had
/// that id gets what `blend` gives for its vibe and the murmur's, keeping
/// its id and perceptions; if no room had it, a room with the murmur's vibe
/// and nothing perceived is appended. Every room with another id is kept.
pub proof fn lemma_integration_effect<V, F: Fn(&V, &V) -> V>(
    pre: GraphView<V>,
    post: GraphView<V>,
    m: MurmurView<V>,
    blend: &F,
)
    requires
        graph_wf(pre),
        integration_step(pre, post, m, blend),
    ensures
        spec_is_expired(m.ttl, m.timestamp, pre.tick) ==> post == pre,
        !spec_is_expired(m.ttl, m.timestamp, pre.tick) ==> {
            &&& post.tick == pre.tick
            &&& has_room(post.rooms, m.source_id)
            &&& post.rooms.len() == pre.rooms.len() + if has_room(pre.rooms, m.source_id) {
                0int
            } else {
                1int
            }
            &&& forall|i: int|
                0 <= i < pre.rooms.len() && pre.rooms[i].id != m.source_id ==> #[trigger] post.rooms[i]
                    == pre.rooms[i]
            &&& forall|i: int|
                0 <= i < pre.rooms.len() && #[trigger] pre.rooms[i].id == m.source_id ==> {
                    &&& post.rooms[i].id == m.source_id
                    &&& post.rooms[i].perceptions == pre.rooms[i].perceptions
                    &&& blend.ensures((&pre.rooms[i].vibe, &m.vibe), post.rooms[i].vibe)
                }
            &&& !has_room(pre.rooms, m.source_id) ==> post.rooms.last() == (RoomView {
                id: m.source_id,
                vibe: m.vibe,
                perceptions: Seq::<V>::empty(),
            })
        },
{
    if !spec_is_expired(m.ttl, m.timestamp, pre.tick) {
        if has_room(pre.rooms, m.source_id) {
            let k = room_index(pre.rooms, m.source_id);
            assert(post.rooms[k].id == m.source_id);
            assert forall|i: int|
                0 <= i < pre.rooms.len() && #[trigger] pre.rooms[i].id == m.source_id implies i
                == k by {
                lemma_room_index_unique(pre.rooms, i);
            }
        } else {
            let n = pre.rooms.len() as int;
            assert(post.rooms[n].id == m.source_id);
        }
    }
}

/// Gossip sends one murmur per room, in room order: each names its room and
/// carries its vibe, level 0, a time to live of 5, no hops yet, and the
/// graph's tick as timestamp.
pub proof fn lemma_room_murmurs_one_per_room<V>(g: GraphView<V>)
    ensures
        room_murmurs(g).len() == g.rooms.len(),
        forall|i: int|
            0 <= i < g.rooms.len() ==> (#[trigger] room_murmurs(g)[i]).source_id == g.rooms[i].id
                && room_murmurs(g)[i].vibe == g.rooms[i].vibe && room_murmurs(g)[i].level == 0
                && room_murmurs(g)[i].ttl == 5 && room_murmurs(g)[i].hops == 0
                && room_murmurs(g)[i].timestamp == g.tick,
{
}

/// A tick advances the counter by one and keeps the adjacency, the rooms'
/// order, ids and vibes, while each room perceives its own vibe: a room
/// that remembers at most a hundred perceptions then holds the newest
/// hundred of them, its own vibe last.
pub proof fn lemma_tick_perceives_own_vibe<V>(g: GraphView<V>)
    requires
        g.tick < u64::MAX,
        forall|i: int| 0 <= i < g.rooms.len() ==> (#[trigger] g.rooms[i]).perceptions.len() <= 100,
    ensures
        ticked_graph(g).tick == g.tick + 1,
        ticked_graph(g).edges == g.edges,
        ticked_graph(g).rooms.len() == g.rooms.len(),
        forall|i: int|
            0 <= i < g.rooms.len() ==> (#[trigger] ticked_graph(g).rooms[i]).id == g.rooms[i].id
                && ticked_graph(g).rooms[i].vibe == g.rooms[i].vibe
                && ticked_graph(g).rooms[i].perceptions == g.rooms[i].perceptions.push(
                g.rooms[i].vibe,
            ).subrange(
                if g.rooms[i].perceptions.len() < 100 {
                    0int
                } else {
                    g.rooms[i].perceptions.len() - 99
                },
                (g.rooms[i].perceptions.len() + 1) as int,
            ),
{
    assert forall|i: int| 0 <= i < g.rooms.len() implies (#[trigger] ticked_graph(g).rooms[i]).id
        == g.rooms[i].id && ticked_graph(g).rooms[i].vibe == g.rooms[i].vibe
        && ticked_graph(g).rooms[i].perceptions == g.rooms[i].perceptions.push(
        g.rooms[i].vibe,
    ).subrange(
        if g.rooms[i].perceptions.len() < 100 {
            0int
        } else {
            g.rooms[i].perceptions.len() - 99
        },
        (g.rooms[i].perceptions.len() + 1) as int,
    ) by {
        let buf = g.rooms[i].perceptions;
        let all = buf.push(g.rooms[i].vibe);
        if buf.len() < 100 {
            assert(all.subrange(0, (buf.len() + 1) as int) =~= all);
        } else {
            assert(all.drop_first() =~= all.subrange(buf.len() - 99, (buf.len() + 1) as int));
        }
    }
}

/// Every adjacency list belongs to a room.
pub open spec fn edges_covered<V>(g: GraphView<V>) -> bool {
    forall|k: int| 0 <= k < g.edges.len() ==> has_room(g.rooms, #[trigger] g.edges[k].0)
}

/// `upd` is the diffusion update for adjacency list `k` of `g`: the index
/// of its room, and what `diffuse` returned for that room's vibe and the
/// neighbour vibes `nbs`.
pub open spec fn diffusion_update<V, F: Fn(&V, &Vec<V>) -> V>(
    g: GraphView<V>,
    k: int,
    idx: usize,
    v: V,
    nbs: Vec<V>,
    diffuse: &F,
) -> bool {
    &&& 0 <= idx < g.rooms.len()
    &&& g.rooms[idx as int].id == g.edges[k].0
    &&& nbs@ == neighbor_vibes(g.rooms, g.edges[k].1)
    &&& diffuse.ensures((&g.rooms[idx as int].vibe, &nbs), v)
}

/// Room `i` after the first `u` of the diffusion updates.
pub open spec fn partly_diffused<V>(
    g: GraphView<V>,
    r: RoomView<V>,
    i: int,
    updates: Seq<(usize, V)>,
    u: int,
) -> bool {
    &&& r.id == g.rooms[i].id
    &&& r.perceptions == g.rooms[i].perceptions
    &&& if has_key(g.edges, g.rooms[i].id) && key_index(g.edges, g.rooms[i].id) < u {
        r.vibe == updates[key_index(g.edges, g.rooms[i].id)].1
    } else {
        r.vibe == g.rooms[i].vibe
    }
}

/// In `post`, the room of adjacency list `k` of `pre` has the vibe that
/// `diffuse` returned for its vibe in `pre` and its neighbours' vibes in
/// `pre`.
pub open spec fn diffused_at<V, F: Fn(&V, &Vec<V>) -> V>(
    pre: GraphView<V>,
    post: GraphView<V>,
    k: int,
    diffuse: &F,
) -> bool {
    let i = room_index(pre.rooms, pre.edges[k].0);
    exists|nbs: Vec<V>|
        {
            &&& nbs@ == neighbor_vibes(pre.rooms, pre.edges[k].1)
            &&& #[trigger] diffuse.ensures((&pre.rooms[i].vibe, &nbs), post.rooms[i].vibe)
        }
}

/// Room `i` keeps its id and perceptions, and its vibe too unless it has an
/// adjacency list.
pub open spec fn kept_unless_keyed<V>(pre: GraphView<V>, post: GraphView<V>, i: int) -> bool {
    &&& post.rooms[i].id == pre.rooms[i].id
    &&& post.rooms[i].perceptions == pre.rooms[i].perceptions
    &&& !has_key(pre.edges, pre.rooms[i].id) ==> post.rooms[i].vibe == pre.rooms[i].vibe
}

/// `post` is `pre` after one diffusion step with `diffuse`.
pub open spec fn diffused<V, F: Fn(&V, &Vec<V>) -> V>(
    pre: GraphView<V>,
    post: GraphView<V>,
    diffuse: &F,
) -> bool {
    &&& post.edges == pre.edges
    &&& post.tick == pre.tick
    &&& post.rooms.len() == pre.rooms.len()
    &&& forall|i: int| 0 <= i < pre.rooms.len() ==> #[trigger] kept_unless_keyed(pre, post, i)
    &&& forall|k: int| 0 <= k < pre.edges.len() ==> #[trigger] diffused_at(pre, post, k, diffuse)
}

/// In a diffusion step every room with an adjacency list gets what
/// `diffuse` returns for its own vibe before the step and the vibes before
/// the step of all its neighbours that are rooms, in the list's order, one
/// for each; a room without an adjacency list keeps its vibe.
pub proof fn lemma_diffusion_reads_all_neighbours<V, F: Fn(&V, &Vec<V>) -> V>(
    pre: GraphView<V>,
    post: GraphView<V>,
    diffuse: &F,
    i: int,
)
    requires
        graph_wf(pre),
        diffused(pre, post, diffuse),
        0 <= i < pre.rooms.len(),
    ensures
        post.rooms[i].id == pre.rooms[i].id,
        post.rooms[i].perceptions == pre.rooms[i].perceptions,
        !has_key(pre.edges, pre.rooms[i].id) ==> post.rooms[i].vibe == pre.rooms[i].vibe,
        forall|k: int|
            0 <= k < pre.edges.len() && #[trigger] pre.edges[k].0 == pre.rooms[i].id ==> exists|
                nbs: Vec<V>,
            |
                {
                    &&& nbs@ == pre.edges[k].1.filter(|x: Seq<char>| has_room(pre.rooms, x)).map_values(
                        |x: Seq<char>| pre.rooms[room_index(pre.rooms, x)].vibe,
                    )
                    &&& #[trigger] diffuse.ensures((&pre.rooms[i].vibe, &nbs), post.rooms[i].vibe)
                },
{
    assert(kept_unless_keyed(pre, post, i));
    assert forall|k: int|
        0 <= k < pre.edges.len() && #[trigger] pre.edges[k].0 == pre.rooms[i].id implies exists|
            nbs: Vec<V>,
        |
            {
                &&& nbs@ == pre.edges[k].1.filter(|x: Seq<char>| has_room(pre.rooms, x)).map_values(
                    |x: Seq<char>| pre.rooms[room_index(pre.rooms, x)].vibe,
                )
                &&& #[trigger] diffuse.ensures((&pre.rooms[i].vibe, &nbs), post.rooms[i].vibe)
            } by {
        assert(diffused_at(pre, post, k, diffuse));
        lemma_room_index_unique(pre.rooms, i);
        lemma_neighbor_vibes_filtered(pre.rooms, pre.edges[k].1);
    }
}

pub(crate) proof fn lemma_room_index_unique<V>(rs: Seq<RoomView<V>>, i: int)
    requires
        room_ids_distinct(rs),
        0 <= i < rs.len(),
    ensures
        has_room(rs, rs[i].id),
        room_index(rs, rs[i].id) == i,
{
    let j = room_index(rs, rs[i].id);
    assert(rs[i].id == rs[i].id);
    if j < i {
        assert(rs[j].id != rs[i].id);
    } else if j > i {
        assert(rs[i].id != rs[j].id);
    }
}

pub(crate) proof fn lemma_key_index_unique(es: Seq<AdjacencyView>, i: int)
    requires
        keys_distinct(es),
        0 <= i < es.len(),
    ensures
        has_key(es, es[i].0),
        key_index(es, es[i].0) == i,
{
    let j = key_index(es, es[i].0);
    assert(es[i].0 == es[i].0);
    if j < i {
        assert(es[j].0 != es[i].0);
    } else if j > i {
        assert(es[i].0 != es[j].0);
    }
}

impl<V: Copy> CellGraph<V> {
    /// No room id and no edge key occurs twice.
    pub open spec fn wf(&self) -> bool {
        graph_wf(self@)
    }

    /// An empty graph at tick 0.
    pub fn new() -> (g: CellGraph<V>)
        ensures
            g.wf(),
            g@.rooms == Seq::<RoomView<V>>::empty(),
            g@.edges == Seq::<AdjacencyView>::empty(),
            g@.tick == 0,
    {
        let g = CellGraph { rooms: Vec::new(), edges: Vec::new(), tick_count: 0 };
        assert(g@.rooms =~= Seq::<RoomView<V>>::empty());
        assert(g@.edges =~= Seq::<AdjacencyView>::empty());
        g
    }

    /// The position of the room with the given id.
    pub(crate) fn find_room(&self, id: &String) -> (r: Option<usize>)
        requires
            self.wf(),
        ensures
            match r {
                Some(i) => i < self@.rooms.len() && self@.rooms[i as int].id == id@
                    && room_index(self@.rooms, id@) == i,
                None => !has_room(self@.rooms, id@),
            },
    {
        let mut i: usize = 0;
        while i < self.rooms.len()
            invariant
                self.wf(),
                i <= self.rooms@.len(),
                forall|j: int| 0 <= j < i ==> #[trigger] self@.rooms[j].id != id@,
            decreases self.rooms@.len() - i,
        {
            if self.rooms[i].room_id == *id {
                proof {
                    lemma_room_index_unique(self@.rooms, i as int);
                }
                return Some(i);
            }
            i += 1;
        }
        None
    }

    /// The position of the adjacency list of the given id.
    pub(crate) fn find_key(&self, id: &String) -> (r: Option<usize>)
        requires
            self.wf(),
        ensures
            match r {
                Some(i) => i < self@.edges.len() && self@.edges[i as int].0 == id@
                    && key_index(self@.edges, id@) == i,
                None => !has_key(self@.edges, id@),
            },
    {
        let mut i: usize = 0;
        while i < self.edges.len()
            invariant
                self.wf(),
                i <= self.edges@.len(),
                forall|j: int| 0 <= j < i ==> #[trigger] self@.edges[j].0 != id@,
            decreases self.edges@.len() - i,
        {
            if self.edges[i].room_id == *id {
                proof {
                    lemma_key_index_unique(self@.edges, i as int);
                }
                return Some(i);
            }
            i += 1;
        }
        None
    }

    /// Gives `id` an (empty) adjacency list unless it has one; returns its
    /// position.
    fn ensure_key(&mut self, id: &String) -> (k: usize)
        requires
            old(self).wf(),
        ensures
            final(self).wf(),
            final(self)@.rooms == old(self)@.rooms,
            final(self)@.tick == old(self)@.tick,
            final(self)@.edges == with_key(old(self)@.edges, id@),
            k < final(self)@.edges.len(),
            final(self)@.edges[k as int].0 == id@,
            key_index(final(self)@.edges, id@) == k,
    {
        match self.find_key(id) {
            Some(k) => k,
            None => {
                let ghost old_edges = self@.edges;
                self.edges.push(Adjacency { room_id: id.clone(), neighbors: Vec::new() });
                assert(string_views(Seq::<String>::empty()) =~= Seq::<Seq<char>>::empty());
                assert(self@.edges =~= old_edges.push((id@, Seq::empty())));
                let k = self.edges.len() - 1;
                proof {
                    assert forall|i: int, j: int| 0 <= i < j < self@.edges.len() implies
                        #[trigger] self@.edges[i].0 != #[trigger] self@.edges[j].0 by {
                        if j == k {
                            assert(old_edges[i].0 != id@);
                        } else {
                            assert(old_edges[i].0 != old_edges[j].0);
                        }
                    }
                    lemma_key_index_unique(self@.edges, k as int);
                }
                k
            },
        }
    }

    /// Adds a room with the given vibe and nothing perceived, replacing a
    /// room with the same id, and gives it an adjacency list unless it has
    /// one.
    pub fn add_room(&mut self, room_id: &str, initial_vibe: V)
        requires
            old(self).wf(),
        ensures
            final(self).wf(),
            final(self)@.rooms == upsert_room(old(self)@.rooms, fresh_room(room_id@, initial_vibe)),
            final(self)@.edges == with_key(old(self)@.edges, room_id@),
            final(self)@.tick == old(self)@.tick,
    {
        let id = room_id.to_owned();
        self.ensure_key(&id);
        let ghost mid_rooms = self@.rooms;
        let room = Room::new(room_id, initial_vibe);
        match self.find_room(&id) {
            Some(i) => {
                self.rooms.set(i, room);
                assert(self@.rooms =~= mid_rooms.update(i as int, fresh_room(room_id@, initial_vibe)));
                assert forall|a: int, b: int| 0 <= a < b < self@.rooms.len() implies
                    #[trigger] self@.rooms[a].id != #[trigger] self@.rooms[b].id by {
                    assert(mid_rooms[a].id != mid_rooms[b].id);
                }
            },
            None => {
                self.rooms.push(room);
                assert(self@.rooms =~= mid_rooms.push(fresh_room(room_id@, initial_vibe)));
                assert forall|a: int, b: int| 0 <= a < b < self@.rooms.len() implies
                    #[trigger] self@.rooms[a].id != #[trigger] self@.rooms[b].id by {
                    if b < mid_rooms.len() {
                        assert(mid_rooms[a].id != mid_rooms[b].id);
                    } else {
                        assert(mid_rooms[a].id != room_id@);
                    }
                }
            },
        }
    }

    /// Appends `n` to the neighbours of `id`, creating its list if needed.
    fn push_neighbor(&mut self, id: &String, n: &String)
        requires
            old(self).wf(),
        ensures
            final(self).wf(),
            final(self)@.rooms == old(self)@.rooms,
            final(self)@.tick == old(self)@.tick,
            final(self)@.edges == add_neighbor(old(self)@.edges, id@, n@),
    {
        let ghost old_edges = self@.edges;
        let had = self.find_key(id).is_some();
        let k = self.ensure_key(id);
        let ghost mid_edges = self@.edges;
        self.edges[k].neighbors.push(n.clone());
        proof {
            let e = self.edges@[k as int];
            assert(string_views(e.neighbors@) =~= mid_edges[k as int].1.push(n@));
            assert(self@.edges =~= mid_edges.update(k as int, (id@, mid_edges[k as int].1.push(n@))));
            if had {
                assert(mid_edges == old_edges);
            } else {
                assert(mid_edges[k as int].1 =~= Seq::<Seq<char>>::empty());
                assert(Seq::<Seq<char>>::empty().push(n@) =~= seq![n@]);
                assert(self@.edges =~= old_edges.push((id@, seq![n@])));
            }
            assert forall|a: int, b: int| 0 <= a < b < self@.edges.len() implies
                #[trigger] self@.edges[a].0 != #[trigger] self@.edges[b].0 by {
                assert(mid_edges[a].0 != mid_edges[b].0);
            }
        }
    }

    /// Connects `a` and `b` both ways: `b` is appended to the neighbours of
    /// `a`, then `a` to those of `b`. Neither needs to name a room.
    pub fn add_edge(&mut self, a: &str, b: &str)
        requires
            old(self).wf(),
        ensures
            final(self).wf(),
            final(self)@.rooms == old(self)@.rooms,
            final(self)@.tick == old(self)@.tick,
            final(self)@.edges == add_neighbor(add_neighbor(old(self)@.edges, a@, b@), b@, a@),
    {
        let sa = a.to_owned();
        let sb = b.to_owned();
        self.push_neighbor(&sa, &sb);
        self.push_neighbor(&sb, &sa);
    }

    /// Current tick.
    pub fn current_tick(&self) -> (t: u64)
        ensures
            t == self@.tick,
    {
        self.tick_count
    }

    pub fn set_tick(&mut self, tick: u64)
        requires
            old(self).wf(),
        ensures
            final(self).wf(),
            final(self)@ == (GraphView { tick, ..old(self)@ }),
    {
        self.tick_count = tick;
    }

    /// Advances the tick counter and lets every room perceive its own vibe;
    /// returns the new tick.
    pub fn tick(&mut self) -> (t: u64)
        requires
            old(self).wf(),
            old(self)@.tick < u64::MAX,
        ensures
            final(self).wf(),
            t == old(self)@.tick + 1,
            final(self)@ == ticked_graph(old(self)@),
    {
        self.tick_count = self.tick_count + 1;
        let ghost before = self@.rooms;
        let ghost r0 = self.rooms@;
        let ghost e0 = self.edges@;
        let ghost t1 = self.tick_count;
        let mut i: usize = 0;
        while i < self.rooms.len()
            invariant
                i <= self.rooms@.len(),
                self.rooms@.len() == r0.len(),
                self.edges@ == e0,
                self.tick_count == t1,
                forall|j: int| 0 <= j < i ==> #[trigger] self.rooms@[j]@ == ticked(r0[j]@),
                forall|j: int| i <= j < r0.len() ==> #[trigger] self.rooms@[j] == r0[j],
            decreases r0.len() - i,
        {
            self.rooms[i].tick();
            i += 1;
        }
        assert(self@.rooms.len() == before.len());
        assert forall|j: int| 0 <= j < before.len() implies #[trigger] self@.rooms[j] == ticked(
            before[j],
        ) by {
            assert(self.rooms@[j]@ == ticked(r0[j]@));
        }
        assert forall|a: int, b: int| 0 <= a < b < self@.rooms.len() implies
            #[trigger] self@.rooms[a].id != #[trigger] self@.rooms[b].id by {
            assert(self@.rooms[a] == ticked(before[a]));
            assert(self@.rooms[b] == ticked(before[b]));
        }
        assert(self@.rooms =~= before.map_values(|r: RoomView<V>| ticked(r)));
        self.tick_count
    }

    /// Number of rooms.
    pub fn room_count(&self) -> (n: usize)
        ensures
            n == self@.rooms.len(),
    {
        self.rooms.len()
    }

    pub fn contains_room(&self, room_id: &str) -> (b: bool)
        requires
            self.wf(),
        ensures
            b == has_room(self@.rooms, room_id@),
    {
        self.find_room(&room_id.to_owned()).is_some()
    }

    /// The room with the given id.
    pub fn get_room(&self, room_id: &str) -> (r: Option<&Room<V>>)
        requires
            self.wf(),
        ensures
            match r {
                Some(room) => has_room(self@.rooms, room_id@) && room@ == self@.rooms[room_index(
                    self@.rooms,
                    room_id@,
                )],
                None => !has_room(self@.rooms, room_id@),
            },
    {
        match self.find_room(&room_id.to_owned()) {
            Some(i) => Some(&self.rooms[i]),
            None => None,
        }
    }

    /// All rooms, in the order they were first added.
    pub fn rooms(&self) -> (r: &Vec<Room<V>>)
        ensures
            r@.map_values(|x: Room<V>| x@) == self@.rooms,
    {
        &self.rooms
    }

    /// All adjacency lists.
    pub fn edges(&self) -> (r: &Vec<Adjacency>)
        ensures
            r@.map_values(|x: Adjacency| x@) == self@.edges,
    {
        &self.edges
    }

    /// The vibes of all rooms, in room order.
    pub fn room_vibes(&self) -> (vs: Vec<V>)
        ensures
            vs@ == self@.rooms.map_values(|r: RoomView<V>| r.vibe),
    {
        let mut vs: Vec<V> = Vec::new();
        let mut i: usize = 0;
        while i < self.rooms.len()
            invariant
                i <= self@.rooms.len(),
                vs@ == self@.rooms.subrange(0, i as int).map_values(|r: RoomView<V>| r.vibe),
            decreases self@.rooms.len() - i,
        {
            vs.push(self.rooms[i].vibe);
            i += 1;
            assert(vs@ =~= self@.rooms.subrange(0, i as int).map_values(|r: RoomView<V>| r.vibe));
        }
        assert(self@.rooms.subrange(0, i as int) =~= self@.rooms);
        vs
    }

    /// One murmur per room, in room order, stamped with the current tick.
    pub fn collect_murmurs(&self) -> (ms: Vec<Murmur<V>>)
        ensures
            murmur_views(ms@) == room_murmurs(self@),
    {
        let mut ms: Vec<Murmur<V>> = Vec::new();
        let mut i: usize = 0;
        while i < self.rooms.len()
            invariant
                i <= self@.rooms.len(),
                murmur_views(ms@) == room_murmurs(self@).subrange(0, i as int),
            decreases self@.rooms.len() - i,
        {
            let r = &self.rooms[i];
            let m = Murmur::new(r.room_id.as_str(), &r.vibe, MURMUR_LEVEL, MURMUR_TTL, self.tick_count);
            let ghost old_ms = ms@;
            ms.push(m);
            proof {
                assert(self@.rooms[i as int] == self.rooms@[i as int]@);
                assert(murmur_views(ms@) =~= murmur_views(old_ms).push(m@));
                assert(room_murmurs(self@).subrange(0, i + 1) =~= room_murmurs(self@).subrange(
                    0,
                    i as int,
                ).push(room_murmur(self@.rooms[i as int], self@.tick)));
            }
            i += 1;
        }
        assert(room_murmurs(self@).subrange(0, i as int) =~= room_murmurs(self@));
        ms
    }

    /// Takes in a murmur from a peer, stamped at tick `murmur.timestamp`.
    /// A stale murmur (see `Murmur::is_expired`, judged at the graph's
    /// tick) changes nothing. Otherwise, if a room has the murmur's source
    /// id, its vibe becomes `blend` of its vibe and the murmur's; if none
    /// has, a room is added with the murmur's vibe.
    pub fn integrate_murmur<F: Fn(&V, &V) -> V>(&mut self, murmur: &Murmur<V>, blend: &F)
        requires
            old(self).wf(),
            forall|a: &V, b: &V| #[trigger] blend.requires((a, b)),
        ensures
            final(self).wf(),
            integration_step(old(self)@, final(self)@, murmur@, blend),
    {
        if murmur.is_expired(self.tick_count) {
            return;
        }
        match self.find_room(&murmur.source_id) {
            Some(i) => {
                let ghost before = self@;
                let v = blend(&self.rooms[i].vibe, &murmur.vibe);
                self.rooms[i].vibe = v;
                assert forall|a: int, b: int| 0 <= a < b < self@.rooms.len() implies
                    #[trigger] self@.rooms[a].id != #[trigger] self@.rooms[b].id by {
                    assert(before.rooms[a].id != before.rooms[b].id);
                }
            },
            None => {
                self.add_room(murmur.source_id.as_str(), murmur.vibe);
            },
        }
    }

    /// Whether every adjacency list belongs to a room (diffusion needs it).
    pub fn rooms_cover_edges(&self) -> (b: bool)
        requires
            self.wf(),
        ensures
            b == edges_covered(self@),
    {
        let mut k: usize = 0;
        while k < self.edges.len()
            invariant
                self.wf(),
                k <= self@.edges.len(),
                forall|j: int| 0 <= j < k ==> has_room(self@.rooms, #[trigger] self@.edges[j].0),
            decreases self@.edges.len() - k,
        {
            if self.find_room(&self.edges[k].room_id).is_none() {
                assert(self@.edges[k as int].0 == self.edges@[k as int].room_id@);
                return false;
            }
            k += 1;
        }
        true
    }

    /// The vibes of those of the ids in `ns` that name a room, in order.
    fn collect_neighbor_vibes(&self, ns: &Vec<String>) -> (r: Vec<V>)
        requires
            self.wf(),
        ensures
            r@ == neighbor_vibes(self@.rooms, string_views(ns@)),
    {
        let mut r: Vec<V> = Vec::new();
        let mut i: usize = 0;
        while i < ns.len()
            invariant
                self.wf(),
                i <= ns@.len(),
                r@ == neighbor_vibes(self@.rooms, string_views(ns@).subrange(0, i as int)),
            decreases ns@.len() - i,
        {
            let ghost pre = string_views(ns@).subrange(0, i as int);
            let ghost cur = string_views(ns@).subrange(0, i + 1);
            assert(cur.drop_last() =~= pre);
            assert(cur.last() == ns@[i as int]@);
            match self.find_room(&ns[i]) {
                Some(j) => {
                    r.push(self.rooms[j].vibe);
                },
                None => {},
            }
            i += 1;
        }
        assert(string_views(ns@).subrange(0, i as int) =~= string_views(ns@));
        r
    }

    /// One diffusion step over the whole graph. For every adjacency list,
    /// the vibe of its room becomes what `diffuse` returns for that room's
    /// vibe and the vibes of those neighbours that are rooms (in list
    /// order); all new vibes are computed from the vibes before the step.
    /// Rooms without an adjacency list keep their vibe.
    pub fn diffuse_all<F: Fn(&V, &Vec<V>) -> V>(&mut self, diffuse: &F)
        requires
            old(self).wf(),
            edges_covered(old(self)@),
            forall|v: &V, nbs: &Vec<V>| #[trigger] diffuse.requires((v, nbs)),
        ensures
            final(self).wf(),
            diffused(old(self)@, final(self)@, diffuse),
    {
        let ghost g0 = self@;
        let mut updates: Vec<(usize, V)> = Vec::new();
        let ghost mut witnesses: Seq<Vec<V>> = Seq::empty();
        let mut k: usize = 0;
        while k < self.edges.len()
            invariant
                self.wf(),
                self@ == g0,
                edges_covered(g0),
                forall|v: &V, nbs: &Vec<V>| #[trigger] diffuse.requires((v, nbs)),
                k <= g0.edges.len(),
                updates@.len() == k,
                witnesses.len() == k,
                forall|j: int|
                    0 <= j < k ==> #[trigger] diffusion_update(
                        g0,
                        j,
                        updates@[j].0,
                        updates@[j].1,
                        witnesses[j],
                        diffuse,
                    ),
            decreases g0.edges.len() - k,
        {
            let idx = match self.find_room(&self.edges[k].room_id) {
                Some(i) => i,
                None => {
                    assert(has_room(g0.rooms, g0.edges[k as int].0));
                    0
                },
            };
            let nbs = self.collect_neighbor_vibes(&self.edges[k].neighbors);
            let v = diffuse(&self.rooms[idx].vibe, &nbs);
            assert(self@.edges[k as int] == self.edges@[k as int]@);
            assert(self@.rooms[idx as int] == self.rooms@[idx as int]@);
            assert(nbs@ == neighbor_vibes(g0.rooms, g0.edges[k as int].1));
            assert(diffuse.ensures((&g0.rooms[idx as int].vibe, &nbs), v));
            updates.push((idx, v));
            proof {
                witnesses = witnesses.push(nbs);
            }
            assert(diffusion_update(g0, k as int, idx, v, nbs, diffuse));
            k += 1;
        }
        let mut u: usize = 0;
        while u < updates.len()
            invariant
                room_ids_distinct(g0.rooms),
                keys_distinct(g0.edges),
                edges_covered(g0),
                updates@.len() == g0.edges.len(),
                witnesses.len() == g0.edges.len(),
                forall|j: int|
                    0 <= j < g0.edges.len() ==> #[trigger] diffusion_update(
                        g0,
                        j,
                        updates@[j].0,
                        updates@[j].1,
                        witnesses[j],
                        diffuse,
                    ),
                u <= updates@.len(),
                self@.edges == g0.edges,
                self@.tick == g0.tick,
                self@.rooms.len() == g0.rooms.len(),
                forall|i: int|
                    0 <= i < g0.rooms.len() ==> #[trigger] partly_diffused(
                        g0,
                        self@.rooms[i],
                        i,
                        updates@,
                        u as int,
                    ),
            decreases updates@.len() - u,
        {
            let (i, v) = updates[u];
            let ghost before = self@.rooms;
            proof {
                assert(diffusion_update(
                    g0,
                    u as int,
                    updates@[u as int].0,
                    updates@[u as int].1,
                    witnesses[u as int],
                    diffuse,
                ));
                lemma_key_index_unique(g0.edges, u as int);
                lemma_room_index_unique(g0.rooms, i as int);
            }
            self.rooms[i].vibe = v;
            assert forall|r: int| 0 <= r < g0.rooms.len() implies #[trigger] partly_diffused(
                g0,
                self@.rooms[r],
                r,
                updates@,
                u + 1,
            ) by {
                assert(partly_diffused(g0, before[r], r, updates@, u as int));
                if r != i {
                    if has_key(g0.edges, g0.rooms[r].id) && key_index(g0.edges, g0.rooms[r].id)
                        == u {
                        assert(g0.rooms[r].id == g0.edges[u as int].0);
                        assert(g0.rooms[i as int].id == g0.edges[u as int].0);
                        if r < i {
                            assert(g0.rooms[r].id != g0.rooms[i as int].id);
                        } else {
                            assert(g0.rooms[i as int].id != g0.rooms[r].id);
                        }
                    }
                }
            }
            u += 1;
        }
        assert forall|a: int, b: int| 0 <= a < b < self@.rooms.len() implies
            #[trigger] self@.rooms[a].id != #[trigger] self@.rooms[b].id by {
            assert(partly_diffused(g0, self@.rooms[a], a, updates@, u as int));
            assert(partly_diffused(g0, self@.rooms[b], b, updates@, u as int));
        }
        assert forall|k: int| 0 <= k < g0.edges.len() implies #[trigger] diffused_at(
            g0,
            self@,
            k,
            diffuse,
        ) by {
            assert(diffusion_update(g0, k, updates@[k].0, updates@[k].1, witnesses[k], diffuse));
            let i = updates@[k].0 as int;
            lemma_key_index_unique(g0.edges, k);
            lemma_room_index_unique(g0.rooms, i);
            assert(partly_diffused(g0, self@.rooms[i], i, updates@, u as int));
            assert(room_index(g0.rooms, g0.edges[k].0) == i);
            assert(diffuse.ensures((&g0.rooms[i].vibe, &witnesses[k]), self@.rooms[i].vibe));
        }
        assert forall|i: int| 0 <= i < g0.rooms.len() implies #[trigger] kept_unless_keyed(
            g0,
            self@,
            i,
        ) by {
            assert(partly_diffused(g0, self@.rooms[i], i, updates@, u as int));
        }
    }
}


impl<V: Copy> Default for CellGraph<V> {
    /// An empty graph at tick 0.
    fn default() -> (g: CellGraph<V>)
        ensures
            g.wf(),
            g@.rooms == Seq::<RoomView<V>>::empty(),
            g@.edges == Seq::<AdjacencyView>::empty(),
            g@.tick == 0,
    {
        CellGraph::new()
    }
}

/// A cell graph on the network: its peers, and the murmurs it has already
/// received, by source id and timestamp, so that none is taken twice.
pub struct GossipNode<V> {
    pub id: usize,
    pub graph: CellGraph<V>,
    pub port: u16,
    pub peers: Vec<PeerAddr>,
    seen_murmurs: Vec<(String, u64)>,
}

/// The peer list after `a` is added: unchanged if `a` is already in it.
pub open spec fn with_peer(ps: Seq<PeerAddr>, a: PeerAddr) -> Seq<PeerAddr> {
    if ps.contains(a) {
        ps
    } else {
        ps.push(a)
    }
}

/// The key a datagram's murmur is recognised by: its source id and
/// timestamp.
pub open spec fn datagram_key(d: Seq<u8>) -> (Seq<char>, u64) {
    let w = parse_murmur(d.subrange(0, MURMUR_WIRE_LEN as int));
    (w.id, w.timestamp)
}

/// A datagram is taken when it is long enough to carry a murmur and no
/// murmur with the same key was taken before.
pub open spec fn accepts(seen: Seq<(Seq<char>, u64)>, d: Seq<u8>) -> bool {
    d.len() >= MURMUR_WIRE_LEN && !seen.contains(datagram_key(d))
}

/// The keys seen after datagram `d` arrives.
pub open spec fn seen_after(seen: Seq<(Seq<char>, u64)>, d: Seq<u8>) -> Seq<(Seq<char>, u64)> {
    if accepts(seen, d) {
        seen.push(datagram_key(d))
    } else {
        seen
    }
}

/// Adding a peer keeps the known peers, in their order, and leaves the new
/// one among the peers: appended once when it is new, not repeated when it is
/// already known.
pub proof fn lemma_add_peer_keeps_peers(ps: Seq<PeerAddr>, a: PeerAddr)
    ensures
        with_peer(ps, a).len() == ps.len() + if ps.contains(a) {
            0int
        } else {
            1int
        },
        with_peer(ps, a).subrange(0, ps.len() as int) == ps,
        with_peer(ps, a).contains(a),
        forall|p: PeerAddr| ps.contains(p) ==> #[trigger] with_peer(ps, a).contains(p),
        forall|p: PeerAddr| #[trigger] with_peer(ps, a).contains(p) ==> ps.contains(p) || p == a,
{
    let post = with_peer(ps, a);
    assert(post.subrange(0, ps.len() as int) =~= ps);
    if !ps.contains(a) {
        assert(post[ps.len() as int] == a);
    }
    assert forall|p: PeerAddr| ps.contains(p) implies #[trigger] post.contains(p) by {
        let k = choose|k: int| 0 <= k < ps.len() && ps[k] == p;
        assert(post[k] == p);
    }
    assert forall|p: PeerAddr| #[trigger] post.contains(p) implies ps.contains(p) || p == a by {
        let k = choose|k: int| 0 <= k < post.len() && post[k] == p;
        if k < ps.len() {
            assert(ps[k] == p);
        }
    }
}

/// De-duplication is by source id and timestamp together, read from the
/// murmur a datagram carries: a datagram is taken exactly when it is long
/// enough for a murmur and that pair was not taken before, and taking it
/// records that pair and nothing else.
pub proof fn lemma_dedup_by_source_and_timestamp(seen: Seq<(Seq<char>, u64)>, d: Seq<u8>)
    ensures
        accepts(seen, d) <==> (d.len() >= 32 && !seen.contains(
            (parse_murmur(d.subrange(0, 32)).id, parse_murmur(d.subrange(0, 32)).timestamp),
        )),
        accepts(seen, d) ==> seen_after(seen, d) == seen.push(
            (parse_murmur(d.subrange(0, 32)).id, parse_murmur(d.subrange(0, 32)).timestamp),
        ),
        !accepts(seen, d) ==> seen_after(seen, d) == seen,
{
}

/// Of two datagrams taken in turn, the second is refused after the first
/// exactly when its murmur has the same source id and timestamp as the
/// first's, or its pair was taken before: murmurs from different rooms, or
/// from one room at different ticks, are all taken.
pub proof fn lemma_dedup_two_datagrams(seen: Seq<(Seq<char>, u64)>, d1: Seq<u8>, d2: Seq<u8>)
    requires
        d1.len() >= 32,
        d2.len() >= 32,
        accepts(seen, d1),
    ensures
        ({
            let w1 = parse_murmur(d1.subrange(0, 32));
            let w2 = parse_murmur(d2.subrange(0, 32));
            accepts(seen_after(seen, d1), d2) <==> (!seen.contains((w2.id, w2.timestamp)) && (w1.id
                != w2.id || w1.timestamp != w2.timestamp))
        }),
{
    let w1 = parse_murmur(d1.subrange(0, 32));
    let w2 = parse_murmur(d2.subrange(0, 32));
    let s1 = seen.push((w1.id, w1.timestamp));
    assert(seen_after(seen, d1) == s1);
    if s1.contains((w2.id, w2.timestamp)) {
        let k = choose|k: int| 0 <= k < s1.len() && s1[k] == (w2.id, w2.timestamp);
        if k < seen.len() {
            assert(seen[k] == s1[k]);
        }
    }
    if seen.contains((w2.id, w2.timestamp)) {
        let k = choose|k: int| 0 <= k < seen.len() && seen[k] == (w2.id, w2.timestamp);
        assert(s1[k] == seen[k]);
    }
    if w1.id == w2.id && w1.timestamp == w2.timestamp {
        assert(s1[seen.len() as int] == (w2.id, w2.timestamp));
    }
}

/// Taking in the same fresh murmur twice leaves one room for its source:
/// the first time adds or blends the room, the second only blends it.
pub proof fn lemma_integrate_twice_one_room<V, F: Fn(&V, &V) -> V>(
    g0: GraphView<V>,
    g1: GraphView<V>,
    g2: GraphView<V>,
    m: MurmurView<V>,
    blend: &F,
)
    requires
        graph_wf(g0),
        integration_step(g0, g1, m, blend),
        integration_step(g1, g2, m, blend),
        !spec_is_expired(m.ttl, m.timestamp, g0.tick),
    ensures
        has_room(g2.rooms, m.source_id),
        g2.rooms.len() == g1.rooms.len(),
        g1.rooms.len() == g0.rooms.len() + if has_room(g0.rooms, m.source_id) {
            0int
        } else {
            1int
        },
{
    if has_room(g0.rooms, m.source_id) {
        let i = room_index(g0.rooms, m.source_id);
        assert(g1.rooms[i].id == m.source_id);
    } else {
        assert(g1.rooms[g0.rooms.len() as int].id == m.source_id);
    }
    assert(has_room(g1.rooms, m.source_id));
    let j = room_index(g1.rooms, m.source_id);
    assert(g2.rooms[j].id == m.source_id);
}

/// Adding a peer twice is adding it once, and a peer list without repeats
/// stays without repeats.
pub proof fn lemma_add_peer_idempotent(ps: Seq<PeerAddr>, a: PeerAddr)
    ensures
        with_peer(with_peer(ps, a), a) == with_peer(ps, a),
        with_peer(ps, a).contains(a),
        ps.no_duplicates() ==> with_peer(ps, a).no_duplicates(),
{
    assert(with_peer(ps, a)[with_peer(ps, a).len() - 1] == a || ps.contains(a));
    if !ps.contains(a) {
        assert(ps.push(a)[ps.len() as int] == a);
    }
}

/// A datagram that was taken is refused when it arrives again, and the
/// seen keys never repeat.
pub proof fn lemma_duplicate_refused(seen: Seq<(Seq<char>, u64)>, d: Seq<u8>)
    ensures
        !accepts(seen_after(seen, d), d),
        seen_after(seen_after(seen, d), d) == seen_after(seen, d),
        seen.no_duplicates() ==> seen_after(seen, d).no_duplicates(),
{
    if accepts(seen, d) {
        let s1 = seen.push(datagram_key(d));
        assert(s1[seen.len() as int] == datagram_key(d));
        assert(s1.contains(datagram_key(d)));
    }
}

pub open spec fn seen_keys(s: Seq<(String, u64)>) -> Seq<(Seq<char>, u64)> {
    s.map_values(|k: (String, u64)| (k.0@, k.1))
}

/// A node seen from the outside.
#[verifier::ext_equal]
pub ghost struct NodeView<V> {
    pub id: usize,
    pub port: u16,
    pub peers: Seq<PeerAddr>,
    pub graph: GraphView<V>,
    /// Keys (source id, timestamp) of the murmurs received, in arrival order.
    pub seen: Seq<(Seq<char>, u64)>,
}

impl<V> View for GossipNode<V> {
    type V = NodeView<V>;

    closed spec fn view(&self) -> NodeView<V> {
        NodeView {
            id: self.id,
            port: self.port,
            peers: self.peers@,
            graph: self.graph@,
            seen: seen_keys(self.seen_murmurs@),
        }
    }
}

impl<V: Copy> GossipNode<V> {
    /// The graph is well formed and no murmur key is recorded twice.
    pub open spec fn wf(&self) -> bool {
        &&& graph_wf(self@.graph)
        &&& self@.seen.no_duplicates()
    }

    /// A node with an empty graph, no peers and nothing received.
    pub fn new(id: usize, port: u16) -> (n: GossipNode<V>)
        ensures
            n.wf(),
            n@.id == id,
            n@.port == port,
            n@.peers == Seq::<PeerAddr>::empty(),
            n@.graph.rooms == Seq::<RoomView<V>>::empty(),
            n@.graph.edges == Seq::<AdjacencyView>::empty(),
            n@.graph.tick == 0,
            n@.seen == Seq::<(Seq<char>, u64)>::empty(),
    {
        let n = GossipNode {
            id,
            graph: CellGraph::new(),
            port,
            peers: Vec::new(),
            seen_murmurs: Vec::new(),
        };
        assert(n@.seen =~= Seq::<(Seq<char>, u64)>::empty());
        n
    }

    /// Adds a peer unless it is already known.
    pub fn add_peer(&mut self, addr: PeerAddr)
        requires
            old(self).wf(),
        ensures
            final(self).wf(),
            final(self)@.id == old(self)@.id,
            final(self)@.port == old(self)@.port,
            final(self)@.graph == old(self)@.graph,
            final(self)@.seen == old(self)@.seen,
            final(self)@.peers == with_peer(old(self)@.peers, addr),
    {
        let mut i: usize = 0;
        while i < self.peers.len()
            invariant
                self.wf(),
                i <= self@.peers.len(),
                forall|j: int| 0 <= j < i ==> #[trigger] self@.peers[j] != addr,
            decreases self@.peers.len() - i,
        {
            if self.peers[i] == addr {
                assert(self@.peers[i as int] == addr);
                return;
            }
            i += 1;
        }
        self.peers.push(addr);
    }

    /// One tick of the node's graph; returns the new tick.
    pub fn tick(&mut self) -> (t: u64)
        requires
            old(self).wf(),
            old(self)@.graph.tick < u64::MAX,
        ensures
            final(self).wf(),
            final(self)@.id == old(self)@.id,
            final(self)@.port == old(self)@.port,
            final(self)@.peers == old(self)@.peers,
            final(self)@.seen == old(self)@.seen,
            t == old(self)@.graph.tick + 1,
            final(self)@.graph == ticked_graph(old(self)@.graph),
    {
        self.graph.tick()
    }

    /// Takes a murmur from a peer into the node's graph (see
    /// `CellGraph::integrate_murmur`).
    pub fn integrate_murmur<F: Fn(&V, &V) -> V>(&mut self, murmur: Murmur<V>, blend: &F)
        requires
            old(self).wf(),
            forall|a: &V, b: &V| #[trigger] blend.requires((a, b)),
        ensures
            final(self).wf(),
            final(self)@.id == old(self)@.id,
            final(self)@.port == old(self)@.port,
            final(self)@.peers == old(self)@.peers,
            final(self)@.seen == old(self)@.seen,
            integration_step(old(self)@.graph, final(self)@.graph, murmur@, blend),
    {
        self.graph.integrate_murmur(&murmur, blend);
    }

    /// The node's graph.
    pub fn graph(&self) -> (g: &CellGraph<V>)
        ensures
            g@ == self@.graph,
    {
        &self.graph
    }

    /// The node's graph, to change it; the rest of the node stays as it is.
    pub fn graph_mut(&mut self) -> (g: &mut CellGraph<V>)
        ensures
            g@ == old(self)@.graph,
            final(self)@ == (NodeView { graph: final(g)@, ..old(self)@ }),
    {
        &mut self.graph
    }

    /// The node's peers, in the order they were added.
    pub fn peers(&self) -> (p: &Vec<PeerAddr>)
        ensures
            p@ == self@.peers,
    {
        &self.peers
    }

    pub fn id(&self) -> (id: usize)
        ensures
            id == self@.id,
    {
        self.id
    }

    pub fn port(&self) -> (port: u16)
        ensures
            port == self@.port,
    {
        self.port
    }

    /// Number of distinct murmurs received.
    pub fn seen_count(&self) -> (n: usize)
        ensures
            n == self@.seen.len(),
    {
        self.seen_murmurs.len()
    }

    fn has_seen(&self, source_id: &String, timestamp: u64) -> (b: bool)
        ensures
            b == self@.seen.contains((source_id@, timestamp)),
    {
        let mut i: usize = 0;
        while i < self.seen_murmurs.len()
            invariant
                i <= self.seen_murmurs@.len(),
                forall|j: int| 0 <= j < i ==> #[trigger] self@.seen[j] != (source_id@, timestamp),
            decreases self.seen_murmurs@.len() - i,
        {
            if self.seen_murmurs[i].0 == *source_id && self.seen_murmurs[i].1 == timestamp {
                assert(self@.seen[i as int] == (source_id@, timestamp));
                return true;
            }
            i += 1;
        }
        false
    }

    /// Handles one datagram received from a peer: one of at least
    /// `MURMUR_WIRE_LEN` bytes carries a murmur in its first
    /// `MURMUR_WIRE_LEN` bytes (see `deserialize_murmur`), which is
    /// returned and recorded unless a murmur with the same source id and
    /// timestamp was received before. Shorter datagrams are ignored.
    pub fn accept_datagram<D: Fn([u8; 16]) -> V>(&mut self, datagram: &[u8], dequantize: &D) -> (r:
        Option<Murmur<V>>)
        requires
            old(self).wf(),
            forall|b: [u8; 16]| #[trigger] dequantize.requires((b,)),
        ensures
            final(self).wf(),
            final(self)@.id == old(self)@.id,
            final(self)@.port == old(self)@.port,
            final(self)@.peers == old(self)@.peers,
            final(self)@.graph == old(self)@.graph,
            final(self)@.seen == seen_after(old(self)@.seen, datagram@),
            !accepts(old(self)@.seen, datagram@) ==> r is None,
            accepts(old(self)@.seen, datagram@) ==> ({
                let w = parse_murmur(datagram@.subrange(0, 32));
                r matches Some(m) && wire_of(m, w.vibe) == w && dequantized_from(
                    dequantize,
                    w.vibe,
                    m.vibe,
                )
            }),
    {
        if datagram.len() < MURMUR_WIRE_LEN {
            return None;
        }
        let mut data = [0u8; 32];
        let mut i: usize = 0;
        while i < MURMUR_WIRE_LEN
            invariant
                i <= MURMUR_WIRE_LEN,
                MURMUR_WIRE_LEN <= datagram@.len(),
                data@.len() == 32,
                forall|j: int| 0 <= j < i ==> #[trigger] data@[j] == datagram@[j],
            decreases MURMUR_WIRE_LEN - i,
        {
            data[i] = datagram[i];
            i += 1;
        }
        assert(data@ =~= datagram@.subrange(0, 32));
        let m = match deserialize_murmur(&data, dequantize) {
            Some(m) => m,
            None => {
                return None;
            },
        };
        if self.has_seen(&m.source_id, m.timestamp) {
            return None;
        }
        let ghost old_seen = self@.seen;
        self.seen_murmurs.push((m.source_id.clone(), m.timestamp));
        proof {
            assert(self@.seen =~= old_seen.push((m.source_id@, m.timestamp)));
            assert forall|a: int, b: int|
                0 <= a < self@.seen.len() && 0 <= b < self@.seen.len() && a != b implies self@.seen[a]
                != self@.seen[b] by {
                if a < old_seen.len() && b < old_seen.len() {
                } else if a == old_seen.len() {
                    assert(!old_seen.contains(self@.seen[a]));
                    assert(old_seen[b] == self@.seen[b]);
                } else {
                    assert(!old_seen.contains(self@.seen[b]));
                    assert(old_seen[a] == self@.seen[a]);
                }
            }
        }
        Some(m)
    }
}

} // verus!
