use vstd::prelude::*;
use vstd::utf8::{decode_utf8, encode_utf8, valid_utf8};

use crate::gossip::{
    add_neighbor, fresh_room, has_room, key_index, room_index, string_views, upsert_room,
    with_key, AdjacencyView, CellGraph, GraphView,
};
use crate::murmur::Murmur;
use crate::order::{sort_ids, sorted_ids};
use crate::room::RoomView;

verus! {

/// Size of an encoded murmur.
pub const MURMUR_WIRE_LEN: usize = 32;

/// Number of quantised vibe dimensions on the wire.
pub const VIBE_BYTES: usize = 16;

/// Width of an id field on the wire: ids are cut to this many bytes and
/// padded with zero bytes.
pub const ID_FIELD_LEN: usize = 8;

/// The fields of an encoded murmur: quantised vibe, source id, level, time
/// to live, hop count and timestamp.
#[verifier::ext_equal]
pub ghost struct WireMurmur {
    pub vibe: Seq<u8>,
    pub id: Seq<char>,
    pub level: u8,
    pub ttl: u8,
    pub hops: u8,
    pub timestamp: u64,
}

/// The four little-endian bytes of a 32-bit value.
pub open spec fn le32_bytes(x: u32) -> Seq<u8> {
    seq![
        (x % 256) as u8,
        ((x / 256) % 256) as u8,
        ((x / 65536) % 256) as u8,
        (x / 16777216) as u8,
    ]
}

/// The 32-bit value of four little-endian bytes.
pub open spec fn le32_value(b: Seq<u8>) -> u32 {
    (b[0] + 256 * b[1] + 65536 * b[2] + 16777216 * b[3]) as u32
}

/// An id field: the first `ID_FIELD_LEN` bytes of the id's UTF-8 encoding,
/// padded with zero bytes.
pub open spec fn id_field(id: Seq<char>) -> Seq<u8> {
    let b = encode_utf8(id);
    if b.len() >= ID_FIELD_LEN {
        b.subrange(0, ID_FIELD_LEN as int)
    } else {
        b + Seq::new((ID_FIELD_LEN - b.len()) as nat, |i: int| 0u8)
    }
}

/// `k` is where the name in field `f` ends: at its first zero byte, or at
/// its end if it has none.
pub open spec fn is_name_end(f: Seq<u8>, k: int) -> bool {
    &&& 0 <= k <= f.len()
    &&& forall|j: int| 0 <= j < k ==> #[trigger] f[j] != 0
    &&& k == f.len() || f[k] == 0
}

pub open spec fn name_end(f: Seq<u8>) -> int {
    choose|k: int| is_name_end(f, k)
}

/// The id that a name decodes to: its UTF-8 reading, or `fallback` when the
/// bytes are not valid UTF-8.
pub open spec fn decode_name(name: Seq<u8>, fallback: Seq<char>) -> Seq<char> {
    if valid_utf8(name) {
        decode_utf8(name)
    } else {
        fallback
    }
}

/// The id read from an id field.
pub open spec fn read_id(f: Seq<u8>, fallback: Seq<char>) -> Seq<char> {
    decode_name(f.subrange(0, name_end(f)), fallback)
}

/// What a murmur with an unreadable source id is attributed to.
pub open spec fn unknown_id() -> Seq<char> {
    seq!['u', 'n', 'k', 'n', 'o', 'w', 'n']
}

/// The 32 bytes of an encoded murmur.
pub open spec fn murmur_bytes(w: WireMurmur) -> Seq<u8> {
    w.vibe + id_field(w.id) + seq![w.level, w.ttl, w.hops] + le32_bytes(
        (w.timestamp % 0x1_0000_0000) as u32,
    ) + seq![0u8]
}

/// The murmur that 32 bytes decode to.
pub open spec fn parse_murmur(b: Seq<u8>) -> WireMurmur {
    WireMurmur {
        vibe: b.subrange(0, 16),
        id: read_id(b.subrange(16, 24), unknown_id()),
        level: b[24],
        ttl: b[25],
        hops: b[26],
        timestamp: le32_value(b.subrange(27, 31)) as u64,
    }
}

/// A murmur as it goes on the wire, with vibe `vibe`.
pub open spec fn wire_of<V>(m: Murmur<V>, vibe: Seq<u8>) -> WireMurmur {
    WireMurmur {
        vibe,
        id: m.source_id@,
        level: m.level,
        ttl: m.ttl,
        hops: m.hops,
        timestamp: m.timestamp,
    }
}

proof fn lemma_name_end_unique(f: Seq<u8>, k: int)
    requires
        is_name_end(f, k),
    ensures
        name_end(f) == k,
{
    let c = name_end(f);
    assert(is_name_end(f, c));
    if c < k {
        assert(f[c] != 0);
    } else if c > k {
        assert(f[k] != 0);
    }
}

/// `std::str::from_utf8`, copied into a `String`: the bytes read as UTF-8
/// when they are valid UTF-8, nothing otherwise.
#[verifier::external_body]
fn utf8_to_string(bytes: &[u8]) -> (r: Option<String>)
    ensures
        r is Some <==> valid_utf8(bytes@),
        r matches Some(s) ==> s@ == decode_utf8(bytes@),
{
    match std::str::from_utf8(bytes) {
        Ok(s) => Some(s.to_owned()),
        Err(_) => None,
    }
}

/// Reads the id in `data[start..start + ID_FIELD_LEN]`; returns it and
/// where its name ends.
fn read_id_field(data: &[u8], start: usize, fallback: &str) -> (r: String)
    requires
        start + ID_FIELD_LEN <= data@.len(),
    ensures
        r@ == read_id(data@.subrange(start as int, start + ID_FIELD_LEN), fallback@),
{
    let ghost f = data@.subrange(start as int, start + ID_FIELD_LEN);
    assert(data@.len() <= usize::MAX) by {
        assert(data@.len() == data.len());
    }
    let mut k: usize = 0;
    while k < ID_FIELD_LEN && data[start + k] != 0
        invariant
            k <= ID_FIELD_LEN,
            start + ID_FIELD_LEN <= data@.len() <= usize::MAX,
            f == data@.subrange(start as int, start + ID_FIELD_LEN),
            forall|j: int| 0 <= j < k ==> #[trigger] f[j] != 0,
        decreases ID_FIELD_LEN - k,
    {
        k += 1;
    }
    proof {
        lemma_name_end_unique(f, k as int);
    }
    let mut name: Vec<u8> = Vec::new();
    let mut i: usize = 0;
    while i < k
        invariant
            i <= k <= ID_FIELD_LEN,
            start + ID_FIELD_LEN <= data@.len() <= usize::MAX,
            f == data@.subrange(start as int, start + ID_FIELD_LEN),
            name@ == f.subrange(0, i as int),
        decreases k - i,
    {
        name.push(data[start + i]);
        i += 1;
        assert(name@ =~= f.subrange(0, i as int));
    }
    match utf8_to_string(name.as_slice()) {
        Some(s) => s,
        None => fallback.to_owned(),
    }
}

/// Encodes a murmur in its 32-byte wire format. `quantize` gives the 16
/// bytes that stand for the vibe; the source id is cut to `ID_FIELD_LEN`
/// bytes and the timestamp to its low 32 bits.
pub fn serialize_murmur<V, Q: Fn(&V) -> [u8; 16]>(murmur: &Murmur<V>, quantize: &Q) -> (out: [u8; 32])
    requires
        forall|v: &V| #[trigger] quantize.requires((v,)),
    ensures
        exists|vb: [u8; 16]|
            {
                &&& #[trigger] quantize.ensures((&murmur.vibe,), vb)
                &&& out@ == murmur_bytes(wire_of(*murmur, vb@))
            },
{
    let vb = quantize(&murmur.vibe);
    let mut out = [0u8; 32];
    let mut i: usize = 0;
    while i < VIBE_BYTES
        invariant
            i <= VIBE_BYTES,
            out@.len() == 32,
            forall|j: int| 0 <= j < i ==> #[trigger] out@[j] == vb@[j],
            forall|j: int| i <= j < 32 ==> #[trigger] out@[j] == 0,
        decreases VIBE_BYTES - i,
    {
        out[i] = vb[i];
        i += 1;
    }
    let id = murmur.source_id.as_str().as_bytes();
    let n = if id.len() < ID_FIELD_LEN { id.len() } else { ID_FIELD_LEN };
    let mut i: usize = 0;
    while i < n
        invariant
            i <= n <= ID_FIELD_LEN,
            n <= id@.len(),
            out@.len() == 32,
            forall|j: int| 0 <= j < 16 ==> #[trigger] out@[j] == vb@[j],
            forall|j: int| 0 <= j < i ==> #[trigger] out@[16 + j] == id@[j],
            forall|j: int| 16 + i <= j < 32 ==> #[trigger] out@[j] == 0,
        decreases n - i,
    {
        out[16 + i] = id[i];
        i += 1;
    }
    out[24] = murmur.level;
    out[25] = murmur.ttl;
    out[26] = murmur.hops;
    let ts = (murmur.timestamp % 0x1_0000_0000) as u32;
    out[27] = (ts % 256) as u8;
    out[28] = ((ts / 256) % 256) as u8;
    out[29] = ((ts / 65536) % 256) as u8;
    out[30] = (ts / 16777216) as u8;
    out[31] = 0;
    proof {
        let w = wire_of(*murmur, vb@);
        let f = id_field(murmur.source_id@);
        assert(id@ == encode_utf8(murmur.source_id@));
        assert forall|j: int| 0 <= j < 8 implies #[trigger] f[j] == out@[16 + j] by {
            if j < n {
            } else {
                assert(out@[16 + j] == 0);
            }
        }
        assert(out@ =~= murmur_bytes(w));
    }
    out
}

/// `v` is what `dequantize` gave for the 16 bytes `b`.
pub open spec fn dequantized_from<V, D: Fn([u8; 16]) -> V>(dequantize: &D, b: Seq<u8>, v: V) -> bool {
    exists|vb: [u8; 16]| vb@ == b && #[trigger] dequantize.ensures((vb,), v)
}

/// Decodes a murmur from its 32-byte wire format. `dequantize` turns the
/// 16 vibe bytes back into a vibe; an id that is not valid UTF-8 reads as
/// `"unknown"`. Every 32-byte buffer decodes.
pub fn deserialize_murmur<V, D: Fn([u8; 16]) -> V>(data: &[u8; 32], dequantize: &D) -> (r: Option<
    Murmur<V>,
>)
    requires
        forall|b: [u8; 16]| #[trigger] dequantize.requires((b,)),
    ensures
        r is Some,
        r matches Some(m) ==> wire_of(m, data@.subrange(0, 16)) == parse_murmur(data@),
        r matches Some(m) ==> dequantized_from(dequantize, data@.subrange(0, 16), m.vibe),
{
    let mut vb = [0u8; 16];
    let mut i: usize = 0;
    while i < VIBE_BYTES
        invariant
            i <= VIBE_BYTES,
            vb@.len() == 16,
            forall|j: int| 0 <= j < i ==> #[trigger] vb@[j] == data@[j],
        decreases VIBE_BYTES - i,
    {
        vb[i] = data[i];
        i += 1;
    }
    assert(vb@ =~= data@.subrange(0, 16));
    let vibe = dequantize(vb);
    let source_id = read_id_field(data.as_slice(), 16, "unknown");
    proof {
        reveal_strlit("unknown");
        assert(data@.subrange(16, 16 + ID_FIELD_LEN) =~= data@.subrange(16, 24));
    }
    let t: u32 = data[27] as u32 + 256 * (data[28] as u32) + 65536 * (data[29] as u32)
        + 16777216 * (data[30] as u32);
    let m = Murmur {
        source_id,
        vibe,
        level: data[24],
        ttl: data[25],
        hops: data[26],
        timestamp: t as u64,
    };
    assert(data@.subrange(27, 31)[0] == data@[27]);
    assert(t as u64 == le32_value(data@.subrange(27, 31)) as u64);
    assert(m.source_id@ == read_id(data@.subrange(16, 24), unknown_id()));
    assert(wire_of(m, data@.subrange(0, 16)) =~= parse_murmur(data@));
    assert(dequantize.ensures((vb,), m.vibe));
    assert(dequantized_from(dequantize, data@.subrange(0, 16), m.vibe));
    Some(m)
}

/// What an id must be for its field to give it back: its UTF-8 encoding
/// fits the field and has no zero byte.
pub open spec fn fits_id_field(id: Seq<char>) -> bool {
    &&& encode_utf8(id).len() <= ID_FIELD_LEN
    &&& forall|j: int| 0 <= j < encode_utf8(id).len() ==> #[trigger] encode_utf8(id)[j] != 0
}

proof fn lemma_le32_roundtrip(x: u32)
    ensures
        le32_value(le32_bytes(x)) == x,
{
    let b = le32_bytes(x);
    assert(b[0] == x % 256);
    assert(b[1] == (x / 256) % 256);
    assert(b[2] == (x / 65536) % 256);
    assert(b[3] == x / 16777216);
    assert(x % 256 + 256 * ((x / 256) % 256) + 65536 * ((x / 65536) % 256) + 16777216 * (x
        / 16777216) == x) by (nonlinear_arith);
}

proof fn lemma_id_field_roundtrip(id: Seq<char>, fallback: Seq<char>)
    requires
        fits_id_field(id),
    ensures
        id_field(id).len() == ID_FIELD_LEN,
        read_id(id_field(id), fallback) == id,
{
    let b = encode_utf8(id);
    let f = id_field(id);
    assert(f.len() == ID_FIELD_LEN);
    assert(is_name_end(f, b.len() as int));
    lemma_name_end_unique(f, b.len() as int);
    assert(f.subrange(0, b.len() as int) =~= b);
    vstd::utf8::encode_utf8_valid_utf8(id);
    vstd::utf8::encode_utf8_decode_utf8(id);
}

/// A murmur read back from its encoding is the murmur that was encoded,
/// when its vibe is 16 bytes, its id fits the id field, and its timestamp
/// fits in 32 bits.
pub proof fn lemma_murmur_roundtrip(w: WireMurmur)
    requires
        w.vibe.len() == VIBE_BYTES,
        fits_id_field(w.id),
        w.timestamp < 0x1_0000_0000,
    ensures
        murmur_bytes(w).len() == MURMUR_WIRE_LEN,
        parse_murmur(murmur_bytes(w)) == w,
{
    lemma_id_field_roundtrip(w.id, unknown_id());
    let b = murmur_bytes(w);
    let ts = (w.timestamp % 0x1_0000_0000) as u32;
    lemma_le32_roundtrip(ts);
    assert(b.subrange(0, 16) =~= w.vibe);
    assert(b.subrange(16, 24) =~= id_field(w.id));
    assert(b.subrange(27, 31) =~= le32_bytes(ts));
    assert(parse_murmur(b) =~= w);
}

/// The layout of an encoded murmur: 32 bytes; bytes 0..16 the quantised
/// vibe; bytes 16..24 the id's UTF-8 bytes, cut to 8 and padded with zero
/// bytes; bytes 24, 25, 26 the level, time to live and hop count; bytes
/// 27..31 the low 32 bits of the timestamp, least significant byte first;
/// byte 31 zero.
pub proof fn lemma_murmur_layout(w: WireMurmur)
    requires
        w.vibe.len() == 16,
    ensures
        murmur_bytes(w).len() == 32,
        murmur_bytes(w).subrange(0, 16) == w.vibe,
        forall|k: int|
            16 <= k < 24 ==> #[trigger] murmur_bytes(w)[k] == if k - 16 < encode_utf8(w.id).len() {
                encode_utf8(w.id)[k - 16]
            } else {
                0u8
            },
        murmur_bytes(w)[24] == w.level,
        murmur_bytes(w)[25] == w.ttl,
        murmur_bytes(w)[26] == w.hops,
        murmur_bytes(w)[27] + 256 * murmur_bytes(w)[28] + 65536 * murmur_bytes(w)[29] + 16777216
            * murmur_bytes(w)[30] == w.timestamp % 0x1_0000_0000,
        murmur_bytes(w)[31] == 0,
{
    let b = murmur_bytes(w);
    let e = encode_utf8(w.id);
    let ts = (w.timestamp % 0x1_0000_0000) as u32;
    lemma_le32_roundtrip(ts);
    assert(b.subrange(0, 16) =~= w.vibe);
    assert(b.subrange(16, 24) =~= id_field(w.id));
    assert forall|k: int| 16 <= k < 24 implies #[trigger] b[k] == if k - 16 < e.len() {
        e[k - 16]
    } else {
        0u8
    } by {
        assert(b[k] == b.subrange(16, 24)[k - 16]);
    }
    assert(b.subrange(27, 31) =~= le32_bytes(ts));
    assert(b[27] == le32_bytes(ts)[0]);
    assert(b[28] == le32_bytes(ts)[1]);
    assert(b[29] == le32_bytes(ts)[2]);
    assert(b[30] == le32_bytes(ts)[3]);
}

// ---------------------------------------------------------------------------
// Graph state
//
//   [0..4]   room count (u32 LE)
//   [4..8]   edge count (u32 LE): total length of all neighbour lists
//   [8..12]  tick (u32 LE)
//   then per room, in id order:   8-byte id field, 16 vibe bytes
//   then per adjacency list, in id order of its id, and per neighbour in
//   id order: 8-byte id field of the list's id, 8-byte id field of the
//   neighbour
// ---------------------------------------------------------------------------

/// Size of the graph state header.
pub const GRAPH_HEADER_LEN: usize = 12;

/// Size of one room record.
pub const ROOM_RECORD_LEN: usize = 24;

/// Size of one edge record.
pub const EDGE_RECORD_LEN: usize = 16;

/// Total length of all neighbour lists.
pub open spec fn total_edges(es: Seq<AdjacencyView>) -> nat
    decreases es.len(),
{
    if es.len() == 0 {
        0
    } else {
        total_edges(es.drop_last()) + es.last().1.len()
    }
}

pub open spec fn room_id_seq<V>(rs: Seq<RoomView<V>>) -> Seq<Seq<char>> {
    rs.map_values(|r: RoomView<V>| r.id)
}

pub open spec fn edge_key_seq(es: Seq<AdjacencyView>) -> Seq<Seq<char>> {
    es.map_values(|e: AdjacencyView| e.0)
}

/// Room records for the rooms with the given ids, in that order; `q[i]` is
/// the quantised vibe of room `i`.
pub open spec fn room_records<V>(g: GraphView<V>, q: Seq<Seq<u8>>, ids: Seq<Seq<char>>) -> Seq<u8>
    decreases ids.len(),
{
    if ids.len() == 0 {
        Seq::empty()
    } else {
        room_records(g, q, ids.drop_last()) + id_field(ids.last()) + q[room_index(
            g.rooms,
            ids.last(),
        )]
    }
}

/// Edge records from `k` to each of `ns`, in that order.
pub open spec fn neighbor_records(k: Seq<char>, ns: Seq<Seq<char>>) -> Seq<u8>
    decreases ns.len(),
{
    if ns.len() == 0 {
        Seq::empty()
    } else {
        neighbor_records(k, ns.drop_last()) + id_field(k) + id_field(ns.last())
    }
}

/// Edge records of the adjacency lists with the given keys, in that order,
/// each list's neighbours in id order.
pub open spec fn edge_records(es: Seq<AdjacencyView>, keys: Seq<Seq<char>>) -> Seq<u8>
    decreases keys.len(),
{
    if keys.len() == 0 {
        Seq::empty()
    } else {
        edge_records(es, keys.drop_last()) + neighbor_records(
            keys.last(),
            sorted_ids(es[key_index(es, keys.last())].1),
        )
    }
}

/// The encoded state of graph `g`, whose room `i` has quantised vibe `q[i]`.
pub open spec fn graph_bytes<V>(g: GraphView<V>, q: Seq<Seq<u8>>) -> Seq<u8> {
    le32_bytes((g.rooms.len() % 0x1_0000_0000) as u32) + le32_bytes(total_edges(g.edges) as u32)
        + le32_bytes((g.tick % 0x1_0000_0000) as u32) + room_records(
        g,
        q,
        sorted_ids(room_id_seq(g.rooms)),
    ) + edge_records(g.edges, sorted_ids(edge_key_seq(g.edges)))
}

/// The header of an encoded graph state: bytes 0..4, 4..8 and 8..12 read as
/// little-endian 32-bit values give the room count, the number of edge
/// records (the total length of the neighbour lists) and the tick, the
/// counts and the tick cut to their low 32 bits.
pub proof fn lemma_graph_header<V>(g: GraphView<V>, q: Seq<Seq<u8>>)
    requires
        total_edges(g.edges) <= u32::MAX,
    ensures
        graph_bytes(g, q).len() >= 12,
        le32_value(graph_bytes(g, q).subrange(0, 4)) == g.rooms.len() % 0x1_0000_0000,
        le32_value(graph_bytes(g, q).subrange(4, 8)) == total_edges(g.edges),
        le32_value(graph_bytes(g, q).subrange(8, 12)) == g.tick % 0x1_0000_0000,
{
    let b = graph_bytes(g, q);
    let h1 = le32_bytes((g.rooms.len() % 0x1_0000_0000) as u32);
    let h2 = le32_bytes(total_edges(g.edges) as u32);
    let h3 = le32_bytes((g.tick % 0x1_0000_0000) as u32);
    lemma_le32_roundtrip((g.rooms.len() % 0x1_0000_0000) as u32);
    lemma_le32_roundtrip(total_edges(g.edges) as u32);
    lemma_le32_roundtrip((g.tick % 0x1_0000_0000) as u32);
    assert(b.subrange(0, 4) =~= h1);
    assert(b.subrange(4, 8) =~= h2);
    assert(b.subrange(8, 12) =~= h3);
}

/// `q[i]` is what `quantize` gave for the vibe of room `i`.
pub open spec fn quantized_rooms<V, Q: Fn(&V) -> [u8; 16]>(
    rs: Seq<RoomView<V>>,
    q: Seq<[u8; 16]>,
    quantize: &Q,
) -> bool {
    &&& q.len() == rs.len()
    &&& forall|i: int| 0 <= i < rs.len() ==> #[trigger] quantize.ensures((&rs[i].vibe,), q[i])
}

pub open spec fn array_views(q: Seq<[u8; 16]>) -> Seq<Seq<u8>> {
    q.map_values(|a: [u8; 16]| a@)
}

/// Appends the four little-endian bytes of `x`.
fn push_le32(buf: &mut Vec<u8>, x: u32)
    ensures
        final(buf)@ == old(buf)@ + le32_bytes(x),
{
    buf.push((x % 256) as u8);
    buf.push(((x / 256) % 256) as u8);
    buf.push(((x / 65536) % 256) as u8);
    buf.push((x / 16777216) as u8);
    assert(buf@ =~= old(buf)@ + le32_bytes(x));
}

/// Appends the id field of `id`.
fn push_id_field(buf: &mut Vec<u8>, id: &String)
    ensures
        final(buf)@ == old(buf)@ + id_field(id@),
{
    let bytes = id.as_str().as_bytes();
    let ghost start = buf@;
    let mut i: usize = 0;
    while i < ID_FIELD_LEN
        invariant
            i <= ID_FIELD_LEN,
            bytes@ == encode_utf8(id@),
            buf@.len() == start.len() + i,
            forall|j: int| 0 <= j < start.len() ==> #[trigger] buf@[j] == start[j],
            forall|j: int|
                0 <= j < i ==> #[trigger] buf@[start.len() + j] == id_field(id@)[j],
        decreases ID_FIELD_LEN - i,
    {
        if i < bytes.len() {
            buf.push(bytes[i]);
        } else {
            buf.push(0);
        }
        i += 1;
    }
    assert(id_field(id@).len() == ID_FIELD_LEN);
    assert forall|j: int| start.len() <= j < buf@.len() implies #[trigger] buf@[j] == id_field(
        id@,
    )[j - start.len()] by {
        assert(buf@[start.len() + (j - start.len())] == id_field(id@)[j - start.len()]);
    }
    assert(buf@ =~= start + id_field(id@));
}

/// Appends the 16 bytes of `a`.
fn push_array(buf: &mut Vec<u8>, a: &[u8; 16])
    ensures
        final(buf)@ == old(buf)@ + a@,
{
    let ghost start = buf@;
    let mut i: usize = 0;
    while i < VIBE_BYTES
        invariant
            i <= VIBE_BYTES,
            buf@ == start + a@.subrange(0, i as int),
        decreases VIBE_BYTES - i,
    {
        buf.push(a[i]);
        i += 1;
        assert(buf@ =~= start + a@.subrange(0, i as int));
    }
    assert(a@.subrange(0, 16) =~= a@);
}

/// Length of the encoded state of `g`.
pub open spec fn graph_bytes_len<V>(g: GraphView<V>) -> int {
    GRAPH_HEADER_LEN + ROOM_RECORD_LEN * g.rooms.len() + EDGE_RECORD_LEN * total_edges(g.edges)
}

proof fn lemma_total_edges_prefix(es: Seq<AdjacencyView>, k: int)
    requires
        0 <= k < es.len(),
    ensures
        total_edges(es.subrange(0, k + 1)) == total_edges(es.subrange(0, k)) + es[k].1.len(),
        total_edges(es.subrange(0, k)) <= total_edges(es),
    decreases es.len() - k,
{
    assert(es.subrange(0, k + 1).drop_last() =~= es.subrange(0, k));
    if k + 1 < es.len() {
        lemma_total_edges_prefix(es, k + 1);
    } else {
        assert(es.subrange(0, k + 1) =~= es);
    }
}

/// `total_edges(es)`, given that it fits in 32 bits.
fn count_edges(es: &Vec<crate::gossip::Adjacency>) -> (n: u32)
    requires
        total_edges(es@.map_values(|e: crate::gossip::Adjacency| e@)) <= u32::MAX,
    ensures
        n == total_edges(es@.map_values(|e: crate::gossip::Adjacency| e@)),
{
    let ghost ev = es@.map_values(|e: crate::gossip::Adjacency| e@);
    let mut n: u32 = 0;
    let mut k: usize = 0;
    assert(ev.subrange(0, 0) =~= Seq::<AdjacencyView>::empty());
    while k < es.len()
        invariant
            k <= es@.len(),
            ev == es@.map_values(|e: crate::gossip::Adjacency| e@),
            total_edges(ev) <= u32::MAX,
            n == total_edges(ev.subrange(0, k as int)),
        decreases es@.len() - k,
    {
        proof {
            lemma_total_edges_prefix(ev, k as int);
            if k + 1 < ev.len() {
                lemma_total_edges_prefix(ev, k + 1);
            } else {
                assert(ev.subrange(0, k + 1) =~= ev);
            }
            assert(ev[k as int] == es@[k as int]@);
            assert(ev[k as int].1.len() == es@[k as int].neighbors@.len());
        }
        let len = es[k].neighbors.len();
        assert(len <= u32::MAX);
        n = n + len as u32;
        k += 1;
    }
    assert(ev.subrange(0, k as int) =~= ev);
    n
}

/// Clones of the ids of all rooms, in room order.
fn room_id_list<V: Copy>(graph: &CellGraph<V>) -> (ids: Vec<String>)
    ensures
        string_views(ids@) == room_id_seq(graph@.rooms),
{
    let rooms = graph.rooms();
    let mut ids: Vec<String> = Vec::new();
    let mut i: usize = 0;
    while i < rooms.len()
        invariant
            i <= rooms@.len(),
            rooms@.map_values(|x: crate::room::Room<V>| x@) == graph@.rooms,
            string_views(ids@) == room_id_seq(graph@.rooms).subrange(0, i as int),
        decreases rooms@.len() - i,
    {
        assert(rooms@.map_values(|x: crate::room::Room<V>| x@)[i as int] == rooms@[i as int]@);
        let ghost old_ids = ids@;
        ids.push(rooms[i].room_id.clone());
        proof {
            let prev = room_id_seq(graph@.rooms).subrange(0, i as int);
            assert(room_id_seq(graph@.rooms).subrange(0, i + 1) =~= prev.push(graph@.rooms[i as int].id));
            assert(string_views(ids@) =~= string_views(ids@.drop_last()).push(ids@.last()@));
            assert(ids@.drop_last() == old_ids);
        }
        i += 1;
    }
    assert(room_id_seq(graph@.rooms).subrange(0, i as int) =~= room_id_seq(graph@.rooms));
    ids
}

/// Clones of the ids of all adjacency lists, in list order.
fn edge_key_list<V: Copy>(graph: &CellGraph<V>) -> (ids: Vec<String>)
    ensures
        string_views(ids@) == edge_key_seq(graph@.edges),
{
    let edges = graph.edges();
    let mut ids: Vec<String> = Vec::new();
    let mut i: usize = 0;
    while i < edges.len()
        invariant
            i <= edges@.len(),
            edges@.map_values(|x: crate::gossip::Adjacency| x@) == graph@.edges,
            string_views(ids@) == edge_key_seq(graph@.edges).subrange(0, i as int),
        decreases edges@.len() - i,
    {
        assert(edges@.map_values(|x: crate::gossip::Adjacency| x@)[i as int] == edges@[i as int]@);
        let ghost old_ids = ids@;
        ids.push(edges[i].room_id.clone());
        proof {
            let prev = edge_key_seq(graph@.edges).subrange(0, i as int);
            assert(edge_key_seq(graph@.edges).subrange(0, i + 1) =~= prev.push(graph@.edges[i as int].0));
            assert(string_views(ids@) =~= string_views(ids@.drop_last()).push(ids@.last()@));
            assert(ids@.drop_last() == old_ids);
        }
        i += 1;
    }
    assert(edge_key_seq(graph@.edges).subrange(0, i as int) =~= edge_key_seq(graph@.edges));
    ids
}

/// `out` is the encoded state of `g`, with room vibes quantised by
/// `quantize`.
pub open spec fn is_graph_encoding<V, Q: Fn(&V) -> [u8; 16]>(
    out: Seq<u8>,
    g: GraphView<V>,
    quantize: &Q,
) -> bool {
    exists|q: Seq<[u8; 16]>|
        #[trigger] quantized_rooms(g.rooms, q, quantize) && out == graph_bytes(g, array_views(q))
}

proof fn lemma_sorted_member_is_room<V>(rs: Seq<RoomView<V>>, x: Seq<char>)
    requires
        sorted_ids(room_id_seq(rs)).contains(x),
    ensures
        has_room(rs, x),
{
    crate::order::lemma_id_order_total();
    room_id_seq(rs).lemma_sort_by_ensures(crate::order::id_order());
    let i = choose|i: int| 0 <= i < rs.len() && room_id_seq(rs)[i] == x;
    assert(rs[i].id == x);
}

proof fn lemma_sorted_member_is_key(es: Seq<AdjacencyView>, x: Seq<char>)
    requires
        sorted_ids(edge_key_seq(es)).contains(x),
    ensures
        crate::gossip::has_key(es, x),
{
    crate::order::lemma_id_order_total();
    edge_key_seq(es).lemma_sort_by_ensures(crate::order::id_order());
    let i = choose|i: int| 0 <= i < es.len() && edge_key_seq(es)[i] == x;
    assert(es[i].0 == x);
}

/// Encodes the state of a graph: header, then room records in id order,
/// then edge records in id order of list and neighbour. `quantize` gives
/// the 16 bytes that stand for a room's vibe. The room count and tick are
/// cut to their low 32 bits.
pub fn serialize_graph_state<V: Copy, Q: Fn(&V) -> [u8; 16]>(graph: &CellGraph<V>, quantize: &Q) -> (out: Vec<u8>)
    requires
        graph.wf(),
        forall|v: &V| #[trigger] quantize.requires((v,)),
        total_edges(graph@.edges) <= u32::MAX,
        graph_bytes_len(graph@) <= usize::MAX,
    ensures
        is_graph_encoding(out@, graph@, quantize),
{
    let ghost g = graph@;
    let rooms = graph.rooms();
    let mut q: Vec<[u8; 16]> = Vec::new();
    let mut i: usize = 0;
    while i < rooms.len()
        invariant
            i <= rooms@.len(),
            rooms@.map_values(|x: crate::room::Room<V>| x@) == g.rooms,
            forall|v: &V| #[trigger] quantize.requires((v,)),
            q@.len() == i,
            forall|j: int| 0 <= j < i ==> #[trigger] quantize.ensures((&g.rooms[j].vibe,), q@[j]),
        decreases rooms@.len() - i,
    {
        assert(rooms@.map_values(|x: crate::room::Room<V>| x@)[i as int] == rooms@[i as int]@);
        q.push(quantize(&rooms[i].vibe));
        i += 1;
    }
    assert(quantized_rooms(g.rooms, q@, quantize));
    let ghost qv = array_views(q@);
    let mut buf: Vec<u8> = Vec::new();
    push_le32(&mut buf, (rooms.len() as u64 % 0x1_0000_0000) as u32);
    push_le32(&mut buf, count_edges(graph.edges()));
    push_le32(&mut buf, (graph.current_tick() % 0x1_0000_0000) as u32);
    let ghost header = buf@;
    assert(header =~= le32_bytes((g.rooms.len() % 0x1_0000_0000) as u32) + le32_bytes(
        total_edges(g.edges) as u32,
    ) + le32_bytes((g.tick % 0x1_0000_0000) as u32));

    let ids = sort_ids(&room_id_list(graph));
    let ghost sids = sorted_ids(room_id_seq(g.rooms));
    let mut j: usize = 0;
    assert(sids.subrange(0, 0) =~= Seq::<Seq<char>>::empty());
    while j < ids.len()
        invariant
            graph.wf(),
            g == graph@,
            string_views(ids@) == sids,
            sids == sorted_ids(room_id_seq(g.rooms)),
            q@.len() == g.rooms.len(),
            qv == array_views(q@),
            j <= ids@.len(),
            buf@ == header + room_records(g, qv, sids.subrange(0, j as int)),
        decreases ids@.len() - j,
    {
        assert(sids[j as int] == ids@[j as int]@);
        assert(sids.contains(sids[j as int]));
        proof {
            lemma_sorted_member_is_room(g.rooms, sids[j as int]);
        }
        push_id_field(&mut buf, &ids[j]);
        let r = match graph.find_room(&ids[j]) {
            Some(r) => r,
            None => 0,
        };
        push_array(&mut buf, &q[r]);
        proof {
            let cur = sids.subrange(0, j + 1);
            assert(cur.drop_last() =~= sids.subrange(0, j as int));
            assert(cur.last() == sids[j as int]);
            assert(qv[r as int] == q@[r as int]@);
        }
        j += 1;
    }
    assert(sids.subrange(0, j as int) =~= sids);
    let ghost with_rooms = buf@;

    let keys = sort_ids(&edge_key_list(graph));
    let ghost skeys = sorted_ids(edge_key_seq(g.edges));
    let edges = graph.edges();
    let mut k: usize = 0;
    assert(skeys.subrange(0, 0) =~= Seq::<Seq<char>>::empty());
    while k < keys.len()
        invariant
            graph.wf(),
            g == graph@,
            edges@.map_values(|x: crate::gossip::Adjacency| x@) == g.edges,
            string_views(keys@) == skeys,
            skeys == sorted_ids(edge_key_seq(g.edges)),
            k <= keys@.len(),
            buf@ == with_rooms + edge_records(g.edges, skeys.subrange(0, k as int)),
        decreases keys@.len() - k,
    {
        assert(skeys[k as int] == keys@[k as int]@);
        assert(skeys.contains(skeys[k as int]));
        proof {
            lemma_sorted_member_is_key(g.edges, skeys[k as int]);
        }
        let e = match graph.find_key(&keys[k]) {
            Some(e) => e,
            None => 0,
        };
        assert(edges@.map_values(|x: crate::gossip::Adjacency| x@)[e as int] == edges@[e as int]@);
        let ns = sort_ids(&edges[e].neighbors);
        let ghost sns = sorted_ids(g.edges[e as int].1);
        let ghost before = buf@;
        let mut n: usize = 0;
        assert(sns.subrange(0, 0) =~= Seq::<Seq<char>>::empty());
        while n < ns.len()
            invariant
                string_views(ns@) == sns,
                k < keys@.len(),
                n <= ns@.len(),
                buf@ == before + neighbor_records(keys@[k as int]@, sns.subrange(0, n as int)),
            decreases ns@.len() - n,
        {
            push_id_field(&mut buf, &keys[k]);
            push_id_field(&mut buf, &ns[n]);
            proof {
                let cur = sns.subrange(0, n + 1);
                assert(cur.drop_last() =~= sns.subrange(0, n as int));
                assert(cur.last() == ns@[n as int]@);
            }
            n += 1;
        }
        assert(sns.subrange(0, n as int) =~= sns);
        proof {
            let cur = skeys.subrange(0, k + 1);
            assert(cur.drop_last() =~= skeys.subrange(0, k as int));
            assert(cur.last() == skeys[k as int]);
        }
        k += 1;
    }
    assert(skeys.subrange(0, k as int) =~= skeys);
    assert(buf@ == graph_bytes(g, qv));
    buf
}

/// What an id that is not valid UTF-8 reads as in graph state.
pub open spec fn placeholder_id() -> Seq<char> {
    seq!['?']
}

/// The graph `g` after the first `n` room records of `b` have been read:
/// each adds (or replaces) a room with the record's id and vibe bytes.
pub open spec fn apply_room_records(g: GraphView<Seq<u8>>, b: Seq<u8>, n: nat) -> GraphView<Seq<u8>>
    decreases n,
{
    if n == 0 {
        g
    } else {
        let prev = apply_room_records(g, b, (n - 1) as nat);
        let o = GRAPH_HEADER_LEN + ROOM_RECORD_LEN * (n - 1);
        let id = read_id(b.subrange(o, o + 8), placeholder_id());
        GraphView {
            rooms: upsert_room(prev.rooms, fresh_room(id, b.subrange(o + 8, o + 24))),
            edges: with_key(prev.edges, id),
            tick: prev.tick,
        }
    }
}

/// The graph `g` after the first `n` edge records of `b` from `off` on
/// have been read: each connects its two ids both ways.
pub open spec fn apply_edge_records(g: GraphView<Seq<u8>>, b: Seq<u8>, off: int, n: nat) -> GraphView<
    Seq<u8>,
>
    decreases n,
{
    if n == 0 {
        g
    } else {
        let prev = apply_edge_records(g, b, off, (n - 1) as nat);
        let o = off + EDGE_RECORD_LEN * (n - 1);
        let a = read_id(b.subrange(o, o + 8), placeholder_id());
        let c = read_id(b.subrange(o + 8, o + 16), placeholder_id());
        GraphView { edges: add_neighbor(add_neighbor(prev.edges, a, c), c, a), ..prev }
    }
}

pub open spec fn min_nat(a: nat, b: nat) -> nat {
    if a <= b {
        a
    } else {
        b
    }
}

/// The graph that graph state `b` decodes to, vibes left as bytes. Input
/// shorter than the header gives an empty graph; records that the input
/// is too short for are not read.
pub open spec fn parse_graph(b: Seq<u8>) -> GraphView<Seq<u8>> {
    if b.len() < GRAPH_HEADER_LEN {
        GraphView { rooms: Seq::empty(), edges: Seq::empty(), tick: 0 }
    } else {
        let rc = le32_value(b.subrange(0, 4)) as nat;
        let ec = le32_value(b.subrange(4, 8)) as nat;
        let t = le32_value(b.subrange(8, 12)) as u64;
        let nr = min_nat(rc, ((b.len() - GRAPH_HEADER_LEN) / ROOM_RECORD_LEN as int) as nat);
        let off = GRAPH_HEADER_LEN + ROOM_RECORD_LEN * nr;
        let ne = min_nat(ec, ((b.len() - off) / EDGE_RECORD_LEN as int) as nat);
        let start = GraphView { rooms: Seq::empty(), edges: Seq::empty(), tick: t };
        apply_edge_records(apply_room_records(start, b, nr), b, off, ne)
    }
}

/// `g` is `s` with each room's vibe bytes turned into a vibe by `dequantize`.
pub open spec fn dequantized_graph<V, D: Fn([u8; 16]) -> V>(
    s: GraphView<Seq<u8>>,
    g: GraphView<V>,
    dequantize: &D,
) -> bool {
    &&& g.edges == s.edges
    &&& g.tick == s.tick
    &&& g.rooms.len() == s.rooms.len()
    &&& forall|i: int|
        0 <= i < g.rooms.len() ==> {
            &&& #[trigger] g.rooms[i].id == s.rooms[i].id
            &&& g.rooms[i].perceptions == Seq::<V>::empty()
            &&& s.rooms[i].perceptions == Seq::<Seq<u8>>::empty()
            &&& dequantized_from(dequantize, s.rooms[i].vibe, g.rooms[i].vibe)
        }
}

proof fn lemma_same_ids_index<V>(s: Seq<RoomView<Seq<u8>>>, g: Seq<RoomView<V>>, id: Seq<char>)
    requires
        s.len() == g.len(),
        forall|i: int| 0 <= i < g.len() ==> #[trigger] g[i].id == s[i].id,
        crate::gossip::room_ids_distinct(g),
    ensures
        crate::gossip::room_ids_distinct(s),
        has_room(s, id) == has_room(g, id),
        has_room(g, id) ==> room_index(s, id) == room_index(g, id),
{
    assert forall|a: int, b: int| 0 <= a < b < s.len() implies #[trigger] s[a].id != #[trigger] s[
        b
    ].id by {
        assert(g[a].id != g[b].id);
    }
    if has_room(g, id) {
        let i = room_index(g, id);
        assert(s[i].id == id);
        crate::gossip::lemma_room_index_unique(g, i);
        crate::gossip::lemma_room_index_unique(s, i);
    }
    if has_room(s, id) {
        let i = room_index(s, id);
        assert(g[i].id == id);
    }
}

/// Decodes graph state (see `serialize_graph_state`). `dequantize` turns
/// each room's 16 vibe bytes into a vibe; an id that is not valid UTF-8
/// reads as `"?"`. Every input decodes; see `parse_graph`.
pub fn deserialize_graph_state<V: Copy, D: Fn([u8; 16]) -> V>(data: &[u8], dequantize: &D) -> (g: CellGraph<V>)
    requires
        forall|b: [u8; 16]| #[trigger] dequantize.requires((b,)),
    ensures
        g.wf(),
        dequantized_graph(parse_graph(data@), g@, dequantize),
{
    let mut graph: CellGraph<V> = CellGraph::new();
    if data.len() < GRAPH_HEADER_LEN {
        assert(dequantized_graph(parse_graph(data@), graph@, dequantize));
        return graph;
    }
    let len = data.len();
    let room_count: u32 = data[0] as u32 + 256 * (data[1] as u32) + 65536 * (data[2] as u32)
        + 16777216 * (data[3] as u32);
    let edge_count: u32 = data[4] as u32 + 256 * (data[5] as u32) + 65536 * (data[6] as u32)
        + 16777216 * (data[7] as u32);
    let tick: u32 = data[8] as u32 + 256 * (data[9] as u32) + 65536 * (data[10] as u32)
        + 16777216 * (data[11] as u32);
    graph.set_tick(tick as u64);
    let ghost b = data@;
    assert(room_count == le32_value(b.subrange(0, 4)));
    assert(edge_count == le32_value(b.subrange(4, 8)));
    assert(tick == le32_value(b.subrange(8, 12)));
    let ghost start = GraphView::<Seq<u8>> { rooms: Seq::empty(), edges: Seq::empty(), tick: tick as u64 };

    let mut offset: usize = GRAPH_HEADER_LEN;
    let mut i: u32 = 0;
    while i < room_count && len - offset >= ROOM_RECORD_LEN
        invariant
            len == b.len(),
            b == data@,
            len <= usize::MAX,
            len >= GRAPH_HEADER_LEN,
            i <= room_count,
            offset == GRAPH_HEADER_LEN + ROOM_RECORD_LEN * i,
            offset <= len,
            graph.wf(),
            forall|x: [u8; 16]| #[trigger] dequantize.requires((x,)),
            dequantized_graph(apply_room_records(start, b, i as nat), graph@, dequantize),
        decreases room_count - i,
    {
        let id = read_id_field(data, offset, "?");
        let mut vb = [0u8; 16];
        let mut j: usize = 0;
        while j < VIBE_BYTES
            invariant
                j <= VIBE_BYTES,
                offset + ROOM_RECORD_LEN <= len,
                len == data@.len(),
                vb@.len() == 16,
                forall|x: int| 0 <= x < j ==> #[trigger] vb@[x] == data@[offset + 8 + x],
            decreases VIBE_BYTES - j,
        {
            vb[j] = data[offset + 8 + j];
            j += 1;
        }
        assert(vb@ =~= b.subrange(offset + 8, offset + 24));
        let v = dequantize(vb);
        let ghost prev_s = apply_room_records(start, b, i as nat);
        let ghost prev_g = graph@;
        proof {
            reveal_strlit("?");
            assert("?"@ =~= placeholder_id());
            assert(b.subrange(offset as int, offset + ID_FIELD_LEN) =~= b.subrange(
                offset as int,
                offset + 8,
            ));
            lemma_same_ids_index(prev_s.rooms, prev_g.rooms, id@);
        }
        graph.add_room(id.as_str(), v);
        proof {
            let next_s = apply_room_records(start, b, (i + 1) as nat);
            let nr = fresh_room(id@, b.subrange(offset + 8, offset + 24));
            assert(next_s.rooms == upsert_room(prev_s.rooms, nr));
            assert(dequantized_from(dequantize, nr.vibe, v));
            assert(graph@.edges == next_s.edges);
            assert(graph@.tick == next_s.tick);
            if has_room(prev_g.rooms, id@) {
                let k = room_index(prev_g.rooms, id@);
                assert(graph@.rooms == prev_g.rooms.update(k, fresh_room(id@, v)));
                assert(next_s.rooms == prev_s.rooms.update(k, nr));
            } else {
                assert(graph@.rooms == prev_g.rooms.push(fresh_room(id@, v)));
                assert(next_s.rooms == prev_s.rooms.push(nr));
            }
            assert forall|x: int| 0 <= x < graph@.rooms.len() implies {
                &&& #[trigger] graph@.rooms[x].id == next_s.rooms[x].id
                &&& graph@.rooms[x].perceptions == Seq::<V>::empty()
                &&& next_s.rooms[x].perceptions == Seq::<Seq<u8>>::empty()
                &&& dequantized_from(dequantize, next_s.rooms[x].vibe, graph@.rooms[x].vibe)
            } by {
                if x < prev_g.rooms.len() && !(has_room(prev_g.rooms, id@) && x == room_index(
                    prev_g.rooms,
                    id@,
                )) {
                    assert(prev_g.rooms[x].id == prev_s.rooms[x].id);
                }
            }
            assert(dequantized_graph(next_s, graph@, dequantize));
        }
        offset = offset + ROOM_RECORD_LEN;
        i = i + 1;
    }
    let ghost nr = min_nat(
        room_count as nat,
        ((b.len() - GRAPH_HEADER_LEN) / ROOM_RECORD_LEN as int) as nat,
    );
    assert(i == nr);
    let ghost after_rooms = apply_room_records(start, b, i as nat);
    let ghost off = offset as int;

    let mut e: u32 = 0;
    while e < edge_count && len - offset >= EDGE_RECORD_LEN
        invariant
            len == b.len(),
            b == data@,
            len <= usize::MAX,
            e <= edge_count,
            offset == off + EDGE_RECORD_LEN * e,
            offset <= len,
            graph.wf(),
            dequantized_graph(apply_edge_records(after_rooms, b, off, e as nat), graph@, dequantize),
        decreases edge_count - e,
    {
        let from = read_id_field(data, offset, "?");
        let to = read_id_field(data, offset + ID_FIELD_LEN, "?");
        let ghost prev_s = apply_edge_records(after_rooms, b, off, e as nat);
        let ghost prev_g = graph@;
        proof {
            reveal_strlit("?");
            assert("?"@ =~= placeholder_id());
            assert(b.subrange(offset as int, offset + ID_FIELD_LEN) =~= b.subrange(
                offset as int,
                offset + 8,
            ));
            assert(b.subrange(offset + ID_FIELD_LEN, offset + ID_FIELD_LEN + ID_FIELD_LEN)
                =~= b.subrange(offset + 8, offset + 16));
        }
        graph.add_edge(from.as_str(), to.as_str());
        proof {
            let next_s = apply_edge_records(after_rooms, b, off, (e + 1) as nat);
            assert(next_s.rooms == prev_s.rooms);
            assert(graph@.rooms == prev_g.rooms);
            assert(next_s.edges == graph@.edges);
            assert(dequantized_graph(next_s, graph@, dequantize));
        }
        offset = offset + EDGE_RECORD_LEN;
        e = e + 1;
    }
    assert(e == min_nat(edge_count as nat, ((b.len() - off) / EDGE_RECORD_LEN as int) as nat));
    graph
}

// ---------------------------------------------------------------------------
// Graph state read back
// ---------------------------------------------------------------------------

proof fn lemma_room_records_shape<V>(g: GraphView<V>, q: Seq<Seq<u8>>, ids: Seq<Seq<char>>, m: int)
    requires
        forall|j: int| 0 <= j < ids.len() ==> has_room(g.rooms, #[trigger] ids[j]),
        q.len() == g.rooms.len(),
        forall|i: int| 0 <= i < q.len() ==> (#[trigger] q[i]).len() == VIBE_BYTES,
        0 <= m < ids.len(),
    ensures
        room_records(g, q, ids).len() == ROOM_RECORD_LEN * ids.len(),
        room_records(g, q, ids).subrange(ROOM_RECORD_LEN * m, ROOM_RECORD_LEN * m + 24) == id_field(
            ids[m],
        ) + q[room_index(g.rooms, ids[m])],
    decreases ids.len(),
{
    let last = ids.last();
    let prev = ids.drop_last();
    assert(has_room(g.rooms, ids[ids.len() - 1]));
    let k = room_index(g.rooms, last);
    assert(q[k].len() == VIBE_BYTES);
    assert(id_field(last).len() == ID_FIELD_LEN);
    if prev.len() > 0 {
        assert forall|j: int| 0 <= j < prev.len() implies has_room(g.rooms, #[trigger] prev[j]) by {
            assert(prev[j] == ids[j]);
        }
        lemma_room_records_shape(g, q, prev, 0);
        if m < prev.len() {
            lemma_room_records_shape(g, q, prev, m);
            assert(prev[m] == ids[m]);
            let whole = room_records(g, q, ids);
            let front = room_records(g, q, prev);
            assert(whole =~= front + (id_field(last) + q[k]));
            assert(whole.subrange(ROOM_RECORD_LEN * m, ROOM_RECORD_LEN * m + 24) =~= front.subrange(
                ROOM_RECORD_LEN * m,
                ROOM_RECORD_LEN * m + 24,
            ));
        } else {
            let whole = room_records(g, q, ids);
            let front = room_records(g, q, prev);
            assert(whole.subrange(ROOM_RECORD_LEN * m, ROOM_RECORD_LEN * m + 24) =~= id_field(last)
                + q[k]);
        }
    } else {
        assert(room_records(g, q, prev) =~= Seq::<u8>::empty());
        assert(room_records(g, q, ids) =~= id_field(last) + q[k]);
        assert(room_records(g, q, ids).subrange(0, 24) =~= room_records(g, q, ids));
    }
}

proof fn lemma_edges_keep_rooms(g: GraphView<Seq<u8>>, b: Seq<u8>, off: int, n: nat)
    ensures
        apply_edge_records(g, b, off, n).rooms == g.rooms,
        apply_edge_records(g, b, off, n).tick == g.tick,
    decreases n,
{
    if n > 0 {
        lemma_edges_keep_rooms(g, b, off, (n - 1) as nat);
    }
}

/// The rooms read from the first `m` room records: one fresh room per
/// sorted id, carrying that room's quantised vibe.
pub open spec fn expected_rooms<V>(g: GraphView<V>, q: Seq<Seq<u8>>, ids: Seq<Seq<char>>, m: nat) -> Seq<
    RoomView<Seq<u8>>,
> {
    Seq::new(m, |j: int| fresh_room(ids[j], q[room_index(g.rooms, ids[j])]))
}

proof fn lemma_sorted_ids_facts<V>(rs: Seq<RoomView<V>>)
    requires
        crate::gossip::room_ids_distinct(rs),
    ensures
        sorted_ids(room_id_seq(rs)).len() == rs.len(),
        sorted_ids(room_id_seq(rs)).no_duplicates(),
        forall|x: Seq<char>| #[trigger] sorted_ids(room_id_seq(rs)).contains(x) <==> has_room(rs, x),
{
    broadcast use vstd::seq_lib::group_to_multiset_ensures;

    let ids = room_id_seq(rs);
    let s = sorted_ids(ids);
    crate::order::lemma_id_order_total();
    ids.lemma_sort_by_ensures(crate::order::id_order());
    assert(ids.to_multiset().len() == s.to_multiset().len());
    assert(ids.no_duplicates()) by {
        assert forall|i: int, j: int| 0 <= i < ids.len() && 0 <= j < ids.len() && i != j implies ids[i]
            != ids[j] by {
            if i < j {
                assert(rs[i].id != rs[j].id);
            } else {
                assert(rs[j].id != rs[i].id);
            }
        }
    }
    ids.lemma_multiset_has_no_duplicates();
    s.lemma_multiset_has_no_duplicates_conv();
    assert forall|x: Seq<char>| #[trigger] s.contains(x) <==> has_room(rs, x) by {
        assert(s.contains(x) <==> s.to_multiset().count(x) > 0);
        assert(ids.contains(x) <==> ids.to_multiset().count(x) > 0);
        if ids.contains(x) {
            let i = choose|i: int| 0 <= i < ids.len() && ids[i] == x;
            assert(rs[i].id == x);
        }
        if has_room(rs, x) {
            let i = choose|i: int| 0 <= i < rs.len() && #[trigger] rs[i].id == x;
            assert(ids[i] == x);
        }
    }
}

/// Graph state read back gives the same tick and exactly the same rooms,
/// each with the vibe bytes it was written with and nothing perceived —
/// provided every room id fits the id field, and the room count and tick
/// fit in 32 bits. (Edges are not given back as they were:
/// reading each directed record connects both ways again.)
#[verifier::spinoff_prover]
#[verifier::rlimit(40)]
pub proof fn lemma_graph_roundtrip<V>(g: GraphView<V>, q: Seq<Seq<u8>>)
    requires
        crate::gossip::room_ids_distinct(g.rooms),
        q.len() == g.rooms.len(),
        forall|i: int| 0 <= i < q.len() ==> (#[trigger] q[i]).len() == VIBE_BYTES,
        forall|i: int| 0 <= i < g.rooms.len() ==> fits_id_field(#[trigger] g.rooms[i].id),
        g.rooms.len() < 0x1_0000_0000,
        g.tick < 0x1_0000_0000,
    ensures
        parse_graph(graph_bytes(g, q)).tick == g.tick,
        parse_graph(graph_bytes(g, q)).rooms.len() == g.rooms.len(),
        forall|id: Seq<char>| #[trigger]
            has_room(parse_graph(graph_bytes(g, q)).rooms, id) == has_room(g.rooms, id),
        forall|id: Seq<char>|
            has_room(g.rooms, id) ==> #[trigger] crate::gossip::room_vibe(
                parse_graph(graph_bytes(g, q)).rooms,
                id,
            ) == Some(q[room_index(g.rooms, id)]),
        forall|i: int|
            0 <= i < g.rooms.len() ==> (#[trigger] parse_graph(graph_bytes(g, q)).rooms[i]).perceptions
                == Seq::<Seq<u8>>::empty(),
{
    let n = g.rooms.len();
    let b = graph_bytes(g, q);
    let ids = sorted_ids(room_id_seq(g.rooms));
    lemma_sorted_ids_facts(g.rooms);
    assert forall|j: int| 0 <= j < ids.len() implies has_room(g.rooms, #[trigger] ids[j]) by {
        assert(ids.contains(ids[j]));
    }
    let h1 = le32_bytes((n % 0x1_0000_0000) as u32);
    let h2 = le32_bytes(total_edges(g.edges) as u32);
    let h3 = le32_bytes((g.tick % 0x1_0000_0000) as u32);
    let rr = room_records(g, q, ids);
    let er = edge_records(g.edges, sorted_ids(edge_key_seq(g.edges)));
    assert(b =~= h1 + h2 + h3 + rr + er);
    if n > 0 {
        lemma_room_records_shape(g, q, ids, 0);
    } else {
        assert(rr =~= Seq::<u8>::empty());
    }
    assert(rr.len() == ROOM_RECORD_LEN * n);
    lemma_le32_roundtrip((n % 0x1_0000_0000) as u32);
    lemma_le32_roundtrip((g.tick % 0x1_0000_0000) as u32);
    assert(b.subrange(0, 4) =~= h1);
    assert(b.subrange(8, 12) =~= h3);
    assert(b.len() >= GRAPH_HEADER_LEN + ROOM_RECORD_LEN * n);
    let rc = le32_value(b.subrange(0, 4)) as nat;
    assert(rc == n);
    let nr = min_nat(rc, ((b.len() - GRAPH_HEADER_LEN) / ROOM_RECORD_LEN as int) as nat);
    assert(nr == n);
    let t = le32_value(b.subrange(8, 12)) as u64;
    assert(t == g.tick);
    let start = GraphView::<Seq<u8>> { rooms: Seq::empty(), edges: Seq::empty(), tick: t };

    assert(b.subrange(GRAPH_HEADER_LEN as int, GRAPH_HEADER_LEN + ROOM_RECORD_LEN * n) =~= rr);
    // The room records read one by one.
    assert forall|m: nat| m <= n implies #[trigger] apply_room_records(start, b, m).rooms
        == expected_rooms(g, q, ids, m) && apply_room_records(start, b, m).tick == t by {
        lemma_apply_rooms(g, q, ids, start, b, m);
    }
    let after = apply_room_records(start, b, nr);
    assert(after.rooms == expected_rooms(g, q, ids, n));
    let off = GRAPH_HEADER_LEN + ROOM_RECORD_LEN * nr;
    let ne = min_nat(
        le32_value(b.subrange(4, 8)) as nat,
        ((b.len() - off) / EDGE_RECORD_LEN as int) as nat,
    );
    lemma_edges_keep_rooms(after, b, off, ne);
    let p = parse_graph(b);
    assert(p == apply_edge_records(after, b, off, ne));
    assert(p.rooms == expected_rooms(g, q, ids, n));
    assert forall|id: Seq<char>| #[trigger] has_room(p.rooms, id) == has_room(g.rooms, id) by {
        if has_room(p.rooms, id) {
            let j = room_index(p.rooms, id);
            assert(ids.contains(ids[j]));
        }
        if has_room(g.rooms, id) {
            assert(ids.contains(id));
            let j = choose|j: int| 0 <= j < ids.len() && ids[j] == id;
            assert(p.rooms[j].id == id);
        }
    }
    assert forall|id: Seq<char>| has_room(g.rooms, id) implies #[trigger] crate::gossip::room_vibe(
        p.rooms,
        id,
    ) == Some(q[room_index(g.rooms, id)]) by {
        assert(has_room(p.rooms, id));
        let j = room_index(p.rooms, id);
        assert(p.rooms[j].id == id);
        assert(ids[j] == id);
    }
}

proof fn lemma_apply_rooms<V>(
    g: GraphView<V>,
    q: Seq<Seq<u8>>,
    ids: Seq<Seq<char>>,
    start: GraphView<Seq<u8>>,
    b: Seq<u8>,
    m: nat,
)
    requires
        start.rooms == Seq::<RoomView<Seq<u8>>>::empty(),
        ids == sorted_ids(room_id_seq(g.rooms)),
        ids.no_duplicates(),
        ids.len() == g.rooms.len(),
        forall|j: int| 0 <= j < ids.len() ==> has_room(g.rooms, #[trigger] ids[j]),
        q.len() == g.rooms.len(),
        forall|i: int| 0 <= i < q.len() ==> (#[trigger] q[i]).len() == VIBE_BYTES,
        forall|i: int| 0 <= i < g.rooms.len() ==> fits_id_field(#[trigger] g.rooms[i].id),
        m <= ids.len(),
        b.len() >= GRAPH_HEADER_LEN + ROOM_RECORD_LEN * ids.len(),
        b.subrange(GRAPH_HEADER_LEN as int, GRAPH_HEADER_LEN + ROOM_RECORD_LEN * ids.len())
            == room_records(g, q, ids),
    ensures
        apply_room_records(start, b, m).rooms == expected_rooms(g, q, ids, m),
        apply_room_records(start, b, m).tick == start.tick,
    decreases m,
{
    if m > 0 {
        lemma_apply_rooms(g, q, ids, start, b, (m - 1) as nat);
        let j = m - 1;
        let prev = apply_room_records(start, b, (m - 1) as nat);
        let o = GRAPH_HEADER_LEN + ROOM_RECORD_LEN * j;
        lemma_room_records_shape(g, q, ids, j);
        let rr = room_records(g, q, ids);
        let rec = b.subrange(o, o + 24);
        assert(rec =~= rr.subrange(ROOM_RECORD_LEN * j, ROOM_RECORD_LEN * j + 24));
        let k = room_index(g.rooms, ids[j]);
        assert(has_room(g.rooms, ids[j]));
        assert(g.rooms[k].id == ids[j]);
        assert(fits_id_field(g.rooms[k].id));
        lemma_id_field_roundtrip(ids[j], placeholder_id());
        assert(rec.subrange(0, 8) =~= id_field(ids[j]));
        assert(b.subrange(o, o + 8) =~= rec.subrange(0, 8));
        assert(rec == id_field(ids[j]) + q[k]);
        assert(rec.subrange(8, 24) =~= q[k]);
        assert(b.subrange(o + 8, o + 24) =~= rec.subrange(8, 24));
        let id = read_id(b.subrange(o, o + 8), placeholder_id());
        assert(id == ids[j]);
        assert(!has_room(prev.rooms, id)) by {
            if has_room(prev.rooms, id) {
                let x = choose|x: int| 0 <= x < prev.rooms.len() && #[trigger] prev.rooms[x].id == id;
                assert(prev.rooms[x].id == ids[x]);
            }
        }
        assert(apply_room_records(start, b, m).rooms =~= expected_rooms(g, q, ids, m));
    }
}

/// With a quantiser that gives one result per vibe, a graph has exactly
/// one encoding: encoding the same graph twice gives the same bytes.
pub proof fn lemma_graph_encoding_deterministic<V, Q: Fn(&V) -> [u8; 16]>(
    g: GraphView<V>,
    quantize: &Q,
    a: Seq<u8>,
    b: Seq<u8>,
)
    requires
        forall|v: &V, x: [u8; 16], y: [u8; 16]|
            quantize.ensures((v,), x) && quantize.ensures((v,), y) ==> x == y,
        is_graph_encoding(a, g, quantize),
        is_graph_encoding(b, g, quantize),
    ensures
        a == b,
{
    let qa = choose|q: Seq<[u8; 16]>|
        #[trigger] quantized_rooms(g.rooms, q, quantize) && a == graph_bytes(g, array_views(q));
    let qb = choose|q: Seq<[u8; 16]>|
        #[trigger] quantized_rooms(g.rooms, q, quantize) && b == graph_bytes(g, array_views(q));
    assert forall|i: int| 0 <= i < qa.len() implies qa[i] == qb[i] by {
        assert(quantize.ensures((&g.rooms[i].vibe,), qa[i]));
        assert(quantize.ensures((&g.rooms[i].vibe,), qb[i]));
    }
    assert(qa =~= qb);
}

// ---------------------------------------------------------------------------
// Graph state does not depend on the order things were added in
// ---------------------------------------------------------------------------

/// The sum of `f` over `s`.
pub open spec fn sum_by<A>(s: Seq<A>, f: spec_fn(A) -> int) -> int
    decreases s.len(),
{
    if s.len() == 0 {
        0
    } else {
        sum_by(s.drop_last(), f) + f(s.last())
    }
}

proof fn lemma_sum_by_remove<A>(s: Seq<A>, f: spec_fn(A) -> int, j: int)
    requires
        0 <= j < s.len(),
    ensures
        sum_by(s, f) == sum_by(s.remove(j), f) + f(s[j]),
    decreases s.len(),
{
    if j == s.len() - 1 {
        assert(s.remove(j) =~= s.drop_last());
    } else {
        lemma_sum_by_remove(s.drop_last(), f, j);
        assert(s.remove(j).drop_last() =~= s.drop_last().remove(j));
        assert(s.remove(j).last() == s.last());
    }
}

proof fn lemma_sum_by_perm<A>(a: Seq<A>, b: Seq<A>, f: spec_fn(A) -> int)
    requires
        a.to_multiset() == b.to_multiset(),
    ensures
        sum_by(a, f) == sum_by(b, f),
    decreases a.len(),
{
    broadcast use vstd::seq_lib::group_to_multiset_ensures;

    if a.len() == 0 {
        assert(b.to_multiset().len() == 0);
        assert(b =~= Seq::<A>::empty());
    } else {
        let x = a.last();
        assert(a =~= a.drop_last().push(x));
        assert(a.to_multiset().count(x) > 0);
        assert(b.contains(x));
        let j = choose|j: int| 0 <= j < b.len() && b[j] == x;
        assert(a.drop_last().to_multiset() =~= a.to_multiset().remove(x));
        assert(b.remove(j).to_multiset() =~= b.to_multiset().remove(x));
        lemma_sum_by_perm(a.drop_last(), b.remove(j), f);
        lemma_sum_by_remove(b, f, j);
    }
}

proof fn lemma_sum_by_pointwise<A>(s: Seq<A>, f: spec_fn(A) -> int, g: spec_fn(A) -> int)
    requires
        forall|i: int| 0 <= i < s.len() ==> f(#[trigger] s[i]) == g(s[i]),
    ensures
        sum_by(s, f) == sum_by(s, g),
    decreases s.len(),
{
    if s.len() > 0 {
        assert forall|i: int| 0 <= i < s.drop_last().len() implies f(
            #[trigger] s.drop_last()[i],
        ) == g(s.drop_last()[i]) by {
            assert(s.drop_last()[i] == s[i]);
        }
        lemma_sum_by_pointwise(s.drop_last(), f, g);
        assert(f(s[s.len() - 1]) == g(s[s.len() - 1]));
    }
}

/// The length of the neighbour list of each key of `es`.
pub open spec fn list_len_of(es: Seq<AdjacencyView>) -> spec_fn(Seq<char>) -> int {
    |k: Seq<char>| es[key_index(es, k)].1.len() as int
}

proof fn lemma_total_edges_as_sum(es: Seq<AdjacencyView>, n: int)
    requires
        crate::gossip::keys_distinct(es),
        0 <= n <= es.len(),
    ensures
        total_edges(es.subrange(0, n)) == sum_by(edge_key_seq(es).subrange(0, n), list_len_of(es)),
    decreases n,
{
    if n == 0 {
        assert(es.subrange(0, 0) =~= Seq::<AdjacencyView>::empty());
        assert(edge_key_seq(es).subrange(0, 0) =~= Seq::<Seq<char>>::empty());
    } else {
        lemma_total_edges_as_sum(es, n - 1);
        lemma_total_edges_prefix(es, n - 1);
        crate::gossip::lemma_key_index_unique(es, n - 1);
        let ks = edge_key_seq(es).subrange(0, n);
        assert(ks.drop_last() =~= edge_key_seq(es).subrange(0, n - 1));
        assert(ks.last() == es[n - 1].0);
    }
}

proof fn lemma_sorted_ids_eq(a: Seq<Seq<char>>, b: Seq<Seq<char>>)
    requires
        a.to_multiset() == b.to_multiset(),
    ensures
        sorted_ids(a) == sorted_ids(b),
{
    crate::order::lemma_id_order_total();
    a.lemma_sort_by_ensures(crate::order::id_order());
    b.lemma_sort_by_ensures(crate::order::id_order());
    vstd::seq_lib::lemma_sorted_unique(sorted_ids(a), sorted_ids(b), crate::order::id_order());
}

proof fn lemma_room_records_eq<V>(
    g1: GraphView<V>,
    q1: Seq<Seq<u8>>,
    g2: GraphView<V>,
    q2: Seq<Seq<u8>>,
    ids: Seq<Seq<char>>,
)
    requires
        forall|j: int|
            0 <= j < ids.len() ==> q1[room_index(g1.rooms, #[trigger] ids[j])] == q2[room_index(
                g2.rooms,
                ids[j],
            )],
    ensures
        room_records(g1, q1, ids) == room_records(g2, q2, ids),
    decreases ids.len(),
{
    if ids.len() > 0 {
        assert forall|j: int| 0 <= j < ids.drop_last().len() implies q1[room_index(
            g1.rooms,
            #[trigger] ids.drop_last()[j],
        )] == q2[room_index(g2.rooms, ids.drop_last()[j])] by {
            assert(ids.drop_last()[j] == ids[j]);
        }
        lemma_room_records_eq(g1, q1, g2, q2, ids.drop_last());
        assert(q1[room_index(g1.rooms, ids[ids.len() - 1])] == q2[room_index(
            g2.rooms,
            ids[ids.len() - 1],
        )]);
    }
}

proof fn lemma_edge_records_eq(e1: Seq<AdjacencyView>, e2: Seq<AdjacencyView>, keys: Seq<Seq<char>>)
    requires
        forall|j: int|
            0 <= j < keys.len() ==> sorted_ids(e1[key_index(e1, #[trigger] keys[j])].1) == sorted_ids(
                e2[key_index(e2, keys[j])].1,
            ),
    ensures
        edge_records(e1, keys) == edge_records(e2, keys),
    decreases keys.len(),
{
    if keys.len() > 0 {
        assert forall|j: int| 0 <= j < keys.drop_last().len() implies sorted_ids(
            e1[key_index(e1, #[trigger] keys.drop_last()[j])].1,
        ) == sorted_ids(e2[key_index(e2, keys.drop_last()[j])].1) by {
            assert(keys.drop_last()[j] == keys[j]);
        }
        lemma_edge_records_eq(e1, e2, keys.drop_last());
        let k = keys[keys.len() - 1];
        assert(sorted_ids(e1[key_index(e1, k)].1) == sorted_ids(e2[key_index(e2, k)].1));
    }
}

/// Two graphs that hold the same thing: same tick, the same room ids with
/// the same quantised vibes, the same adjacency keys, and for each key the
/// same neighbours (counted with repeats) — in whatever order they were
/// added.
pub open spec fn same_graph_state<V>(
    g1: GraphView<V>,
    q1: Seq<Seq<u8>>,
    g2: GraphView<V>,
    q2: Seq<Seq<u8>>,
) -> bool {
    &&& g1.tick == g2.tick
    &&& room_id_seq(g1.rooms).to_multiset() == room_id_seq(g2.rooms).to_multiset()
    &&& forall|id: Seq<char>|
        has_room(g1.rooms, id) ==> q1[room_index(g1.rooms, id)] == #[trigger] q2[room_index(
            g2.rooms,
            id,
        )]
    &&& edge_key_seq(g1.edges).to_multiset() == edge_key_seq(g2.edges).to_multiset()
    &&& forall|k: Seq<char>|
        crate::gossip::has_key(g1.edges, k) ==> g1.edges[key_index(g1.edges, k)].1.to_multiset()
            == #[trigger] g2.edges[key_index(g2.edges, k)].1.to_multiset()
}

/// Graph state depends only on what a graph holds, not on the order in
/// which its rooms, adjacency lists and neighbours were added: graphs that
/// hold the same thing encode to the same bytes.
#[verifier::rlimit(40)]
pub proof fn lemma_graph_encoding_order_independent<V>(
    g1: GraphView<V>,
    q1: Seq<Seq<u8>>,
    g2: GraphView<V>,
    q2: Seq<Seq<u8>>,
)
    requires
        crate::gossip::graph_wf(g1),
        crate::gossip::graph_wf(g2),
        same_graph_state(g1, q1, g2, q2),
    ensures
        graph_bytes(g1, q1) == graph_bytes(g2, q2),
{
    broadcast use vstd::seq_lib::group_to_multiset_ensures;

    let ids1 = room_id_seq(g1.rooms);
    let ids2 = room_id_seq(g2.rooms);
    assert(ids1.to_multiset().len() == ids2.to_multiset().len());
    assert(g1.rooms.len() == g2.rooms.len());
    lemma_sorted_ids_eq(ids1, ids2);
    let s = sorted_ids(ids1);
    lemma_sorted_ids_facts(g1.rooms);
    assert forall|j: int| 0 <= j < s.len() implies q1[room_index(g1.rooms, #[trigger] s[j])]
        == q2[room_index(g2.rooms, s[j])] by {
        assert(s.contains(s[j]));
    }
    lemma_room_records_eq(g1, q1, g2, q2, s);

    let k1 = edge_key_seq(g1.edges);
    let k2 = edge_key_seq(g2.edges);
    lemma_sorted_ids_eq(k1, k2);
    let sk = sorted_ids(k1);
    assert forall|j: int| 0 <= j < sk.len() implies sorted_ids(
        g1.edges[key_index(g1.edges, #[trigger] sk[j])].1,
    ) == sorted_ids(g2.edges[key_index(g2.edges, sk[j])].1) by {
        assert(sk.contains(sk[j]));
        lemma_sorted_member_is_key(g1.edges, sk[j]);
        lemma_sorted_ids_eq(
            g1.edges[key_index(g1.edges, sk[j])].1,
            g2.edges[key_index(g2.edges, sk[j])].1,
        );
    }
    lemma_edge_records_eq(g1.edges, g2.edges, sk);

    // The edge counts agree.
    crate::order::lemma_id_order_total();
    k1.lemma_sort_by_ensures(crate::order::id_order());
    k2.lemma_sort_by_ensures(crate::order::id_order());
    lemma_total_edges_as_sum(g1.edges, g1.edges.len() as int);
    lemma_total_edges_as_sum(g2.edges, g2.edges.len() as int);
    assert(g1.edges.subrange(0, g1.edges.len() as int) =~= g1.edges);
    assert(g2.edges.subrange(0, g2.edges.len() as int) =~= g2.edges);
    assert(k1.subrange(0, g1.edges.len() as int) =~= k1);
    assert(k2.subrange(0, g2.edges.len() as int) =~= k2);
    lemma_sum_by_perm(k1, sk, list_len_of(g1.edges));
    lemma_sum_by_perm(k2, sk, list_len_of(g2.edges));
    assert forall|j: int| 0 <= j < sk.len() implies list_len_of(g1.edges)(#[trigger] sk[j])
        == list_len_of(g2.edges)(sk[j]) by {
        assert(sk.contains(sk[j]));
        lemma_sorted_member_is_key(g1.edges, sk[j]);
        let l1 = g1.edges[key_index(g1.edges, sk[j])].1;
        let l2 = g2.edges[key_index(g2.edges, sk[j])].1;
        assert(l1.to_multiset() == l2.to_multiset());
        assert(l1.to_multiset().len() == l2.to_multiset().len());
    }
    lemma_sum_by_pointwise(sk, list_len_of(g1.edges), list_len_of(g2.edges));
    assert(total_edges(g1.edges) == total_edges(g2.edges));
}

} // verus!
