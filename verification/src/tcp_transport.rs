//! Framing of murmurs on a TCP stream: a two-byte big-endian length, then
//! the encoded murmur.

use vstd::prelude::*;

use crate::murmur::Murmur;
use crate::serialize::{
    dequantized_from, deserialize_murmur, fits_id_field, lemma_murmur_roundtrip, murmur_bytes,
    parse_murmur, wire_of, WireMurmur, MURMUR_WIRE_LEN, VIBE_BYTES,
};

verus! {

/// Size of a frame header.
pub const FRAME_HEADER_LEN: usize = 2;

/// Largest payload length a receiver reads.
pub const MAX_FRAME_PAYLOAD: usize = 254;

/// A frame: the payload's length as two big-endian bytes, then the payload.
pub open spec fn frame_bytes(payload: Seq<u8>) -> Seq<u8> {
    seq![(payload.len() / 256) as u8, (payload.len() % 256) as u8] + payload
}

/// The payload length a frame header announces.
pub open spec fn header_len(h0: u8, h1: u8) -> nat {
    (h0 * 256 + h1) as nat
}

/// The frame that carries an encoded murmur.
pub fn frame_murmur(payload: &[u8; 32]) -> (frame: Vec<u8>)
    ensures
        frame@ == frame_bytes(payload@),
{
    let n = MURMUR_WIRE_LEN;
    let mut frame: Vec<u8> = Vec::new();
    frame.push((n / 256) as u8);
    frame.push((n % 256) as u8);
    let mut i: usize = 0;
    while i < n
        invariant
            n == 32,
            i <= n,
            frame@ == seq![0u8, 32u8] + payload@.subrange(0, i as int),
        decreases n - i,
    {
        frame.push(payload[i]);
        i += 1;
        assert(frame@ =~= seq![0u8, 32u8] + payload@.subrange(0, i as int));
    }
    assert(payload@.subrange(0, 32) =~= payload@);
    frame
}

/// The payload length announced by a frame header, unless it is more than
/// `MAX_FRAME_PAYLOAD` (such a frame is not read).
pub fn frame_payload_len(h0: u8, h1: u8) -> (r: Option<usize>)
    ensures
        header_len(h0, h1) <= MAX_FRAME_PAYLOAD ==> r == Some(header_len(h0, h1) as usize),
        header_len(h0, h1) > MAX_FRAME_PAYLOAD ==> r is None,
{
    let len = (h0 as usize) * 256 + (h1 as usize);
    if len <= MAX_FRAME_PAYLOAD {
        Some(len)
    } else {
        None
    }
}

/// The murmur carried by a frame payload: one of at least
/// `MURMUR_WIRE_LEN` bytes carries it in its first `MURMUR_WIRE_LEN` bytes;
/// a shorter one carries none.
pub fn murmur_in_payload<V, D: Fn([u8; 16]) -> V>(payload: &[u8], dequantize: &D) -> (r: Option<
    Murmur<V>,
>)
    requires
        forall|b: [u8; 16]| #[trigger] dequantize.requires((b,)),
    ensures
        payload@.len() < MURMUR_WIRE_LEN ==> r is None,
        payload@.len() >= MURMUR_WIRE_LEN ==> ({
            let w = parse_murmur(payload@.subrange(0, 32));
            r matches Some(m) && wire_of(m, w.vibe) == w && dequantized_from(dequantize, w.vibe, m.vibe)
        }),
{
    if payload.len() < MURMUR_WIRE_LEN {
        return None;
    }
    let mut data = [0u8; 32];
    let mut i: usize = 0;
    while i < MURMUR_WIRE_LEN
        invariant
            i <= MURMUR_WIRE_LEN,
            MURMUR_WIRE_LEN <= payload@.len(),
            data@.len() == 32,
            forall|j: int| 0 <= j < i ==> #[trigger] data@[j] == payload@[j],
        decreases MURMUR_WIRE_LEN - i,
    {
        data[i] = payload[i];
        i += 1;
    }
    assert(data@ =~= payload@.subrange(0, 32));
    deserialize_murmur(&data, dequantize)
}

/// A frame of a payload shorter than 65536 bytes is two header bytes, the
/// high byte of the payload's length first, then the payload; its header
/// announces exactly the payload's length.
pub proof fn lemma_frame_layout(payload: Seq<u8>)
    requires
        payload.len() < 65536,
    ensures
        frame_bytes(payload).len() == payload.len() + 2,
        frame_bytes(payload)[0] == payload.len() / 256,
        frame_bytes(payload)[1] == payload.len() % 256,
        header_len(frame_bytes(payload)[0], frame_bytes(payload)[1]) == payload.len(),
        frame_bytes(payload).subrange(2, payload.len() + 2int) == payload,
{
    assert(frame_bytes(payload).subrange(2, payload.len() + 2int) =~= payload);
}

/// A framed murmur announces its own length, which is read, and its
/// payload is the encoded murmur.
pub proof fn lemma_frame_roundtrip(payload: Seq<u8>)
    requires
        payload.len() == MURMUR_WIRE_LEN,
    ensures
        header_len(frame_bytes(payload)[0], frame_bytes(payload)[1]) == MURMUR_WIRE_LEN,
        MURMUR_WIRE_LEN <= MAX_FRAME_PAYLOAD,
        frame_bytes(payload).subrange(FRAME_HEADER_LEN as int, FRAME_HEADER_LEN + MURMUR_WIRE_LEN)
            == payload,
{
    assert(frame_bytes(payload).subrange(2, 34) =~= payload);
}

/// A murmur sent in a frame comes back: the frame is 34 bytes, its header
/// announces 32 bytes, a length a receiver reads, and those 32 bytes decode
/// to the murmur that was sent — when its vibe is 16 bytes, its id fits the
/// id field and its timestamp fits in 32 bits.
pub proof fn lemma_framed_murmur_roundtrip(w: WireMurmur)
    requires
        w.vibe.len() == VIBE_BYTES,
        fits_id_field(w.id),
        w.timestamp < 0x1_0000_0000,
    ensures
        frame_bytes(murmur_bytes(w)).len() == FRAME_HEADER_LEN + MURMUR_WIRE_LEN,
        header_len(frame_bytes(murmur_bytes(w))[0], frame_bytes(murmur_bytes(w))[1])
            == MURMUR_WIRE_LEN,
        MURMUR_WIRE_LEN <= MAX_FRAME_PAYLOAD,
        parse_murmur(
            frame_bytes(murmur_bytes(w)).subrange(
                FRAME_HEADER_LEN as int,
                FRAME_HEADER_LEN + MURMUR_WIRE_LEN,
            ),
        ) == w,
{
    lemma_murmur_roundtrip(w);
    lemma_frame_roundtrip(murmur_bytes(w));
}

/// What a read from a connection gave.
pub enum ReadResult {
    /// This many bytes were read.
    Bytes(usize),
    /// Nothing is there yet.
    WouldBlock,
    /// The read failed.
    Failed,
}

/// What to do with a connection after trying to read a frame header.
#[derive(PartialEq, Eq, Structural)]
pub enum HeaderAction {
    /// Read a payload of this many bytes, then keep the connection.
    ReadPayload(usize),
    /// Keep the connection and read nothing more now.
    Keep,
    /// Drop the connection.
    Close,
}

/// The decision after reading into a two-byte header buffer holding `h0`,
/// `h1`: a full header announcing at most `MAX_FRAME_PAYLOAD` bytes is
/// followed by its payload; a longer announcement, a short read or nothing
/// to read keeps the connection; end of stream (0 bytes) or a failed read
/// drops it.
pub fn after_header_read(r: ReadResult, h0: u8, h1: u8) -> (a: HeaderAction)
    ensures
        a == match r {
            ReadResult::Bytes(n) => if n == 0 {
                HeaderAction::Close
            } else if n == FRAME_HEADER_LEN && header_len(h0, h1) <= MAX_FRAME_PAYLOAD {
                HeaderAction::ReadPayload(header_len(h0, h1) as usize)
            } else {
                HeaderAction::Keep
            },
            ReadResult::WouldBlock => HeaderAction::Keep,
            ReadResult::Failed => HeaderAction::Close,
        },
{
    match r {
        ReadResult::Bytes(n) => {
            if n == 0 {
                HeaderAction::Close
            } else if n == FRAME_HEADER_LEN {
                match frame_payload_len(h0, h1) {
                    Some(len) => HeaderAction::ReadPayload(len),
                    None => HeaderAction::Keep,
                }
            } else {
                HeaderAction::Keep
            }
        },
        ReadResult::WouldBlock => HeaderAction::Keep,
        ReadResult::Failed => HeaderAction::Close,
    }
}

/// The items whose flag is set, in order.
pub open spec fn kept_where<T>(items: Seq<T>, flags: Seq<bool>) -> Seq<T>
    decreases items.len(),
{
    if items.len() == 0 || flags.len() < items.len() {
        Seq::empty()
    } else {
        let prev = kept_where(items.drop_last(), flags.subrange(0, items.len() - 1));
        if flags[items.len() - 1] {
            prev.push(items.last())
        } else {
            prev
        }
    }
}

/// The kept connections are exactly those whose flag is set, in their
/// order: pairing each with its flag, keeping the pairs whose flag is set and
/// dropping the flags gives the same sequence.
pub proof fn lemma_kept_where_filters<T>(items: Seq<T>, flags: Seq<bool>)
    requires
        flags.len() == items.len(),
    ensures
        kept_where(items, flags) == Seq::new(items.len(), |j: int| (items[j], flags[j])).filter(
            |p: (T, bool)| p.1,
        ).map_values(|p: (T, bool)| p.0),
    decreases items.len(),
{
    let pairs = Seq::new(items.len(), |j: int| (items[j], flags[j]));
    let keep = |p: (T, bool)| p.1;
    let first = |p: (T, bool)| p.0;
    if items.len() == 0 {
        assert(pairs.filter(keep).map_values(first) =~= Seq::<T>::empty());
    } else {
        let n = items.len() - 1;
        let fl = flags.subrange(0, n);
        lemma_kept_where_filters(items.drop_last(), fl);
        let prev_pairs = Seq::new(items.drop_last().len(), |j: int| (items.drop_last()[j], fl[j]));
        assert(pairs.drop_last() =~= prev_pairs);
        reveal(Seq::filter);
        let pf = prev_pairs.filter(keep);
        assert(pairs.filter(keep) == if keep(pairs.last()) {
            pf.push(pairs.last())
        } else {
            pf
        });
        if flags[n] {
            assert(pf.push(pairs.last()).map_values(first) =~= pf.map_values(first).push(items.last()));
        }
    }
}

/// Keeps the connections a frame was written to (`written[i]` for
/// connection `i`) and drops the others; returns the kept ones, in order,
/// and how many there are.
pub fn keep_written<T>(conns: Vec<T>, written: &Vec<bool>) -> (r: (Vec<T>, usize))
    requires
        written@.len() == conns@.len(),
    ensures
        r.0@ == kept_where(conns@, written@),
        r.1 == r.0@.len(),
{
    let ghost all = conns@;
    let mut rest = conns;
    let mut kept: Vec<T> = Vec::new();
    let mut i: usize = 0;
    let n = rest.len();
    // Reversed, so that popping yields the connections front first.
    let mut rev: Vec<T> = Vec::new();
    while rest.len() > 0
        invariant
            all.len() == n,
            written@.len() == n,
            rest@.len() + rev@.len() == n,
            forall|k: int| 0 <= k < rest@.len() ==> #[trigger] rest@[k] == all[k],
            forall|k: int| 0 <= k < rev@.len() ==> #[trigger] rev@[k] == all[n - 1 - k],
        decreases rest@.len(),
    {
        let x = rest.pop().unwrap();
        rev.push(x);
    }
    while i < n
        invariant
            all.len() == n,
            written@.len() == n,
            i <= n,
            rev@.len() == n - i,
            forall|k: int| 0 <= k < rev@.len() ==> #[trigger] rev@[k] == all[n - 1 - k],
            kept@ == kept_where(all.subrange(0, i as int), written@.subrange(0, i as int)),
        decreases n - i,
    {
        let x = rev.pop().unwrap();
        assert(x == all[i as int]);
        let ghost prefix = all.subrange(0, i + 1);
        assert(prefix.drop_last() =~= all.subrange(0, i as int));
        assert(written@.subrange(0, i + 1).subrange(0, i as int) =~= written@.subrange(0, i as int));
        if written[i] {
            kept.push(x);
        }
        i += 1;
    }
    assert(all.subrange(0, n as int) =~= all);
    assert(written@.subrange(0, n as int) =~= written@);
    let count = kept.len();
    (kept, count)
}

} // verus!
