//! Peer addresses and the discovery protocol's messages.

use vstd::prelude::*;

verus! {

/// The address of a peer: IPv4 or IPv6, with port (and, for IPv6, flow
/// information and scope id). Two addresses are equal when all of these
/// are.
#[derive(Clone, Copy, Debug, PartialEq, Eq, Structural)]
pub enum PeerAddr {
    V4 { ip: u32, port: u16 },
    V6 { ip6: u128, port: u16, flowinfo: u32, scope_id: u32 },
}

/// 127.0.0.1 as a 32-bit value.
pub const LOCALHOST_V4: u32 = 0x7f00_0001;

/// Magic that opens an announcement: "GPAN".
pub const ANNOUNCE_MAGIC: [u8; 4] = [0x47, 0x50, 0x41, 0x4e];

/// Magic of discovery requests: "GPDS".
pub const DISCOVERY_MAGIC: [u8; 4] = [0x47, 0x50, 0x44, 0x53];

/// Size of an announcement.
pub const ANNOUNCE_LEN: usize = 12;

pub open spec fn announce_magic() -> Seq<u8> {
    seq![0x47u8, 0x50u8, 0x41u8, 0x4eu8]
}

pub open spec fn addr_port(a: PeerAddr) -> u16 {
    match a {
        PeerAddr::V4 { port, .. } => port,
        PeerAddr::V6 { port, .. } => port,
    }
}

impl PeerAddr {
    /// An IPv4 address from its four octets and a port.
    pub fn v4(octets: [u8; 4], port: u16) -> (a: PeerAddr)
        ensures
            a == (PeerAddr::V4 {
                ip: (octets[0] * 16777216 + octets[1] * 65536 + octets[2] * 256 + octets[3]) as u32,
                port,
            }),
    {
        let ip: u32 = octets[0] as u32 * 16777216 + octets[1] as u32 * 65536 + octets[2] as u32 * 256
            + octets[3] as u32;
        PeerAddr::V4 { ip, port }
    }

    pub fn port(&self) -> (p: u16)
        ensures
            p == addr_port(*self),
    {
        match self {
            PeerAddr::V4 { port, .. } => *port,
            PeerAddr::V6 { port, .. } => *port,
        }
    }
}

/// The port offset of the `i`-th mock peer: `i` cut to 16 bits.
pub open spec fn mock_offset(i: int) -> int {
    i % 65536
}

/// Fabricated peers for testing: `count` localhost addresses on
/// consecutive ports from `base_port` on (the offset is cut to 16 bits).
pub fn mock_discover_peers(count: usize, base_port: u16) -> (peers: Vec<PeerAddr>)
    requires
        forall|i: int| 0 <= i < count ==> base_port + mock_offset(i) <= u16::MAX,
    ensures
        peers@.len() == count,
        forall|i: int|
            0 <= i < count ==> #[trigger] peers@[i] == (PeerAddr::V4 {
                ip: LOCALHOST_V4,
                port: (base_port + mock_offset(i)) as u16,
            }),
{
    let mut peers: Vec<PeerAddr> = Vec::new();
    let mut i: usize = 0;
    while i < count
        invariant
            i <= count,
            forall|k: int| 0 <= k < count ==> base_port + mock_offset(k) <= u16::MAX,
            peers@.len() == i,
            forall|k: int|
                0 <= k < i ==> #[trigger] peers@[k] == (PeerAddr::V4 {
                    ip: LOCALHOST_V4,
                    port: (base_port + mock_offset(k)) as u16,
                }),
        decreases count - i,
    {
        assert(base_port + mock_offset(i as int) <= u16::MAX);
        let offset = (i % 65536) as u16;
        peers.push(PeerAddr::V4 { ip: LOCALHOST_V4, port: base_port + offset });
        i += 1;
    }
    peers
}

/// Mock peers sit on consecutive ports: the `i`-th of up to 65536 is `i`
/// ports above the base, so no two of them share a port.
pub proof fn lemma_mock_ports_consecutive(i: int, j: int)
    requires
        0 <= i < 65536,
        0 <= j < 65536,
    ensures
        mock_offset(i) == i,
        i != j ==> mock_offset(i) != mock_offset(j),
{
}

/// The eight little-endian bytes of a 64-bit value.
pub open spec fn le64_bytes(x: u64) -> Seq<u8> {
    Seq::new(8, |k: int| ((x as nat / pow256(k)) % 256) as u8)
}

pub open spec fn pow256(k: int) -> nat
    decreases k,
{
    if k <= 0 {
        1
    } else {
        256 * pow256(k - 1)
    }
}

/// The announcement of node `id`: the magic, then the id as 8
/// little-endian bytes.
pub open spec fn announcement_bytes(id: u64) -> Seq<u8> {
    announce_magic() + le64_bytes(id)
}

/// The message a node sends to announce itself.
pub fn announcement(id: u64) -> (msg: Vec<u8>)
    ensures
        msg@ == announcement_bytes(id),
{
    let mut msg: Vec<u8> = Vec::new();
    msg.push(ANNOUNCE_MAGIC[0]);
    msg.push(ANNOUNCE_MAGIC[1]);
    msg.push(ANNOUNCE_MAGIC[2]);
    msg.push(ANNOUNCE_MAGIC[3]);
    let mut x = id;
    let mut k: usize = 0;
    assert(pow256(0) == 1);
    assert(msg@ =~= announce_magic());
    while k < 8
        invariant
            k <= 8,
            msg@.len() == 4 + k,
            msg@.subrange(0, 4) == announce_magic(),
            forall|j: int| 0 <= j < k ==> #[trigger] msg@[4 + j] == le64_bytes(id)[j],
            x == id as nat / pow256(k as int),
        decreases 8 - k,
    {
        msg.push((x % 256) as u8);
        proof {
            assert(pow256(k + 1) == 256 * pow256(k as int));
            assert(pow256(k as int) > 0) by {
                lemma_pow256_pos(k as int);
            }
            vstd::arithmetic::div_mod::lemma_div_denominator(id as int, pow256(k as int) as int, 256);
        }
        x = x / 256;
        k += 1;
    }
    assert forall|j: int| 0 <= j < 12 implies #[trigger] msg@[j] == announcement_bytes(id)[j] by {
        if j < 4 {
            assert(msg@.subrange(0, 4)[j] == msg@[j]);
        } else {
            assert(msg@[4 + (j - 4)] == le64_bytes(id)[j - 4]);
        }
    }
    assert(msg@ =~= announcement_bytes(id));
    msg
}

proof fn lemma_pow256_pos(k: int)
    ensures
        pow256(k) > 0,
    decreases k,
{
    if k > 0 {
        lemma_pow256_pos(k - 1);
    }
}

proof fn lemma_le64_low_bytes_agree(a: u64, b: u64, n: int)
    requires
        0 <= n <= 8,
        forall|k: int| 0 <= k < n ==> #[trigger] le64_bytes(a)[k] == le64_bytes(b)[k],
    ensures
        a as nat % pow256(n) == b as nat % pow256(n),
    decreases n,
{
    if n > 0 {
        lemma_le64_low_bytes_agree(a, b, n - 1);
        lemma_pow256_pos(n - 1);
        let y = pow256(n - 1) as int;
        vstd::arithmetic::div_mod::lemma_breakdown(a as int, y, 256);
        vstd::arithmetic::div_mod::lemma_breakdown(b as int, y, 256);
        assert(pow256(n) == y * 256);
        assert(le64_bytes(a)[n - 1] == le64_bytes(b)[n - 1]);
        assert((a as int / y) % 256 == (b as int / y) % 256);
    } else {
        assert(pow256(0) == 1);
    }
}

/// The announcement carries the node's id, least significant byte first,
/// and tells nodes apart: two ids give the same announcement only when they
/// are equal.
pub proof fn lemma_announcement_identifies(a: u64, b: u64)
    ensures
        announcement_bytes(a)[4] == a % 256,
        announcement_bytes(a)[11] == a / 0x100_0000_0000_0000,
        announcement_bytes(a) == announcement_bytes(b) ==> a == b,
{
    reveal_with_fuel(pow256, 9);
    assert(pow256(7) == 0x100_0000_0000_0000);
    assert(pow256(8) == 0x1_0000_0000_0000_0000);
    assert(pow256(0) == 1);
    assert(a as nat / 1 == a);
    assert(announcement_bytes(a)[4] == le64_bytes(a)[0]);
    assert(le64_bytes(a)[0] == ((a as nat / 1) % 256) as u8);
    assert(announcement_bytes(a)[11] == le64_bytes(a)[7]);
    if announcement_bytes(a) == announcement_bytes(b) {
        assert forall|k: int| 0 <= k < 8 implies #[trigger] le64_bytes(a)[k] == le64_bytes(b)[k] by {
            assert(announcement_bytes(a)[4 + k] == le64_bytes(a)[k]);
            assert(announcement_bytes(b)[4 + k] == le64_bytes(b)[k]);
        }
        lemma_le64_low_bytes_agree(a, b, 8);
    }
}

/// Whether a datagram of `len` bytes read into `buf` is an announcement:
/// at least `ANNOUNCE_LEN` bytes that open with the magic.
pub fn is_announcement(buf: &[u8], len: usize) -> (b: bool)
    requires
        len <= buf@.len(),
    ensures
        b == (len >= ANNOUNCE_LEN && buf@.subrange(0, 4) == announce_magic()),
{
    if len < ANNOUNCE_LEN {
        return false;
    }
    let r = buf[0] == ANNOUNCE_MAGIC[0] && buf[1] == ANNOUNCE_MAGIC[1] && buf[2] == ANNOUNCE_MAGIC[2]
        && buf[3] == ANNOUNCE_MAGIC[3];
    assert(r == (buf@.subrange(0, 4) =~= announce_magic()));
    r
}

/// Every announcement is recognised as one.
pub proof fn lemma_announcement_recognized(id: u64)
    ensures
        announcement_bytes(id).len() == ANNOUNCE_LEN,
        announcement_bytes(id).subrange(0, 4) == announce_magic(),
{
    assert(announcement_bytes(id).subrange(0, 4) =~= announce_magic());
}

/// How many datagrams a discovery scan reads at most.
pub const MAX_DISCOVERY_READS: usize = 10;

/// What a discovery scan does with one receive.
#[derive(PartialEq, Eq, Structural)]
pub struct ScanStep {
    /// The sender is a peer.
    pub accept: bool,
    /// Receive again.
    pub go_on: bool,
}

/// One step of a discovery scan that has done `reads` receives:
/// `received` is the length of the datagram read into `buf`, or `None`
/// when the receive failed. A failed receive ends the scan; a datagram is
/// accepted when it is an announcement; the scan ends after
/// `MAX_DISCOVERY_READS` receives.
pub fn scan_step(reads: usize, received: Option<usize>, buf: &[u8]) -> (s: ScanStep)
    requires
        reads < MAX_DISCOVERY_READS,
        received matches Some(len) ==> len <= buf@.len(),
    ensures
        s == match received {
            Some(len) => (ScanStep {
                accept: len >= ANNOUNCE_LEN && buf@.subrange(0, 4) == announce_magic(),
                go_on: reads + 1 < MAX_DISCOVERY_READS,
            }),
            None => (ScanStep { accept: false, go_on: false }),
        },
{
    match received {
        Some(len) => ScanStep {
            accept: is_announcement(buf, len),
            go_on: reads + 1 < MAX_DISCOVERY_READS,
        },
        None => ScanStep { accept: false, go_on: false },
    }
}

} // verus!
