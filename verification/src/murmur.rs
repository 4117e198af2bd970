use vstd::prelude::*;

verus! {

/// Number of ticks after which a murmur is considered stale.
pub const MAX_AGE: u64 = 60;

/// A gossip packet carrying a snapshot of a room's vibe.
#[derive(Clone, Debug)]
pub struct Murmur<V> {
    pub source_id: String,
    pub vibe: V,
    /// 0 = neighbour, 1 = zone, 2 = fleet.
    pub level: u8,
    pub ttl: u8,
    pub hops: u8,
    /// Tick of the sender when the murmur was made.
    pub timestamp: u64,
}

/// A murmur seen from the outside.
pub ghost struct MurmurView<V> {
    pub source_id: Seq<char>,
    pub vibe: V,
    pub level: u8,
    pub ttl: u8,
    pub hops: u8,
    pub timestamp: u64,
}

impl<V> View for Murmur<V> {
    type V = MurmurView<V>;

    open spec fn view(&self) -> MurmurView<V> {
        MurmurView {
            source_id: self.source_id@,
            vibe: self.vibe,
            level: self.level,
            ttl: self.ttl,
            hops: self.hops,
            timestamp: self.timestamp,
        }
    }
}

/// `a - b`, or 0 when `b > a`.
pub open spec fn saturating_diff(a: int, b: int) -> int {
    if a >= b { a - b } else { 0 }
}

/// A murmur is stale once its time to live is spent or it is more than
/// `MAX_AGE` ticks old.
pub open spec fn spec_is_expired(ttl: u8, timestamp: u64, current_tick: u64) -> bool {
    ttl == 0 || saturating_diff(current_tick as int, timestamp as int) > MAX_AGE
}

/// Expiry, stated on the clock: a murmur is stale exactly when its time to
/// live is spent or the current tick lies more than 60 ticks after its
/// timestamp. Any murmur with time to live left that is at most 60 ticks old
/// (or stamped in the future) is live, whatever that time to live is.
pub proof fn lemma_expiry_by_clock(ttl: u8, timestamp: u64, current_tick: u64)
    ensures
        spec_is_expired(ttl, timestamp, current_tick) <==> (ttl == 0 || current_tick > timestamp
            + 60),
        ttl > 0 && current_tick <= timestamp + 60 ==> !spec_is_expired(ttl, timestamp, current_tick),
        ttl == 0 ==> spec_is_expired(ttl, timestamp, current_tick),
{
}

impl<V: Copy> Murmur<V> {
    /// A fresh murmur: no hops yet.
    pub fn new(source_id: &str, vibe: &V, level: u8, ttl: u8, timestamp: u64) -> (m: Murmur<V>)
        ensures
            m.source_id@ == source_id@,
            m.vibe == *vibe,
            m.level == level,
            m.ttl == ttl,
            m.hops == 0,
            m.timestamp == timestamp,
    {
        Murmur {
            source_id: source_id.to_owned(),
            vibe: *vibe,
            level,
            ttl,
            hops: 0,
            timestamp,
        }
    }

    pub fn is_expired(&self, current_tick: u64) -> (r: bool)
        ensures
            r == spec_is_expired(self.ttl, self.timestamp, current_tick),
    {
        self.ttl == 0 || current_tick.saturating_sub(self.timestamp) > MAX_AGE
    }

    /// The murmur as it is passed on: one less time to live (never below
    /// zero), one more hop.
    pub fn decay(&self) -> (d: Murmur<V>)
        requires
            self.hops < u8::MAX,
        ensures
            d.source_id@ == self.source_id@,
            d.vibe == self.vibe,
            d.level == self.level,
            d.ttl == (if self.ttl == 0 { 0 } else { self.ttl - 1 }),
            d.hops == self.hops + 1,
            d.timestamp == self.timestamp,
    {
        Murmur {
            source_id: self.source_id.clone(),
            vibe: self.vibe,
            level: self.level,
            ttl: self.ttl.saturating_sub(1),
            hops: self.hops + 1,
            timestamp: self.timestamp,
        }
    }
}

} // verus!
