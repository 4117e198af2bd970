use vstd::prelude::*;

verus! {

/// How many perceptions a room remembers.
pub const MAX_PERCEPTIONS: usize = 100;

/// How many of the latest perceptions a prediction is made from.
pub const PREDICTION_WINDOW: usize = 10;

/// A single cell of the Grand Pattern: its current vibe and the buffer of
/// vibes it has perceived, oldest first.
#[derive(Clone, Debug)]
pub struct Room<V> {
    pub room_id: String,
    pub vibe: V,
    pub perceptions: Vec<V>,
}

/// What a room is, seen from the outside.
pub ghost struct RoomView<V> {
    pub id: Seq<char>,
    pub vibe: V,
    pub perceptions: Seq<V>,
}

impl<V> View for Room<V> {
    type V = RoomView<V>;

    open spec fn view(&self) -> RoomView<V> {
        RoomView { id: self.room_id@, vibe: self.vibe, perceptions: self.perceptions@ }
    }
}

/// The perception buffer after `v` is perceived: `v` is appended, and the
/// oldest entry goes once the buffer holds more than `MAX_PERCEPTIONS`.
pub open spec fn perceived<V>(buf: Seq<V>, v: V) -> Seq<V> {
    let grown = buf.push(v);
    if grown.len() > MAX_PERCEPTIONS {
        grown.drop_first()
    } else {
        grown
    }
}

/// The perceptions a prediction is made from: the last `PREDICTION_WINDOW`
/// of them, or all of them when there are fewer.
pub open spec fn prediction_window<V>(buf: Seq<V>) -> Seq<V> {
    if buf.len() > PREDICTION_WINDOW {
        buf.subrange(buf.len() - PREDICTION_WINDOW, buf.len() as int)
    } else {
        buf
    }
}

/// A room never remembers more than `MAX_PERCEPTIONS` perceptions, and the
/// newest perception is always the one just perceived.
pub proof fn lemma_perceptions_bounded<V>(buf: Seq<V>, v: V)
    requires
        buf.len() <= MAX_PERCEPTIONS,
    ensures
        perceived(buf, v).len() <= MAX_PERCEPTIONS,
        perceived(buf, v).len() == if buf.len() == MAX_PERCEPTIONS {
            MAX_PERCEPTIONS as int
        } else {
            buf.len() + 1int
        },
        perceived(buf, v).last() == v,
{
}

/// Perceiving keeps the newest perceptions: from a buffer of at most a
/// hundred, the buffer after `v` is perceived holds the last hundred (or
/// all, when there are fewer) of the old perceptions followed by `v`, in
/// order.
pub proof fn lemma_perceive_keeps_newest<V>(buf: Seq<V>, v: V)
    requires
        buf.len() <= 100,
    ensures
        ({
            let all = buf.push(v);
            let n: int = if all.len() < 100 { all.len() as int } else { 100 };
            &&& perceived(buf, v).len() == n
            &&& perceived(buf, v) == all.subrange(all.len() - n, all.len() as int)
            &&& perceived(buf, v).drop_last() == buf.subrange(buf.len() - (n - 1), buf.len() as int)
        }),
{
    let all = buf.push(v);
    let n: int = if all.len() < 100 { all.len() as int } else { 100 };
    assert(perceived(buf, v) =~= all.subrange(all.len() - n, all.len() as int));
    assert(perceived(buf, v).drop_last() =~= buf.subrange(buf.len() - (n - 1), buf.len() as int));
}

/// The prediction window is the newest perceptions, never more than ten:
/// its length is the smaller of the buffer's length and ten, and it is the
/// buffer's suffix of that length.
pub proof fn lemma_prediction_window_suffix<V>(buf: Seq<V>)
    ensures
        ({
            let n: int = if buf.len() < 10 { buf.len() as int } else { 10 };
            &&& prediction_window(buf).len() == n
            &&& prediction_window(buf) == buf.subrange(buf.len() - n, buf.len() as int)
        }),
{
    if buf.len() <= 10 {
        assert(buf.subrange(0, buf.len() as int) =~= buf);
    }
}

impl<V: Copy> Room<V> {
    /// A room with the given vibe and nothing perceived yet.
    pub fn new(room_id: &str, initial_vibe: V) -> (r: Room<V>)
        ensures
            r@ == (RoomView { id: room_id@, vibe: initial_vibe, perceptions: Seq::<V>::empty() }),
    {
        Room { room_id: room_id.to_owned(), vibe: initial_vibe, perceptions: Vec::new() }
    }

    /// Records a perceived vibe, or the room's own vibe when none is given.
    pub fn perceive(&mut self, vibe: Option<&V>)
        ensures
            final(self).room_id@ == old(self).room_id@,
            final(self).vibe == old(self).vibe,
            final(self).perceptions@ == perceived(
                old(self).perceptions@,
                match vibe {
                    Some(v) => *v,
                    None => old(self).vibe,
                },
            ),
    {
        let v = match vibe {
            Some(v) => *v,
            None => self.vibe,
        };
        self.perceptions.push(v);
        if self.perceptions.len() > MAX_PERCEPTIONS {
            self.perceptions.remove(0);
            assert(self.perceptions@ =~= perceived(old(self).perceptions@, v));
        }
    }

    /// One tick of the room: it perceives its own vibe.
    pub fn tick(&mut self)
        ensures
            final(self).room_id@ == old(self).room_id@,
            final(self).vibe == old(self).vibe,
            final(self).perceptions@ == perceived(old(self).perceptions@, old(self).vibe),
    {
        self.perceive(None);
    }

    /// The latest perceptions, oldest first, from which a prediction is made
    /// (a room that has perceived nothing predicts the neutral vibe).
    pub fn recent_perceptions(&self) -> (w: Vec<V>)
        ensures
            w@ == prediction_window(self.perceptions@),
    {
        let len = self.perceptions.len();
        let start = if len > PREDICTION_WINDOW { len - PREDICTION_WINDOW } else { 0 };
        let mut w: Vec<V> = Vec::new();
        let mut i = start;
        while i < len
            invariant
                start <= i <= len,
                len == self.perceptions@.len(),
                w@ == self.perceptions@.subrange(start as int, i as int),
            decreases len - i,
        {
            w.push(self.perceptions[i]);
            i += 1;
            assert(w@ =~= self.perceptions@.subrange(start as int, i as int));
        }
        assert(w@ =~= prediction_window(self.perceptions@));
        w
    }

    /// Moves the room's vibe towards its neighbours': `diffuse` is given the
    /// room's vibe and the neighbours' vibes in order, and its result becomes
    /// the room's vibe.
    pub fn diffuse<F: Fn(&V, &Vec<V>) -> V>(&mut self, neighbors: &[&Room<V>], diffuse: &F)
        requires
            forall|v: &V, nbs: &Vec<V>| #[trigger] diffuse.requires((v, nbs)),
        ensures
            final(self).room_id@ == old(self).room_id@,
            final(self).perceptions@ == old(self).perceptions@,
            exists|nbs: Vec<V>|
                {
                    &&& nbs@ == neighbors@.map_values(|r: &Room<V>| r.vibe)
                    &&& diffuse.ensures((&old(self).vibe, &nbs), final(self).vibe)
                },
    {
        let mut nbs: Vec<V> = Vec::new();
        let mut i: usize = 0;
        while i < neighbors.len()
            invariant
                i <= neighbors@.len(),
                nbs@ == neighbors@.subrange(0, i as int).map_values(|r: &Room<V>| r.vibe),
            decreases neighbors@.len() - i,
        {
            nbs.push(neighbors[i].vibe);
            i += 1;
            assert(nbs@ =~= neighbors@.subrange(0, i as int).map_values(|r: &Room<V>| r.vibe));
        }
        assert(neighbors@.subrange(0, i as int) =~= neighbors@);
        let v = diffuse(&self.vibe, &nbs);
        self.vibe = v;
    }
}

} // verus!
