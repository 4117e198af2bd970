//! The order in which ids are written to the wire: byte-wise lexicographic
//! order of their UTF-8 encodings (the order of `str`).

use vstd::prelude::*;
use vstd::relations::{sorted_by, total_ordering};
use vstd::utf8::encode_utf8;

use crate::gossip::string_views;

verus! {

broadcast use vstd::seq_lib::group_to_multiset_ensures;

/// `a` comes no later than `b` in lexicographic byte order.
pub open spec fn bytes_le(a: Seq<u8>, b: Seq<u8>) -> bool
    decreases a.len(),
{
    if a.len() == 0 {
        true
    } else if b.len() == 0 {
        false
    } else if a[0] != b[0] {
        a[0] < b[0]
    } else {
        bytes_le(a.drop_first(), b.drop_first())
    }
}

/// Id order: by UTF-8 encoding, byte-wise.
pub open spec fn id_le(a: Seq<char>, b: Seq<char>) -> bool {
    bytes_le(encode_utf8(a), encode_utf8(b))
}

pub open spec fn id_order() -> spec_fn(Seq<char>, Seq<char>) -> bool {
    |a: Seq<char>, b: Seq<char>| id_le(a, b)
}

/// The ids sorted in id order.
pub open spec fn sorted_ids(ids: Seq<Seq<char>>) -> Seq<Seq<char>> {
    ids.sort_by(id_order())
}

proof fn lemma_bytes_le_refl(a: Seq<u8>)
    ensures
        bytes_le(a, a),
    decreases a.len(),
{
    if a.len() > 0 {
        lemma_bytes_le_refl(a.drop_first());
    }
}

proof fn lemma_bytes_le_antisym(a: Seq<u8>, b: Seq<u8>)
    requires
        bytes_le(a, b),
        bytes_le(b, a),
    ensures
        a == b,
    decreases a.len(),
{
    if a.len() > 0 && b.len() > 0 {
        lemma_bytes_le_antisym(a.drop_first(), b.drop_first());
        assert(a =~= seq![a[0]] + a.drop_first());
        assert(b =~= seq![b[0]] + b.drop_first());
    }
}

proof fn lemma_bytes_le_trans(a: Seq<u8>, b: Seq<u8>, c: Seq<u8>)
    requires
        bytes_le(a, b),
        bytes_le(b, c),
    ensures
        bytes_le(a, c),
    decreases a.len(),
{
    if a.len() > 0 && b.len() > 0 && c.len() > 0 {
        if a[0] == b[0] && b[0] == c[0] {
            lemma_bytes_le_trans(a.drop_first(), b.drop_first(), c.drop_first());
        }
    }
}

proof fn lemma_bytes_le_total(a: Seq<u8>, b: Seq<u8>)
    ensures
        bytes_le(a, b) || bytes_le(b, a),
    decreases a.len(),
{
    if a.len() > 0 && b.len() > 0 && a[0] == b[0] {
        lemma_bytes_le_total(a.drop_first(), b.drop_first());
    }
}

/// Id order is a total order.
pub proof fn lemma_id_order_total()
    ensures
        total_ordering(id_order()),
{
    assert forall|a: Seq<char>| #[trigger] id_order()(a, a) by {
        lemma_bytes_le_refl(encode_utf8(a));
    }
    assert forall|a: Seq<char>, b: Seq<char>|
        #[trigger] id_order()(a, b) && #[trigger] id_order()(b, a) implies a == b by {
        lemma_bytes_le_antisym(encode_utf8(a), encode_utf8(b));
        vstd::utf8::encode_utf8_decode_utf8(a);
        vstd::utf8::encode_utf8_decode_utf8(b);
    }
    assert forall|a: Seq<char>, b: Seq<char>, c: Seq<char>|
        #[trigger] id_order()(a, b) && #[trigger] id_order()(b, c) implies id_order()(a, c) by {
        lemma_bytes_le_trans(encode_utf8(a), encode_utf8(b), encode_utf8(c));
    }
    assert forall|a: Seq<char>, b: Seq<char>|
        #[trigger] id_order()(a, b) || #[trigger] id_order()(b, a) by {
        lemma_bytes_le_total(encode_utf8(a), encode_utf8(b));
    }
}

proof fn lemma_bytes_le_skip(a: Seq<u8>, b: Seq<u8>, i: int)
    requires
        0 <= i < a.len(),
        i < b.len(),
        a[i] == b[i],
    ensures
        bytes_le(a.skip(i), b.skip(i)) == bytes_le(a.skip(i + 1), b.skip(i + 1)),
{
    assert(a.skip(i).drop_first() =~= a.skip(i + 1));
    assert(b.skip(i).drop_first() =~= b.skip(i + 1));
}

/// Lexicographic comparison of two byte strings.
fn bytes_le_exec(a: &[u8], b: &[u8]) -> (r: bool)
    ensures
        r == bytes_le(a@, b@),
{
    let mut i: usize = 0;
    assert(a@.skip(0) =~= a@);
    assert(b@.skip(0) =~= b@);
    while i < a.len() && i < b.len() && a[i] == b[i]
        invariant
            i <= a@.len(),
            i <= b@.len(),
            bytes_le(a@, b@) == bytes_le(a@.skip(i as int), b@.skip(i as int)),
        decreases a@.len() - i,
    {
        proof {
            lemma_bytes_le_skip(a@, b@, i as int);
        }
        i += 1;
    }
    if i == a.len() {
        assert(a@.skip(i as int).len() == 0);
        true
    } else if i == b.len() {
        false
    } else {
        assert(a@.skip(i as int)[0] == a@[i as int]);
        assert(b@.skip(i as int)[0] == b@[i as int]);
        a[i] < b[i]
    }
}

/// Byte order is lexicographic: `a` comes no later than `b` exactly when
/// `a` is a prefix of `b`, or at the first position where they differ the
/// byte of `a` is the smaller.
pub proof fn lemma_bytes_le_lexicographic(a: Seq<u8>, b: Seq<u8>)
    ensures
        bytes_le(a, b) <==> ((a.len() <= b.len() && b.subrange(0, a.len() as int) == a) || exists|
            k: int,
        |
            0 <= k < a.len() && k < b.len() && a.subrange(0, k) == b.subrange(0, k) && #[trigger] a[k]
                < b[k]),
    decreases a.len(),
{
    if a.len() == 0 {
        assert(b.subrange(0, 0) =~= a);
    } else if b.len() == 0 {
    } else {
        lemma_bytes_le_lexicographic(a.drop_first(), b.drop_first());
        let a1 = a.drop_first();
        let b1 = b.drop_first();
        if a[0] != b[0] {
            if a[0] < b[0] {
                assert(a.subrange(0, 0) =~= b.subrange(0, 0));
                assert(a[0] < b[0]);
            } else {
                if a.len() <= b.len() && b.subrange(0, a.len() as int) == a {
                    assert(b.subrange(0, a.len() as int)[0] == a[0]);
                }
                if exists|k: int|
                    0 <= k < a.len() && k < b.len() && a.subrange(0, k) == b.subrange(0, k)
                        && #[trigger] a[k] < b[k] {
                    let k = choose|k: int|
                        0 <= k < a.len() && k < b.len() && a.subrange(0, k) == b.subrange(0, k)
                            && #[trigger] a[k] < b[k];
                    if k > 0 {
                        assert(a.subrange(0, k)[0] == b.subrange(0, k)[0]);
                    }
                }
            }
        } else {
            // Same first byte: both sides reduce to the tails.
            if a.len() <= b.len() && b.subrange(0, a.len() as int) == a {
                assert(b1.subrange(0, a1.len() as int) =~= a1);
            }
            if a1.len() <= b1.len() && b1.subrange(0, a1.len() as int) == a1 {
                assert forall|i: int| 0 < i < a.len() implies b[i] == a[i] by {
                    assert(b1.subrange(0, a1.len() as int)[i - 1] == a1[i - 1]);
                }
                assert(b.subrange(0, a.len() as int) =~= a);
            }
            if exists|k: int|
                0 <= k < a.len() && k < b.len() && a.subrange(0, k) == b.subrange(0, k) && #[trigger] a[k]
                    < b[k] {
                let k = choose|k: int|
                    0 <= k < a.len() && k < b.len() && a.subrange(0, k) == b.subrange(0, k)
                        && #[trigger] a[k] < b[k];
                assert(k > 0);
                assert(a1.subrange(0, k - 1) =~= a.subrange(0, k).drop_first());
                assert(b1.subrange(0, k - 1) =~= b.subrange(0, k).drop_first());
                assert(a1[k - 1] < b1[k - 1]);
            }
            if exists|k: int|
                0 <= k < a1.len() && k < b1.len() && a1.subrange(0, k) == b1.subrange(0, k)
                    && #[trigger] a1[k] < b1[k] {
                let k = choose|k: int|
                    0 <= k < a1.len() && k < b1.len() && a1.subrange(0, k) == b1.subrange(0, k)
                        && #[trigger] a1[k] < b1[k];
                assert(a.subrange(0, k + 1) =~= seq![a[0]] + a1.subrange(0, k));
                assert(b.subrange(0, k + 1) =~= seq![b[0]] + b1.subrange(0, k));
                assert(a[k + 1] < b[k + 1]);
            }
        }
    }
}

/// Sorting ids gives them in id order, each as often as before.
pub proof fn lemma_sorted_ids_sorted_permutation(ids: Seq<Seq<char>>)
    ensures
        sorted_by(sorted_ids(ids), id_order()),
        sorted_ids(ids).to_multiset() == ids.to_multiset(),
{
    lemma_id_order_total();
    ids.lemma_sort_by_ensures(id_order());
}

/// Whether id `a` comes no later than id `b`.
pub fn id_le_exec(a: &String, b: &String) -> (r: bool)
    ensures
        r == id_le(a@, b@),
{
    bytes_le_exec(a.as_str().as_bytes(), b.as_str().as_bytes())
}

/// The ids sorted in id order (equal ids keep their relative order).
pub fn sort_ids(v: &Vec<String>) -> (r: Vec<String>)
    ensures
        string_views(r@) == sorted_ids(string_views(v@)),
{
    proof {
        lemma_id_order_total();
    }
    let ghost leq = id_order();
    let mut out: Vec<String> = Vec::new();
    let mut i: usize = 0;
    while i < v.len()
        invariant
            i <= v@.len(),
            total_ordering(leq),
            leq == id_order(),
            sorted_by(string_views(out@), leq),
            string_views(out@).to_multiset() == string_views(v@).subrange(0, i as int).to_multiset(),
        decreases v@.len() - i,
    {
        let x = v[i].clone();
        let mut p: usize = 0;
        while p < out.len() && id_le_exec(&out[p], &x)
            invariant
                p <= out@.len(),
                forall|j: int| 0 <= j < p ==> #[trigger] leq(string_views(out@)[j], x@),
                leq == id_order(),
            decreases out@.len() - p,
        {
            p += 1;
        }
        let ghost s = string_views(out@);
        proof {
            if p < out@.len() {
                assert(!id_le(s[p as int], x@));
                assert(leq(x@, s[p as int]) || leq(s[p as int], x@));
            }
            assert forall|j: int| p <= j < s.len() implies #[trigger] leq(x@, s[j]) by {
                if j > p {
                    assert(leq(s[p as int], s[j]));
                    assert(leq(x@, s[p as int]) || leq(s[p as int], x@));
                }
            }
        }
        out.insert(p, x);
        proof {
            let t = string_views(out@);
            assert(t =~= s.insert(p as int, x@));
            assert forall|a: int, b: int| 0 <= a < b < t.len() implies #[trigger] leq(
                t[a],
                t[b],
            ) by {
                if b < p {
                    assert(leq(s[a], s[b]));
                } else if b == p {
                    assert(leq(s[a], x@));
                } else if a < p {
                    assert(leq(s[a], x@));
                    assert(leq(x@, s[b - 1]));
                } else if a == p {
                    assert(leq(x@, s[b - 1]));
                } else {
                    assert(leq(s[a - 1], s[b - 1]));
                }
            }
            let u = string_views(v@);
            assert(u.subrange(0, i + 1) =~= u.subrange(0, i as int).push(x@));
        }
        i += 1;
    }
    proof {
        let u = string_views(v@);
        assert(u.subrange(0, i as int) =~= u);
        u.lemma_sort_by_ensures(leq);
        vstd::seq_lib::lemma_sorted_unique(string_views(out@), u.sort_by(leq), leq);
    }
    out
}

} // verus!
