//! Splitting `application/x-www-form-urlencoded` text into key/value
//! pairs, and looking a key up among the pairs.
//!
//! A query splits at every `&` into pieces, and each piece splits at its
//! first `=` into a key and a value; a piece without `=` is a key with an
//! empty value. When a key occurs more than once, a lookup returns the
//! value of its last occurrence.
use vstd::prelude::*;
use crate::bytes::{bytes_eq, copy_range, find_byte, find_byte_exec, lemma_find_byte_bounds};
use crate::params::views;

verus! {

/// The key/value reading of one `&`-free piece.
pub open spec fn pair_of(piece: Seq<u8>) -> (Seq<u8>, Seq<u8>) {
    match find_byte(piece, 61) {
        None => (piece, Seq::empty()),
        Some(i) => (piece.take(i), piece.skip(i + 1)),
    }
}

/// The pieces of `s` between `&` separators, with `cur` the piece read
/// so far.
pub open spec fn pieces_from(s: Seq<u8>, cur: Seq<u8>) -> Seq<Seq<u8>>
    decreases s.len(),
{
    if s.len() == 0 {
        seq![cur]
    } else if s[0] == 38 {
        seq![cur] + pieces_from(s.drop_first(), Seq::empty())
    } else {
        pieces_from(s.drop_first(), cur.push(s[0]))
    }
}

/// The key/value pairs of a query string.
pub open spec fn split_query_spec(s: Seq<u8>) -> Seq<(Seq<u8>, Seq<u8>)> {
    pieces_from(s, Seq::empty()).map_values(|p: Seq<u8>| pair_of(p))
}

/// Split one piece at its first `=`.
fn split_piece(piece: &[u8]) -> (r: (Vec<u8>, Vec<u8>))
    ensures
        (r.0@, r.1@) == pair_of(piece@),
{
    proof {
        lemma_find_byte_bounds(piece@, 61);
    }
    match find_byte_exec(piece, 61) {
        None => {
            let k = copy_range(piece, 0, piece.len());
            proof {
                assert(piece@.subrange(0, piece@.len() as int) =~= piece@);
            }
            (k, Vec::new())
        },
        Some(i) => {
            let n = piece.len();
            proof {
                lemma_find_byte_bounds(piece@, 61);
                assert(0 <= (i as int) && (i as int) < n as int);
            }
            let k = copy_range(piece, 0, i);
            let v = copy_range(piece, i + 1, n);
            proof {
                assert(piece@.subrange(0, i as int) =~= piece@.take(i as int));
                assert(piece@.subrange(i + 1, piece@.len() as int) =~= piece@.skip(i + 1));
            }
            (k, v)
        },
    }
}

/// Split a query string into its key/value pairs.
pub fn split_query(query: &[u8]) -> (r: Vec<(Vec<u8>, Vec<u8>)>)
    ensures
        views(r@) == split_query_spec(query@),
{
    let ghost all = pieces_from(query@, Seq::<u8>::empty());
    let mut out: Vec<(Vec<u8>, Vec<u8>)> = Vec::new();
    let mut done: Ghost<Seq<Seq<u8>>> = Ghost(Seq::empty());
    let mut cur: Vec<u8> = Vec::new();
    let mut i: usize = 0;
    proof {
        assert(done@.map_values(|p: Seq<u8>| pair_of(p)) =~= views(out@));
        assert(query@.skip(0) =~= query@);
        assert(cur@ =~= Seq::<u8>::empty());
        assert(all =~= done@ + pieces_from(query@.skip(0), cur@));
    }
    while i < query.len()
        invariant
            i <= query.len(),
            all == done@ + pieces_from(query@.skip(i as int), cur@),
            views(out@) == done@.map_values(|p: Seq<u8>| pair_of(p)),
        decreases query.len() - i,
    {
        let ghost rest = query@.skip(i as int);
        let b = query[i];
        assert(rest[0] == b);
        proof {
            assert(rest.drop_first() =~= query@.skip(i + 1));
        }
        if b == 38 {
            let piece = cur;
            let pair = split_piece(piece.as_slice());
            out.push(pair);
            proof {
                assert(pieces_from(rest, piece@) =~= seq![piece@] + pieces_from(
                    query@.skip(i + 1),
                    Seq::<u8>::empty(),
                ));
                assert((done@ + seq![piece@]).map_values(|p: Seq<u8>| pair_of(p)) =~= done@
                    .map_values(|p: Seq<u8>| pair_of(p)).push(pair_of(piece@)));
                assert(views(out@) =~= views(out@.drop_last()).push(
                    (out@.last().0@, out@.last().1@),
                ));
                assert(all =~= (done@ + seq![piece@]) + pieces_from(
                    query@.skip(i + 1),
                    Seq::<u8>::empty(),
                ));
            }
            done = Ghost(done@ + seq![piece@]);
            cur = Vec::new();
        } else {
            cur.push(b);
        }
        i = i + 1;
    }
    proof {
        assert(query@.skip(query@.len() as int) =~= Seq::<u8>::empty());
        assert(pieces_from(Seq::<u8>::empty(), cur@) =~= seq![cur@]);
    }
    let pair = split_piece(cur.as_slice());
    out.push(pair);
    proof {
        assert((done@ + seq![cur@]).map_values(|p: Seq<u8>| pair_of(p)) =~= done@.map_values(
            |p: Seq<u8>| pair_of(p),
        ).push(pair_of(cur@)));
        assert(views(out@) =~= views(out@.drop_last()).push((out@.last().0@, out@.last().1@)));
        assert(all =~= done@ + seq![cur@]);
        assert(views(out@) =~= split_query_spec(query@));
    }
    out
}

/// A piece without `&` stays one piece.
proof fn lemma_pieces_from_clean(s: Seq<u8>, cur: Seq<u8>)
    requires
        forall|i: int| 0 <= i < s.len() ==> s[i] != 38,
    ensures
        pieces_from(s, cur) == seq![cur + s],
    decreases s.len(),
{
    if s.len() == 0 {
        assert(cur + s =~= cur);
        assert(pieces_from(s, cur) =~= seq![cur + s]);
    } else {
        lemma_pieces_from_clean(s.drop_first(), cur.push(s[0]));
        assert(cur.push(s[0]) + s.drop_first() =~= cur + s);
    }
}

/// A `&` after an `&`-free prefix splits exactly there.
proof fn lemma_pieces_from_split(s1: Seq<u8>, s2: Seq<u8>, cur: Seq<u8>)
    requires
        forall|i: int| 0 <= i < s1.len() ==> s1[i] != 38,
    ensures
        pieces_from(s1 + seq![38u8] + s2, cur) == seq![cur + s1] + pieces_from(s2, Seq::empty()),
    decreases s1.len(),
{
    let s = s1 + seq![38u8] + s2;
    if s1.len() == 0 {
        assert(s[0] == 38);
        assert(s.drop_first() =~= s2);
        assert(cur + s1 =~= cur);
        assert(pieces_from(s, cur) =~= seq![cur + s1] + pieces_from(s2, Seq::empty()));
    } else {
        assert(s[0] == s1[0]);
        assert(s.drop_first() =~= s1.drop_first() + seq![38u8] + s2);
        lemma_pieces_from_split(s1.drop_first(), s2, cur.push(s1[0]));
        assert(cur.push(s1[0]) + s1.drop_first() =~= cur + s1);
    }
}

/// Reading a rendered pair back gives the pair, provided its key holds
/// no `=`.
proof fn lemma_pair_of_pair_bytes(p: (Seq<u8>, Seq<u8>))
    requires
        forall|i: int| 0 <= i < p.0.len() ==> p.0[i] != 61,
    ensures
        pair_of(crate::params::pair_bytes(p)) == p,
{
    let piece = crate::params::pair_bytes(p);
    let n = p.0.len() as int;
    assert(piece.len() == p.0.len() + 1 + p.1.len());
    assert forall|k: int| 0 <= k < n implies piece[k] != 61 by {
        assert(piece[k] == p.0[k]);
    }
    assert(piece[n] == 61);
    crate::bytes::lemma_find_byte_at(piece, 61, n);
    assert(piece.take(n) =~= p.0);
    assert(piece.skip(n + 1) =~= p.1);
}

/// Splitting a joined rendering of pairs recovers the pairs, provided
/// no key or value holds `&` and no key holds `=`.
pub proof fn lemma_split_of_joined(qs: Seq<(Seq<u8>, Seq<u8>)>)
    requires
        qs.len() > 0,
        forall|i: int, k: int|
            0 <= i < qs.len() && 0 <= k < qs[i].0.len() ==> #[trigger] qs[i].0[k] != 38
                && qs[i].0[k] != 61,
        forall|i: int, k: int|
            0 <= i < qs.len() && 0 <= k < qs[i].1.len() ==> #[trigger] qs[i].1[k] != 38,
    ensures
        split_query_spec(crate::params::joined(qs)) == qs,
    decreases qs.len(),
{
    let s = crate::params::joined(qs);
    let pb0 = crate::params::pair_bytes(qs[0]);
    assert forall|k: int| 0 <= k < pb0.len() implies pb0[k] != 38 by {
        if k < qs[0].0.len() {
            assert(pb0[k] == qs[0].0[k]);
        } else if k == qs[0].0.len() {
            assert(pb0[k] == 61);
        } else {
            assert(pb0[k] == qs[0].1[k - qs[0].0.len() - 1]);
        }
    }
    if qs.len() == 1 {
        assert(s == pb0);
        lemma_pieces_from_clean(s, Seq::empty());
        assert(Seq::<u8>::empty() + s =~= s);
        assert(pieces_from(s, Seq::empty()) =~= seq![s]);
        lemma_pair_of_pair_bytes(qs[0]);
        assert(split_query_spec(s) =~= qs);
    } else {
        crate::params::lemma_joined_front(qs);
        assert(s == pb0 + seq![38u8] + crate::params::joined(qs.drop_first()));
        lemma_pieces_from_split(pb0, crate::params::joined(qs.drop_first()), Seq::empty());
        assert(Seq::<u8>::empty() + pb0 =~= pb0);
        lemma_split_of_joined(qs.drop_first());
        lemma_pair_of_pair_bytes(qs[0]);
        let rest_pieces = pieces_from(crate::params::joined(qs.drop_first()), Seq::empty());
        assert(pieces_from(s, Seq::empty()) =~= seq![pb0] + rest_pieces);
        assert(split_query_spec(s) =~= (seq![pb0] + rest_pieces).map_values(
            |p: Seq<u8>| pair_of(p),
        ));
        assert((seq![pb0] + rest_pieces).map_values(|p: Seq<u8>| pair_of(p)) =~= seq![
            pair_of(pb0),
        ] + rest_pieces.map_values(|p: Seq<u8>| pair_of(p)));
        assert(split_query_spec(s) =~= qs);
    }
}

/// The value stored under `k`: the last pair with that key wins.
pub open spec fn lookup(ps: Seq<(Seq<u8>, Seq<u8>)>, k: Seq<u8>) -> Option<Seq<u8>>
    decreases ps.len(),
{
    if ps.len() == 0 {
        None
    } else if ps.last().0 == k {
        Some(ps.last().1)
    } else {
        lookup(ps.drop_last(), k)
    }
}

/// Look a key up among pairs; the last occurrence wins.
pub fn lookup_param(ps: &Vec<(Vec<u8>, Vec<u8>)>, k: &[u8]) -> (r: Option<Vec<u8>>)
    ensures
        match r {
            Some(v) => lookup(views(ps@), k@) == Some(v@),
            None => lookup(views(ps@), k@) is None,
        },
{
    let mut j: usize = ps.len();
    proof {
        assert(views(ps@).take(j as int) =~= views(ps@));
    }
    while j > 0
        invariant
            j <= ps.len(),
            lookup(views(ps@), k@) == lookup(views(ps@).take(j as int), k@),
        decreases j,
    {
        j = j - 1;
        let ghost pre = views(ps@).take(j + 1);
        proof {
            assert(pre.last() == views(ps@)[j as int]);
            assert(views(ps@)[j as int] == (ps@[j as int].0@, ps@[j as int].1@));
            assert(pre.drop_last() =~= views(ps@).take(j as int));
        }
        if bytes_eq(ps[j].0.as_slice(), k) {
            let v = vstd::slice::slice_to_vec(ps[j].1.as_slice());
            return Some(v);
        }
    }
    proof {
        assert(views(ps@).take(0) =~= Seq::<(Seq<u8>, Seq<u8>)>::empty());
    }
    None
}

} // verus!
