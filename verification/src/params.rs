//! Protocol parameters as key/value pairs of byte strings, their
//! canonical order (lexicographic by key, ties broken by value), and the
//! `key=value` joining used for signature base strings.
//!
//! The canonical order makes the parameter string a pure function of the
//! parameter multiset: any two arrangements of the same pairs sort to the
//! same sequence.
use vstd::prelude::*;
use vstd::multiset::Multiset;
use vstd::relations::{sorted_by, total_ordering};
use vstd::seq_lib::lemma_multiset_commutative;
use vstd::seq_lib::lemma_sorted_unique;
use crate::bytes::{bytes_eq, lex_le, lex_leq};
use crate::bytes::{
    lemma_lex_leq_antisymmetric,
    lemma_lex_leq_connected,
    lemma_lex_leq_reflexive,
    lemma_lex_leq_transitive,
};

verus! {

/// The views of a sequence of owned pairs.
pub open spec fn views(s: Seq<(Vec<u8>, Vec<u8>)>) -> Seq<(Seq<u8>, Seq<u8>)> {
    s.map_values(|p: (Vec<u8>, Vec<u8>)| (p.0@, p.1@))
}

/// Canonical pair order: by key, ties broken by value.
pub open spec fn pair_leq(x: (Seq<u8>, Seq<u8>), y: (Seq<u8>, Seq<u8>)) -> bool {
    if x.0 == y.0 {
        lex_leq(x.1, y.1)
    } else {
        lex_leq(x.0, y.0)
    }
}

/// The canonical pair order as a relation value.
pub open spec fn pair_order() -> spec_fn((Seq<u8>, Seq<u8>), (Seq<u8>, Seq<u8>)) -> bool {
    |x: (Seq<u8>, Seq<u8>), y: (Seq<u8>, Seq<u8>)| pair_leq(x, y)
}

/// The canonical pair order is a total order.
pub proof fn lemma_pair_order_total()
    ensures
        total_ordering(pair_order()),
{
    let r = pair_order();
    assert forall|x: (Seq<u8>, Seq<u8>)| #[trigger] r(x, x) by {
        lemma_lex_leq_reflexive(x.1);
        lemma_lex_leq_reflexive(x.0);
    }
    assert forall|x: (Seq<u8>, Seq<u8>), y: (Seq<u8>, Seq<u8>)| #[trigger]
        r(x, y) && #[trigger] r(y, x) implies x == y by {
        if x.0 == y.0 {
            lemma_lex_leq_antisymmetric(x.1, y.1);
        } else {
            lemma_lex_leq_antisymmetric(x.0, y.0);
        }
    }
    assert forall|x: (Seq<u8>, Seq<u8>), y: (Seq<u8>, Seq<u8>), z: (Seq<u8>, Seq<u8>)| #[trigger]
        r(x, y) && #[trigger] r(y, z) implies r(x, z) by {
        if x.0 == y.0 && y.0 == z.0 {
            lemma_lex_leq_transitive(x.1, y.1, z.1);
        } else if x.0 == y.0 {
            // key order decided by y.0 vs z.0, and x.0 == y.0
        } else if y.0 == z.0 {
            // key order decided by x.0 vs y.0, and y.0 == z.0
        } else {
            lemma_lex_leq_transitive(x.0, y.0, z.0);
            if x.0 == z.0 {
                lemma_lex_leq_antisymmetric(x.0, y.0);
            }
        }
    }
    assert forall|x: (Seq<u8>, Seq<u8>), y: (Seq<u8>, Seq<u8>)| #[trigger]
        r(x, y) || #[trigger] r(y, x) by {
        if x.0 == y.0 {
            lemma_lex_leq_connected(x.1, y.1);
        } else {
            lemma_lex_leq_connected(x.0, y.0);
        }
    }
}

/// Any two pairs are comparable in the canonical order.
pub proof fn lemma_pair_leq_connected(x: (Seq<u8>, Seq<u8>), y: (Seq<u8>, Seq<u8>))
    ensures
        pair_leq(x, y) || pair_leq(y, x),
{
    if x.0 == y.0 {
        lemma_lex_leq_connected(x.1, y.1);
    } else {
        lemma_lex_leq_connected(x.0, y.0);
    }
}

/// The canonical pair order is transitive.
pub proof fn lemma_pair_leq_transitive(
    x: (Seq<u8>, Seq<u8>),
    y: (Seq<u8>, Seq<u8>),
    z: (Seq<u8>, Seq<u8>),
)
    requires
        pair_leq(x, y),
        pair_leq(y, z),
    ensures
        pair_leq(x, z),
{
    if x.0 == y.0 && y.0 == z.0 {
        lemma_lex_leq_transitive(x.1, y.1, z.1);
    } else if x.0 == y.0 || y.0 == z.0 {
    } else {
        lemma_lex_leq_transitive(x.0, y.0, z.0);
        if x.0 == z.0 {
            lemma_lex_leq_antisymmetric(x.0, y.0);
        }
    }
}

/// Whether `x` is at or before `y` in the canonical order.
pub fn pair_le(x: &(Vec<u8>, Vec<u8>), y: &(Vec<u8>, Vec<u8>)) -> (r: bool)
    ensures
        r == pair_leq((x.0@, x.1@), (y.0@, y.1@)),
{
    if bytes_eq(x.0.as_slice(), y.0.as_slice()) {
        lex_le(x.1.as_slice(), y.1.as_slice())
    } else {
        lex_le(x.0.as_slice(), y.0.as_slice())
    }
}

/// Sort pairs into the canonical order. The result is a pure function of
/// the multiset of pairs: how the input was arranged does not matter.
pub fn sort_params(input: Vec<(Vec<u8>, Vec<u8>)>) -> (r: Vec<(Vec<u8>, Vec<u8>)>)
    ensures
        views(r@) == views(input@).sort_by(pair_order()),
{
    broadcast use vstd::seq_lib::group_to_multiset_ensures;

    let ghost orig = views(input@);
    let mut v = input;
    let mut r: Vec<(Vec<u8>, Vec<u8>)> = Vec::new();
    proof {
        assert(views(r@) =~= Seq::<(Seq<u8>, Seq<u8>)>::empty());
        assert(views(r@).to_multiset().add(views(v@).to_multiset()) =~= orig.to_multiset());
    }
    while v.len() > 0
        invariant
            sorted_by(views(r@), pair_order()),
            views(r@).to_multiset().add(views(v@).to_multiset()) == orig.to_multiset(),
        decreases v.len(),
    {
        let ghost pre_v = views(v@);
        let x = v.pop().unwrap();
        let ghost xv = (x.0@, x.1@);
        proof {
            assert(pre_v =~= views(v@).push(xv));
            vstd::seq_lib::to_multiset_build(views(v@), xv);
        }
        let mut k: usize = 0;
        loop
            invariant
                k <= r.len(),
                xv == (x.0@, x.1@),
                sorted_by(views(r@), pair_order()),
                forall|j: int| 0 <= j < k ==> !pair_leq(xv, #[trigger] views(r@)[j]),
            ensures
                k <= r.len(),
                forall|j: int| 0 <= j < k ==> !pair_leq(xv, #[trigger] views(r@)[j]),
                k < r.len() ==> pair_leq(xv, views(r@)[k as int]),
            decreases r.len() - k,
        {
            if k >= r.len() {
                break ;
            }
            let le = pair_le(&x, &r[k]);
            proof {
                assert(views(r@)[k as int] == (r@[k as int].0@, r@[k as int].1@));
                assert(le == pair_leq(xv, views(r@)[k as int]));
            }
            if le {
                break ;
            }
            k = k + 1;
        }
        let ghost pre_r = views(r@);
        r.insert(k, x);
        proof {
            assert(views(r@) =~= pre_r.insert(k as int, xv));
            lemma_insert_multiset(pre_r, k as int, xv);
            assert(views(r@).to_multiset().add(views(v@).to_multiset()) =~= orig.to_multiset());
            let post = views(r@);
            let ki = k as int;
            assert(post =~= pre_r.take(ki) + seq![xv] + pre_r.skip(ki));
            assert forall|i: int| 0 <= i < ki implies post[i] == pre_r[i] by {
                assert(post[i] == pre_r.take(ki)[i]);
            }
            assert(post[ki] == xv);
            assert forall|j: int| ki < j < post.len() implies post[j] == pre_r[j - 1] by {
                assert(post[j] == pre_r.skip(ki)[j - ki - 1]);
            }
            assert forall|i: int, j: int| 0 <= i < j < post.len() implies pair_order()(
                post[i],
                post[j],
            ) by {
                if i < ki && j == ki {
                    assert(!pair_leq(xv, pre_r[i]));
                    lemma_pair_leq_connected(xv, pre_r[i]);
                } else if i == ki && j > ki {
                    assert(pair_leq(xv, pre_r[ki]));
                    if j > ki + 1 {
                        assert(pair_order()(pre_r[ki], pre_r[j - 1]));
                        lemma_pair_leq_transitive(xv, pre_r[ki], pre_r[j - 1]);
                    }
                } else if i < ki && j > ki {
                    assert(pair_order()(pre_r[i], pre_r[j - 1]));
                } else if j < ki {
                    assert(pair_order()(pre_r[i], pre_r[j]));
                } else if i > ki {
                    assert(pair_order()(pre_r[i - 1], pre_r[j - 1]));
                }
            }
        }
    }
    proof {
        lemma_pair_order_total();
        assert(views(v@).to_multiset() =~= Multiset::<(Seq<u8>, Seq<u8>)>::empty());
        assert(views(r@).to_multiset() =~= orig.to_multiset());
        orig.lemma_sort_by_ensures(pair_order());
        lemma_sorted_unique(views(r@), orig.sort_by(pair_order()), pair_order());
        assert(views(r@) =~= orig.sort_by(pair_order()));
    }
    r
}

/// Inserting an element adds it to the multiset of the sequence.
proof fn lemma_insert_multiset(s: Seq<(Seq<u8>, Seq<u8>)>, k: int, x: (Seq<u8>, Seq<u8>))
    requires
        0 <= k <= s.len(),
    ensures
        s.insert(k, x).to_multiset() == s.to_multiset().insert(x),
{
    broadcast use vstd::seq_lib::group_to_multiset_ensures;

    assert(s.insert(k, x) =~= s.take(k) + (seq![x] + s.skip(k)));
    lemma_multiset_commutative(s.take(k), seq![x] + s.skip(k));
    lemma_multiset_commutative(seq![x], s.skip(k));
    assert(s =~= s.take(k) + s.skip(k));
    lemma_multiset_commutative(s.take(k), s.skip(k));
    assert(seq![x] =~= Seq::<(Seq<u8>, Seq<u8>)>::empty().push(x));
    assert(seq![x].to_multiset() =~= Multiset::<(Seq<u8>, Seq<u8>)>::empty().insert(x));
    assert(s.insert(k, x).to_multiset() =~= s.to_multiset().insert(x));
}

/// Two arrangements of the same parameter multiset sort to the same
/// canonical sequence: parameter order never matters.
pub proof fn lemma_sort_order_independent(a: Seq<(Seq<u8>, Seq<u8>)>, b: Seq<(Seq<u8>, Seq<u8>)>)
    requires
        a.to_multiset() == b.to_multiset(),
    ensures
        a.sort_by(pair_order()) == b.sort_by(pair_order()),
{
    lemma_pair_order_total();
    a.lemma_sort_by_ensures(pair_order());
    b.lemma_sort_by_ensures(pair_order());
    lemma_sorted_unique(a.sort_by(pair_order()), b.sort_by(pair_order()), pair_order());
    assert(a.sort_by(pair_order()) =~= b.sort_by(pair_order()));
}

/// The `key=value` rendering of one pair.
pub open spec fn pair_bytes(p: (Seq<u8>, Seq<u8>)) -> Seq<u8> {
    p.0 + seq![61u8] + p.1
}

/// Pairs joined as `key=value` separated by `&`.
pub open spec fn joined(ps: Seq<(Seq<u8>, Seq<u8>)>) -> Seq<u8>
    decreases ps.len(),
{
    if ps.len() == 0 {
        Seq::empty()
    } else if ps.len() == 1 {
        pair_bytes(ps[0])
    } else {
        joined(ps.drop_last()) + seq![38u8] + pair_bytes(ps.last())
    }
}

/// `joined` can be read off the front as well: the first pair, a `&`,
/// then the rest.
pub proof fn lemma_joined_front(qs: Seq<(Seq<u8>, Seq<u8>)>)
    requires
        qs.len() > 1,
    ensures
        joined(qs) == pair_bytes(qs[0]) + seq![38u8] + joined(qs.drop_first()),
    decreases qs.len(),
{
    if qs.len() == 2 {
        assert(qs.drop_last() =~= seq![qs[0]]);
        assert(qs.drop_first() =~= seq![qs[1]]);
        assert(joined(seq![qs[0]]) == pair_bytes(seq![qs[0]][0]));
        assert(joined(seq![qs[1]]) == pair_bytes(seq![qs[1]][0]));
        assert(joined(qs) =~= pair_bytes(qs[0]) + seq![38u8] + joined(qs.drop_first()));
    } else {
        lemma_joined_front(qs.drop_last());
        assert(qs.drop_last()[0] == qs[0]);
        assert(qs.drop_last().drop_first() =~= qs.drop_first().drop_last());
        assert(qs.drop_first().last() == qs.last());
        assert(joined(qs.drop_first()) == joined(qs.drop_first().drop_last()) + seq![38u8]
            + pair_bytes(qs.last()));
        assert(joined(qs) =~= pair_bytes(qs[0]) + seq![38u8] + joined(qs.drop_first()));
    }
}

/// Render pairs as `key=value` joined with `&`.
pub fn join_params(v: &Vec<(Vec<u8>, Vec<u8>)>) -> (r: Vec<u8>)
    ensures
        r@ == joined(views(v@)),
{
    let mut r: Vec<u8> = Vec::new();
    let mut i: usize = 0;
    proof {
        assert(views(v@).take(0) =~= Seq::<(Seq<u8>, Seq<u8>)>::empty());
        assert(r@ =~= joined(views(v@).take(0)));
    }
    while i < v.len()
        invariant
            i <= v.len(),
            r@ == joined(views(v@).take(i as int)),
        decreases v.len() - i,
    {
        if i > 0 {
            r.push(38);
        }
        let mut j: usize = 0;
        while j < v[i].0.len()
            invariant
                0 <= i < v@.len(),
                j <= v@[i as int].0.len(),
                r@ == (if i == 0 {
                    Seq::<u8>::empty()
                } else {
                    joined(views(v@).take(i as int)) + seq![38u8]
                }) + v@[i as int].0@.take(j as int),
            decreases v@[i as int].0.len() - j,
        {
            let b = v[i].0[j];
            r.push(b);
            proof {
                assert(v@[i as int].0@.take(j + 1) =~= v@[i as int].0@.take(j as int).push(b));
            }
            j = j + 1;
        }
        proof {
            assert(v@[i as int].0@.take(v@[i as int].0@.len() as int) =~= v@[i as int].0@);
        }
        r.push(61);
        let mut j2: usize = 0;
        while j2 < v[i].1.len()
            invariant
                0 <= i < v@.len(),
                j2 <= v@[i as int].1.len(),
                r@ == (if i == 0 {
                    Seq::<u8>::empty()
                } else {
                    joined(views(v@).take(i as int)) + seq![38u8]
                }) + v@[i as int].0@ + seq![61u8] + v@[i as int].1@.take(j2 as int),
            decreases v@[i as int].1.len() - j2,
        {
            let b = v[i].1[j2];
            r.push(b);
            proof {
                assert(v@[i as int].1@.take(j2 + 1) =~= v@[i as int].1@.take(j2 as int).push(b));
            }
            j2 = j2 + 1;
        }
        proof {
            assert(v@[i as int].1@.take(v@[i as int].1@.len() as int) =~= v@[i as int].1@);
            let pre = views(v@).take(i as int);
            let cur = views(v@).take(i + 1);
            assert(cur.drop_last() =~= pre);
            assert(cur.last() == views(v@)[i as int]);
            assert(views(v@)[i as int] == (v@[i as int].0@, v@[i as int].1@));
            if i == 0 {
                assert(r@ =~= pair_bytes(cur.last()));
                assert(joined(cur) == pair_bytes(cur[0]));
            } else {
                assert(r@ =~= joined(pre) + seq![38u8] + pair_bytes(cur.last()));
            }
        }
        i = i + 1;
    }
    proof {
        assert(views(v@).take(v@.len() as int) =~= views(v@));
    }
    r
}

} // verus!

