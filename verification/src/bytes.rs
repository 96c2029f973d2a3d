//! Small executable helpers over byte strings: equality, lexicographic
//! comparison, prefix tests, and decimal rendering of integers.
use vstd::prelude::*;

verus! {

/// Lexicographic order on byte strings: the empty string comes first,
/// otherwise the first differing byte decides, and a proper prefix
/// precedes its extensions.
pub open spec fn lex_leq(a: Seq<u8>, b: Seq<u8>) -> bool
    decreases a.len(),
{
    if a.len() == 0 {
        true
    } else if b.len() == 0 {
        false
    } else if a[0] < b[0] {
        true
    } else if a[0] > b[0] {
        false
    } else {
        lex_leq(a.drop_first(), b.drop_first())
    }
}

pub proof fn lemma_lex_leq_reflexive(a: Seq<u8>)
    ensures
        lex_leq(a, a),
    decreases a.len(),
{
    if a.len() > 0 {
        lemma_lex_leq_reflexive(a.drop_first());
    }
}

pub proof fn lemma_lex_leq_connected(a: Seq<u8>, b: Seq<u8>)
    ensures
        lex_leq(a, b) || lex_leq(b, a),
    decreases a.len(),
{
    if a.len() > 0 && b.len() > 0 && a[0] == b[0] {
        lemma_lex_leq_connected(a.drop_first(), b.drop_first());
    }
}

pub proof fn lemma_lex_leq_antisymmetric(a: Seq<u8>, b: Seq<u8>)
    requires
        lex_leq(a, b),
        lex_leq(b, a),
    ensures
        a == b,
    decreases a.len(),
{
    if a.len() == 0 {
        assert(b.len() == 0);
        assert(a =~= b);
    } else {
        lemma_lex_leq_antisymmetric(a.drop_first(), b.drop_first());
        assert(a =~= seq![a[0]] + a.drop_first());
        assert(b =~= seq![b[0]] + b.drop_first());
    }
}

pub proof fn lemma_lex_leq_transitive(a: Seq<u8>, b: Seq<u8>, c: Seq<u8>)
    requires
        lex_leq(a, b),
        lex_leq(b, c),
    ensures
        lex_leq(a, c),
    decreases a.len(),
{
    if a.len() > 0 && b.len() > 0 && c.len() > 0 && a[0] == b[0] && b[0] == c[0] {
        lemma_lex_leq_transitive(a.drop_first(), b.drop_first(), c.drop_first());
    }
}

/// If the first `i` bytes agree, the order is decided by the rest.
pub proof fn lemma_lex_leq_skip(a: Seq<u8>, b: Seq<u8>, i: int)
    requires
        0 <= i <= a.len(),
        i <= b.len(),
        forall|k: int| 0 <= k < i ==> a[k] == b[k],
    ensures
        lex_leq(a, b) == lex_leq(a.skip(i), b.skip(i)),
    decreases i,
{
    if i > 0 {
        assert(a.len() > 0 && b.len() > 0 && a[0] == b[0]);
        lemma_lex_leq_skip(a.drop_first(), b.drop_first(), i - 1);
        assert(a.drop_first().skip(i - 1) =~= a.skip(i));
        assert(b.drop_first().skip(i - 1) =~= b.skip(i));
    } else {
        assert(a.skip(0) =~= a);
        assert(b.skip(0) =~= b);
    }
}

/// Whether two byte strings are equal.
pub fn bytes_eq(a: &[u8], b: &[u8]) -> (r: bool)
    ensures
        r == (a@ == b@),
{
    if a.len() != b.len() {
        return false;
    }
    let mut i: usize = 0;
    while i < a.len()
        invariant
            i <= a.len(),
            a@.len() == b@.len(),
            forall|k: int| 0 <= k < i ==> a@[k] == b@[k],
        decreases a.len() - i,
    {
        if a[i] != b[i] {
            return false;
        }
        i = i + 1;
    }
    proof {
        assert(a@ =~= b@);
    }
    true
}

/// Whether `a` is lexicographically at or before `b`.
pub fn lex_le(a: &[u8], b: &[u8]) -> (r: bool)
    ensures
        r == lex_leq(a@, b@),
{
    let mut i: usize = 0;
    while i < a.len() && i < b.len()
        invariant
            i <= a.len(),
            i <= b.len(),
            forall|k: int| 0 <= k < i ==> a@[k] == b@[k],
        decreases a.len() - i,
    {
        proof {
            lemma_lex_leq_skip(a@, b@, i as int);
        }
        if a[i] < b[i] {
            assert(a@.skip(i as int)[0] == a@[i as int]);
            assert(b@.skip(i as int)[0] == b@[i as int]);
            return true;
        }
        if a[i] > b[i] {
            assert(a@.skip(i as int)[0] == a@[i as int]);
            assert(b@.skip(i as int)[0] == b@[i as int]);
            return false;
        }
        i = i + 1;
    }
    proof {
        lemma_lex_leq_skip(a@, b@, i as int);
        if i == a.len() {
            assert(a@.skip(i as int).len() == 0);
        } else {
            assert(b@.skip(i as int).len() == 0);
            assert(a@.skip(i as int).len() > 0);
        }
    }
    i == a.len()
}

/// Whether `p` is a prefix of `k`.
pub fn has_prefix(k: &[u8], p: &[u8]) -> (r: bool)
    ensures
        r == p@.is_prefix_of(k@),
{
    if k.len() < p.len() {
        return false;
    }
    let mut i: usize = 0;
    while i < p.len()
        invariant
            i <= p.len(),
            p@.len() <= k@.len(),
            forall|kk: int| 0 <= kk < i ==> k@[kk] == p@[kk],
        decreases p.len() - i,
    {
        if k[i] != p[i] {
            assert(!p@.is_prefix_of(k@)) by {
                assert(k@.subrange(0, p@.len() as int)[i as int] == k@[i as int]);
            }
            return false;
        }
        i = i + 1;
    }
    proof {
        assert(p@ =~= k@.subrange(0, p@.len() as int));
    }
    true
}

/// The index of the first occurrence of `b` in `s`, if any.
pub open spec fn find_byte(s: Seq<u8>, b: u8) -> Option<int>
    decreases s.len(),
{
    if s.len() == 0 {
        None
    } else if s[0] == b {
        Some(0)
    } else {
        match find_byte(s.drop_first(), b) {
            Some(i) => Some(i + 1),
            None => None,
        }
    }
}

/// `find_byte` is decided by the first position that holds `b`.
pub proof fn lemma_find_byte_at(s: Seq<u8>, b: u8, i: int)
    requires
        0 <= i <= s.len(),
        forall|k: int| 0 <= k < i ==> s[k] != b,
        i < s.len() ==> s[i] == b,
    ensures
        find_byte(s, b) == (if i == s.len() {
            None
        } else {
            Some(i)
        }),
    decreases i,
{
    if s.len() == 0 {
    } else if i == 0 {
    } else {
        assert(s[0] != b);
        lemma_find_byte_at(s.drop_first(), b, i - 1);
        assert(i - 1 < s.drop_first().len() ==> s.drop_first()[i - 1] == s[i]);
    }
}

/// Whatever `find_byte` returns points at `b` inside the string.
pub proof fn lemma_find_byte_bounds(s: Seq<u8>, b: u8)
    ensures
        match find_byte(s, b) {
            Some(i) => 0 <= i < s.len() && s[i] == b,
            None => true,
        },
    decreases s.len(),
{
    if s.len() > 0 && s[0] != b {
        lemma_find_byte_bounds(s.drop_first(), b);
    }
}

/// The first index at which `b` occurs in `s`, if any.
pub fn find_byte_exec(s: &[u8], b: u8) -> (r: Option<usize>)
    ensures
        match r {
            Some(i) => find_byte(s@, b) == Some(i as int),
            None => find_byte(s@, b) is None,
        },
{
    let mut i: usize = 0;
    while i < s.len()
        invariant
            i <= s.len(),
            forall|k: int| 0 <= k < i ==> s@[k] != b,
        decreases s.len() - i,
    {
        if s[i] == b {
            proof {
                lemma_find_byte_at(s@, b, i as int);
            }
            return Some(i);
        }
        i = i + 1;
    }
    proof {
        lemma_find_byte_at(s@, b, s@.len() as int);
    }
    None
}

/// Copy the range `[a, b)` of a byte string.
pub fn copy_range(s: &[u8], a: usize, b: usize) -> (r: Vec<u8>)
    requires
        a <= b <= s@.len(),
    ensures
        r@ == s@.subrange(a as int, b as int),
{
    let mut r: Vec<u8> = Vec::new();
    let mut i: usize = a;
    while i < b
        invariant
            a <= i <= b <= s@.len(),
            r@ == s@.subrange(a as int, i as int),
        decreases b - i,
    {
        r.push(s[i]);
        proof {
            assert(s@.subrange(a as int, i + 1) =~= s@.subrange(a as int, i as int).push(
                s@[i as int],
            ));
        }
        i = i + 1;
    }
    r
}

/// Append a byte string to the end of a vector.
pub fn append_bytes(dst: &mut Vec<u8>, src: &[u8])
    ensures
        final (dst)@ == old(dst)@ + src@,
{
    let mut i: usize = 0;
    proof {
        assert(dst@ =~= dst@ + src@.take(0));
    }
    while i < src.len()
        invariant
            i <= src.len(),
            dst@ == old(dst)@ + src@.take(i as int),
        decreases src.len() - i,
    {
        dst.push(src[i]);
        proof {
            assert(src@.take(i + 1) =~= src@.take(i as int).push(src@[i as int]));
            assert(old(dst)@ + src@.take(i + 1) =~= (old(dst)@ + src@.take(i as int)).push(
                src@[i as int],
            ));
        }
        i = i + 1;
    }
    proof {
        assert(src@.take(src@.len() as int) =~= src@);
    }
}

/// The decimal digit string of a natural number, most significant first.
pub open spec fn dec_of(n: nat) -> Seq<u8>
    decreases n,
{
    if n < 10 {
        seq![(48 + n) as u8]
    } else {
        dec_of(n / 10).push((48 + n % 10) as u8)
    }
}

/// Render an integer as its decimal digit string.
pub fn u64_to_decimal(n: u64) -> (r: Vec<u8>)
    ensures
        r@ == dec_of(n as nat),
    decreases n,
{
    if n < 10 {
        let mut v: Vec<u8> = Vec::new();
        v.push(48 + (n as u8));
        proof {
            assert(v@ =~= dec_of(n as nat));
        }
        v
    } else {
        let mut v = u64_to_decimal(n / 10);
        v.push(48 + ((n % 10) as u8));
        v
    }
}

} // verus!
