//! Percent-encoding of byte strings after RFC 3986: the unreserved
//! characters (letters, digits, `-`, `.`, `_`, `~`) pass through, every
//! other byte becomes `%XX` with uppercase hexadecimal digits.
use vstd::prelude::*;

verus! {

/// The byte `%`, which introduces an escape.
pub open spec fn percent_byte() -> u8 {
    37
}

/// RFC 3986 unreserved bytes: ASCII letters, digits, `-`, `.`, `_`, `~`.
pub open spec fn is_unreserved(b: u8) -> bool {
    (65 <= b <= 90)  // A-Z
    || (97 <= b <= 122)  // a-z
    || (48 <= b <= 57)  // 0-9
    || b == 45  // -
    || b == 46  // .
    || b == 95  // _
    || b == 126  // ~
}

/// The uppercase hexadecimal digit for a value below sixteen.
pub open spec fn hex_digit(n: u8) -> u8
    recommends
        n < 16,
{
    if n < 10 {
        (48 + n) as u8
    } else {
        (55 + n) as u8
    }
}

/// The value of one hexadecimal digit byte, uppercase or lowercase.
pub open spec fn hex_value(b: u8) -> Option<u8> {
    if 48 <= b <= 57 {
        Some((b - 48) as u8)
    } else if 65 <= b <= 70 {
        Some((b - 55) as u8)
    } else if 97 <= b <= 102 {
        Some((b - 87) as u8)
    } else {
        None
    }
}

/// What one byte encodes to: itself if unreserved, else `%XX`.
pub open spec fn encode_byte(b: u8) -> Seq<u8> {
    if is_unreserved(b) {
        seq![b]
    } else {
        seq![percent_byte(), hex_digit(b / 16), hex_digit(b % 16)]
    }
}

/// The percent-encoding of a whole byte string.
pub open spec fn encoded(s: Seq<u8>) -> Seq<u8>
    decreases s.len(),
{
    if s.len() == 0 {
        Seq::empty()
    } else {
        encode_byte(s[0]) + encoded(s.drop_first())
    }
}

/// The decoding of a byte string: `%XX` becomes the byte with value `XX`,
/// any other byte passes through, and a truncated or malformed escape
/// fails.
pub open spec fn decoded(s: Seq<u8>) -> Option<Seq<u8>>
    decreases s.len(),
{
    if s.len() == 0 {
        Some(Seq::empty())
    } else if s[0] == percent_byte() {
        if s.len() >= 3 && hex_value(s[1]) is Some && hex_value(s[2]) is Some {
            match decoded(s.skip(3)) {
                Some(t) => Some(
                    seq![(hex_value(s[1])->Some_0 * 16 + hex_value(s[2])->Some_0) as u8] + t,
                ),
                None => None,
            }
        } else {
            None
        }
    } else {
        match decoded(s.drop_first()) {
            Some(t) => Some(seq![s[0]] + t),
            None => None,
        }
    }
}

/// Encoding distributes over concatenation.
pub proof fn lemma_encoded_append(a: Seq<u8>, b: Seq<u8>)
    ensures
        encoded(a + b) == encoded(a) + encoded(b),
    decreases a.len(),
{
    if a.len() == 0 {
        assert(a + b =~= b);
        assert(encoded(a) + encoded(b) =~= encoded(b));
    } else {
        lemma_encoded_append(a.drop_first(), b);
        assert((a + b).drop_first() =~= a.drop_first() + b);
        assert(encoded(a + b) =~= encode_byte(a[0]) + encoded((a + b).drop_first()));
        assert(encode_byte(a[0]) + (encoded(a.drop_first()) + encoded(b)) =~= (encode_byte(a[0])
            + encoded(a.drop_first())) + encoded(b));
    }
}

/// Percent-encode a byte string.
pub fn percent_encode(s: &[u8]) -> (r: Vec<u8>)
    ensures
        r@ == encoded(s@),
{
    let mut r: Vec<u8> = Vec::new();
    let mut i: usize = 0;
    while i < s.len()
        invariant
            i <= s.len(),
            r@ == encoded(s@.take(i as int)),
        decreases s.len() - i,
    {
        let b = s[i];
        if (65 <= b && b <= 90) || (97 <= b && b <= 122) || (48 <= b && b <= 57) || b == 45 || b
            == 46 || b == 95 || b == 126 {
            r.push(b);
            proof {
                assert(encode_byte(b) =~= seq![b]);
            }
        } else {
            r.push(37);
            r.push(hex_digit_exec(b / 16));
            r.push(hex_digit_exec(b % 16));
        }
        proof {
            assert(s@.take(i + 1).drop_last() =~= s@.take(i as int));
            assert(s@.take(i + 1) =~= s@.take(i as int) + seq![s@[i as int]]);
            lemma_encoded_append(s@.take(i as int), seq![s@[i as int]]);
            let ghost one = seq![s@[i as int]];
            assert(one.drop_first() =~= Seq::<u8>::empty());
            assert(encoded(one) == encode_byte(one[0]) + encoded(Seq::<u8>::empty()));
            assert(encoded(Seq::<u8>::empty()) == Seq::<u8>::empty());
            assert(encode_byte(s@[i as int]) + Seq::<u8>::empty() =~= encode_byte(s@[i as int]));
        }
        i = i + 1;
    }
    proof {
        assert(s@.take(s@.len() as int) =~= s@);
    }
    r
}

/// The uppercase hexadecimal digit for a value below sixteen.
fn hex_digit_exec(n: u8) -> (r: u8)
    requires
        n < 16,
    ensures
        r == hex_digit(n),
{
    if n < 10 {
        48 + n
    } else {
        55 + n
    }
}

/// The value of one hexadecimal digit byte, or `None`.
fn hex_value_exec(b: u8) -> (r: Option<u8>)
    ensures
        r == hex_value(b),
{
    if 48 <= b && b <= 57 {
        Some(b - 48)
    } else if 65 <= b && b <= 70 {
        Some(b - 55)
    } else if 97 <= b && b <= 102 {
        Some(b - 87)
    } else {
        None
    }
}

/// Percent-decode a byte string; fails on a truncated or malformed escape.
pub fn percent_decode(s: &[u8]) -> (r: Option<Vec<u8>>)
    ensures
        match r {
            Some(v) => decoded(s@) == Some(v@),
            None => decoded(s@) is None,
        },
{
    let mut r: Vec<u8> = Vec::new();
    let mut i: usize = 0;
    proof {
        assert(s@.skip(0) =~= s@);
        if decoded(s@) is Some {
            assert(Seq::<u8>::empty() + decoded(s@)->Some_0 =~= decoded(s@)->Some_0);
        }
    }
    while i < s.len()
        invariant
            i <= s.len(),
            decoded(s@) == (match decoded(s@.skip(i as int)) {
                Some(t) => Some(r@ + t),
                None => None::<Seq<u8>>,
            }),
        decreases s.len() - i,
    {
        let ghost rest = s@.skip(i as int);
        let b = s[i];
        assert(rest[0] == b);
        if b == 37 {
            if s.len() - i < 3 {
                proof {
                    assert(rest.len() < 3);
                }
                return None;
            }
            let h1 = hex_value_exec(s[i + 1]);
            let h2 = hex_value_exec(s[i + 2]);
            assert(rest[1] == s@[i + 1] && rest[2] == s@[i + 2]);
            match (h1, h2) {
                (Some(v1), Some(v2)) => {
                    r.push(v1 * 16 + v2);
                    proof {
                        assert(rest.skip(3) =~= s@.skip(i + 3));
                    }
                    i = i + 3;
                },
                _ => {
                    return None;
                },
            }
        } else {
            r.push(b);
            proof {
                assert(rest.drop_first() =~= s@.skip(i + 1));
            }
            i = i + 1;
        }
        proof {
            if decoded(s@.skip(i as int)) is Some {
                assert(r@ + decoded(s@.skip(i as int))->Some_0 =~= r@.drop_last() + (seq![
                    r@.last(),
                ] + decoded(s@.skip(i as int))->Some_0));
            }
        }
    }
    proof {
        assert(s@.skip(s@.len() as int) =~= Seq::<u8>::empty());
        assert(r@ + Seq::<u8>::empty() =~= r@);
    }
    Some(r)
}

/// Decoding recovers what encoding produced: the round trip is exact.
pub proof fn lemma_decode_encode(s: Seq<u8>)
    ensures
        decoded(encoded(s)) == Some(s),
    decreases s.len(),
{
    if s.len() == 0 {
    } else {
        lemma_decode_encode(s.drop_first());
        let e = encoded(s);
        assert(e =~= encode_byte(s[0]) + encoded(s.drop_first()));
        if is_unreserved(s[0]) {
            assert(e[0] == s[0]);
            assert(e[0] != percent_byte());
            assert(e.drop_first() =~= encoded(s.drop_first()));
            assert(seq![s[0]] + s.drop_first() =~= s);
        } else {
            let b = s[0];
            assert(e[0] == percent_byte());
            assert(e[1] == hex_digit(b / 16) && e[2] == hex_digit(b % 16));
            assert(hex_value(hex_digit(b / 16)) == Some(b / 16));
            assert(hex_value(hex_digit(b % 16)) == Some(b % 16));
            assert(e.skip(3) =~= encoded(s.drop_first()));
            assert((b / 16) * 16 + b % 16 == b) by (nonlinear_arith);
            assert(seq![b] + s.drop_first() =~= s);
        }
    }
}

/// An encoded string never contains a separator byte: everything it holds
/// is unreserved, a percent sign, or an uppercase hexadecimal digit.
pub proof fn lemma_encoded_bytes(s: Seq<u8>)
    ensures
        forall|i: int|
            0 <= i < encoded(s).len() ==> is_unreserved(#[trigger] encoded(s)[i]) || encoded(s)[i]
                == percent_byte() || hex_value(encoded(s)[i]) is Some,
    decreases s.len(),
{
    if s.len() == 0 {
    } else {
        lemma_encoded_bytes(s.drop_first());
        assert(encoded(s) =~= encode_byte(s[0]) + encoded(s.drop_first()));
    }
}

} // verus!
