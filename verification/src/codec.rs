//! Percent-escaping of the reserved characters that may not appear literally
//! inside record field values: `:` `;` `=` `%` `,` CR LF TAB.
//!
//! Encoding replaces each reserved byte by `%` and two uppercase hex digits;
//! decoding reverses this and is deliberately permissive: a `%` that is not
//! followed by two hex digits is passed through unchanged.

use vstd::prelude::*;

verus! {

/// The eight bytes that `encode` escapes.
pub open spec fn is_reserved_byte(b: u8) -> bool {
    ||| b == ':' as u8
    ||| b == ';' as u8
    ||| b == '=' as u8
    ||| b == '%' as u8
    ||| b == ',' as u8
    ||| b == '\r' as u8
    ||| b == '\n' as u8
    ||| b == '\t' as u8
}

/// Uppercase hex digit for a value below 16.
pub open spec fn spec_hex_digit(n: u8) -> u8
    recommends
        n < 16,
{
    if n < 10 {
        (48 + n) as u8
    } else {
        (55 + n) as u8
    }
}

pub open spec fn is_hex_digit_byte(b: u8) -> bool {
    ||| 48 <= b <= 57
    ||| 65 <= b <= 70
    ||| 97 <= b <= 102
}

/// Value of one hex digit, either case.
pub open spec fn spec_hex_val(b: u8) -> u8
    recommends
        is_hex_digit_byte(b),
{
    if 48 <= b <= 57 {
        (b - 48) as u8
    } else if 65 <= b <= 70 {
        (b - 55) as u8
    } else {
        (b - 87) as u8
    }
}

/// The percent-escaped form of `s`.
pub open spec fn spec_encode(s: Seq<u8>) -> Seq<u8>
    decreases s.len(),
{
    if s.len() == 0 {
        Seq::empty()
    } else {
        let b = s[0];
        let head = if is_reserved_byte(b) {
            seq!['%' as u8, spec_hex_digit(b / 16), spec_hex_digit(b % 16)]
        } else {
            seq![b]
        };
        head + spec_encode(s.skip(1))
    }
}

/// The decoded form of `t`: every `%XY` with two hex digits becomes one byte,
/// anything else is copied through.
pub open spec fn spec_decode(t: Seq<u8>) -> Seq<u8>
    decreases t.len(),
{
    if t.len() == 0 {
        Seq::empty()
    } else if t[0] == '%' as u8 && t.len() >= 3 && is_hex_digit_byte(t[1]) && is_hex_digit_byte(
        t[2],
    ) {
        seq![(spec_hex_val(t[1]) * 16 + spec_hex_val(t[2])) as u8] + spec_decode(t.skip(3))
    } else {
        seq![t[0]] + spec_decode(t.skip(1))
    }
}

/// Encoding one byte after another encodes the concatenation.
proof fn lemma_encode_append(a: Seq<u8>, b: Seq<u8>)
    ensures
        spec_encode(a + b) == spec_encode(a) + spec_encode(b),
    decreases a.len(),
{
    if a.len() == 0 {
        assert(a + b =~= b);
        assert(spec_encode(a) + spec_encode(b) =~= spec_encode(b));
    } else {
        assert((a + b).skip(1) =~= a.skip(1) + b);
        lemma_encode_append(a.skip(1), b);
        assert(spec_encode(a + b) =~= spec_encode(a) + spec_encode(b));
    }
}

/// Decoding undoes encoding, for every byte string.
pub proof fn lemma_decode_encode(s: Seq<u8>)
    ensures
        spec_decode(spec_encode(s)) == s,
    decreases s.len(),
{
    if s.len() == 0 {
    } else {
        let b = s[0];
        lemma_decode_encode(s.skip(1));
        if is_reserved_byte(b) {
            let e = spec_encode(s);
            assert(e == seq!['%' as u8, spec_hex_digit(b / 16), spec_hex_digit(b % 16)]
                + spec_encode(s.skip(1)));
            assert(b / 16 < 16 && b % 16 < 16);
            assert(e[0] == '%' as u8);
            assert(e[1] == spec_hex_digit(b / 16));
            assert(e[2] == spec_hex_digit(b % 16));
            assert(is_hex_digit_byte(e[1]) && is_hex_digit_byte(e[2]));
            assert(spec_hex_val(e[1]) == b / 16);
            assert(spec_hex_val(e[2]) == b % 16);
            assert(spec_hex_val(e[1]) * 16 + spec_hex_val(e[2]) == b);
            assert(e.skip(3) =~= spec_encode(s.skip(1)));
            assert(spec_decode(e) =~= s);
        } else {
            let e = spec_encode(s);
            assert(e == seq![b] + spec_encode(s.skip(1)));
            assert(e[0] == b && b != '%' as u8);
            assert(e.skip(1) =~= spec_encode(s.skip(1)));
            assert(spec_decode(e) =~= s);
        }
    }
}

/// A string without reserved bytes encodes to itself.
pub proof fn lemma_encode_plain(s: Seq<u8>)
    requires
        forall|i: int| 0 <= i < s.len() ==> !is_reserved_byte(#[trigger] s[i]),
    ensures
        spec_encode(s) == s,
    decreases s.len(),
{
    if s.len() > 0 {
        assert(forall|i: int| 0 <= i < s.skip(1).len() ==> !is_reserved_byte(#[trigger] s.skip(1)[i]));
        lemma_encode_plain(s.skip(1));
        assert(spec_encode(s) =~= s);
    }
}

fn hex_digit(n: u8) -> (r: u8)
    requires
        n < 16,
    ensures
        r == spec_hex_digit(n),
{
    if n < 10 {
        48 + n
    } else {
        55 + n
    }
}

fn is_hex_digit(b: u8) -> (r: bool)
    ensures
        r == is_hex_digit_byte(b),
{
    (48 <= b && b <= 57) || (65 <= b && b <= 70) || (97 <= b && b <= 102)
}

fn hex_val(b: u8) -> (r: u8)
    requires
        is_hex_digit_byte(b),
    ensures
        r == spec_hex_val(b),
{
    if 48 <= b && b <= 57 {
        b - 48
    } else if 65 <= b && b <= 70 {
        b - 55
    } else {
        b - 87
    }
}

fn is_reserved(b: u8) -> (r: bool)
    ensures
        r == is_reserved_byte(b),
{
    b == ':' as u8 || b == ';' as u8 || b == '=' as u8 || b == '%' as u8 || b == ',' as u8
        || b == '\r' as u8 || b == '\n' as u8 || b == '\t' as u8
}

/// Percent-escapes the eight reserved bytes of `value`.
pub fn encode(value: &[u8]) -> (r: Vec<u8>)
    ensures
        r@ == spec_encode(value@),
{
    let mut out: Vec<u8> = Vec::new();
    let mut i: usize = 0;
    while i < value.len()
        invariant
            i <= value@.len(),
            out@ == spec_encode(value@.take(i as int)),
        decreases value@.len() - i,
    {
        let b = value[i];
        proof {
            let single = seq![value@[i as int]];
            assert(value@.take(i + 1) =~= value@.take(i as int) + single);
            lemma_encode_append(value@.take(i as int), single);
            assert(single.skip(1) =~= Seq::<u8>::empty());
            assert(spec_encode(Seq::<u8>::empty()) == Seq::<u8>::empty());
            assert(spec_encode(single) == (if is_reserved_byte(b) {
                seq!['%' as u8, spec_hex_digit(b / 16), spec_hex_digit(b % 16)]
            } else {
                seq![b]
            }) + Seq::<u8>::empty());
        }
        if is_reserved(b) {
            out.push('%' as u8);
            out.push(hex_digit(b / 16));
            out.push(hex_digit(b % 16));
            proof {
                assert(out@ =~= spec_encode(value@.take(i + 1)));
            }
        } else {
            out.push(b);
            proof {
                assert(out@ =~= spec_encode(value@.take(i + 1)));
            }
        }
        i += 1;
    }
    proof {
        assert(value@.take(i as int) =~= value@);
    }
    out
}

/// Reverses `encode`; unrecognized escapes are copied through unchanged.
pub fn decode(text: &[u8]) -> (r: Vec<u8>)
    ensures
        r@ == spec_decode(text@),
{
    let mut out: Vec<u8> = Vec::new();
    let mut i: usize = 0;
    proof {
        assert(text@.skip(0) =~= text@);
        assert(Seq::<u8>::empty() + spec_decode(text@) =~= spec_decode(text@));
    }
    while i < text.len()
        invariant
            i <= text@.len(),
            spec_decode(text@) == out@ + spec_decode(text@.skip(i as int)),
        decreases text@.len() - i,
    {
        let b = text[i];
        let ghost rest = text@.skip(i as int);
        let ghost out0 = out@;
        if b == '%' as u8 && text.len() - i > 2 && is_hex_digit(text[i + 1]) && is_hex_digit(
            text[i + 2],
        ) {
            let v = hex_val(text[i + 1]) * 16 + hex_val(text[i + 2]);
            out.push(v);
            proof {
                assert(rest[0] == b && rest[1] == text@[i + 1] && rest[2] == text@[i + 2]);
                assert(rest.skip(3) =~= text@.skip(i + 3));
                assert(spec_decode(rest) == seq![v] + spec_decode(text@.skip(i + 3)));
                assert(out0 + spec_decode(rest) =~= out@ + spec_decode(text@.skip(i + 3)));
            }
            i += 3;
        } else {
            out.push(b);
            proof {
                assert(rest[0] == b);
                assert(rest.skip(1) =~= text@.skip(i + 1));
                assert(spec_decode(rest) == seq![b] + spec_decode(text@.skip(i + 1)));
                assert(out0 + spec_decode(rest) =~= out@ + spec_decode(text@.skip(i + 1)));
            }
            i += 1;
        }
    }
    proof {
        assert(spec_decode(text@.skip(i as int)).len() == 0);
        assert(out@ =~= spec_decode(text@));
    }
    out
}

/// Encoded output never contains a reserved byte other than the `%` that
/// opens an escape: the delimiters all leave as escapes, and hex digits are
/// not reserved.
pub proof fn lemma_encode_no_reserved(s: Seq<u8>)
    ensures
        forall|i: int| 0 <= i < spec_encode(s).len() ==> !is_reserved_byte(
            #[trigger] spec_encode(s)[i],
        ) || spec_encode(s)[i] == '%' as u8,
    decreases s.len(),
{
    if s.len() > 0 {
        lemma_encode_no_reserved(s.skip(1));
        let b = s[0];
        let e = spec_encode(s);
        let head: Seq<u8> = if is_reserved_byte(b) {
            seq!['%' as u8, spec_hex_digit(b / 16), spec_hex_digit(b % 16)]
        } else {
            seq![b]
        };
        assert forall|i: int| 0 <= i < e.len() implies !is_reserved_byte(#[trigger] e[i]) || e[i]
            == '%' as u8 by {
            if i < head.len() {
                assert(e[i] == head[i]);
                if is_reserved_byte(b) {
                    assert(b / 16 < 16 && b % 16 < 16);
                }
            } else {
                assert(e[i] == spec_encode(s.skip(1))[i - head.len()]);
            }
        }
    }
}

/// Encoding preserves emptiness and non-emptiness.
pub proof fn lemma_encode_len(s: Seq<u8>)
    ensures
        s.len() <= spec_encode(s).len(),
        spec_encode(s).len() == 0 <==> s.len() == 0,
    decreases s.len(),
{
    if s.len() > 0 {
        lemma_encode_len(s.skip(1));
    }
}

/// The only byte string that encodes to a lone `.` is `.` itself.
pub proof fn lemma_encode_dot(s: Seq<u8>)
    ensures
        spec_encode(s) == seq!['.' as u8] <==> s == seq!['.' as u8],
{
    lemma_decode_encode(s);
    if spec_encode(s) == seq!['.' as u8] {
        assert(spec_decode(seq!['.' as u8]) =~= seq!['.' as u8]) by {
            assert(seq!['.' as u8].skip(1) =~= Seq::<u8>::empty());
            assert(spec_decode(Seq::<u8>::empty()) =~= Seq::<u8>::empty());
        }
        assert(s =~= seq!['.' as u8]);
    }
    if s == seq!['.' as u8] {
        assert(spec_encode(s) =~= seq!['.' as u8]) by {
            assert(!is_reserved_byte('.' as u8));
            assert(s.skip(1) =~= Seq::<u8>::empty());
            assert(spec_encode(Seq::<u8>::empty()) =~= Seq::<u8>::empty());
        }
    }
}

} // verus!
