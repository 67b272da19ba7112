//! Small byte-string helpers shared by the header and record grammars:
//! slice comparison, prefix tests, and decimal integers.

use vstd::prelude::*;

verus! {

/// Exact equality of two byte slices.
pub fn bytes_eq(a: &[u8], b: &[u8]) -> (r: bool)
    ensures
        r == (a@ == b@),
{
    if a.len() != b.len() {
        return false;
    }
    let mut i: usize = 0;
    while i < a.len()
        invariant
            i <= a@.len(),
            a@.len() == b@.len(),
            forall|j: int| 0 <= j < i ==> a@[j] == b@[j],
        decreases a@.len() - i,
    {
        if a[i] != b[i] {
            return false;
        }
        i += 1;
    }
    proof {
        assert(a@ =~= b@);
    }
    true
}

/// Does `s`, read from `start`, begin with `prefix`?
pub fn starts_with_at(s: &[u8], start: usize, prefix: &[u8]) -> (r: bool)
    requires
        start <= s@.len(),
    ensures
        r == (start + prefix@.len() <= s@.len()
            && s@.subrange(start as int, start + prefix@.len()) == prefix@),
{
    let slen: usize = s.len();
    if slen - start < prefix.len() {
        return false;
    }
    let mut i: usize = 0;
    while i < prefix.len()
        invariant
            i <= prefix@.len(),
            start + prefix@.len() <= slen == s@.len(),
            forall|j: int| 0 <= j < i ==> s@[start + j] == prefix@[j],
        decreases prefix@.len() - i,
    {
        if s[start + i] != prefix[i] {
            return false;
        }
        i += 1;
    }
    proof {
        assert(s@.subrange(start as int, start + prefix@.len()) =~= prefix@);
    }
    true
}

/// Copies `s[a..b]` into a fresh vector.
pub fn copy_range(s: &[u8], a: usize, b: usize) -> (r: Vec<u8>)
    requires
        a <= b <= s@.len(),
    ensures
        r@ == s@.subrange(a as int, b as int),
{
    let mut out: Vec<u8> = Vec::new();
    let mut i: usize = a;
    while i < b
        invariant
            a <= i <= b <= s@.len(),
            out@ == s@.subrange(a as int, i as int),
        decreases b - i,
    {
        out.push(s[i]);
        proof {
            assert(out@ =~= s@.subrange(a as int, i + 1));
        }
        i += 1;
    }
    out
}

/// An owned copy of a byte string.
pub fn clone_bytes(v: &Vec<u8>) -> (r: Vec<u8>)
    ensures
        r@ == v@,
{
    let r = copy_range(v.as_slice(), 0, v.len());
    proof {
        assert(v@.subrange(0, v@.len() as int) =~= v@);
    }
    r
}

/// An owned copy of a list of byte strings.
pub fn clone_bytes_vec(v: &Vec<Vec<u8>>) -> (r: Vec<Vec<u8>>)
    ensures
        r.deep_view() == v.deep_view(),
{
    let mut out: Vec<Vec<u8>> = Vec::new();
    let mut i: usize = 0;
    while i < v.len()
        invariant
            i <= v@.len(),
            out.deep_view() == v.deep_view().take(i as int),
        decreases v@.len() - i,
    {
        let ghost dv0 = out.deep_view();
        out.push(clone_bytes(&v[i]));
        proof {
            assert(out.deep_view() =~~= dv0 + seq![v@[i as int]@]);
            assert(v.deep_view()[i as int] == v@[i as int]@);
            assert(out.deep_view() =~~= v.deep_view().take(i + 1));
        }
        i += 1;
    }
    proof {
        assert(v.deep_view().take(i as int) =~= v.deep_view());
    }
    out
}

/// ASCII decimal digit.
pub open spec fn is_digit_byte(b: u8) -> bool {
    48 <= b <= 57
}

/// Numeric value of a string of decimal digits (most significant first).
pub open spec fn dec_val(s: Seq<u8>) -> int
    decreases s.len(),
{
    if s.len() == 0 {
        0
    } else {
        dec_val(s.drop_last()) * 10 + (s.last() - 48)
    }
}

/// The canonical decimal digits of `n`: no leading zeros, at least one digit.
pub open spec fn dec_digits(n: nat) -> Seq<u8>
    decreases n,
{
    if n < 10 {
        seq![(48 + n) as u8]
    } else {
        dec_digits(n / 10) + seq![(48 + n % 10) as u8]
    }
}

pub proof fn lemma_dec_digits_shape(n: nat)
    ensures
        dec_digits(n).len() >= 1,
        forall|i: int| 0 <= i < dec_digits(n).len() ==> is_digit_byte(#[trigger] dec_digits(n)[i]),
        dec_val(dec_digits(n)) == n,
    decreases n,
{
    if n < 10 {
        assert(dec_val(dec_digits(n)) == dec_val(seq![(48 + n) as u8]));
        assert(dec_val(seq![(48 + n) as u8].drop_last()) == 0);
    } else {
        lemma_dec_digits_shape(n / 10);
        let d = dec_digits(n);
        assert(d.drop_last() =~= dec_digits(n / 10));
        assert(d.last() == (48 + n % 10) as u8);
        assert(dec_val(d) == (n / 10) * 10 + n % 10);
        assert((n / 10) * 10 + n % 10 == n) by (nonlinear_arith);
    }
}

/// A digit string has a non-negative value.
pub proof fn lemma_dec_val_nonneg(s: Seq<u8>)
    requires
        forall|i: int| 0 <= i < s.len() ==> is_digit_byte(#[trigger] s[i]),
    ensures
        dec_val(s) >= 0,
    decreases s.len(),
{
    if s.len() > 0 {
        assert(forall|i: int|
            0 <= i < s.drop_last().len() ==> is_digit_byte(#[trigger] s.drop_last()[i]));
        lemma_dec_val_nonneg(s.drop_last());
    }
}

/// Growing a digit string can only grow its value.
pub proof fn lemma_dec_val_prefix(s: Seq<u8>, t: Seq<u8>)
    requires
        forall|i: int| 0 <= i < t.len() ==> is_digit_byte(#[trigger] t[i]),
        s.len() <= t.len(),
        s == t.take(s.len() as int),
    ensures
        dec_val(s) <= dec_val(t),
    decreases t.len() - s.len(),
{
    if s.len() < t.len() {
        let t1 = t.drop_last();
        assert(forall|i: int| 0 <= i < t1.len() ==> is_digit_byte(#[trigger] t1[i]));
        assert(s == t1.take(s.len() as int)) by {
            assert(t1.take(s.len() as int) =~= t.take(s.len() as int));
        }
        lemma_dec_val_prefix(s, t1);
        lemma_dec_val_nonneg(t1);
        assert(dec_val(t1) * 10 >= dec_val(t1)) by (nonlinear_arith)
            requires
                dec_val(t1) >= 0,
        ;
        assert(dec_val(t) == dec_val(t1) * 10 + (t.last() - 48));
    } else {
        assert(s =~= t);
    }
}

/// Parses the digits `s[start..end]` as a `u64`.  The caller has already
/// checked that the range holds only digits; the parse fails exactly when the
/// value does not fit in 64 bits.
pub fn parse_u64_digits(s: &[u8], start: usize, end: usize) -> (r: Result<u64, ()>)
    requires
        start <= end <= s@.len(),
        forall|i: int| start <= i < end ==> is_digit_byte(#[trigger] s@[i]),
    ensures
        r matches Ok(v) ==> dec_val(s@.subrange(start as int, end as int)) == v,
        r is Err <==> dec_val(s@.subrange(start as int, end as int)) > u64::MAX,
{
    let mut i: usize = start;
    let mut v: u64 = 0;
    while i < end
        invariant
            start <= i <= end <= s@.len(),
            forall|j: int| start <= j < end ==> is_digit_byte(#[trigger] s@[j]),
            v == dec_val(s@.subrange(start as int, i as int)),
        decreases end - i,
    {
        let d: u8 = s[i] - 48;
        let ghost pre = s@.subrange(start as int, i as int);
        let ghost cur = s@.subrange(start as int, i + 1);
        proof {
            assert(cur.drop_last() =~= pre);
            assert(cur.last() == s@[i as int]);
        }
        let limit: u64 = (u64::MAX - (d as u64)) / 10;
        if v > limit {
            proof {
                assert(dec_val(cur) == dec_val(pre) * 10 + d);
                assert(v * 10 + d > u64::MAX) by (nonlinear_arith)
                    requires
                        v > limit,
                        limit == (u64::MAX - d) as u64 / 10,
                        d <= 9,
                ;
                let whole = s@.subrange(start as int, end as int);
                assert(cur == whole.take(cur.len() as int)) by {
                    assert(cur =~= whole.take(cur.len() as int));
                }
                assert(forall|j: int| 0 <= j < whole.len() ==> is_digit_byte(#[trigger] whole[j]));
                lemma_dec_val_prefix(cur, whole);
            }
            return Err(());
        }
        proof {
            assert(v * 10 + d <= u64::MAX) by (nonlinear_arith)
                requires
                    v <= limit,
                    limit == (u64::MAX - d) as u64 / 10,
                    d <= 9,
            ;
        }
        v = v * 10 + (d as u64);
        i += 1;
    }
    proof {
        assert(s@.subrange(start as int, end as int) =~= s@.subrange(start as int, i as int));
    }
    Ok(v)
}

/// Appends the canonical decimal digits of `n` to `out`.
pub fn push_u64_dec(out: &mut Vec<u8>, n: u64)
    ensures
        final(out)@ == old(out)@ + dec_digits(n as nat),
    decreases n,
{
    if n < 10 {
        out.push(48 + (n as u8));
        proof {
            assert(out@ =~= old(out)@ + dec_digits(n as nat));
        }
    } else {
        push_u64_dec(out, n / 10);
        out.push(48 + ((n % 10) as u8));
        proof {
            assert(out@ =~= old(out)@ + dec_digits(n as nat));
        }
    }
}

} // verus!
