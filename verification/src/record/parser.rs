//! The record-line grammar: nested delimiter splitting (tab, then `;`/`:`,
//! then `,`) over raw bytes, with each field value percent-decoded once its
//! token is cut out.
//!
//! Every parser is specified against spec functions that walk the input the
//! same way the code does, so each contract pins the exact token lists and
//! the exact number of consumed bytes.

use vstd::prelude::*;

use crate::bytestr::copy_range;
use crate::header::opt_bytes_view;
use crate::kvlist::assoc_find;
use crate::record::{info_keys, spec_rebuilt, VCFRecord};

verus! {

/// Length of the maximal run of non-stop bytes at the head of `s`.
pub open spec fn token_run(s: Seq<u8>, stops: Seq<u8>) -> nat
    decreases s.len(),
{
    if s.len() == 0 || stops.contains(s[0]) {
        0
    } else {
        1 + token_run(s.skip(1), stops)
    }
}

pub proof fn lemma_token_run_bounds(s: Seq<u8>, stops: Seq<u8>)
    ensures
        token_run(s, stops) <= s.len(),
        forall|i: int| 0 <= i < token_run(s, stops) ==> !stops.contains(#[trigger] s[i]),
        token_run(s, stops) < s.len() ==> stops.contains(s[token_run(s, stops) as int]),
    decreases s.len(),
{
    if s.len() == 0 || stops.contains(s[0]) {
    } else {
        lemma_token_run_bounds(s.skip(1), stops);
        let tr = token_run(s, stops);
        assert(tr == 1 + token_run(s.skip(1), stops));
        assert forall|i: int| 0 <= i < tr implies !stops.contains(#[trigger] s[i]) by {
            if i > 0 {
                assert(s.skip(1)[i - 1] == s[i]);
            }
        }
        if tr < s.len() {
            assert(s.skip(1)[tr - 1] == s[tr as int]);
        }
    }
}

/// A scan that saw `k` non-stop bytes and then a stop (or the end) has found
/// the token run.
pub proof fn lemma_token_run_eq(s: Seq<u8>, stops: Seq<u8>, k: int)
    requires
        0 <= k <= s.len(),
        forall|i: int| 0 <= i < k ==> !stops.contains(#[trigger] s[i]),
        k < s.len() ==> stops.contains(s[k]),
    ensures
        token_run(s, stops) == k,
    decreases k,
{
    if k == 0 {
    } else {
        assert(!stops.contains(s[0]));
        lemma_token_run_eq(s.skip(1), stops, k - 1);
    }
}

/// One pass of the separated-value loop: the token lists it collects and how
/// many bytes it consumes.  With `keep_empty`, a token may be empty (the data
/// parser always succeeds); without it, empty tokens are dropped.
pub open spec fn spec_sep_values(s: Seq<u8>, stops: Seq<u8>, sep: u8, keep_empty: bool) -> (Seq<
    Seq<u8>,
>, nat)
    decreases s.len(),
{
    let tl = token_run(s, stops);
    if tl == 0 && !keep_empty {
        if s.len() > 0 && s[0] == sep {
            let r = spec_sep_values(s.skip(1), stops, sep, keep_empty);
            (r.0, 1 + r.1)
        } else {
            (Seq::empty(), 0)
        }
    } else {
        if tl < s.len() && s[tl as int] == sep {
            let r = spec_sep_values(s.skip(tl + 1 as int), stops, sep, keep_empty);
            (seq![s.take(tl as int)] + r.0, tl + 1 + r.1)
        } else {
            (seq![s.take(tl as int)], tl)
        }
    }
}

pub proof fn lemma_sep_values_bounds(s: Seq<u8>, stops: Seq<u8>, sep: u8, keep_empty: bool)
    ensures
        spec_sep_values(s, stops, sep, keep_empty).1 <= s.len(),
    decreases s.len(),
{
    lemma_token_run_bounds(s, stops);
    let tl = token_run(s, stops);
    if tl == 0 && !keep_empty {
        if s.len() > 0 && s[0] == sep {
            lemma_sep_values_bounds(s.skip(1), stops, sep, keep_empty);
        }
    } else {
        if tl < s.len() && s[tl as int] == sep {
            lemma_sep_values_bounds(s.skip(tl + 1 as int), stops, sep, keep_empty);
        }
    }
}

/// Is `b` one of the bytes of `stops`?
pub(crate) fn byte_in(stops: &[u8], b: u8) -> (r: bool)
    ensures
        r == stops@.contains(b),
{
    let mut i: usize = 0;
    while i < stops.len()
        invariant
            i <= stops@.len(),
            forall|j: int| 0 <= j < i ==> stops@[j] != b,
        decreases stops@.len() - i,
    {
        if stops[i] == b {
            return true;
        }
        i += 1;
    }
    false
}

/// Length of the token starting at `pos`.
pub(crate) fn scan_token(input: &[u8], pos: usize, stops: &[u8]) -> (tl: usize)
    requires
        pos <= input@.len(),
    ensures
        tl == token_run(input@.skip(pos as int), stops@),
        pos + tl <= input@.len(),
{
    let mut j: usize = pos;
    while j < input.len() && !byte_in(stops, input[j])
        invariant
            pos <= j <= input@.len(),
            forall|i: int| pos <= i < j ==> !stops@.contains(#[trigger] input@[i]),
        decreases input@.len() - j,
    {
        j += 1;
    }
    proof {
        let s = input@.skip(pos as int);
        assert(forall|i: int| 0 <= i < j - pos ==> !stops@.contains(#[trigger] s[i]));
        lemma_token_run_eq(s, stops@, j - pos);
    }
    j - pos
}

/// Splits separated values out of `input` starting at `start`.
///
/// A value is a maximal run of bytes outside `stops`; values are separated by
/// `sep` (which must itself be a stop byte to act as one).  The collected
/// values replace the previous contents of `result`; scanning ends at the
/// first byte that is neither a value byte nor `sep`, and the index of that
/// byte is returned.  With `require_one_entry` the call fails, leaving
/// `result` alone, if no value was found; with `keep_empty` empty values are
/// kept rather than dropped.
pub fn parse_separated_values(
    result: &mut Vec<Vec<u8>>,
    input: &[u8],
    start: usize,
    stops: &[u8],
    sep: u8,
    require_one_entry: bool,
    keep_empty: bool,
) -> (r: Result<usize, ()>)
    requires
        start <= input@.len(),
    ensures
        ({
            let sv = spec_sep_values(input@.skip(start as int), stops@, sep, keep_empty);
            match r {
                Ok(end) => final(result).deep_view() == sv.0 && end == start + sv.1 && end
                    <= input@.len() && (require_one_entry ==> sv.0.len() > 0),
                Err(_) => require_one_entry && sv.0.len() == 0 && final(result)@ == old(result)@,
            }
        }),
{
    let ilen: usize = input.len();
    let ghost full = input@.skip(start as int);
    let ghost sv = spec_sep_values(full, stops@, sep, keep_empty);
    let mut out: Vec<Vec<u8>> = Vec::new();
    let mut pos: usize = start;
    proof {
        lemma_sep_values_bounds(full, stops@, sep, keep_empty);
        assert(out.deep_view() =~= Seq::<Seq<u8>>::empty());
        assert(sv.0 =~= out.deep_view() + sv.0);
    }
    loop
        invariant
            ilen == input@.len(),
            result@ == old(result)@,
            start <= pos <= input@.len(),
            ({
                let rest = spec_sep_values(input@.skip(pos as int), stops@, sep, keep_empty);
                sv.0 == out.deep_view() + rest.0 && sv.1 == pos - start + rest.1
            }),
            sv == spec_sep_values(input@.skip(start as int), stops@, sep, keep_empty),
        decreases input@.len() - pos,
    {
        let ghost s = input@.skip(pos as int);
        let ghost rest = spec_sep_values(s, stops@, sep, keep_empty);
        proof {
            lemma_token_run_bounds(s, stops@);
            lemma_sep_values_bounds(s, stops@, sep, keep_empty);
        }
        let tl = scan_token(input, pos, stops);
        if tl == 0 && !keep_empty {
            if pos < input.len() && input[pos] == sep {
                proof {
                    assert(s[0] == sep);
                    assert(s.skip(1) =~= input@.skip(pos + 1));
                }
                pos += 1;
            } else {
                proof {
                    assert(!(s.len() > 0 && s[0] == sep));
                    assert(rest.0 =~= Seq::<Seq<u8>>::empty());
                    assert(sv.0 =~= out.deep_view());
                }
                if require_one_entry && out.len() == 0 {
                    proof {
                        assert(out.deep_view() =~= Seq::<Seq<u8>>::empty());
                    }
                    return Err(());
                }
                *result = out;
                return Ok(pos);
            }
        } else {
            proof {
                assert(pos + tl <= ilen);
            }
            let token = copy_range(input, pos, pos + tl);
            let ghost out0 = out.deep_view();
            out.push(token);
            proof {
                assert(s.take(tl as int) =~= input@.subrange(pos as int, pos + tl));
                assert(out.deep_view() =~~= out0 + seq![s.take(tl as int)]);
            }
            if pos + tl < input.len() && input[pos + tl] == sep {
                proof {
                    assert(s[tl as int] == sep);
                    assert(s.skip(tl + 1 as int) =~= input@.skip(pos + tl + 1));
                    assert(rest.0 == seq![s.take(tl as int)] + spec_sep_values(
                        s.skip(tl + 1 as int),
                        stops@,
                        sep,
                        keep_empty,
                    ).0);
                }
                pos = pos + tl + 1;
            } else {
                proof {
                    assert(!(tl < s.len() && s[tl as int] == sep));
                    assert(rest.0 == seq![s.take(tl as int)]);
                    assert(rest.1 == tl);
                    assert(sv.0 =~= out.deep_view());
                }
                pos = pos + tl;
                *result = out;
                return Ok(pos);
            }
        }
    }
}

/// The nested loop: lists of values separated by `sep_inside`, the lists
/// themselves separated by `sep_outside`.  An empty list is skipped rather
/// than recorded, and scanning stops at the first byte that opens no list and
/// is not `sep_outside`.
pub open spec fn spec_nested_values(
    s: Seq<u8>,
    stops: Seq<u8>,
    sep_inside: u8,
    sep_outside: u8,
) -> (Seq<Seq<Seq<u8>>>, nat)
    decreases s.len(),
{
    let r = spec_sep_values(s, stops, sep_inside, false);
    if r.0.len() > 0 {
        if r.1 < s.len() && s[r.1 as int] == sep_outside {
            let n = spec_nested_values(s.skip(r.1 + 1 as int), stops, sep_inside, sep_outside);
            (seq![r.0] + n.0, r.1 + 1 + n.1)
        } else {
            (seq![r.0], r.1)
        }
    } else {
        if s.len() > 0 && s[0] == sep_outside {
            let n = spec_nested_values(s.skip(1), stops, sep_inside, sep_outside);
            (n.0, 1 + n.1)
        } else {
            (Seq::empty(), 0)
        }
    }
}

pub proof fn lemma_nested_values_bounds(s: Seq<u8>, stops: Seq<u8>, sep_inside: u8, sep_outside: u8)
    ensures
        spec_nested_values(s, stops, sep_inside, sep_outside).1 <= s.len(),
    decreases s.len(),
{
    lemma_sep_values_bounds(s, stops, sep_inside, false);
    let r = spec_sep_values(s, stops, sep_inside, false);
    if r.0.len() > 0 {
        if r.1 < s.len() && s[r.1 as int] == sep_outside {
            lemma_nested_values_bounds(s.skip(r.1 + 1 as int), stops, sep_inside, sep_outside);
        }
    } else {
        if s.len() > 0 && s[0] == sep_outside {
            lemma_nested_values_bounds(s.skip(1), stops, sep_inside, sep_outside);
        }
    }
}

/// The doubly nested loop: one nested list per outer separator, every outer
/// position recorded (so empty positions yield empty lists).
pub open spec fn spec_double_nested_values(
    s: Seq<u8>,
    stops: Seq<u8>,
    sep_inside: u8,
    sep_outside: u8,
    sep_outside2: u8,
) -> (Seq<Seq<Seq<Seq<u8>>>>, nat)
    decreases s.len(),
{
    let n = spec_nested_values(s, stops, sep_inside, sep_outside);
    if n.1 < s.len() && s[n.1 as int] == sep_outside2 {
        let d = spec_double_nested_values(
            s.skip(n.1 + 1 as int),
            stops,
            sep_inside,
            sep_outside,
            sep_outside2,
        );
        (seq![n.0] + d.0, n.1 + 1 + d.1)
    } else {
        (seq![n.0], n.1)
    }
}

pub proof fn lemma_double_nested_values_bounds(
    s: Seq<u8>,
    stops: Seq<u8>,
    sep_inside: u8,
    sep_outside: u8,
    sep_outside2: u8,
)
    ensures
        spec_double_nested_values(s, stops, sep_inside, sep_outside, sep_outside2).1 <= s.len(),
    decreases s.len(),
{
    lemma_nested_values_bounds(s, stops, sep_inside, sep_outside);
    let n = spec_nested_values(s, stops, sep_inside, sep_outside);
    if n.1 < s.len() && s[n.1 as int] == sep_outside2 {
        lemma_double_nested_values_bounds(
            s.skip(n.1 + 1 as int),
            stops,
            sep_inside,
            sep_outside,
            sep_outside2,
        );
    }
}

/// Splits lists of `sep_inside`-separated values, the lists separated by
/// `sep_outside`, out of `input` starting at `start`; see
/// [`spec_nested_values`] for the exact token structure.  On success the
/// collected lists replace `result` and the index of the first unconsumed
/// byte is returned.
pub fn parse_nested_separated_values(
    result: &mut Vec<Vec<Vec<u8>>>,
    input: &[u8],
    start: usize,
    stops: &[u8],
    sep_inside: u8,
    sep_outside: u8,
    require_one_entry: bool,
) -> (r: Result<usize, ()>)
    requires
        start <= input@.len(),
    ensures
        ({
            let nv = spec_nested_values(input@.skip(start as int), stops@, sep_inside, sep_outside);
            match r {
                Ok(end) => final(result).deep_view() == nv.0 && end == start + nv.1 && end
                    <= input@.len() && (require_one_entry ==> nv.0.len() > 0),
                Err(_) => require_one_entry && nv.0.len() == 0 && final(result)@ == old(result)@,
            }
        }),
{
    let ilen: usize = input.len();
    let ghost full = input@.skip(start as int);
    let ghost nv = spec_nested_values(full, stops@, sep_inside, sep_outside);
    let mut out: Vec<Vec<Vec<u8>>> = Vec::new();
    let mut pos: usize = start;
    proof {
        lemma_nested_values_bounds(full, stops@, sep_inside, sep_outside);
        assert(out.deep_view() =~= Seq::<Seq<Seq<u8>>>::empty());
        assert(nv.0 =~= out.deep_view() + nv.0);
    }
    loop
        invariant
            ilen == input@.len(),
            result@ == old(result)@,
            start <= pos <= input@.len(),
            ({
                let rest = spec_nested_values(input@.skip(pos as int), stops@, sep_inside, sep_outside);
                nv.0 == out.deep_view() + rest.0 && nv.1 == pos - start + rest.1
            }),
            nv == spec_nested_values(input@.skip(start as int), stops@, sep_inside, sep_outside),
        decreases input@.len() - pos,
    {
        let ghost s = input@.skip(pos as int);
        let ghost rest = spec_nested_values(s, stops@, sep_inside, sep_outside);
        let ghost rv = spec_sep_values(s, stops@, sep_inside, false);
        proof {
            lemma_sep_values_bounds(s, stops@, sep_inside, false);
            lemma_nested_values_bounds(s, stops@, sep_inside, sep_outside);
        }
        let mut tmp: Vec<Vec<u8>> = Vec::new();
        let mut newpos: usize = pos;
        let ghost out0 = out.deep_view();
        match parse_separated_values(&mut tmp, input, pos, stops, sep_inside, true, false) {
            Ok(e) => {
                out.push(tmp);
                newpos = e;
                proof {
                    assert(out.deep_view() =~~= out0 + seq![rv.0]);
                }
            },
            Err(_) => {
                proof {
                    assert(rv.0.len() == 0);
                }
            },
        }
        if newpos < ilen && input[newpos] == sep_outside {
            proof {
                assert(s[newpos - pos] == sep_outside);
                assert(s.skip(newpos - pos + 1) =~= input@.skip(newpos + 1));
            }
            pos = newpos + 1;
        } else {
            proof {
                if rv.0.len() > 0 {
                    assert(rest.0 == seq![rv.0] && rest.1 == rv.1);
                } else {
                    assert(rest.0 =~= Seq::<Seq<Seq<u8>>>::empty());
                    assert(rest.1 == 0);
                }
                assert(nv.0 =~= out.deep_view());
            }
            if require_one_entry && out.len() == 0 {
                proof {
                    assert(out.deep_view() =~= Seq::<Seq<Seq<u8>>>::empty());
                }
                return Err(());
            }
            *result = out;
            return Ok(newpos);
        }
    }
}

/// Splits the doubly nested structure (for the per-sample genotype columns)
/// out of `input` starting at `start`; see [`spec_double_nested_values`].
/// Returns the index of the first unconsumed byte.
pub fn parse_double_nested_separated_values(
    result: &mut Vec<Vec<Vec<Vec<u8>>>>,
    input: &[u8],
    start: usize,
    stops: &[u8],
    sep_inside: u8,
    sep_outside: u8,
    sep_outside2: u8,
) -> (end: usize)
    requires
        start <= input@.len(),
    ensures
        ({
            let dv = spec_double_nested_values(
                input@.skip(start as int),
                stops@,
                sep_inside,
                sep_outside,
                sep_outside2,
            );
            final(result).deep_view() == dv.0 && end == start + dv.1 && end <= input@.len()
        }),
{
    let ilen: usize = input.len();
    let ghost full = input@.skip(start as int);
    let ghost dv = spec_double_nested_values(full, stops@, sep_inside, sep_outside, sep_outside2);
    let mut out: Vec<Vec<Vec<Vec<u8>>>> = Vec::new();
    let mut pos: usize = start;
    proof {
        lemma_double_nested_values_bounds(full, stops@, sep_inside, sep_outside, sep_outside2);
        assert(out.deep_view() =~= Seq::<Seq<Seq<Seq<u8>>>>::empty());
        assert(dv.0 =~= out.deep_view() + dv.0);
    }
    loop
        invariant
            ilen == input@.len(),
            start <= pos <= input@.len(),
            ({
                let rest = spec_double_nested_values(
                    input@.skip(pos as int),
                    stops@,
                    sep_inside,
                    sep_outside,
                    sep_outside2,
                );
                dv.0 == out.deep_view() + rest.0 && dv.1 == pos - start + rest.1
            }),
            dv == spec_double_nested_values(
                input@.skip(start as int),
                stops@,
                sep_inside,
                sep_outside,
                sep_outside2,
            ),
        decreases input@.len() - pos,
    {
        let ghost s = input@.skip(pos as int);
        let ghost rest = spec_double_nested_values(s, stops@, sep_inside, sep_outside, sep_outside2);
        let ghost nvh = spec_nested_values(s, stops@, sep_inside, sep_outside);
        proof {
            lemma_nested_values_bounds(s, stops@, sep_inside, sep_outside);
            lemma_double_nested_values_bounds(s, stops@, sep_inside, sep_outside, sep_outside2);
        }
        let mut tmp: Vec<Vec<Vec<u8>>> = Vec::new();
        let ghost out0 = out.deep_view();
        let newpos: usize = match parse_nested_separated_values(
            &mut tmp,
            input,
            pos,
            stops,
            sep_inside,
            sep_outside,
            false,
        ) {
            Ok(e) => e,
            Err(_) => pos,
        };
        out.push(tmp);
        proof {
            assert(out.deep_view() =~~= out0 + seq![nvh.0]);
        }
        if newpos < ilen && input[newpos] == sep_outside2 {
            proof {
                assert(s[newpos - pos] == sep_outside2);
                assert(s.skip(newpos - pos + 1) =~= input@.skip(newpos + 1));
            }
            pos = newpos + 1;
        } else {
            proof {
                assert(rest.0 == seq![nvh.0] && rest.1 == nvh.1);
                assert(dv.0 =~= out.deep_view());
            }
            *result = out;
            return newpos;
        }
    }
}

/// Bytes that end an INFO key.
pub open spec fn info_key_stops() -> Seq<u8> {
    seq!['\t' as u8, '\r' as u8, '\n' as u8, '=' as u8, ';' as u8]
}

/// Bytes that end an INFO value.
pub open spec fn info_val_stops() -> Seq<u8> {
    seq!['\t' as u8, '\r' as u8, '\n' as u8, ',' as u8, ';' as u8]
}

/// The semicolon-separated `key` or `key=v1,v2,...` entries at the head of
/// `s`, with the bytes consumed.  Scanning ends before the first byte that
/// opens no entry.
pub open spec fn spec_parse_info(s: Seq<u8>) -> (Seq<(Seq<u8>, Seq<Seq<u8>>)>, nat)
    decreases s.len(),
    via spec_parse_info_decreases
{
    let kl = token_run(s, info_key_stops());
    if kl == 0 {
        (Seq::empty(), 0)
    } else {
        let key = s.take(kl as int);
        if kl < s.len() && s[kl as int] == '=' as u8 {
            let r = spec_sep_values(s.skip(kl + 1 as int), info_val_stops(), ',' as u8, false);
            let c = kl + 1 + r.1;
            if c < s.len() && s[c as int] == ';' as u8 {
                let rest = spec_parse_info(s.skip(c + 1 as int));
                (seq![(key, spec_decoded_all(r.0))] + rest.0, c + 1 + rest.1)
            } else {
                (seq![(key, spec_decoded_all(r.0))], c)
            }
        } else {
            if kl < s.len() && s[kl as int] == ';' as u8 {
                let rest = spec_parse_info(s.skip(kl + 1 as int));
                (seq![(key, Seq::empty())] + rest.0, kl + 1 + rest.1)
            } else {
                (seq![(key, Seq::empty())], kl)
            }
        }
    }
}

#[via_fn]
proof fn spec_parse_info_decreases(s: Seq<u8>) {
    lemma_token_run_bounds(s, info_key_stops());
    let kl = token_run(s, info_key_stops());
    if kl != 0 {
        lemma_sep_values_bounds(s.skip(kl + 1 as int), info_val_stops(), ',' as u8, false);
    }
}

pub proof fn lemma_parse_info_bounds(s: Seq<u8>)
    ensures
        spec_parse_info(s).1 <= s.len(),
    decreases s.len(),
{
    lemma_token_run_bounds(s, info_key_stops());
    let kl = token_run(s, info_key_stops());
    if kl != 0 {
        lemma_sep_values_bounds(s.skip(kl + 1 as int), info_val_stops(), ',' as u8, false);
        if kl < s.len() && s[kl as int] == '=' as u8 {
            let r = spec_sep_values(s.skip(kl + 1 as int), info_val_stops(), ',' as u8, false);
            let c = kl + 1 + r.1;
            if c < s.len() && s[c as int] == ';' as u8 {
                lemma_parse_info_bounds(s.skip(c + 1 as int));
            }
        } else {
            if kl < s.len() && s[kl as int] == ';' as u8 {
                lemma_parse_info_bounds(s.skip(kl + 1 as int));
            }
        }
    }
}

/// The single byte `.`.
pub open spec fn dot_bytes() -> Seq<u8> {
    seq!['.' as u8]
}

/// Each value percent-decoded through the codec.
pub open spec fn spec_decoded_all(vs: Seq<Seq<u8>>) -> Seq<Seq<u8>> {
    vs.map_values(|v: Seq<u8>| crate::codec::spec_decode(v))
}

/// A lone `.` entry list (`[(".", [])]`) collapses to no entries at all.
pub open spec fn spec_info_collapse(entries: Seq<(Seq<u8>, Seq<Seq<u8>>)>) -> Seq<
    (Seq<u8>, Seq<Seq<u8>>),
> {
    if entries =~= seq![(dot_bytes(), Seq::<Seq<u8>>::empty())] {
        Seq::empty()
    } else {
        entries
    }
}

/// The view of a parsed INFO list.
pub open spec fn info_entries_view(v: Seq<(Vec<u8>, Vec<Vec<u8>>)>) -> Seq<(Seq<u8>, Seq<Seq<u8>>)> {
    v.map_values(|e: (Vec<u8>, Vec<Vec<u8>>)| (e.0@, e.1.deep_view()))
}

/// Parses the INFO column at `start` into `info`, replacing its contents; a
/// lone `.` yields no entries.  Returns the index of the first unconsumed
/// byte.
pub fn parse_info(input: &[u8], start: usize, info: &mut Vec<(Vec<u8>, Vec<Vec<u8>>)>) -> (end:
    usize)
    requires
        start <= input@.len(),
    ensures
        ({
            let pi = spec_parse_info(input@.skip(start as int));
            info_entries_view(final(info)@) == spec_info_collapse(pi.0) && end == start + pi.1
                && end <= input@.len()
        }),
{
    let ilen: usize = input.len();
    let ghost full = input@.skip(start as int);
    let ghost pi = spec_parse_info(full);
    let key_stops: [u8; 5] = ['\t' as u8, '\r' as u8, '\n' as u8, '=' as u8, ';' as u8];
    let val_stops: [u8; 5] = ['\t' as u8, '\r' as u8, '\n' as u8, ',' as u8, ';' as u8];
    proof {
        assert(key_stops@ =~= info_key_stops());
        assert(val_stops@ =~= info_val_stops());
        lemma_parse_info_bounds(full);
    }
    let mut out: Vec<(Vec<u8>, Vec<Vec<u8>>)> = Vec::new();
    let mut pos: usize = start;
    proof {
        assert(info_entries_view(out@) =~= Seq::<(Seq<u8>, Seq<Seq<u8>>)>::empty());
        assert(pi.0 =~= info_entries_view(out@) + pi.0);
    }
    loop
        invariant_except_break
            ({
                let rest = spec_parse_info(input@.skip(pos as int));
                pi.0 == info_entries_view(out@) + rest.0 && pi.1 == pos - start + rest.1
            }),
        invariant
            ilen == input@.len(),
            start <= pos <= input@.len(),
            key_stops@ == info_key_stops(),
            val_stops@ == info_val_stops(),
            pi == spec_parse_info(input@.skip(start as int)),
        ensures
            pos <= input@.len(),
            pi.0 == info_entries_view(out@),
            pi.1 == pos - start,
        decreases input@.len() - pos,
    {
        let ghost s = input@.skip(pos as int);
        let ghost rest = spec_parse_info(s);
        proof {
            lemma_token_run_bounds(s, info_key_stops());
            lemma_parse_info_bounds(s);
        }
        let kl = scan_token(input, pos, key_stops.as_slice());
        if kl == 0 {
            proof {
                assert(rest.0 =~= Seq::<(Seq<u8>, Seq<Seq<u8>>)>::empty());
                assert(pi.0 =~= info_entries_view(out@));
            }
            break ;
        }
        let key = copy_range(input, pos, pos + kl);
        proof {
            assert(s.take(kl as int) =~= input@.subrange(pos as int, pos + kl));
        }
        let ghost ev0 = info_entries_view(out@);
        let mut pos2: usize = pos + kl;
        if pos + kl < ilen && input[pos + kl] == '=' as u8 {
            proof {
                assert(s[kl as int] == input@[pos + kl]);
                assert(s.skip(kl + 1 as int) =~= input@.skip(pos + kl + 1));
            }
            let mut vals: Vec<Vec<u8>> = Vec::new();
            let vend = match parse_separated_values(
                &mut vals,
                input,
                pos + kl + 1,
                val_stops.as_slice(),
                ',' as u8,
                false,
                false,
            ) {
                Ok(e) => e,
                Err(_) => {
                    proof {
                        assert(false);
                    }
                    pos
                },
            };
            decode_values(&mut vals);
            out.push((key, vals));
            pos2 = vend;
            proof {
                let sv = spec_sep_values(s.skip(kl + 1 as int), info_val_stops(), ',' as u8, false);
                let entry = (s.take(kl as int), spec_decoded_all(sv.0));
                assert(info_entries_view(out@) =~~= ev0 + seq![entry]);
                assert(ev0 + (seq![entry] + spec_parse_info(input@.skip(vend + 1)).0) =~= (ev0
                    + seq![entry]) + spec_parse_info(input@.skip(vend + 1)).0);
            }
        } else {
            proof {
                if kl < s.len() {
                    assert(s[kl as int] == input@[pos + kl]);
                }
            }
            let vals: Vec<Vec<u8>> = Vec::new();
            out.push((key, vals));
            proof {
                assert(info_entries_view(out@) =~~= ev0 + seq![
                    (s.take(kl as int), Seq::<Seq<u8>>::empty()),
                ]);
                assert(ev0 + (seq![(s.take(kl as int), Seq::<Seq<u8>>::empty())] + spec_parse_info(
                    input@.skip(pos + kl + 1),
                ).0) =~= (ev0 + seq![(s.take(kl as int), Seq::<Seq<u8>>::empty())])
                    + spec_parse_info(input@.skip(pos + kl + 1)).0);
            }
        }
        if pos2 < ilen && input[pos2] == ';' as u8 {
            proof {
                assert(s[pos2 - pos] == ';' as u8);
                assert(s.skip(pos2 - pos + 1) =~= input@.skip(pos2 + 1));
            }
            pos = pos2 + 1;
        } else {
            proof {
                if pos2 - pos < s.len() {
                    assert(s[pos2 - pos] == input@[pos2 as int]);
                }
                assert(pi.0 =~= info_entries_view(out@));
            }
            pos = pos2;
            break ;
        }
    }
    // a lone `.` means: no INFO at all
    let is_dot = out.len() == 1 && out[0].0.len() == 1 && out[0].0[0] == '.' as u8 && out[0].1.len()
        == 0;
    if is_dot {
        proof {
            assert(info_entries_view(out@)[0].0 =~= dot_bytes());
            assert(info_entries_view(out@)[0].1 =~= Seq::<Seq<u8>>::empty());
            assert(info_entries_view(out@) =~= seq![(dot_bytes(), Seq::<Seq<u8>>::empty())]);
        }
        out = Vec::new();
        proof {
            assert(info_entries_view(out@) =~= Seq::<(Seq<u8>, Seq<Seq<u8>>)>::empty());
        }
    } else {
        proof {
            let ev = info_entries_view(out@);
            if ev =~= seq![(dot_bytes(), Seq::<Seq<u8>>::empty())] {
                assert(ev.len() == 1);
                assert(out@.len() == 1);
                assert(ev[0] == (out@[0].0@, out@[0].1.deep_view()));
                assert(out@[0].0@ == dot_bytes());
                assert(out@[0].0@.len() == 1 && out@[0].0@[0] == '.' as u8);
                assert(out@[0].1.deep_view() == Seq::<Seq<u8>>::empty());
                assert(out@[0].1@.len() == out@[0].1.deep_view().len());
                assert(false);
            }
        }
    }
    *info = out;
    pos
}

/// Length of the run of decimal digits at the head of `s`.
pub open spec fn digit_run(s: Seq<u8>) -> nat
    decreases s.len(),
{
    if s.len() > 0 && crate::bytestr::is_digit_byte(s[0]) {
        1 + digit_run(s.skip(1))
    } else {
        0
    }
}

pub proof fn lemma_digit_run_bounds(s: Seq<u8>)
    ensures
        digit_run(s) <= s.len(),
        forall|i: int| 0 <= i < digit_run(s) ==> crate::bytestr::is_digit_byte(#[trigger] s[i]),
        digit_run(s) < s.len() ==> !crate::bytestr::is_digit_byte(s[digit_run(s) as int]),
    decreases s.len(),
{
    if s.len() > 0 && crate::bytestr::is_digit_byte(s[0]) {
        lemma_digit_run_bounds(s.skip(1));
        let dr = digit_run(s);
        assert forall|i: int| 0 <= i < dr implies crate::bytestr::is_digit_byte(
            #[trigger] s[i],
        ) by {
            if i > 0 {
                assert(s.skip(1)[i - 1] == s[i]);
            }
        }
        if dr < s.len() {
            assert(s.skip(1)[dr - 1] == s[dr as int]);
        }
    }
}

proof fn lemma_digit_run_eq(s: Seq<u8>, k: int)
    requires
        0 <= k <= s.len(),
        forall|i: int| 0 <= i < k ==> crate::bytestr::is_digit_byte(#[trigger] s[i]),
        k < s.len() ==> !crate::bytestr::is_digit_byte(s[k]),
    ensures
        digit_run(s) == k,
    decreases k,
{
    if k == 0 {
    } else {
        assert(crate::bytestr::is_digit_byte(s[0]));
        lemma_digit_run_eq(s.skip(1), k - 1);
    }
}

/// Length of the digit run starting at `pos`.
fn scan_digits(input: &[u8], pos: usize) -> (dl: usize)
    requires
        pos <= input@.len(),
    ensures
        dl == digit_run(input@.skip(pos as int)),
        pos + dl <= input@.len(),
{
    let mut j: usize = pos;
    while j < input.len() && 48 <= input[j] && input[j] <= 57
        invariant
            pos <= j <= input@.len(),
            forall|i: int| pos <= i < j ==> crate::bytestr::is_digit_byte(#[trigger] input@[i]),
        decreases input@.len() - j,
    {
        j += 1;
    }
    proof {
        let s = input@.skip(pos as int);
        assert forall|i: int| 0 <= i < j - pos implies crate::bytestr::is_digit_byte(
            #[trigger] s[i],
        ) by {
            assert(s[i] == input@[pos + i]);
        }
        if j - pos < s.len() {
            assert(s[j - pos] == input@[j as int]);
        }
        lemma_digit_run_eq(s, j - pos);
    }
    j - pos
}

/// How many bytes the quality grammar accepts at the head of `s`: a lone
/// `.`, or digits with an optional fraction and an optional exponent.
/// `None` when the column starts with anything else.
pub open spec fn spec_float_len(s: Seq<u8>) -> Option<nat> {
    if s.len() > 0 && s[0] == '.' as u8 {
        Some(1)
    } else {
        let d1 = digit_run(s);
        if d1 == 0 {
            None
        } else {
            let j = if d1 < s.len() && s[d1 as int] == '.' as u8 {
                d1 + 1 + digit_run(s.skip(d1 + 1 as int))
            } else {
                d1 as nat
            };
            Some(spec_exponent_end(s, j))
        }
    }
}

/// Extends `j` past an `e`/`E` exponent if one is complete, else leaves it.
pub open spec fn spec_exponent_end(s: Seq<u8>, j: nat) -> nat {
    if j < s.len() && (s[j as int] == 'e' as u8 || s[j as int] == 'E' as u8) {
        let k = if j + 1 < s.len() && (s[j + 1 as int] == '+' as u8 || s[j + 1 as int] == '-' as u8) {
            j + 2
        } else {
            j + 1
        };
        let dr = digit_run(s.skip(k as int));
        if k <= s.len() && dr >= 1 {
            (k + dr) as nat
        } else {
            j
        }
    } else {
        j
    }
}

pub proof fn lemma_float_len_bounds(s: Seq<u8>)
    ensures
        spec_float_len(s) matches Some(fl) ==> 1 <= fl <= s.len(),
{
    lemma_digit_run_bounds(s);
    if !(s.len() > 0 && s[0] == '.' as u8) {
        let d1 = digit_run(s);
        if d1 != 0 {
            lemma_digit_run_bounds(s.skip(d1 + 1 as int));
            let j = if d1 < s.len() && s[d1 as int] == '.' as u8 {
                d1 + 1 + digit_run(s.skip(d1 + 1 as int))
            } else {
                d1 as nat
            };
            assert(j <= s.len());
            if j < s.len() && (s[j as int] == 'e' as u8 || s[j as int] == 'E' as u8) {
                let k = if j + 1 < s.len() && (s[j + 1 as int] == '+' as u8 || s[j + 1 as int]
                    == '-' as u8) {
                    j + 2
                } else {
                    j + 1
                };
                lemma_digit_run_bounds(s.skip(k as int));
            }
        }
    }
}

/// Scans the quality column at `pos`; returns how many bytes it spans.
fn scan_float(input: &[u8], pos: usize) -> (r: Option<usize>)
    requires
        pos <= input@.len(),
    ensures
        ({
            let fl = spec_float_len(input@.skip(pos as int));
            match r {
                Some(n) => fl matches Some(m) && n == m && pos + n <= input@.len(),
                None => fl is None,
            }
        }),
{
    let ilen: usize = input.len();
    let ghost s = input@.skip(pos as int);
    proof {
        lemma_float_len_bounds(s);
    }
    if pos < ilen && input[pos] == '.' as u8 {
        proof {
            assert(s[0] == input@[pos as int]);
        }
        return Some(1);
    }
    proof {
        if pos < ilen {
            assert(s[0] == input@[pos as int]);
        }
    }
    let d1 = scan_digits(input, pos);
    if d1 == 0 {
        return None;
    }
    let mut j: usize = pos + d1;
    proof {
        if j - pos < s.len() {
            assert(s[j - pos] == input@[j as int]);
        }
    }
    if j < ilen && input[j] == '.' as u8 {
        proof {
            assert(s.skip(d1 + 1 as int) =~= input@.skip(j + 1));
        }
        let d2 = scan_digits(input, j + 1);
        j = j + 1 + d2;
    }
    let ghost j0 = (j - pos) as nat;
    proof {
        if j - pos < s.len() {
            assert(s[j - pos] == input@[j as int]);
        }
    }
    if j < ilen && (input[j] == 'e' as u8 || input[j] == 'E' as u8) {
        let mut k: usize = j + 1;
        proof {
            if k - pos < s.len() {
                assert(s[k - pos] == input@[k as int]);
            }
        }
        if k < ilen && (input[k] == '+' as u8 || input[k] == '-' as u8) {
            k = k + 1;
        }
        proof {
            assert(s.skip((k - pos) as int) =~= input@.skip(k as int));
        }
        let dr = scan_digits(input, k);
        if dr >= 1 {
            proof {
                assert(spec_exponent_end(s, j0) == (k - pos + dr) as nat);
            }
            return Some(k - pos + dr);
        }
    }
    proof {
        assert(spec_exponent_end(s, j0) == j0);
    }
    Some(j - pos)
}

/// Bytes that end a plain column.
pub open spec fn hard_stops() -> Seq<u8> {
    seq!['\t' as u8, '\r' as u8, '\n' as u8]
}

/// Bytes that end a comma-separated column entry.
pub open spec fn comma_col_stops() -> Seq<u8> {
    seq!['\t' as u8, '\r' as u8, '\n' as u8, ',' as u8]
}

/// Bytes that end a FORMAT key.
pub open spec fn format_col_stops() -> Seq<u8> {
    seq!['\t' as u8, '\r' as u8, '\n' as u8, ':' as u8]
}

/// Bytes that end a genotype sub-value.
pub open spec fn genotype_col_stops() -> Seq<u8> {
    seq!['\t' as u8, '\r' as u8, '\n' as u8, ':' as u8, ',' as u8]
}

/// A list holding only the `.` token collapses to the empty list.
pub open spec fn collapse_dot_list(l: Seq<Seq<u8>>) -> Seq<Seq<u8>> {
    if l =~= seq![dot_bytes()] {
        Seq::empty()
    } else {
        l
    }
}

/// A sample row holding only a `.` cell collapses to an absent row; inside a
/// kept row, each `.` cell collapses to an absent cell.
pub open spec fn row_collapse(row: Seq<Seq<Seq<u8>>>) -> Seq<Seq<Seq<u8>>> {
    if row =~= seq![seq![dot_bytes()]] {
        Seq::empty()
    } else {
        row.map_values(|c: Seq<Seq<u8>>| collapse_dot_list(c))
    }
}

/// The `.` collapse applied to every sample row.
pub open spec fn genotype_collapse(g: Seq<Seq<Seq<Seq<u8>>>>) -> Seq<Seq<Seq<Seq<u8>>>> {
    g.map_values(|row: Seq<Seq<Seq<u8>>>| row_collapse(row))
}

/// The percent-decode applied to every genotype sub-value.
pub open spec fn genotype_decode(g: Seq<Seq<Seq<Seq<u8>>>>) -> Seq<Seq<Seq<Seq<u8>>>> {
    g.map_values(
        |row: Seq<Seq<Seq<u8>>>| row.map_values(|c: Seq<Seq<u8>>| spec_decoded_all(c)),
    )
}

/// The decomposition of one data line, with the index just past its
/// terminator.
pub struct ParsedRecord {
    pub chromosome: Seq<u8>,
    pub position: u64,
    pub id: Seq<Seq<u8>>,
    pub reference: Seq<u8>,
    pub alternative: Seq<Seq<u8>>,
    pub qual: Option<Seq<u8>>,
    pub filter: Seq<Seq<u8>>,
    pub info: Seq<(Seq<u8>, Seq<Seq<u8>>)>,
    pub format: Seq<Seq<u8>>,
    pub genotype: Seq<Seq<Seq<Seq<u8>>>>,
    pub end: nat,
}

/// The optional trailing columns from position `p`: quality, filter, INFO,
/// FORMAT and genotypes, each gated on the preceding tab; a missing tab
/// leaves the rest absent.  `None` only when the quality grammar fails.
pub open spec fn spec_optional_columns(line: Seq<u8>, p: nat) -> Option<
    (Option<Seq<u8>>, Seq<Seq<u8>>, Seq<(Seq<u8>, Seq<Seq<u8>>)>, Seq<Seq<u8>>, Seq<
        Seq<Seq<Seq<u8>>>,
    >, nat),
> {
    if !(p < line.len() && line[p as int] == '\t' as u8) {
        Some((None, Seq::empty(), Seq::empty(), Seq::empty(), Seq::empty(), p))
    } else {
        match spec_float_len(line.skip(p + 1 as int)) {
            None => None,
            Some(fl) => {
                let qtext = line.skip(p + 1 as int).take(fl as int);
                let qual = if qtext =~= dot_bytes() {
                    None
                } else {
                    Some(qtext)
                };
                let p8 = (p + 1 + fl) as nat;
                if !(p8 < line.len() && line[p8 as int] == '\t' as u8) {
                    Some((qual, Seq::empty(), Seq::empty(), Seq::empty(), Seq::empty(), p8))
                } else {
                    let sv_f = spec_sep_values(
                        line.skip(p8 + 1 as int),
                        comma_col_stops(),
                        ',' as u8,
                        false,
                    );
                    let filter = spec_decoded_all(collapse_dot_list(sv_f.0));
                    let p9 = (p8 + 1 + sv_f.1) as nat;
                    if !(p9 < line.len() && line[p9 as int] == '\t' as u8) {
                        Some((qual, filter, Seq::empty(), Seq::empty(), Seq::empty(), p9))
                    } else {
                        let pi = spec_parse_info(line.skip(p9 + 1 as int));
                        let info = spec_info_collapse(pi.0);
                        let p10 = (p9 + 1 + pi.1) as nat;
                        if !(p10 < line.len() && line[p10 as int] == '\t' as u8) {
                            Some((qual, filter, info, Seq::empty(), Seq::empty(), p10))
                        } else {
                            let sv_fmt = spec_sep_values(
                                line.skip(p10 + 1 as int),
                                format_col_stops(),
                                ':' as u8,
                                false,
                            );
                            let format = spec_decoded_all(collapse_dot_list(sv_fmt.0));
                            let p11 = (p10 + 1 + sv_fmt.1) as nat;
                            if !(p11 < line.len() && line[p11 as int] == '\t' as u8) {
                                Some((qual, filter, info, format, Seq::empty(), p11))
                            } else {
                                let dvg = spec_double_nested_values(
                                    line.skip(p11 + 1 as int),
                                    genotype_col_stops(),
                                    ',' as u8,
                                    ':' as u8,
                                    '\t' as u8,
                                );
                                Some(
                                    (
                                        qual,
                                        filter,
                                        info,
                                        format,
                                        genotype_decode(genotype_collapse(dvg.0)),
                                        (p11 + 1 + dvg.1) as nat,
                                    ),
                                )
                            }
                        }
                    }
                }
            },
        }
    }
}

/// One whole data line: the five fixed columns, the optional tail, and the
/// line terminator (`\n`, `\r\n`, or end of input).  Fails on an empty
/// chromosome or reference, a non-numeric or oversized position, a malformed
/// quality, or a missing tab or terminator.
pub open spec fn spec_parse_record(line: Seq<u8>) -> Option<ParsedRecord> {
    let cl = token_run(line, hard_stops());
    if cl == 0 || !(cl < line.len() && line[cl as int] == '\t' as u8) {
        None
    } else {
        let p1 = cl + 1;
        let dl = digit_run(line.skip(p1 as int));
        let digits = line.skip(p1 as int).take(dl as int);
        if dl == 0 || crate::bytestr::dec_val(digits) > u64::MAX || !(p1 + dl < line.len() && line[(
        p1 + dl) as int] == '\t' as u8) {
            None
        } else {
            let position = crate::bytestr::dec_val(digits) as u64;
            let p2 = p1 + dl + 1;
            let sv_id = spec_sep_values(line.skip(p2 as int), comma_col_stops(), ',' as u8, false);
            let p3 = p2 + sv_id.1;
            if !(p3 < line.len() && line[p3 as int] == '\t' as u8) {
                None
            } else {
                let p4 = p3 + 1;
                let rl = token_run(line.skip(p4 as int), hard_stops());
                if rl == 0 || !(p4 + rl < line.len() && line[(p4 + rl) as int] == '\t' as u8) {
                    None
                } else {
                    let p5 = p4 + rl + 1;
                    let sv_alt = spec_sep_values(
                        line.skip(p5 as int),
                        comma_col_stops(),
                        ',' as u8,
                        false,
                    );
                    let p6 = p5 + sv_alt.1;
                    match spec_optional_columns(line, (p6) as nat) {
                        None => None,
                        Some(o) => {
                            let pe = o.5;
                            let end = if pe == line.len() {
                                Some(pe)
                            } else if line[pe as int] == '\n' as u8 {
                                Some((pe + 1) as nat)
                            } else if pe + 1 < line.len() && line[pe as int] == '\r' as u8 && line[
                                pe + 1 as int] == '\n' as u8 {
                                Some((pe + 2) as nat)
                            } else {
                                None
                            };
                            match end {
                                None => None,
                                Some(e) => Some(
                                    ParsedRecord {
                                        chromosome: line.take(cl as int),
                                        position,
                                        id: spec_decoded_all(collapse_dot_list(sv_id.0)),
                                        reference: line.skip(p4 as int).take(rl as int),
                                        alternative: spec_decoded_all(collapse_dot_list(sv_alt.0)),
                                        qual: o.0,
                                        filter: o.1,
                                        info: o.2,
                                        format: o.3,
                                        genotype: o.4,
                                        end: e,
                                    },
                                ),
                            }
                        },
                    }
                }
            }
        }
    }
}

/// Does this list hold exactly the one token `.`?
fn is_dot_list(list: &Vec<Vec<u8>>) -> (r: bool)
    ensures
        r == (list.deep_view() =~= seq![dot_bytes()]),
{
    let r = list.len() == 1 && list[0].len() == 1 && list[0][0] == '.' as u8;
    proof {
        let dv = list.deep_view();
        if r {
            assert(dv[0] == list@[0]@);
            assert(dv[0] =~= dot_bytes());
            assert(dv =~= seq![dot_bytes()]);
        } else {
            if dv =~= seq![dot_bytes()] {
                assert(list@.len() == 1);
                assert(dv[0] == list@[0]@);
                assert(list@[0]@ == dot_bytes());
                assert(list@[0]@.len() == 1 && list@[0]@[0] == '.' as u8);
            }
        }
    }
    r
}

/// Empties the list if it holds only the `.` token.
fn collapse_dot(list: &mut Vec<Vec<u8>>)
    ensures
        final(list).deep_view() == collapse_dot_list(old(list).deep_view()),
{
    if is_dot_list(list) {
        let empty: Vec<Vec<u8>> = Vec::new();
        *list = empty;
        proof {
            assert(list.deep_view() =~= Seq::<Seq<u8>>::empty());
        }
    }
}

/// Percent-decodes every value of the list in place.
fn decode_values(list: &mut Vec<Vec<u8>>)
    ensures
        final(list).deep_view() == spec_decoded_all(old(list).deep_view()),
{
    let ghost dv0 = list.deep_view();
    let mut i: usize = 0;
    while i < list.len()
        invariant
            i <= list@.len(),
            list@.len() == dv0.len(),
            forall|j: int| 0 <= j < i ==> #[trigger] list@[j]@ == crate::codec::spec_decode(
                dv0[j],
            ),
            forall|j: int| i <= j < dv0.len() ==> #[trigger] list@[j]@ == dv0[j],
        decreases list@.len() - i,
    {
        let decoded = crate::codec::decode(list[i].as_slice());
        list[i] = decoded;
        i += 1;
    }
    proof {
        assert(list.deep_view() =~~= spec_decoded_all(dv0));
    }
}

/// Percent-decodes every value of the list into a fresh copy.
fn decode_values_copy(list: &Vec<Vec<u8>>) -> (r: Vec<Vec<u8>>)
    ensures
        r.deep_view() == spec_decoded_all(list.deep_view()),
{
    let mut out: Vec<Vec<u8>> = Vec::new();
    let mut i: usize = 0;
    while i < list.len()
        invariant
            i <= list@.len(),
            out.deep_view() == spec_decoded_all(list.deep_view()).take(i as int),
        decreases list@.len() - i,
    {
        let ghost odv = out.deep_view();
        out.push(crate::codec::decode(list[i].as_slice()));
        proof {
            assert(list.deep_view()[i as int] == list@[i as int]@);
            assert(out.deep_view() =~~= odv + seq![crate::codec::spec_decode(
                list.deep_view()[i as int],
            )]);
            assert(out.deep_view() =~~= spec_decoded_all(list.deep_view()).take(i + 1));
        }
        i += 1;
    }
    proof {
        assert(spec_decoded_all(list.deep_view()).take(i as int) =~= spec_decoded_all(
            list.deep_view(),
        ));
    }
    out
}

/// Applies the `.` collapse to every sample row of a parsed genotype block,
/// then percent-decodes every kept sub-value.
fn collapse_genotype(g: Vec<Vec<Vec<Vec<u8>>>>) -> (r: Vec<Vec<Vec<Vec<u8>>>>)
    ensures
        r.deep_view() == genotype_decode(genotype_collapse(g.deep_view())),
{
    let gdv = Ghost(g.deep_view());
    let ghost target = genotype_decode(genotype_collapse(gdv@));
    let mut out: Vec<Vec<Vec<Vec<u8>>>> = Vec::new();
    let mut x: usize = 0;
    proof {
        assert(target.len() == gdv@.len());
        assert(out.deep_view() =~= target.take(0));
    }
    while x < g.len()
        invariant
            x <= g@.len(),
            gdv@ == g.deep_view(),
            target == genotype_decode(genotype_collapse(gdv@)),
            target.len() == gdv@.len(),
            out.deep_view() == target.take(x as int),
        decreases g@.len() - x,
    {
        let row = &g[x];
        let ghost odv = out.deep_view();
        let ghost trow = target[x as int];
        proof {
            assert(genotype_collapse(gdv@)[x as int] == row_collapse(gdv@[x as int]));
            assert(trow == genotype_collapse(gdv@)[x as int].map_values(
                |c: Seq<Seq<u8>>| spec_decoded_all(c),
            ));
            assert(gdv@[x as int] == g@[x as int].deep_view());
        }
        let is_dot_row = row.len() == 1 && is_dot_list(&row[0]);
        if is_dot_row {
            let empty_row: Vec<Vec<Vec<u8>>> = Vec::new();
            out.push(empty_row);
            proof {
                assert(row.deep_view()[0] == row@[0].deep_view());
                assert(row.deep_view() =~~= seq![seq![dot_bytes()]]);
                assert(row_collapse(gdv@[x as int]) =~= Seq::<Seq<Seq<u8>>>::empty());
                assert(trow =~= Seq::<Seq<Seq<u8>>>::empty());
                assert(out.deep_view() =~~= odv + seq![trow]);
                assert(out.deep_view() =~~= target.take(x + 1));
            }
        } else {
            proof {
                if row.deep_view() =~= seq![seq![dot_bytes()]] {
                    assert(row@.len() == 1);
                    assert(row.deep_view()[0] == row@[0].deep_view());
                    assert(row@[0].deep_view() =~= seq![dot_bytes()]);
                    assert(false);
                }
                assert(row_collapse(gdv@[x as int]) == gdv@[x as int].map_values(
                    |c: Seq<Seq<u8>>| collapse_dot_list(c),
                ));
            }
            let mut new_row: Vec<Vec<Vec<u8>>> = Vec::new();
            let mut c: usize = 0;
            let ghost cell_target = gdv@[x as int].map_values(
                |cc: Seq<Seq<u8>>| spec_decoded_all(collapse_dot_list(cc)),
            );
            proof {
                assert(trow =~~= cell_target);
                assert(new_row.deep_view() =~= cell_target.take(0));
            }
            while c < row.len()
                invariant
                    c <= row@.len(),
                    cell_target.len() == row@.len(),
                    gdv@[x as int] == row.deep_view(),
                    cell_target == row.deep_view().map_values(
                        |cc: Seq<Seq<u8>>| spec_decoded_all(collapse_dot_list(cc)),
                    ),
                    new_row.deep_view() == cell_target.take(c as int),
                decreases row@.len() - c,
            {
                let ghost ndv = new_row.deep_view();
                proof {
                    assert(row.deep_view()[c as int] == row@[c as int].deep_view());
                }
                if is_dot_list(&row[c]) {
                    let empty_cell: Vec<Vec<u8>> = Vec::new();
                    new_row.push(empty_cell);
                    proof {
                        assert(collapse_dot_list(row.deep_view()[c as int]) =~= Seq::<
                            Seq<u8>,
                        >::empty());
                        assert(cell_target[c as int] =~= Seq::<Seq<u8>>::empty());
                        assert(new_row.deep_view() =~~= ndv + seq![cell_target[c as int]]);
                        assert(new_row.deep_view() =~~= cell_target.take(c + 1));
                    }
                } else {
                    new_row.push(decode_values_copy(&row[c]));
                    proof {
                        assert(collapse_dot_list(row.deep_view()[c as int]) == row.deep_view()[
                            c as int]);
                        assert(cell_target[c as int] == spec_decoded_all(
                            row.deep_view()[c as int],
                        ));
                        assert(new_row.deep_view() =~~= ndv + seq![cell_target[c as int]]);
                        assert(new_row.deep_view() =~~= cell_target.take(c + 1));
                    }
                }
                c += 1;
            }
            out.push(new_row);
            proof {
                assert(cell_target.take(row@.len() as int) =~= cell_target);
                assert(new_row.deep_view() == cell_target);
                assert(out.deep_view() =~~= odv + seq![trow]);
                assert(out.deep_view() =~~= target.take(x + 1));
            }
        }
        x += 1;
    }
    proof {
        assert(target.take(x as int) =~= target);
    }
    out
}

/// Parses one data line into `record`, replacing every column and rebuilding
/// both key caches; on success the index just past the line terminator is
/// returned and the record holds exactly the decomposition given by
/// [`spec_parse_record`].  On failure the record is untouched.
#[verifier::rlimit(100)]
pub fn parse_record(line: &[u8], record: &mut VCFRecord) -> (r: Result<usize, ()>)
    ensures
        r is Ok <==> spec_parse_record(line@) is Some,
        r matches Ok(end) ==> ({
            let pr = spec_parse_record(line@).unwrap();
            &&& end == pr.end
            &&& end <= line@.len()
            &&& final(record).chromosome@ == pr.chromosome
            &&& final(record).position == pr.position
            &&& final(record).id.deep_view() == pr.id
            &&& final(record).reference@ == pr.reference
            &&& final(record).alternative.deep_view() == pr.alternative
            &&& opt_bytes_view(final(record).qual) == pr.qual
            &&& final(record).filter.deep_view() == pr.filter
            &&& info_entries_view(final(record).info@) == pr.info
            &&& final(record).format.deep_view() == pr.format
            &&& final(record).genotype.deep_view() == pr.genotype
            &&& final(record).header == old(record).header
            &&& (forall|k: Seq<u8>| #[trigger] assoc_find(final(record).info_index@, k)
                == spec_rebuilt(old(record).info_index@, info_keys(pr.info), k))
            &&& (forall|k: Seq<u8>| #[trigger] assoc_find(final(record).format_index@, k)
                == spec_rebuilt(old(record).format_index@, pr.format, k))
            &&& (old(record).header.wf() ==> final(record).wf())
        }),
        r is Err ==> *final(record) == *old(record),
{
    let ilen: usize = line.len();
    let hard: [u8; 3] = ['\t' as u8, '\r' as u8, '\n' as u8];
    let comma_stops: [u8; 4] = ['\t' as u8, '\r' as u8, '\n' as u8, ',' as u8];
    let fmt_stops: [u8; 4] = ['\t' as u8, '\r' as u8, '\n' as u8, ':' as u8];
    let geno_stops: [u8; 5] = ['\t' as u8, '\r' as u8, '\n' as u8, ':' as u8, ',' as u8];
    proof {
        assert(hard@ =~= hard_stops());
        assert(comma_stops@ =~= comma_col_stops());
        assert(fmt_stops@ =~= format_col_stops());
        assert(geno_stops@ =~= genotype_col_stops());
        assert(line@.skip(0) =~= line@);
    }
    let cl = scan_token(line, 0, hard.as_slice());
    if cl == 0 || cl >= ilen || line[cl] != '\t' as u8 {
        return Err(());
    }
    let chromosome = copy_range(line, 0, cl);
    proof {
        assert(chromosome@ =~= line@.take(cl as int));
    }
    let p1 = cl + 1;
    let dl = scan_digits(line, p1);
    proof {
        lemma_digit_run_bounds(line@.skip(p1 as int));
        assert forall|i: int| p1 <= i < p1 + dl implies crate::bytestr::is_digit_byte(
            #[trigger] line@[i],
        ) by {
            assert(line@.skip(p1 as int)[i - p1] == line@[i]);
        }
        assert(line@.skip(p1 as int).take(dl as int) =~= line@.subrange(p1 as int, p1 + dl));
    }
    if dl == 0 {
        return Err(());
    }
    let position = match crate::bytestr::parse_u64_digits(line, p1, p1 + dl) {
        Ok(v) => v,
        Err(_) => {
            return Err(());
        },
    };
    if p1 + dl >= ilen || line[p1 + dl] != '\t' as u8 {
        return Err(());
    }
    let p2 = p1 + dl + 1;
    let mut id: Vec<Vec<u8>> = Vec::new();
    let p3 = match parse_separated_values(
        &mut id,
        line,
        p2,
        comma_stops.as_slice(),
        ',' as u8,
        false,
        false,
    ) {
        Ok(e) => e,
        Err(_) => {
            proof {
                assert(false);
            }
            return Err(());
        },
    };
    collapse_dot(&mut id);
    decode_values(&mut id);
    if p3 >= ilen || line[p3] != '\t' as u8 {
        return Err(());
    }
    let p4 = p3 + 1;
    let rl = scan_token(line, p4, hard.as_slice());
    if rl == 0 || p4 + rl >= ilen || line[p4 + rl] != '\t' as u8 {
        return Err(());
    }
    let reference = copy_range(line, p4, p4 + rl);
    proof {
        assert(reference@ =~= line@.skip(p4 as int).take(rl as int));
    }
    let p5 = p4 + rl + 1;
    let mut alternative: Vec<Vec<u8>> = Vec::new();
    let p6 = match parse_separated_values(
        &mut alternative,
        line,
        p5,
        comma_stops.as_slice(),
        ',' as u8,
        false,
        false,
    ) {
        Ok(e) => e,
        Err(_) => {
            proof {
                assert(false);
            }
            return Err(());
        },
    };
    collapse_dot(&mut alternative);
    decode_values(&mut alternative);
    let mut qual: Option<Vec<u8>> = None;
    let mut filter: Vec<Vec<u8>> = Vec::new();
    let mut info: Vec<(Vec<u8>, Vec<Vec<u8>>)> = Vec::new();
    let mut format: Vec<Vec<u8>> = Vec::new();
    let mut genotype: Vec<Vec<Vec<Vec<u8>>>> = Vec::new();
    let mut pe: usize = p6;
    if p6 < ilen && line[p6] == '\t' as u8 {
        let fl = match scan_float(line, p6 + 1) {
            Some(n) => n,
            None => {
                return Err(());
            },
        };
        let qtext = copy_range(line, p6 + 1, p6 + 1 + fl);
        proof {
            assert(qtext@ =~= line@.skip(p6 + 1).take(fl as int));
        }
        let is_dot_qual = qtext.len() == 1 && qtext[0] == '.' as u8;
        proof {
            if is_dot_qual {
                assert(qtext@ =~= dot_bytes());
            } else {
                if qtext@ =~= dot_bytes() {
                    assert(qtext@.len() == 1 && qtext@[0] == '.' as u8);
                }
            }
        }
        if !is_dot_qual {
            qual = Some(qtext);
        }
        let p8 = p6 + 1 + fl;
        if p8 < ilen && line[p8] == '\t' as u8 {
            let p9 = match parse_separated_values(
                &mut filter,
                line,
                p8 + 1,
                comma_stops.as_slice(),
                ',' as u8,
                false,
                false,
            ) {
                Ok(e) => e,
                Err(_) => {
                    proof {
                        assert(false);
                    }
                    return Err(());
                },
            };
            collapse_dot(&mut filter);
    decode_values(&mut filter);
            if p9 < ilen && line[p9] == '\t' as u8 {
                let p10 = parse_info(line, p9 + 1, &mut info);
                if p10 < ilen && line[p10] == '\t' as u8 {
                    let p11 = match parse_separated_values(
                        &mut format,
                        line,
                        p10 + 1,
                        fmt_stops.as_slice(),
                        ':' as u8,
                        false,
                        false,
                    ) {
                        Ok(e) => e,
                        Err(_) => {
                            proof {
                                assert(false);
                            }
                            return Err(());
                        },
                    };
                    collapse_dot(&mut format);
    decode_values(&mut format);
                    if p11 < ilen && line[p11] == '\t' as u8 {
                        let mut graw: Vec<Vec<Vec<Vec<u8>>>> = Vec::new();
                        let p12 = parse_double_nested_separated_values(
                            &mut graw,
                            line,
                            p11 + 1,
                            geno_stops.as_slice(),
                            ',' as u8,
                            ':' as u8,
                            '\t' as u8,
                        );
                        genotype = collapse_genotype(graw);
                        pe = p12;
                    } else {
                        pe = p11;
                    }
                } else {
                    pe = p10;
                }
            } else {
                pe = p9;
            }
        } else {
            pe = p8;
        }
    }
    let end: usize = if pe == ilen {
        pe
    } else if line[pe] == '\n' as u8 {
        pe + 1
    } else if line[pe] == '\r' as u8 && pe + 1 < ilen && line[pe + 1] == '\n' as u8 {
        pe + 2
    } else {
        return Err(());
    };
    record.chromosome = chromosome;
    record.position = position;
    record.id = id;
    record.reference = reference;
    record.alternative = alternative;
    record.qual = qual;
    record.filter = filter;
    record.info = info;
    record.format = format;
    record.genotype = genotype;
    record.recreate_info_and_genotype_index();
    proof {
        assert(record.info.deep_view() =~~= info_entries_view(record.info@));
    }
    Ok(end)
}

} // verus!
