//! The header-line grammar: `##KEY=...` contents and the `#CHROM` sample
//! line.

use vstd::prelude::*;

use crate::bytestr::{copy_range, is_digit_byte, parse_u64_digits, dec_val, starts_with_at};
use crate::header::{Number, ValueType, VCFVersion, VCFHeaderContent, VCFHeaderLine, opt_bytes_view};
use crate::record::parser::{scan_token, token_run, lemma_token_run_bounds};
use crate::tokens::{
    lit_vt_string, lit_vt_integer, lit_vt_flag, lit_vt_character, lit_vt_float, tok_vt_string,
    tok_vt_integer, tok_vt_flag, tok_vt_character, tok_vt_float, lit_info_open, lit_format_open,
    lit_alt_open, lit_filter_open, lit_contig_open, lit_fileformat_eq, lit_key_id, lit_key_number,
    lit_key_type, lit_key_description, lit_key_source, lit_key_version, lit_key_length,
    lit_ver_4_0, lit_ver_4_1, lit_ver_4_2, lit_ver_4_3, tok_info_open, tok_format_open,
    tok_alt_open, tok_filter_open, tok_contig_open, tok_fileformat_eq, tok_key_id, tok_key_number,
    tok_key_type, tok_key_description, tok_key_source, tok_key_version, tok_key_length,
    tok_ver_4_0, tok_ver_4_1, tok_ver_4_2, tok_ver_4_3, lit_sample_prefix, lit_opt_qual,
    lit_opt_filter, lit_opt_info, lit_opt_format, tok_sample_prefix, tok_opt_qual, tok_opt_filter,
    tok_opt_info, tok_opt_format,
};

verus! {

/// Bytes that end a sub-key inside a bracketed header form.
pub open spec fn entry_key_stops() -> Seq<u8> {
    seq!['>' as u8, ',' as u8, '=' as u8, ' ' as u8, '\r' as u8, '\n' as u8, '\t' as u8]
}

/// Bytes that end an unquoted sub-value.
pub open spec fn entry_val_stops() -> Seq<u8> {
    seq!['>' as u8, ',' as u8, ' ' as u8, '\r' as u8, '\n' as u8, '\t' as u8]
}

pub open spec fn quote_stops() -> Seq<u8> {
    seq!['"' as u8]
}

/// One `key=value` pair at the head of `s`: the key, the value (with quotes
/// stripped if it was quoted), and the bytes consumed.
pub open spec fn spec_entry(s: Seq<u8>) -> Option<(Seq<u8>, Seq<u8>, nat)> {
    let kl = token_run(s, entry_key_stops());
    if kl == 0 || !(kl < s.len() && s[kl as int] == '=' as u8) {
        None
    } else {
        let v = s.skip(kl + 1 as int);
        let ql = token_run(v.skip(1), quote_stops());
        if v.len() >= 1 && v[0] == '"' as u8 && ql >= 1 && 1 + ql < v.len() {
            Some((s.take(kl as int), v.skip(1).take(ql as int), (kl + ql + 3) as nat))
        } else {
            let vl = token_run(v, entry_val_stops());
            if vl == 0 {
                None
            } else {
                Some((s.take(kl as int), v.take(vl as int), (kl + 1 + vl) as nat))
            }
        }
    }
}

pub proof fn lemma_entry_bounds(s: Seq<u8>)
    ensures
        spec_entry(s) matches Some(e) ==> 2 <= e.2 <= s.len(),
{
    lemma_token_run_bounds(s, entry_key_stops());
    let kl = token_run(s, entry_key_stops());
    if !(kl == 0 || !(kl < s.len() && s[kl as int] == '=' as u8)) {
        let v = s.skip(kl + 1 as int);
        lemma_token_run_bounds(v.skip(1), quote_stops());
        lemma_token_run_bounds(v, entry_val_stops());
    }
}

/// The comma-separated `key=value` list at the head of `s`, with the bytes it
/// consumes.  A separator not followed by another pair is left unconsumed.
pub open spec fn spec_entries(s: Seq<u8>) -> (Seq<(Seq<u8>, Seq<u8>)>, nat)
    decreases s.len(),
    via spec_entries_decreases
{
    match spec_entry(s) {
        None => (Seq::empty(), 0),
        Some((k, v, c)) => {
            if c < s.len() && s[c as int] == ',' as u8 && spec_entry(s.skip(c + 1 as int)) is Some {
                let r = spec_entries(s.skip(c + 1 as int));
                (seq![(k, v)] + r.0, c + 1 + r.1)
            } else {
                (seq![(k, v)], c)
            }
        },
    }
}

#[via_fn]
proof fn spec_entries_decreases(s: Seq<u8>) {
    lemma_entry_bounds(s);
}

pub proof fn lemma_entries_bounds(s: Seq<u8>)
    ensures
        spec_entries(s).1 <= s.len(),
    decreases s.len(),
{
    lemma_entry_bounds(s);
    match spec_entry(s) {
        None => {},
        Some((k, v, c)) => {
            if c < s.len() && s[c as int] == ',' as u8 && spec_entry(s.skip(c + 1 as int)) is Some {
                lemma_entries_bounds(s.skip(c + 1 as int));
            }
        },
    }
}

/// The views of a parsed entry list.
pub open spec fn entries_view(v: Seq<(Vec<u8>, Vec<u8>)>) -> Seq<(Seq<u8>, Seq<u8>)> {
    v.map_values(|e: (Vec<u8>, Vec<u8>)| (e.0@, e.1@))
}

/// Parses one `key=value` pair at `pos`, returning it with the index of the
/// first unconsumed byte.
fn parse_one_entry(input: &[u8], pos: usize) -> (r: Option<(Vec<u8>, Vec<u8>, usize)>)
    requires
        pos <= input@.len(),
    ensures
        ({
            let e = spec_entry(input@.skip(pos as int));
            match r {
                Some((k, v, end)) => e matches Some(se) && k@ == se.0 && v@ == se.1 && end == pos
                    + se.2 && end <= input@.len(),
                None => e is None,
            }
        }),
{
    let ilen: usize = input.len();
    let ghost s = input@.skip(pos as int);
    let key_stops: [u8; 7] = ['>' as u8, ',' as u8, '=' as u8, ' ' as u8, '\r' as u8, '\n' as u8, '\t' as u8];
    let val_stops: [u8; 6] = ['>' as u8, ',' as u8, ' ' as u8, '\r' as u8, '\n' as u8, '\t' as u8];
    let quote: [u8; 1] = ['"' as u8];
    proof {
        assert(key_stops@ =~= entry_key_stops());
        assert(val_stops@ =~= entry_val_stops());
        assert(quote@ =~= quote_stops());
    }
    let kl = scan_token(input, pos, key_stops.as_slice());
    if kl == 0 || pos + kl >= ilen || input[pos + kl] != '=' as u8 {
        proof {
            if kl != 0 && pos + kl < ilen {
                assert(s[kl as int] == input@[pos + kl]);
            }
        }
        return None;
    }
    let vstart = pos + kl + 1;
    let ghost v = s.skip(kl + 1 as int);
    proof {
        assert(v =~= input@.skip(vstart as int));
        assert(s[kl as int] == input@[pos + kl]);
    }
    if vstart < ilen && input[vstart] == '"' as u8 {
        let ql = scan_token(input, vstart + 1, quote.as_slice());
        proof {
            assert(v.skip(1) =~= input@.skip(vstart + 1));
            assert(v[0] == input@[vstart as int]);
        }
        if ql >= 1 && vstart + 1 + ql < ilen {
            let key = copy_range(input, pos, pos + kl);
            let val = copy_range(input, vstart + 1, vstart + 1 + ql);
            proof {
                assert(1 + ql < v.len());
                assert(s.take(kl as int) =~= input@.subrange(pos as int, pos + kl));
                assert(v.skip(1).take(ql as int) =~= input@.subrange(
                    vstart + 1,
                    vstart + 1 + ql,
                ));
            }
            return Some((key, val, vstart + 1 + ql + 1));
        }
    }
    let vl = scan_token(input, vstart, val_stops.as_slice());
    proof {
        if vstart < ilen {
            assert(v[0] == input@[vstart as int]);
        }
        assert(v.len() == ilen - vstart);
        if v.len() >= 1 && v[0] == '"' as u8 {
            // the quoted branch was tried and rejected
            assert(!(token_run(v.skip(1), quote_stops()) >= 1 && 1 + token_run(
                v.skip(1),
                quote_stops(),
            ) < v.len()));
        }
    }
    if vl == 0 {
        return None;
    }
    let key = copy_range(input, pos, pos + kl);
    let val = copy_range(input, vstart, vstart + vl);
    proof {
        assert(s.take(kl as int) =~= input@.subrange(pos as int, pos + kl));
        assert(v.take(vl as int) =~= input@.subrange(vstart as int, vstart + vl));
    }
    Some((key, val, vstart + vl))
}

/// Parses the comma-separated `key=value` list at `pos`; returns the pairs
/// and the index of the first unconsumed byte.
pub fn parse_header_entries(input: &[u8], pos: usize) -> (r: (Vec<(Vec<u8>, Vec<u8>)>, usize))
    requires
        pos <= input@.len(),
    ensures
        ({
            let se = spec_entries(input@.skip(pos as int));
            entries_view(r.0@) == se.0 && r.1 == pos + se.1 && r.1 <= input@.len()
        }),
{
    let ghost full = input@.skip(pos as int);
    let ghost se = spec_entries(full);
    let mut out: Vec<(Vec<u8>, Vec<u8>)> = Vec::new();
    let mut cur: usize = pos;
    proof {
        lemma_entries_bounds(full);
        assert(entries_view(out@) =~= Seq::<(Seq<u8>, Seq<u8>)>::empty());
        assert(se.0 =~= entries_view(out@) + se.0);
    }
    loop
        invariant
            pos <= cur <= input@.len(),
            ({
                let rest = spec_entries(input@.skip(cur as int));
                se.0 == entries_view(out@) + rest.0 && se.1 == cur - pos + rest.1
            }),
            se == spec_entries(input@.skip(pos as int)),
        decreases input@.len() - cur,
    {
        let ghost s = input@.skip(cur as int);
        let ghost rest = spec_entries(s);
        proof {
            lemma_entry_bounds(s);
            lemma_entries_bounds(s);
        }
        match parse_one_entry(input, cur) {
            None => {
                proof {
                    assert(rest.0 =~= Seq::<(Seq<u8>, Seq<u8>)>::empty());
                    assert(se.0 =~= entries_view(out@));
                }
                return (out, cur);
            },
            Some((k, v, end)) => {
                let ghost ev0 = entries_view(out@);
                let ghost sent = spec_entry(s).unwrap();
                out.push((k, v));
                proof {
                    assert(entries_view(out@) =~~= ev0 + seq![(sent.0, sent.1)]);
                }
                if end < input.len() && input[end] == ',' as u8 {
                    // a separator: consume it only if another pair follows
                    proof {
                        assert(s[end - cur] == ',' as u8);
                        assert(s.skip(end - cur + 1) =~= input@.skip(end + 1));
                    }
                    match parse_one_entry(input, end + 1) {
                        Some(_) => {
                            cur = end + 1;
                        },
                        None => {
                            proof {
                                assert(rest.0 =~= seq![(sent.0, sent.1)]);
                                assert(se.0 =~= entries_view(out@));
                            }
                            return (out, end);
                        },
                    }
                } else {
                    proof {
                        if end - cur < s.len() {
                            assert(s[end - cur] == input@[end as int]);
                        }
                        assert(rest.0 =~= seq![(sent.0, sent.1)]);
                        assert(se.0 =~= entries_view(out@));
                    }
                    return (out, end);
                }
            },
        }
    }
}

/// First value recorded under `key`, if any.
pub open spec fn spec_find_key(entries: Seq<(Seq<u8>, Seq<u8>)>, key: Seq<u8>) -> Option<Seq<u8>>
    decreases entries.len(),
{
    if entries.len() == 0 {
        None
    } else if entries[0].0 == key {
        Some(entries[0].1)
    } else {
        spec_find_key(entries.drop_first(), key)
    }
}

proof fn lemma_find_key_skip(entries: Seq<(Seq<u8>, Seq<u8>)>, key: Seq<u8>, i: int)
    requires
        0 <= i <= entries.len(),
        forall|j: int| 0 <= j < i ==> #[trigger] entries[j].0 != key,
    ensures
        spec_find_key(entries, key) == spec_find_key(entries.skip(i), key),
    decreases i,
{
    if i > 0 {
        assert(entries[0].0 != key);
        assert(entries.drop_first() =~= entries.skip(1));
        assert forall|j: int| 0 <= j < i - 1 implies #[trigger] entries.skip(1)[j].0 != key by {
            assert(entries.skip(1)[j] == entries[j + 1]);
        }
        lemma_find_key_skip(entries.skip(1), key, i - 1);
        assert(entries.skip(1).skip(i - 1) =~= entries.skip(i));
    } else {
        assert(entries.skip(0) =~= entries);
    }
}

/// The value of the first pair whose key is `key`, copied out.
pub fn find_key(entry_pair: &Vec<(Vec<u8>, Vec<u8>)>, key: &[u8]) -> (r: Option<Vec<u8>>)
    ensures
        crate::header::opt_bytes_view(r) == spec_find_key(entries_view(entry_pair@), key@),
{
    let ghost ev = entries_view(entry_pair@);
    let mut i: usize = 0;
    while i < entry_pair.len()
        invariant
            i <= entry_pair@.len(),
            ev == entries_view(entry_pair@),
            forall|j: int| 0 <= j < i ==> #[trigger] ev[j].0 != key@,
        decreases entry_pair@.len() - i,
    {
        if crate::bytestr::bytes_eq(entry_pair[i].0.as_slice(), key) {
            proof {
                lemma_find_key_skip(ev, key@, i as int);
                assert(ev.skip(i as int)[0] == ev[i as int]);
            }
            return Some(crate::bytestr::clone_bytes(&entry_pair[i].1));
        }
        proof {
            assert(ev[i as int].0 == entry_pair@[i as int].0@);
        }
        i += 1;
    }
    proof {
        lemma_find_key_skip(ev, key@, i as int);
    }
    None
}

/// `find_key`, with a missing key turned into an error.
pub fn find_key_or_error(entry_pair: &Vec<(Vec<u8>, Vec<u8>)>, key: &[u8]) -> (r: Result<
    Vec<u8>,
    (),
>)
    ensures
        ({
            let f = spec_find_key(entries_view(entry_pair@), key@);
            match r {
                Ok(v) => f matches Some(fv) && v@ == fv,
                Err(_) => f is None,
            }
        }),
{
    match find_key(entry_pair, key) {
        Some(v) => Ok(v),
        None => Err(()),
    }
}

/// Which `Number` the raw arity token `v` denotes.  The single letters and
/// digit strings have their well-known readings; a digit string too large for
/// 32 bits, or anything else, is kept raw.
pub open spec fn number_represents(n: Number, v: Seq<u8>) -> bool {
    if v == seq!['R' as u8] {
        n is Reference
    } else if v == seq!['A' as u8] {
        n is Allele
    } else if v == seq!['G' as u8] {
        n is Genotype
    } else if v == seq!['0' as u8] {
        n is Zero
    } else if v == seq!['.' as u8] {
        n is Unknown
    } else if v.len() > 0 && (forall|i: int| 0 <= i < v.len() ==> is_digit_byte(#[trigger] v[i]))
        && dec_val(v) <= i32::MAX {
        n == Number::Number(dec_val(v) as i32)
    } else {
        n matches Number::Other(u) && u@ == v
    }
}

/// Reads an arity token.
pub fn parse_number(value: &[u8]) -> (r: Number)
    ensures
        number_represents(r, value@),
{
    if value.len() == 1 {
        let b = value[0];
        proof {
            assert(value@ =~= seq![value@[0]]);
        }
        if b == 'R' as u8 {
            return Number::Reference;
        }
        if b == 'A' as u8 {
            return Number::Allele;
        }
        if b == 'G' as u8 {
            return Number::Genotype;
        }
        if b == '0' as u8 {
            return Number::Zero;
        }
        if b == '.' as u8 {
            return Number::Unknown;
        }
    }
    proof {
        if value@.len() == 1 {
            assert(value@ =~= seq![value@[0]]);
        } else {
            assert(value@ != seq!['R' as u8]);
            assert(value@ != seq!['A' as u8]);
            assert(value@ != seq!['G' as u8]);
            assert(value@ != seq!['0' as u8]);
            assert(value@ != seq!['.' as u8]);
        }
    }
    let mut all_digits = value.len() > 0;
    let mut i: usize = 0;
    while i < value.len()
        invariant
            i <= value@.len(),
            all_digits == (value@.len() > 0 && forall|j: int|
                0 <= j < i ==> is_digit_byte(#[trigger] value@[j])),
        decreases value@.len() - i,
    {
        if value[i] < 48 || value[i] > 57 {
            all_digits = false;
        }
        i += 1;
    }
    if all_digits {
        match parse_u64_digits(value, 0, value.len()) {
            Ok(x) => {
                proof {
                    assert(value@.subrange(0, value@.len() as int) =~= value@);
                }
                if x <= i32::MAX as u64 {
                    return Number::Number(x as i32);
                } else {
                    return Number::Other(copy_range(value, 0, value.len()));
                }
            },
            Err(_) => {
                proof {
                    assert(value@.subrange(0, value@.len() as int) =~= value@);
                }
                return Number::Other(copy_range(value, 0, value.len()));
            },
        }
    }
    proof {
        assert(value@.subrange(0, value@.len() as int) =~= value@);
    }
    Number::Other(copy_range(value, 0, value.len()))
}

/// Which `ValueType` the raw type token `v` denotes.
pub open spec fn value_type_represents(t: ValueType, v: Seq<u8>) -> bool {
    if v == lit_vt_string() {
        t is String
    } else if v == lit_vt_integer() {
        t is Integer
    } else if v == lit_vt_flag() {
        t is Flag
    } else if v == lit_vt_character() {
        t is Character
    } else if v == lit_vt_float() {
        t is Float
    } else {
        t matches ValueType::Other(u) && u@ == v
    }
}

/// Reads a type token.
pub fn parse_value_type(value: &[u8]) -> (r: ValueType)
    ensures
        value_type_represents(r, value@),
{
    let t = tok_vt_string();
    if crate::bytestr::bytes_eq(value, t.as_slice()) {
        return ValueType::String;
    }
    let t = tok_vt_integer();
    if crate::bytestr::bytes_eq(value, t.as_slice()) {
        return ValueType::Integer;
    }
    let t = tok_vt_flag();
    if crate::bytestr::bytes_eq(value, t.as_slice()) {
        return ValueType::Flag;
    }
    let t = tok_vt_character();
    if crate::bytestr::bytes_eq(value, t.as_slice()) {
        return ValueType::Character;
    }
    let t = tok_vt_float();
    if crate::bytestr::bytes_eq(value, t.as_slice()) {
        return ValueType::Float;
    }
    proof {
        assert(value@.subrange(0, value@.len() as int) =~= value@);
    }
    ValueType::Other(copy_range(value, 0, value.len()))
}

/// Does `s` begin with `lit`?
pub open spec fn begins_with(s: Seq<u8>, lit: Seq<u8>) -> bool {
    s.len() >= lit.len() && s.take(lit.len() as int) == lit
}

/// A bracketed form `TAG<entries>` at the head of `s`.
pub open spec fn spec_bracket_ok(s: Seq<u8>, tag: Seq<u8>) -> bool {
    begins_with(s, tag) && ({
        let e = spec_entries(s.skip(tag.len() as int));
        tag.len() + e.1 < s.len() && s[(tag.len() + e.1) as int] == '>' as u8
    })
}

/// The entries of a bracketed form.
pub open spec fn spec_bracket_entries(s: Seq<u8>, tag: Seq<u8>) -> Seq<(Seq<u8>, Seq<u8>)> {
    spec_entries(s.skip(tag.len() as int)).0
}

/// Index of the first byte after the closing `>`.
pub open spec fn spec_bracket_end(s: Seq<u8>, tag: Seq<u8>) -> nat {
    (tag.len() + spec_entries(s.skip(tag.len() as int)).1 + 1) as nat
}

/// Parses `tag` followed by entries and a closing `>`; returns the entries
/// and the index of the first byte after the `>`.
fn parse_bracketed(input: &[u8], tag: &Vec<u8>) -> (r: Result<(Vec<(Vec<u8>, Vec<u8>)>, usize), ()>)
    ensures
        r is Ok <==> spec_bracket_ok(input@, tag@),
        r matches Ok((entries, end)) ==> entries_view(entries@) == spec_bracket_entries(
            input@,
            tag@,
        ) && end == spec_bracket_end(input@, tag@) && end <= input@.len(),
{
    let ilen: usize = input.len();
    if !starts_with_at(input, 0, tag.as_slice()) {
        proof {
            assert(input@.subrange(0, tag@.len() as int) == input@.take(tag@.len() as int));
        }
        return Err(());
    }
    proof {
        assert(input@.subrange(0, tag@.len() as int) == input@.take(tag@.len() as int));
    }
    let (entries, end) = parse_header_entries(input, tag.len());
    if end < ilen && input[end] == '>' as u8 {
        proof {
            assert(input@[end as int] == input@[(tag@.len() + spec_entries(
                input@.skip(tag@.len() as int),
            ).1) as int]);
        }
        Ok((entries, end + 1))
    } else {
        Err(())
    }
}

/// Success condition for an INFO or FORMAT line body: the bracketed form and
/// its four required sub-keys.
pub open spec fn spec_info_like_ok(s: Seq<u8>, tag: Seq<u8>) -> bool {
    spec_bracket_ok(s, tag) && ({
        let e = spec_bracket_entries(s, tag);
        &&& spec_find_key(e, lit_key_id()) is Some
        &&& spec_find_key(e, lit_key_number()) is Some
        &&& spec_find_key(e, lit_key_type()) is Some
        &&& spec_find_key(e, lit_key_description()) is Some
    })
}

/// The INFO/FORMAT fields read from the entries of `s`.
pub open spec fn spec_info_like_fields(
    id: Vec<u8>,
    number: Number,
    value_type: ValueType,
    description: Vec<u8>,
    source: Option<Vec<u8>>,
    version: Option<Vec<u8>>,
    s: Seq<u8>,
    tag: Seq<u8>,
) -> bool {
    let e = spec_bracket_entries(s, tag);
    &&& Some(id@) == spec_find_key(e, lit_key_id())
    &&& number_represents(number, spec_find_key(e, lit_key_number()).unwrap())
    &&& value_type_represents(value_type, spec_find_key(e, lit_key_type()).unwrap())
    &&& Some(description@) == spec_find_key(e, lit_key_description())
    &&& opt_bytes_view(source) == spec_find_key(e, lit_key_source())
    &&& opt_bytes_view(version) == spec_find_key(e, lit_key_version())
}

/// Reads the body of a `##INFO=<...>` line.
pub fn parse_vcf_info_header(header_line: &[u8]) -> (r: Result<(VCFHeaderContent, usize), ()>)
    ensures
        r is Ok <==> spec_info_like_ok(header_line@, lit_info_open()),
        r matches Ok((c, end)) ==> end == spec_bracket_end(header_line@, lit_info_open())
            && (c matches VCFHeaderContent::INFO { id, number, value_type, description, source, version }
            && spec_info_like_fields(
            id,
            number,
            value_type,
            description,
            source,
            version,
            header_line@,
            lit_info_open(),
        )),
{
    let tag = tok_info_open();
    let (entries, end) = match parse_bracketed(header_line, &tag) {
        Ok(x) => x,
        Err(_) => {
            return Err(());
        },
    };
    let tk = tok_key_id();
    let id = match find_key_or_error(&entries, tk.as_slice()) {
        Ok(x) => x,
        Err(_) => {
            return Err(());
        },
    };
    let tk = tok_key_number();
    let number_raw = match find_key_or_error(&entries, tk.as_slice()) {
        Ok(x) => x,
        Err(_) => {
            return Err(());
        },
    };
    let tk = tok_key_type();
    let type_raw = match find_key_or_error(&entries, tk.as_slice()) {
        Ok(x) => x,
        Err(_) => {
            return Err(());
        },
    };
    let tk = tok_key_description();
    let description = match find_key_or_error(&entries, tk.as_slice()) {
        Ok(x) => x,
        Err(_) => {
            return Err(());
        },
    };
    let number = parse_number(number_raw.as_slice());
    let value_type = parse_value_type(type_raw.as_slice());
    let tk = tok_key_source();
    let source = find_key(&entries, tk.as_slice());
    let tk = tok_key_version();
    let version = find_key(&entries, tk.as_slice());
    Ok((VCFHeaderContent::INFO { id, number, value_type, description, source, version }, end))
}

/// Reads the body of a `##FORMAT=<...>` line.
pub fn parse_vcf_format_header(header_line: &[u8]) -> (r: Result<(VCFHeaderContent, usize), ()>)
    ensures
        r is Ok <==> spec_info_like_ok(header_line@, lit_format_open()),
        r matches Ok((c, end)) ==> end == spec_bracket_end(header_line@, lit_format_open())
            && (c matches VCFHeaderContent::FORMAT { id, number, value_type, description, source, version }
            && spec_info_like_fields(
            id,
            number,
            value_type,
            description,
            source,
            version,
            header_line@,
            lit_format_open(),
        )),
{
    let tag = tok_format_open();
    let (entries, end) = match parse_bracketed(header_line, &tag) {
        Ok(x) => x,
        Err(_) => {
            return Err(());
        },
    };
    let tk = tok_key_id();
    let id = match find_key_or_error(&entries, tk.as_slice()) {
        Ok(x) => x,
        Err(_) => {
            return Err(());
        },
    };
    let tk = tok_key_number();
    let number_raw = match find_key_or_error(&entries, tk.as_slice()) {
        Ok(x) => x,
        Err(_) => {
            return Err(());
        },
    };
    let tk = tok_key_type();
    let type_raw = match find_key_or_error(&entries, tk.as_slice()) {
        Ok(x) => x,
        Err(_) => {
            return Err(());
        },
    };
    let tk = tok_key_description();
    let description = match find_key_or_error(&entries, tk.as_slice()) {
        Ok(x) => x,
        Err(_) => {
            return Err(());
        },
    };
    let number = parse_number(number_raw.as_slice());
    let value_type = parse_value_type(type_raw.as_slice());
    let tk = tok_key_source();
    let source = find_key(&entries, tk.as_slice());
    let tk = tok_key_version();
    let version = find_key(&entries, tk.as_slice());
    Ok((VCFHeaderContent::FORMAT { id, number, value_type, description, source, version }, end))
}

/// Success condition for a FILTER or ALT line body.
pub open spec fn spec_filter_like_ok(s: Seq<u8>, tag: Seq<u8>) -> bool {
    spec_bracket_ok(s, tag) && ({
        let e = spec_bracket_entries(s, tag);
        &&& spec_find_key(e, lit_key_id()) is Some
        &&& spec_find_key(e, lit_key_description()) is Some
    })
}

/// Reads the body of a `##FILTER=<...>` line.
pub fn parse_vcf_filter_header(header_line: &[u8]) -> (r: Result<(VCFHeaderContent, usize), ()>)
    ensures
        r is Ok <==> spec_filter_like_ok(header_line@, lit_filter_open()),
        r matches Ok((c, end)) ==> end == spec_bracket_end(header_line@, lit_filter_open()) && (
        c matches VCFHeaderContent::FILTER { id, description } && ({
            let e = spec_bracket_entries(header_line@, lit_filter_open());
            Some(id@) == spec_find_key(e, lit_key_id()) && Some(description@) == spec_find_key(
                e,
                lit_key_description(),
            )
        })),
{
    let tag = tok_filter_open();
    let (entries, end) = match parse_bracketed(header_line, &tag) {
        Ok(x) => x,
        Err(_) => {
            return Err(());
        },
    };
    let tk = tok_key_id();
    let id = match find_key_or_error(&entries, tk.as_slice()) {
        Ok(x) => x,
        Err(_) => {
            return Err(());
        },
    };
    let tk = tok_key_description();
    let description = match find_key_or_error(&entries, tk.as_slice()) {
        Ok(x) => x,
        Err(_) => {
            return Err(());
        },
    };
    Ok((VCFHeaderContent::FILTER { id, description }, end))
}

/// Reads the body of a `##ALT=<...>` line.
pub fn parse_vcf_alt_header(header_line: &[u8]) -> (r: Result<(VCFHeaderContent, usize), ()>)
    ensures
        r is Ok <==> spec_filter_like_ok(header_line@, lit_alt_open()),
        r matches Ok((c, end)) ==> end == spec_bracket_end(header_line@, lit_alt_open()) && (
        c matches VCFHeaderContent::ALT { id, description } && ({
            let e = spec_bracket_entries(header_line@, lit_alt_open());
            Some(id@) == spec_find_key(e, lit_key_id()) && Some(description@) == spec_find_key(
                e,
                lit_key_description(),
            )
        })),
{
    let tag = tok_alt_open();
    let (entries, end) = match parse_bracketed(header_line, &tag) {
        Ok(x) => x,
        Err(_) => {
            return Err(());
        },
    };
    let tk = tok_key_id();
    let id = match find_key_or_error(&entries, tk.as_slice()) {
        Ok(x) => x,
        Err(_) => {
            return Err(());
        },
    };
    let tk = tok_key_description();
    let description = match find_key_or_error(&entries, tk.as_slice()) {
        Ok(x) => x,
        Err(_) => {
            return Err(());
        },
    };
    Ok((VCFHeaderContent::ALT { id, description }, end))
}

/// Success condition for a contig line body: only ID is required.
pub open spec fn spec_contig_ok(s: Seq<u8>) -> bool {
    spec_bracket_ok(s, lit_contig_open()) && spec_find_key(
        spec_bracket_entries(s, lit_contig_open()),
        lit_key_id(),
    ) is Some
}

/// The contig length is taken only when the raw value is a pure decimal that
/// fits in 64 bits; otherwise it is absent.
/// The digits of a length value, past an optional leading `+` sign.
pub open spec fn spec_length_digits(b: Seq<u8>) -> Seq<u8> {
    if b.len() >= 1 && b[0] == '+' as u8 {
        b.skip(1)
    } else {
        b
    }
}

pub open spec fn spec_contig_length(s: Seq<u8>) -> Option<u64> {
    match spec_find_key(spec_bracket_entries(s, lit_contig_open()), lit_key_length()) {
        None => None,
        Some(b) => {
            let d = spec_length_digits(b);
            if d.len() > 0 && (forall|i: int| 0 <= i < d.len() ==> is_digit_byte(#[trigger] d[i]))
                && dec_val(d) <= u64::MAX {
                Some(dec_val(d) as u64)
            } else {
                None
            }
        },
    }
}

/// Reads the body of a `##contig=<...>` line.
pub fn parse_vcf_contig_header(header_line: &[u8]) -> (r: Result<(VCFHeaderContent, usize), ()>)
    ensures
        r is Ok <==> spec_contig_ok(header_line@),
        r matches Ok((c, end)) ==> end == spec_bracket_end(header_line@, lit_contig_open()) && (
        c matches VCFHeaderContent::Contig { id, length } && Some(id@) == spec_find_key(
            spec_bracket_entries(header_line@, lit_contig_open()),
            lit_key_id(),
        ) && length == spec_contig_length(header_line@)),
{
    let tag = tok_contig_open();
    let (entries, end) = match parse_bracketed(header_line, &tag) {
        Ok(x) => x,
        Err(_) => {
            return Err(());
        },
    };
    let tk = tok_key_id();
    let id = match find_key_or_error(&entries, tk.as_slice()) {
        Ok(x) => x,
        Err(_) => {
            return Err(());
        },
    };
    let tk = tok_key_length();
    let length: Option<u64> = match find_key(&entries, tk.as_slice()) {
        None => None,
        Some(raw) => {
            // an optional leading `+` sign is accepted before the digits
            let start: usize = if raw.len() >= 1 && raw[0] == '+' as u8 {
                1
            } else {
                0
            };
            let ghost d = spec_length_digits(raw@);
            proof {
                assert(d =~= raw@.subrange(start as int, raw@.len() as int));
            }
            let mut all_digits = raw.len() > start;
            let mut i: usize = start;
            while i < raw.len()
                invariant
                    start <= i <= raw@.len(),
                    d == raw@.subrange(start as int, raw@.len() as int),
                    all_digits == (raw@.len() > start && forall|j: int|
                        start <= j < i ==> is_digit_byte(#[trigger] raw@[j])),
                decreases raw@.len() - i,
            {
                if raw[i] < 48 || raw[i] > 57 {
                    all_digits = false;
                }
                i += 1;
            }
            proof {
                if all_digits {
                    assert forall|j: int| 0 <= j < d.len() implies is_digit_byte(
                        #[trigger] d[j],
                    ) by {
                        assert(d[j] == raw@[start + j]);
                    }
                }
            }
            if all_digits {
                match parse_u64_digits(raw.as_slice(), start, raw.len()) {
                    Ok(x) => {
                        proof {
                            assert(raw@.subrange(start as int, raw@.len() as int) =~= d);
                            assert(x == dec_val(d));
                            assert(d.len() > 0);
                            assert(forall|j: int| 0 <= j < d.len() ==> is_digit_byte(
                                #[trigger] d[j],
                            ));
                            assert(spec_contig_length(header_line@) == Some(x));
                        }
                        Some(x)
                    },
                    Err(_) => {
                        proof {
                            assert(raw@.subrange(start as int, raw@.len() as int) =~= d);
                            assert(dec_val(d) > u64::MAX);
                            assert(spec_contig_length(header_line@) is None);
                        }
                        None
                    },
                }
            } else {
                proof {
                    if d.len() > 0 && (forall|j: int|
                        0 <= j < d.len() ==> is_digit_byte(#[trigger] d[j])) {
                        assert forall|j: int| start <= j < raw@.len() implies is_digit_byte(
                            #[trigger] raw@[j],
                        ) by {
                            assert(d[j - start] == raw@[j]);
                        }
                        assert(false);
                    }
                    assert(spec_contig_length(header_line@) is None);
                }
                None
            }
        },
    };
    Ok((VCFHeaderContent::Contig { id, length }, end))
}

/// Which `VCFVersion` the raw version token denotes.
pub open spec fn version_represents(ver: VCFVersion, v: Seq<u8>) -> bool {
    if v == lit_ver_4_3() {
        ver is Vcf4_3
    } else if v == lit_ver_4_2() {
        ver is Vcf4_2
    } else if v == lit_ver_4_1() {
        ver is Vcf4_1
    } else if v == lit_ver_4_0() {
        ver is Vcf4_0
    } else {
        ver matches VCFVersion::Other(u) && u@ == v
    }
}

pub open spec fn line_end_stops() -> Seq<u8> {
    seq!['\r' as u8, '\n' as u8]
}

/// Success condition for a fileformat line body.
pub open spec fn spec_fileformat_ok(s: Seq<u8>) -> bool {
    begins_with(s, lit_fileformat_eq())
}

/// The raw version bytes: everything after `fileformat=` up to the line end.
pub open spec fn spec_fileformat_version(s: Seq<u8>) -> Seq<u8> {
    let rest = s.skip(lit_fileformat_eq().len() as int);
    rest.take(token_run(rest, line_end_stops()) as int)
}

pub open spec fn spec_fileformat_end(s: Seq<u8>) -> nat {
    (lit_fileformat_eq().len() + token_run(
        s.skip(lit_fileformat_eq().len() as int),
        line_end_stops(),
    )) as nat
}

/// Reads the body of a `##fileformat=...` line.
pub fn parse_vcf_file_format_header(header_line: &[u8]) -> (r: Result<(VCFHeaderContent, usize), ()>)
    ensures
        r is Ok <==> spec_fileformat_ok(header_line@),
        r matches Ok((c, end)) ==> end == spec_fileformat_end(header_line@) && end
            <= header_line@.len() && (c matches VCFHeaderContent::FileFormat(ver)
            && version_represents(ver, spec_fileformat_version(header_line@))),
{
    let tag = tok_fileformat_eq();
    if !starts_with_at(header_line, 0, tag.as_slice()) {
        proof {
            assert(header_line@.subrange(0, tag@.len() as int) == header_line@.take(
                tag@.len() as int,
            ));
        }
        return Err(());
    }
    proof {
        assert(header_line@.subrange(0, tag@.len() as int) == header_line@.take(tag@.len() as int));
    }
    let stops: [u8; 2] = ['\r' as u8, '\n' as u8];
    proof {
        assert(stops@ =~= line_end_stops());
    }
    let run = scan_token(header_line, tag.len(), stops.as_slice());
    let ilen: usize = header_line.len();
    proof {
        assert(tag@.len() + run <= ilen);
    }
    let version_raw = copy_range(header_line, tag.len(), tag.len() + run);
    proof {
        assert(header_line@.skip(tag@.len() as int).take(run as int) =~= header_line@.subrange(
            tag@.len() as int,
            tag@.len() + run,
        ));
    }
    let t = tok_ver_4_3();
    if crate::bytestr::bytes_eq(version_raw.as_slice(), t.as_slice()) {
        return Ok((VCFHeaderContent::FileFormat(VCFVersion::Vcf4_3), tag.len() + run));
    }
    let t = tok_ver_4_2();
    if crate::bytestr::bytes_eq(version_raw.as_slice(), t.as_slice()) {
        return Ok((VCFHeaderContent::FileFormat(VCFVersion::Vcf4_2), tag.len() + run));
    }
    let t = tok_ver_4_1();
    if crate::bytestr::bytes_eq(version_raw.as_slice(), t.as_slice()) {
        return Ok((VCFHeaderContent::FileFormat(VCFVersion::Vcf4_1), tag.len() + run));
    }
    let t = tok_ver_4_0();
    if crate::bytestr::bytes_eq(version_raw.as_slice(), t.as_slice()) {
        return Ok((VCFHeaderContent::FileFormat(VCFVersion::Vcf4_0), tag.len() + run));
    }
    Ok((VCFHeaderContent::FileFormat(VCFVersion::Other(version_raw)), tag.len() + run))
}

/// Success condition for an unrecognized header line body: at least one byte
/// before the line end.
pub open spec fn spec_other_ok(s: Seq<u8>) -> bool {
    token_run(s, line_end_stops()) >= 1
}

pub open spec fn spec_other_end(s: Seq<u8>) -> nat {
    token_run(s, line_end_stops())
}

/// Reads the body of any other header line.
pub fn parse_other_header_item(header_line: &[u8]) -> (r: Result<(VCFHeaderContent, usize), ()>)
    ensures
        r is Ok <==> spec_other_ok(header_line@),
        r matches Ok((c, end)) ==> end == spec_other_end(header_line@) && end
            <= header_line@.len() && c is Other,
{
    let stops: [u8; 2] = ['\r' as u8, '\n' as u8];
    proof {
        assert(stops@ =~= line_end_stops());
    }
    let run = scan_token(header_line, 0, stops.as_slice());
    proof {
        assert(header_line@.skip(0) =~= header_line@);
    }
    if run == 0 {
        Err(())
    } else {
        proof {
            lemma_token_run_bounds(header_line@, line_end_stops());
        }
        Ok((VCFHeaderContent::Other, run))
    }
}

/// Is `s` a start of a dispatched header shape?  The recognizers are tried in
/// a fixed order; the first whose opening token matches must then succeed in
/// full, so a recognized shape with a missing required sub-key is an error,
/// not an `Other` line.
pub open spec fn spec_content_ok(s: Seq<u8>) -> bool {
    if begins_with(s, lit_fileformat_eq()) {
        true
    } else if begins_with(s, lit_contig_open()) {
        spec_contig_ok(s)
    } else if begins_with(s, lit_info_open()) {
        spec_info_like_ok(s, lit_info_open())
    } else if begins_with(s, lit_format_open()) {
        spec_info_like_ok(s, lit_format_open())
    } else if begins_with(s, lit_alt_open()) {
        spec_filter_like_ok(s, lit_alt_open())
    } else if begins_with(s, lit_filter_open()) {
        spec_filter_like_ok(s, lit_filter_open())
    } else {
        spec_other_ok(s)
    }
}

/// Bytes consumed by the recognizer that applies to `s`.
pub open spec fn spec_content_end(s: Seq<u8>) -> nat {
    if begins_with(s, lit_fileformat_eq()) {
        spec_fileformat_end(s)
    } else if begins_with(s, lit_contig_open()) {
        spec_bracket_end(s, lit_contig_open())
    } else if begins_with(s, lit_info_open()) {
        spec_bracket_end(s, lit_info_open())
    } else if begins_with(s, lit_format_open()) {
        spec_bracket_end(s, lit_format_open())
    } else if begins_with(s, lit_alt_open()) {
        spec_bracket_end(s, lit_alt_open())
    } else if begins_with(s, lit_filter_open()) {
        spec_bracket_end(s, lit_filter_open())
    } else {
        spec_other_end(s)
    }
}

/// What the parsed content of a header-line body must be.
pub open spec fn spec_content_matches(c: VCFHeaderContent, s: Seq<u8>) -> bool {
    if begins_with(s, lit_fileformat_eq()) {
        c matches VCFHeaderContent::FileFormat(ver) && version_represents(
            ver,
            spec_fileformat_version(s),
        )
    } else if begins_with(s, lit_contig_open()) {
        c matches VCFHeaderContent::Contig { id, length } && Some(id@) == spec_find_key(
            spec_bracket_entries(s, lit_contig_open()),
            lit_key_id(),
        ) && length == spec_contig_length(s)
    } else if begins_with(s, lit_info_open()) {
        c matches VCFHeaderContent::INFO { id, number, value_type, description, source, version }
            && spec_info_like_fields(
            id,
            number,
            value_type,
            description,
            source,
            version,
            s,
            lit_info_open(),
        )
    } else if begins_with(s, lit_format_open()) {
        c matches VCFHeaderContent::FORMAT { id, number, value_type, description, source, version }
            && spec_info_like_fields(
            id,
            number,
            value_type,
            description,
            source,
            version,
            s,
            lit_format_open(),
        )
    } else if begins_with(s, lit_alt_open()) {
        c matches VCFHeaderContent::ALT { id, description } && ({
            let e = spec_bracket_entries(s, lit_alt_open());
            Some(id@) == spec_find_key(e, lit_key_id()) && Some(description@) == spec_find_key(
                e,
                lit_key_description(),
            )
        })
    } else if begins_with(s, lit_filter_open()) {
        c matches VCFHeaderContent::FILTER { id, description } && ({
            let e = spec_bracket_entries(s, lit_filter_open());
            Some(id@) == spec_find_key(e, lit_key_id()) && Some(description@) == spec_find_key(
                e,
                lit_key_description(),
            )
        })
    } else {
        c is Other
    }
}

/// Does `input` begin with `tok`?
fn begins(input: &[u8], tok: &Vec<u8>) -> (r: bool)
    ensures
        r == begins_with(input@, tok@),
{
    let b = starts_with_at(input, 0, tok.as_slice());
    proof {
        if tok@.len() <= input@.len() {
            assert(input@.subrange(0, tok@.len() as int) == input@.take(tok@.len() as int));
        }
    }
    b
}

/// Reads the body of any `##` header line (the part after `##`), dispatching
/// on its opening token.
pub fn parse_header_content(header_line_without_sharp: &[u8]) -> (r: Result<
    (VCFHeaderContent, usize),
    (),
>)
    ensures
        r is Ok <==> spec_content_ok(header_line_without_sharp@),
        r matches Ok((c, end)) ==> end == spec_content_end(header_line_without_sharp@) && end
            <= header_line_without_sharp@.len() && spec_content_matches(
            c,
            header_line_without_sharp@,
        ),
{
    let t = tok_fileformat_eq();
    if begins(header_line_without_sharp, &t) {
        return parse_vcf_file_format_header(header_line_without_sharp);
    }
    let t = tok_contig_open();
    if begins(header_line_without_sharp, &t) {
        return parse_vcf_contig_header(header_line_without_sharp);
    }
    let t = tok_info_open();
    if begins(header_line_without_sharp, &t) {
        return parse_vcf_info_header(header_line_without_sharp);
    }
    let t = tok_format_open();
    if begins(header_line_without_sharp, &t) {
        return parse_vcf_format_header(header_line_without_sharp);
    }
    let t = tok_alt_open();
    if begins(header_line_without_sharp, &t) {
        return parse_vcf_alt_header(header_line_without_sharp);
    }
    let t = tok_filter_open();
    if begins(header_line_without_sharp, &t) {
        return parse_vcf_filter_header(header_line_without_sharp);
    }
    parse_other_header_item(header_line_without_sharp)
}

/// A line terminator at the head of `rest`: end of input, `\n`, or `\r\n`.
pub open spec fn spec_terminator_ok(rest: Seq<u8>) -> bool {
    ||| rest.len() == 0
    ||| rest[0] == '\n' as u8
    ||| (rest.len() >= 2 && rest[0] == '\r' as u8 && rest[1] == '\n' as u8)
}

fn check_terminator(input: &[u8], pos: usize) -> (r: bool)
    requires
        pos <= input@.len(),
    ensures
        r == spec_terminator_ok(input@.skip(pos as int)),
{
    let ilen: usize = input.len();
    let ghost rest = input@.skip(pos as int);
    if pos == ilen {
        return true;
    }
    proof {
        assert(rest[0] == input@[pos as int]);
        if pos + 1 < ilen {
            assert(rest[1] == input@[pos + 1]);
        }
    }
    if input[pos] == '\n' as u8 {
        return true;
    }
    if input[pos] == '\r' as u8 && pos + 1 < ilen && input[pos + 1] == '\n' as u8 {
        return true;
    }
    false
}

/// A complete `##` header line: the `##` mark, a recognized body, and a line
/// terminator.
pub open spec fn spec_header_item_ok(line: Seq<u8>) -> bool {
    &&& line.len() >= 2
    &&& line[0] == '#' as u8
    &&& line[1] == '#' as u8
    &&& spec_content_ok(line.skip(2))
    &&& spec_terminator_ok(line.skip(2).skip(spec_content_end(line.skip(2)) as int))
}

/// Parses one `##` header line.  On success the resulting item keeps the
/// whole input, byte for byte, as its raw line.
pub fn parse_header_item(header_line: &[u8]) -> (r: Result<VCFHeaderLine, ()>)
    ensures
        r is Ok <==> spec_header_item_ok(header_line@),
        r matches Ok(l) ==> l.spec_line() == header_line@ && spec_content_matches(
            l.spec_contents(),
            header_line@.skip(2),
        ),
{
    let ilen: usize = header_line.len();
    if ilen < 2 || header_line[0] != '#' as u8 || header_line[1] != '#' as u8 {
        return Err(());
    }
    let body = copy_range(header_line, 2, ilen);
    proof {
        assert(body@ =~= header_line@.skip(2));
    }
    match parse_header_content(body.as_slice()) {
        Err(_) => Err(()),
        Ok((contents, end)) => {
            proof {
                assert(body@.skip(end as int) =~= header_line@.skip(2).skip(
                    spec_content_end(header_line@.skip(2)) as int,
                ));
            }
            if check_terminator(body.as_slice(), end) {
                let line = copy_range(header_line, 0, ilen);
                proof {
                    assert(line@ =~= header_line@);
                }
                Ok(VCFHeaderLine { line, contents })
            } else {
                Err(())
            }
        },
    }
}

/// Bytes that end a sample name.
pub open spec fn sample_stops() -> Seq<u8> {
    seq!['\t' as u8, '\r' as u8, '\n' as u8]
}

/// The tab-separated sample names at the head of `s`: each name is one or
/// more bytes, names are separated by single tabs, and a trailing tab is
/// left unconsumed.
pub open spec fn spec_sample_list(s: Seq<u8>) -> (Seq<Seq<u8>>, nat)
    decreases s.len(),
{
    let tl = token_run(s, sample_stops());
    if tl == 0 {
        (Seq::empty(), 0)
    } else if tl < s.len() && s[tl as int] == '\t' as u8 && token_run(
        s.skip(tl + 1 as int),
        sample_stops(),
    ) > 0 {
        let r = spec_sample_list(s.skip(tl + 1 as int));
        (seq![s.take(tl as int)] + r.0, tl + 1 + r.1)
    } else {
        (seq![s.take(tl as int)], tl)
    }
}

pub proof fn lemma_sample_list_bounds(s: Seq<u8>)
    ensures
        spec_sample_list(s).1 <= s.len(),
    decreases s.len(),
{
    lemma_token_run_bounds(s, sample_stops());
    let tl = token_run(s, sample_stops());
    if tl != 0 && tl < s.len() && s[tl as int] == '\t' as u8 && token_run(
        s.skip(tl + 1 as int),
        sample_stops(),
    ) > 0 {
        lemma_sample_list_bounds(s.skip(tl + 1 as int));
    }
}

/// The `#CHROM` column-header line: the fixed five columns, then an optional,
/// strictly ordered chain of QUAL, FILTER, INFO, FORMAT and sample names,
/// ended by `\n` or `\r\n`.  Sample names appear only after FORMAT.
pub open spec fn spec_samples_of(s: Seq<u8>) -> Option<Seq<Seq<u8>>> {
    if !begins_with(s, lit_sample_prefix()) {
        None
    } else {
        let s1 = s.skip(lit_sample_prefix().len() as int);
        if begins_with(s1, lit_opt_qual()) {
            let s2 = s1.skip(lit_opt_qual().len() as int);
            if begins_with(s2, lit_opt_filter()) {
                let s3 = s2.skip(lit_opt_filter().len() as int);
                if begins_with(s3, lit_opt_info()) {
                    let s4 = s3.skip(lit_opt_info().len() as int);
                    if begins_with(s4, lit_opt_format()) {
                        let s5 = s4.skip(lit_opt_format().len() as int);
                        if s5.len() >= 1 && s5[0] == '\t' as u8 {
                            let names = spec_sample_list(s5.skip(1));
                            if spec_line_terminator2(s5.skip(1).skip(names.1 as int)) {
                                Some(names.0)
                            } else {
                                None
                            }
                        } else if spec_line_terminator2(s5) {
                            Some(Seq::empty())
                        } else {
                            None
                        }
                    } else if spec_line_terminator2(s4) {
                        Some(Seq::empty())
                    } else {
                        None
                    }
                } else if spec_line_terminator2(s3) {
                    Some(Seq::empty())
                } else {
                    None
                }
            } else if spec_line_terminator2(s2) {
                Some(Seq::empty())
            } else {
                None
            }
        } else if spec_line_terminator2(s1) {
            Some(Seq::empty())
        } else {
            None
        }
    }
}

/// A mandatory newline: `\n` or `\r\n` (end of input does not count).
pub open spec fn spec_line_terminator2(rest: Seq<u8>) -> bool {
    ||| (rest.len() >= 1 && rest[0] == '\n' as u8)
    ||| (rest.len() >= 2 && rest[0] == '\r' as u8 && rest[1] == '\n' as u8)
}

fn check_terminator2(input: &[u8], pos: usize) -> (r: bool)
    requires
        pos <= input@.len(),
    ensures
        r == spec_line_terminator2(input@.skip(pos as int)),
{
    let ilen: usize = input.len();
    let ghost rest = input@.skip(pos as int);
    proof {
        if pos < ilen {
            assert(rest[0] == input@[pos as int]);
            if pos + 1 < ilen {
                assert(rest[1] == input@[pos + 1]);
            }
        }
    }
    if pos < ilen && input[pos] == '\n' as u8 {
        return true;
    }
    if pos < ilen && input[pos] == '\r' as u8 && pos + 1 < ilen && input[pos + 1] == '\n' as u8 {
        return true;
    }
    false
}

/// Reads the tab-separated sample names starting at `pos`; returns them with
/// the index of the first unconsumed byte.
fn parse_sample_list(input: &[u8], pos: usize) -> (r: (Vec<Vec<u8>>, usize))
    requires
        pos <= input@.len(),
    ensures
        ({
            let sl = spec_sample_list(input@.skip(pos as int));
            r.0.deep_view() == sl.0 && r.1 == pos + sl.1 && r.1 <= input@.len()
        }),
{
    let ilen: usize = input.len();
    let ghost full = input@.skip(pos as int);
    let ghost sl = spec_sample_list(full);
    let stops: [u8; 3] = ['\t' as u8, '\r' as u8, '\n' as u8];
    proof {
        assert(stops@ =~= sample_stops());
        lemma_sample_list_bounds(full);
    }
    let mut out: Vec<Vec<u8>> = Vec::new();
    let mut cur: usize = pos;
    proof {
        assert(out.deep_view() =~= Seq::<Seq<u8>>::empty());
        assert(sl.0 =~= out.deep_view() + sl.0);
    }
    loop
        invariant
            ilen == input@.len(),
            pos <= cur <= input@.len(),
            stops@ == sample_stops(),
            ({
                let rest = spec_sample_list(input@.skip(cur as int));
                sl.0 == out.deep_view() + rest.0 && sl.1 == cur - pos + rest.1
            }),
            sl == spec_sample_list(input@.skip(pos as int)),
        decreases input@.len() - cur,
    {
        let ghost s = input@.skip(cur as int);
        let ghost rest = spec_sample_list(s);
        proof {
            lemma_sample_list_bounds(s);
        }
        let tl = scan_token(input, cur, stops.as_slice());
        if tl == 0 {
            proof {
                assert(rest.0 =~= Seq::<Seq<u8>>::empty());
                assert(sl.0 =~= out.deep_view());
            }
            return (out, cur);
        }
        let ghost dv0 = out.deep_view();
        out.push(copy_range(input, cur, cur + tl));
        proof {
            assert(s.take(tl as int) =~= input@.subrange(cur as int, cur + tl));
            assert(out.deep_view() =~~= dv0 + seq![s.take(tl as int)]);
        }
        if cur + tl < ilen && input[cur + tl] == '\t' as u8 {
            proof {
                assert(s[tl as int] == input@[cur + tl]);
                assert(s.skip(tl + 1 as int) =~= input@.skip(cur + tl + 1));
            }
            let tl2 = scan_token(input, cur + tl + 1, stops.as_slice());
            if tl2 > 0 {
                cur = cur + tl + 1;
            } else {
                proof {
                    assert(rest.0 =~= seq![s.take(tl as int)]);
                    assert(sl.0 =~= out.deep_view());
                }
                return (out, cur + tl);
            }
        } else {
            proof {
                if tl < s.len() {
                    assert(s[tl as int] == input@[cur + tl]);
                }
                assert(rest.0 =~= seq![s.take(tl as int)]);
                assert(sl.0 =~= out.deep_view());
            }
            return (out, cur + tl);
        }
    }
}

/// Parses the `#CHROM` column-header line into the sample-name list.
pub fn parse_samples(header_line: &[u8]) -> (r: Result<Vec<Vec<u8>>, ()>)
    ensures
        r is Ok <==> spec_samples_of(header_line@) is Some,
        r matches Ok(v) ==> Some(v.deep_view()) == spec_samples_of(header_line@),
{
    let ilen: usize = header_line.len();
    let t = tok_sample_prefix();
    if !begins(header_line, &t) {
        return Err(());
    }
    let mut pos: usize = t.len();
    let ghost s1 = header_line@.skip(pos as int);
    let tq = tok_opt_qual();
    let tf = tok_opt_filter();
    let ti = tok_opt_info();
    let tfm = tok_opt_format();
    if !starts_with_at(header_line, pos, tq.as_slice()) {
        proof {
            lemma_begins_shift(header_line@, pos as int, tq@);
        }
        if check_terminator2(header_line, pos) {
            let empty: Vec<Vec<u8>> = Vec::new();
            proof {
                assert(empty.deep_view() =~= Seq::<Seq<u8>>::empty());
            }
            return Ok(empty);
        }
        return Err(());
    }
    proof {
        lemma_begins_shift(header_line@, pos as int, tq@);
    }
    pos = pos + tq.len();
    if !starts_with_at(header_line, pos, tf.as_slice()) {
        proof {
            lemma_begins_shift(header_line@, pos as int, tf@);
            lemma_skip_skip(header_line@, t@.len() as int, tq@.len() as int);
        }
        if check_terminator2(header_line, pos) {
            let empty: Vec<Vec<u8>> = Vec::new();
            proof {
                assert(empty.deep_view() =~= Seq::<Seq<u8>>::empty());
            }
            return Ok(empty);
        }
        return Err(());
    }
    proof {
        lemma_begins_shift(header_line@, pos as int, tf@);
        lemma_skip_skip(header_line@, t@.len() as int, tq@.len() as int);
    }
    pos = pos + tf.len();
    if !starts_with_at(header_line, pos, ti.as_slice()) {
        proof {
            lemma_begins_shift(header_line@, pos as int, ti@);
            lemma_skip_skip(header_line@, (t@.len() + tq@.len()) as int, tf@.len() as int);
        }
        if check_terminator2(header_line, pos) {
            let empty: Vec<Vec<u8>> = Vec::new();
            proof {
                assert(empty.deep_view() =~= Seq::<Seq<u8>>::empty());
            }
            return Ok(empty);
        }
        return Err(());
    }
    proof {
        lemma_begins_shift(header_line@, pos as int, ti@);
        lemma_skip_skip(header_line@, (t@.len() + tq@.len()) as int, tf@.len() as int);
    }
    pos = pos + ti.len();
    if !starts_with_at(header_line, pos, tfm.as_slice()) {
        proof {
            lemma_begins_shift(header_line@, pos as int, tfm@);
            lemma_skip_skip(header_line@, (t@.len() + tq@.len() + tf@.len()) as int, ti@.len() as int);
        }
        if check_terminator2(header_line, pos) {
            let empty: Vec<Vec<u8>> = Vec::new();
            proof {
                assert(empty.deep_view() =~= Seq::<Seq<u8>>::empty());
            }
            return Ok(empty);
        }
        return Err(());
    }
    proof {
        lemma_begins_shift(header_line@, pos as int, tfm@);
        lemma_skip_skip(header_line@, (t@.len() + tq@.len() + tf@.len()) as int, ti@.len() as int);
    }
    pos = pos + tfm.len();
    proof {
        lemma_skip_skip(header_line@, (t@.len() + tq@.len() + tf@.len() + ti@.len()) as int, tfm@.len() as int);
    }
    let ghost s5 = header_line@.skip(pos as int);
    if pos < ilen && header_line[pos] == '\t' as u8 {
        proof {
            assert(s5[0] == header_line@[pos as int]);
            assert(s5.skip(1) =~= header_line@.skip(pos + 1));
        }
        let (names, end) = parse_sample_list(header_line, pos + 1);
        proof {
            assert(s5.skip(1).skip(spec_sample_list(s5.skip(1)).1 as int) =~= header_line@.skip(
                end as int,
            ));
        }
        if check_terminator2(header_line, end) {
            return Ok(names);
        }
        return Err(());
    }
    proof {
        if pos < ilen {
            assert(s5[0] == header_line@[pos as int]);
        }
    }
    if check_terminator2(header_line, pos) {
        let empty: Vec<Vec<u8>> = Vec::new();
        proof {
            assert(empty.deep_view() =~= Seq::<Seq<u8>>::empty());
        }
        return Ok(empty);
    }
    Err(())
}

/// `begins_with` at an offset is `begins_with` of the suffix.
proof fn lemma_begins_shift(s: Seq<u8>, pos: int, lit: Seq<u8>)
    requires
        0 <= pos <= s.len(),
    ensures
        (pos + lit.len() <= s.len() && s.subrange(pos, pos + lit.len()) == lit) == begins_with(
            s.skip(pos),
            lit,
        ),
{
    if pos + lit.len() <= s.len() {
        assert(s.subrange(pos, pos + lit.len()) =~= s.skip(pos).take(lit.len() as int));
    }
}

/// Skipping twice is skipping once by the sum.
proof fn lemma_skip_skip(s: Seq<u8>, a: int, b: int)
    requires
        0 <= a,
        0 <= b,
        a + b <= s.len(),
    ensures
        s.skip(a).skip(b) == s.skip(a + b),
{
    assert(s.skip(a).skip(b) =~= s.skip(a + b));
}

} // verus!
