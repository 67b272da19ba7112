//! Round-trip laws: serializing a well-formed record and parsing the bytes
//! back yields the record unchanged, so reading and rewriting a file
//! reproduces it exactly.

use vstd::prelude::*;

use crate::record::parser::{
    comma_col_stops, digit_run, dot_bytes, format_col_stops, hard_stops, info_key_stops,
    info_val_stops, lemma_digit_run_bounds, lemma_token_run_bounds, spec_exponent_end,
    spec_float_len, spec_info_collapse, spec_optional_columns, spec_parse_info, spec_parse_record,
    spec_sep_values, token_run, ParsedRecord,
};
use crate::bytestr::{dec_digits, dec_val, lemma_dec_digits_shape};
use crate::record::parser::{
    genotype_col_stops, genotype_collapse, row_collapse, spec_double_nested_values,
    spec_nested_values, collapse_dot_list,
};
use crate::record::{
    spec_join_with, spec_write_array, spec_write_info, spec_write_info_entry, spec_write_row,
    spec_write_rows,
};

verus! {

/// Every value is non-empty and free of stop bytes.
pub open spec fn values_wf(ts: Seq<Seq<u8>>, stops: Seq<u8>) -> bool {
    forall|i: int|
        0 <= i < ts.len() ==> (#[trigger] ts[i]).len() >= 1 && forall|j: int|
            0 <= j < ts[i].len() ==> !stops.contains(#[trigger] ts[i][j])
}

/// `rest` cannot continue a value list: it is empty or starts with a stop
/// byte other than the separator.
pub open spec fn list_boundary(rest: Seq<u8>, stops: Seq<u8>, sep: u8) -> bool {
    rest.len() == 0 || (stops.contains(rest[0]) && rest[0] != sep)
}

/// The token run of a stop-free string followed by a boundary is the string.
proof fn lemma_token_run_concat(t: Seq<u8>, rest: Seq<u8>, stops: Seq<u8>)
    requires
        forall|j: int| 0 <= j < t.len() ==> !stops.contains(#[trigger] t[j]),
        rest.len() == 0 || stops.contains(rest[0]),
    ensures
        token_run(t + rest, stops) == t.len(),
{
    let s = t + rest;
    assert forall|j: int| 0 <= j < t.len() implies !stops.contains(#[trigger] s[j]) by {
        assert(s[j] == t[j]);
    }
    if t.len() < s.len() {
        assert(s[t.len() as int] == rest[0]);
    }
    crate::record::parser::lemma_token_run_eq(s, stops, t.len() as int);
}

/// Splitting the joined form of a well-formed value list consumes exactly
/// the joined bytes and recovers the values.
pub proof fn lemma_sep_values_of_join(ts: Seq<Seq<u8>>, stops: Seq<u8>, sep: u8, rest: Seq<u8>)
    requires
        stops.contains(sep),
        ts.len() >= 1,
        values_wf(ts, stops),
        list_boundary(rest, stops, sep),
    ensures
        spec_sep_values(spec_join_with(ts, sep) + rest, stops, sep, false) == (ts, spec_join_with(
            ts,
            sep,
        ).len() as nat),
    decreases ts.len(),
{
    let joined = spec_join_with(ts, sep);
    let s = joined + rest;
    if ts.len() == 1 {
        assert(joined == ts[0]);
        lemma_token_run_concat(ts[0], rest, stops);
        let tl = token_run(s, stops);
        assert(tl == ts[0].len());
        assert(tl >= 1);
        if tl < s.len() {
            assert(s[tl as int] == rest[0]);
            assert(s[tl as int] != sep);
        }
        assert(s.take(tl as int) =~= ts[0]);
        assert(spec_sep_values(s, stops, sep, false).0 =~= ts);
    } else {
        let tail = ts.drop_first();
        assert(joined == ts[0] + seq![sep] + spec_join_with(tail, sep));
        let rest2 = spec_join_with(tail, sep) + rest;
        assert(s =~= ts[0] + (seq![sep] + rest2));
        lemma_token_run_concat(ts[0], seq![sep] + rest2, stops);
        let tl = token_run(s, stops);
        assert((seq![sep] + rest2)[0] == sep);
        assert(tl == ts[0].len());
        assert(tl >= 1);
        assert(tl < s.len() && s[tl as int] == sep) by {
            assert(s[tl as int] == (seq![sep] + rest2)[0]);
        }
        assert(forall|i: int| 0 <= i < tail.len() ==> tail[i] == ts[i + 1]);
        assert(values_wf(tail, stops)) by {
            assert forall|i: int|
                0 <= i < tail.len() implies (#[trigger] tail[i]).len() >= 1 && forall|j: int|
                    0 <= j < tail[i].len() ==> !stops.contains(#[trigger] tail[i][j]) by {
                assert(tail[i] == ts[i + 1]);
            }
        }
        lemma_sep_values_of_join(tail, stops, sep, rest);
        assert(s.skip(tl + 1 as int) =~= rest2);
        assert(s.take(tl as int) =~= ts[0]);
        assert(spec_sep_values(s, stops, sep, false).0 =~= ts);
        assert(spec_sep_values(s, stops, sep, false).1 == tl + 1 + rest2.len() - rest.len());
        assert(joined.len() == tl + 1 + spec_join_with(tail, sep).len());
    }
}

/// Splitting a lone `.` column consumes one byte and yields the one token.
pub proof fn lemma_sep_values_of_dot(stops: Seq<u8>, sep: u8, rest: Seq<u8>)
    requires
        stops.contains(sep),
        !stops.contains('.' as u8),
        '.' as u8 != sep,
        list_boundary(rest, stops, sep),
    ensures
        spec_sep_values(dot_bytes() + rest, stops, sep, false) == (seq![dot_bytes()], 1nat),
{
    assert(values_wf(seq![dot_bytes()], stops)) by {
        assert(seq![dot_bytes()][0] == dot_bytes());
        assert(dot_bytes().len() == 1 && dot_bytes()[0] == '.' as u8);
    }
    assert(spec_join_with(seq![dot_bytes()], sep) == dot_bytes());
    lemma_sep_values_of_join(seq![dot_bytes()], stops, sep, rest);
}

/// Every value has at least one byte.
pub open spec fn tokens_nonempty(ts: Seq<Seq<u8>>) -> bool {
    forall|i: int| 0 <= i < ts.len() ==> (#[trigger] ts[i]).len() >= 1
}

/// Every stop byte is a delimiter: a reserved byte other than `%`.  All the
/// record grammar's stop sets qualify, so escaped values contain no stop.
pub open spec fn delimiter_stops(stops: Seq<u8>) -> bool {
    forall|j: int|
        0 <= j < stops.len() ==> crate::codec::is_reserved_byte(#[trigger] stops[j]) && stops[j]
            != '%' as u8
}

/// Percent-escaped non-empty values are well-formed tokens for any
/// delimiter stop set.
proof fn lemma_encoded_values_wf(ts: Seq<Seq<u8>>, stops: Seq<u8>)
    requires
        tokens_nonempty(ts),
        delimiter_stops(stops),
    ensures
        values_wf(crate::record::spec_encoded_all(ts), stops),
        crate::record::spec_encoded_all(ts).len() == ts.len(),
{
    let ev = crate::record::spec_encoded_all(ts);
    assert forall|i: int|
        0 <= i < ev.len() implies (#[trigger] ev[i]).len() >= 1 && forall|j: int|
            0 <= j < ev[i].len() ==> !stops.contains(#[trigger] ev[i][j]) by {
        assert(ev[i] == crate::codec::spec_encode(ts[i]));
        crate::codec::lemma_encode_len(ts[i]);
        crate::codec::lemma_encode_no_reserved(ts[i]);
        assert forall|j: int| 0 <= j < ev[i].len() implies !stops.contains(
            #[trigger] ev[i][j],
        ) by {
            if stops.contains(ev[i][j]) {
                let k = choose|k: int| 0 <= k < stops.len() && stops[k] == ev[i][j];
                assert(crate::codec::is_reserved_byte(stops[k]) && stops[k] != '%' as u8);
            }
        }
    }
}

/// Escaping cannot create or destroy the lone `.` token list.
proof fn lemma_encoded_all_dot(ts: Seq<Seq<u8>>)
    ensures
        (crate::record::spec_encoded_all(ts) =~= seq![dot_bytes()]) <==> (ts =~= seq![
            dot_bytes(),
        ]),
{
    let ev = crate::record::spec_encoded_all(ts);
    if ev =~= seq![dot_bytes()] {
        assert(ts.len() == 1);
        assert(ev[0] == crate::codec::spec_encode(ts[0]));
        crate::codec::lemma_encode_dot(ts[0]);
        assert(ts =~= seq![dot_bytes()]);
    }
    if ts =~= seq![dot_bytes()] {
        assert(ev[0] == crate::codec::spec_encode(ts[0]));
        crate::codec::lemma_encode_dot(ts[0]);
        assert(ev =~= seq![dot_bytes()]);
    }
}

/// Decoding undoes escaping, value by value.
proof fn lemma_decode_encode_all(ts: Seq<Seq<u8>>)
    ensures
        crate::record::parser::spec_decoded_all(crate::record::spec_encoded_all(ts)) == ts,
{
    let dv = crate::record::parser::spec_decoded_all(crate::record::spec_encoded_all(ts));
    assert forall|i: int| 0 <= i < ts.len() implies #[trigger] dv[i] == ts[i] by {
        assert(crate::record::spec_encoded_all(ts)[i] == crate::codec::spec_encode(ts[i]));
        crate::codec::lemma_decode_encode(ts[i]);
    }
    assert(dv =~= ts);
}

/// One INFO entry is well formed for writing: a non-empty key of key bytes
/// and non-empty values (the codec shields the values' bytes).
pub open spec fn info_entry_wf(e: (Seq<u8>, Seq<Seq<u8>>)) -> bool {
    &&& e.0.len() >= 1
    &&& forall|j: int| 0 <= j < e.0.len() ==> !info_key_stops().contains(#[trigger] e.0[j])
    &&& tokens_nonempty(e.1)
}

pub open spec fn info_wf(info: Seq<(Seq<u8>, Seq<Seq<u8>>)>) -> bool {
    forall|i: int| 0 <= i < info.len() ==> info_entry_wf(#[trigger] info[i])
}

/// `rest` ends a column outright: it is empty or starts a tab or line end.
pub open spec fn column_boundary(rest: Seq<u8>) -> bool {
    rest.len() == 0 || rest[0] == '\t' as u8 || rest[0] == '\r' as u8 || rest[0] == '\n' as u8
}

/// Parsing the written form of a well-formed INFO list consumes exactly the
/// written bytes and recovers the entries.
#[verifier::rlimit(100)]
#[verifier::spinoff_prover]
pub proof fn lemma_parse_info_of_join(info: Seq<(Seq<u8>, Seq<Seq<u8>>)>, rest: Seq<u8>)
    requires
        info.len() >= 1,
        info_wf(info),
        column_boundary(rest),
    ensures
        ({
            let joined = spec_join_with(
                info.map_values(|e: (Seq<u8>, Seq<Seq<u8>>)| spec_write_info_entry(e)),
                ';' as u8,
            );
            spec_parse_info(joined + rest) == (info, joined.len() as nat)
        }),
    decreases info.len(),
{
    let entries = info.map_values(|e: (Seq<u8>, Seq<Seq<u8>>)| spec_write_info_entry(e));
    let joined = spec_join_with(entries, ';' as u8);
    let s = joined + rest;
    let e0 = info[0];
    assert(info_entry_wf(e0));
    let w0 = spec_write_info_entry(e0);
    assert(entries[0] == w0);
    let after0: Seq<u8> = if info.len() == 1 {
        rest
    } else {
        seq![';' as u8] + spec_join_with(entries.drop_first(), ';' as u8) + rest
    };
    assert(s =~= w0 + after0) by {
        if info.len() == 1 {
            assert(joined == w0);
        } else {
            assert(joined == w0 + seq![';' as u8] + spec_join_with(
                entries.drop_first(),
                ';' as u8,
            ));
        }
    }
    assert(after0.len() == 0 || after0[0] == ';' as u8 || column_boundary(after0));
    // the key run
    let enc0 = crate::record::spec_encoded_all(e0.1);
    let tail_after_key: Seq<u8> = if e0.1.len() == 0 {
        after0
    } else {
        seq!['=' as u8] + spec_join_with(enc0, ',' as u8) + after0
    };
    assert(s =~= e0.0 + tail_after_key) by {
        if e0.1.len() == 0 {
            assert(w0 == e0.0);
        } else {
            assert(w0 == e0.0 + seq!['=' as u8] + spec_join_with(enc0, ',' as u8));
        }
    }
    assert(tail_after_key.len() == 0 || info_key_stops().contains(tail_after_key[0]));
    lemma_token_run_concat(e0.0, tail_after_key, info_key_stops());
    let kl = token_run(s, info_key_stops());
    assert(kl == e0.0.len());
    assert(s.take(kl as int) =~= e0.0);
    let consumed0: nat = w0.len() as nat;
    if e0.1.len() == 0 {
        // a flag key: no `=` follows
        if kl < s.len() {
            assert(s[kl as int] == after0[0]);
            assert(s[kl as int] != '=' as u8);
        }
        if info.len() == 1 {
            if kl < s.len() {
                assert(s[kl as int] != ';' as u8);
            }
            assert(spec_parse_info(s).0 =~= info) by {
                assert(spec_parse_info(s).0 == seq![(e0.0, Seq::<Seq<u8>>::empty())]);
                assert(info[0].1 =~= Seq::<Seq<u8>>::empty());
                assert((e0.0, e0.1) == e0);
            }
            assert(spec_parse_info(s).1 == kl);
        } else {
            assert(s[kl as int] == ';' as u8);
            let srest = spec_join_with(entries.drop_first(), ';' as u8) + rest;
            assert(s.skip(kl + 1 as int) =~= srest);
            assert(entries.drop_first() =~= info.drop_first().map_values(
                |e: (Seq<u8>, Seq<Seq<u8>>)| spec_write_info_entry(e),
            )) by {
                assert forall|i: int| 0 <= i < entries.drop_first().len() implies
                    entries.drop_first()[i] == spec_write_info_entry(info.drop_first()[i]) by {
                    assert(entries.drop_first()[i] == entries[i + 1]);
                    assert(info.drop_first()[i] == info[i + 1]);
                }
            }
            assert(info_wf(info.drop_first())) by {
                assert forall|i: int| 0 <= i < info.drop_first().len() implies info_entry_wf(
                    #[trigger] info.drop_first()[i],
                ) by {
                    assert(info.drop_first()[i] == info[i + 1]);
                }
            }
            lemma_parse_info_of_join(info.drop_first(), rest);
            assert(spec_parse_info(s).0 =~= info) by {
                assert(spec_parse_info(s).0 == seq![(e0.0, Seq::<Seq<u8>>::empty())]
                    + spec_parse_info(srest).0);
                assert(info[0].1 =~= Seq::<Seq<u8>>::empty());
            }
        }
    } else {
        // key=v1,v2,...
        assert(s[kl as int] == '=' as u8) by {
            assert(s[kl as int] == tail_after_key[0]);
        }
        let vrest = spec_join_with(enc0, ',' as u8) + after0;
        assert(s.skip(kl + 1 as int) =~= vrest);
        assert(list_boundary(after0, info_val_stops(), ',' as u8));
        assert(delimiter_stops(info_val_stops()));
        lemma_encoded_values_wf(e0.1, info_val_stops());
        lemma_sep_values_of_join(enc0, info_val_stops(), ',' as u8, after0);
        let sv = spec_sep_values(vrest, info_val_stops(), ',' as u8, false);
        assert(sv.0 == enc0);
        lemma_decode_encode_all(e0.1);
        assert(crate::record::parser::spec_decoded_all(sv.0) == e0.1);
        let c = kl + 1 + sv.1;
        assert(c == w0.len());
        if info.len() == 1 {
            if c < s.len() {
                assert(s[c as int] == after0[0]);
                assert(s[c as int] != ';' as u8);
            }
            assert(spec_parse_info(s).0 =~= info) by {
                assert((e0.0, e0.1) == e0);
            }
        } else {
            assert(s[c as int] == ';' as u8) by {
                assert(s[c as int] == after0[0]);
            }
            let srest = spec_join_with(entries.drop_first(), ';' as u8) + rest;
            assert(s.skip(c + 1 as int) =~= srest);
            assert(entries.drop_first() =~= info.drop_first().map_values(
                |e: (Seq<u8>, Seq<Seq<u8>>)| spec_write_info_entry(e),
            )) by {
                assert forall|i: int| 0 <= i < entries.drop_first().len() implies
                    entries.drop_first()[i] == spec_write_info_entry(info.drop_first()[i]) by {
                    assert(entries.drop_first()[i] == entries[i + 1]);
                    assert(info.drop_first()[i] == info[i + 1]);
                }
            }
            assert(info_wf(info.drop_first())) by {
                assert forall|i: int| 0 <= i < info.drop_first().len() implies info_entry_wf(
                    #[trigger] info.drop_first()[i],
                ) by {
                    assert(info.drop_first()[i] == info[i + 1]);
                }
            }
            lemma_parse_info_of_join(info.drop_first(), rest);
            assert(spec_parse_info(s).0 =~= info) by {
                assert((e0.0, e0.1) == e0);
            }
        }
    }
}

/// Parsing a lone `.` INFO column gives the one `.` flag entry.
pub proof fn lemma_parse_info_of_dot(rest: Seq<u8>)
    requires
        column_boundary(rest),
    ensures
        spec_parse_info(dot_bytes() + rest) == (
            seq![(dot_bytes(), Seq::<Seq<u8>>::empty())],
            1nat,
        ),
{
    let s = dot_bytes() + rest;
    lemma_token_run_concat(dot_bytes(), rest, info_key_stops());
    let kl = token_run(s, info_key_stops());
    assert(kl == 1);
    if kl < s.len() {
        assert(s[kl as int] == rest[0]);
    }
    assert(s.take(1) =~= dot_bytes());
}

/// A digit run is unchanged by appending bytes that begin with a non-digit.
proof fn lemma_digit_run_concat(a: Seq<u8>, rest: Seq<u8>)
    requires
        rest.len() == 0 || !crate::bytestr::is_digit_byte(rest[0]),
    ensures
        digit_run(a + rest) == digit_run(a),
    decreases a.len(),
{
    lemma_digit_run_bounds(a);
    if a.len() == 0 {
        assert(a + rest =~= rest);
        if rest.len() > 0 {
            assert(digit_run(rest) == 0);
        }
    } else {
        let s = a + rest;
        assert(s[0] == a[0]);
        if crate::bytestr::is_digit_byte(a[0]) {
            assert(s.skip(1) =~= a.skip(1) + rest);
            lemma_digit_run_concat(a.skip(1), rest);
        }
    }
}

/// The quality grammar accepts exactly the quality text when a tab follows.
pub proof fn lemma_float_of_text(q: Seq<u8>, rest: Seq<u8>)
    requires
        spec_float_len(q) == Some(q.len() as nat),
        q.len() >= 1,
        rest.len() >= 1,
        rest[0] == '\t' as u8,
    ensures
        spec_float_len(q + rest) == Some(q.len() as nat),
{
    let s = q + rest;
    assert(s[0] == q[0]);
    if q[0] == '.' as u8 {
        assert(q.len() == 1);
    } else {
        lemma_digit_run_concat(q, rest);
        let d1 = digit_run(q);
        lemma_digit_run_bounds(q);
        assert(d1 >= 1);
        let jq: nat = if d1 < q.len() && q[d1 as int] == '.' as u8 {
            (d1 + 1 + digit_run(q.skip(d1 + 1 as int))) as nat
        } else {
            d1
        };
        let js: nat = if d1 < s.len() && s[d1 as int] == '.' as u8 {
            (d1 + 1 + digit_run(s.skip(d1 + 1 as int))) as nat
        } else {
            d1
        };
        assert(js == jq) by {
            if d1 < q.len() {
                assert(s[d1 as int] == q[d1 as int]);
                if q[d1 as int] == '.' as u8 {
                    assert(s.skip(d1 + 1 as int) =~= q.skip(d1 + 1 as int) + rest);
                    lemma_digit_run_concat(q.skip(d1 + 1 as int), rest);
                }
            } else {
                assert(s[d1 as int] == rest[0]);
            }
        }
        assert(spec_exponent_end(q, jq) == q.len());
        lemma_digit_run_bounds(q.skip(d1 + 1 as int));
        assert(jq <= q.len()) by {
            if d1 < q.len() && q[d1 as int] == '.' as u8 {
                assert(q.skip(d1 + 1 as int).len() == q.len() - d1 - 1);
            }
        }
        assert(spec_exponent_end(s, js) == q.len()) by {
            if jq < q.len() {
                assert(s[jq as int] == q[jq as int]);
                if q[jq as int] == 'e' as u8 || q[jq as int] == 'E' as u8 {
                    let kq: nat = if jq + 1 < q.len() && (q[jq + 1 as int] == '+' as u8 || q[jq
                        + 1 as int] == '-' as u8) {
                        (jq + 2) as nat
                    } else {
                        (jq + 1) as nat
                    };
                    let ks: nat = if jq + 1 < s.len() && (s[jq + 1 as int] == '+' as u8 || s[jq
                        + 1 as int] == '-' as u8) {
                        (jq + 2) as nat
                    } else {
                        (jq + 1) as nat
                    };
                    assert(ks == kq) by {
                        if jq + 1 < q.len() {
                            assert(s[jq + 1 as int] == q[jq + 1 as int]);
                        } else {
                            assert(s[jq + 1 as int] == rest[0]);
                        }
                    }
                    if kq <= q.len() {
                        assert(s.skip(kq as int) =~= q.skip(kq as int) + rest);
                        lemma_digit_run_concat(q.skip(kq as int), rest);
                    }
                } else {
                }
            } else {
                assert(jq == q.len());
                assert(s[jq as int] == rest[0]);
            }
        }
    }
}

/// Every cell of the row holds non-empty values (an empty cell is allowed:
/// it writes as `.`; the codec shields the values' bytes).
pub open spec fn row_wf(row: Seq<Seq<Seq<u8>>>) -> bool {
    forall|i: int| 0 <= i < row.len() ==> tokens_nonempty(#[trigger] row[i])
}

/// The raw token structure that parsing the written row recovers, before
/// the `.` collapse and the percent-decode: an absent row or cell reappears
/// as a `.` token, and a kept cell as its escaped values.
pub open spec fn raw_row(row: Seq<Seq<Seq<u8>>>) -> Seq<Seq<Seq<u8>>> {
    if row.len() == 0 {
        seq![seq![dot_bytes()]]
    } else {
        row.map_values(
            |c: Seq<Seq<u8>>|
                if c.len() == 0 {
                    seq![dot_bytes()]
                } else {
                    crate::record::spec_encoded_all(c)
                },
        )
    }
}

/// Parsing the written form of one sample row recovers its raw tokens and
/// consumes exactly the written bytes.
#[verifier::rlimit(100)]
#[verifier::spinoff_prover]
pub proof fn lemma_nested_of_row(row: Seq<Seq<Seq<u8>>>, rest: Seq<u8>)
    requires
        row_wf(row),
        column_boundary(rest),
    ensures
        spec_nested_values(spec_write_row(row) + rest, genotype_col_stops(), ',' as u8, ':' as u8)
            == (raw_row(row), spec_write_row(row).len() as nat),
    decreases row.len(),
{
    let stops = genotype_col_stops();
    if row.len() == 0 {
        let s = dot_bytes() + rest;
        lemma_sep_values_of_dot(stops, ',' as u8, rest);
        let r = spec_sep_values(s, stops, ',' as u8, false);
        assert(r.0.len() == 1);
        if r.1 < s.len() {
            assert(s[r.1 as int] == rest[0]);
            assert(s[r.1 as int] != ':' as u8);
        }
        assert(spec_nested_values(s, stops, ',' as u8, ':' as u8).0 =~= raw_row(row));
    } else {
        let c0 = row[0];
        let enc0 = crate::record::spec_encoded_all(c0);
        let w0: Seq<u8> = if c0.len() == 0 {
            dot_bytes()
        } else {
            spec_join_with(enc0, ',' as u8)
        };
        assert(spec_write_array(c0, ',' as u8) == w0);
        let tail = row.drop_first();
        let cells = row.map_values(|c: Seq<Seq<u8>>| spec_write_array(c, ',' as u8));
        let after0: Seq<u8> = if row.len() == 1 {
            rest
        } else {
            seq![':' as u8] + spec_join_with(
                cells.drop_first(),
                ':' as u8,
            ) + rest
        };
        let s = spec_write_row(row) + rest;
        assert(s =~= w0 + after0) by {
            assert(cells[0] == w0);
            if row.len() == 1 {
                assert(spec_write_row(row) == w0);
            } else {
                assert(spec_write_row(row) == w0 + seq![':' as u8] + spec_join_with(
                    cells.drop_first(),
                    ':' as u8,
                ));
            }
        }
        assert(list_boundary(after0, stops, ',' as u8)) by {
            if row.len() == 1 {
            } else {
                assert(after0[0] == ':' as u8);
            }
        }
        // the first cell's tokens
        let raw0: Seq<Seq<u8>> = if c0.len() == 0 {
            seq![dot_bytes()]
        } else {
            enc0
        };
        if c0.len() == 0 {
            lemma_sep_values_of_dot(stops, ',' as u8, after0);
        } else {
            assert(tokens_nonempty(c0));
            assert(delimiter_stops(stops));
            lemma_encoded_values_wf(c0, stops);
            lemma_sep_values_of_join(enc0, stops, ',' as u8, after0);
        }
        let r = spec_sep_values(s, stops, ',' as u8, false);
        assert(r.0 == raw0 && r.1 == w0.len());
        assert(r.0.len() >= 1);
        if row.len() == 1 {
            if r.1 < s.len() {
                assert(s[r.1 as int] == rest[0]);
                assert(s[r.1 as int] != ':' as u8);
            }
            assert(spec_nested_values(s, stops, ',' as u8, ':' as u8).0 =~= raw_row(row)) by {
                assert(raw_row(row)[0] == raw0);
            }
        } else {
            assert(s[r.1 as int] == ':' as u8) by {
                assert(s[r.1 as int] == after0[0]);
            }
            let srest = spec_join_with(cells.drop_first(), ':' as u8) + rest;
            assert(s.skip(r.1 + 1 as int) =~= srest);
            assert(row_wf(tail)) by {
                assert forall|i: int| 0 <= i < tail.len() implies tokens_nonempty(
                    #[trigger] tail[i],
                ) by {
                    assert(tail[i] == row[i + 1]);
                }
            }
            lemma_nested_of_row(tail, rest);
            assert(spec_write_row(tail) =~= spec_join_with(cells.drop_first(), ':' as u8)) by {
                assert(tail.map_values(|c: Seq<Seq<u8>>| spec_write_array(c, ',' as u8)) =~=
                    cells.drop_first()) by {
                    assert forall|i: int| 0 <= i < tail.len() implies
                        tail.map_values(|c: Seq<Seq<u8>>| spec_write_array(c, ',' as u8))[i]
                        == cells.drop_first()[i] by {
                        assert(tail[i] == row[i + 1]);
                        assert(cells.drop_first()[i] == cells[i + 1]);
                    }
                }
            }
            assert(spec_nested_values(s, stops, ',' as u8, ':' as u8).0 =~= raw_row(row)) by {
                assert(spec_nested_values(s, stops, ',' as u8, ':' as u8).0 == seq![raw0]
                    + raw_row(tail));
                assert(raw_row(tail).len() == tail.len());
                assert forall|i: int| 0 <= i < row.len() implies (seq![raw0] + raw_row(tail))[i]
                    == raw_row(row)[i] by {
                    if i > 0 {
                        assert(raw_row(tail)[i - 1] == (if tail[i - 1].len() == 0 {
                            seq![dot_bytes()]
                        } else {
                            crate::record::spec_encoded_all(tail[i - 1])
                        }));
                        assert(tail[i - 1] == row[i]);
                    }
                }
            }
            assert(spec_nested_values(s, stops, ',' as u8, ':' as u8).1 == r.1 + 1
                + spec_write_row(tail).len());
        }
    }
}

/// The `.` collapse followed by the percent-decode undoes the raw-token
/// view of a well-formed row.
pub proof fn lemma_row_collapse_raw(row: Seq<Seq<Seq<u8>>>)
    requires
        row_wf(row),
        !(row.len() == 1 && row[0].len() == 0),
        forall|i: int| 0 <= i < row.len() ==> !(#[trigger] row[i] =~= seq![dot_bytes()]),
    ensures
        row_collapse(raw_row(row)).map_values(
            |c: Seq<Seq<u8>>| crate::record::parser::spec_decoded_all(c),
        ) == row,
{
    let raw = raw_row(row);
    let result = row_collapse(raw).map_values(
        |c: Seq<Seq<u8>>| crate::record::parser::spec_decoded_all(c),
    );
    if row.len() == 0 {
        assert(raw =~= seq![seq![dot_bytes()]]);
        assert(row_collapse(raw).len() == 0);
        assert(result =~= row);
    } else {
        assert(raw.len() == row.len());
        assert(!(raw =~= seq![seq![dot_bytes()]])) by {
            if raw =~= seq![seq![dot_bytes()]] {
                assert(raw.len() == 1);
                assert(raw[0] == (if row[0].len() == 0 {
                    seq![dot_bytes()]
                } else {
                    crate::record::spec_encoded_all(row[0])
                }));
                if row[0].len() == 0 {
                    assert(false);
                } else {
                    lemma_encoded_all_dot(row[0]);
                    assert(false);
                }
            }
        }
        assert(result =~= row) by {
            assert forall|i: int| 0 <= i < row.len() implies result[i] == row[i] by {
                assert(raw[i] == (if row[i].len() == 0 {
                    seq![dot_bytes()]
                } else {
                    crate::record::spec_encoded_all(row[i])
                }));
                assert(row_collapse(raw)[i] == collapse_dot_list(raw[i]));
                if row[i].len() == 0 {
                    assert(collapse_dot_list(raw[i]) =~= Seq::<Seq<u8>>::empty());
                    assert(result[i] =~= row[i]);
                } else {
                    lemma_encoded_all_dot(row[i]);
                    assert(collapse_dot_list(raw[i]) == raw[i]);
                    lemma_decode_encode_all(row[i]);
                }
            }
        }
    }
}

/// Parsing the written genotype columns (after their leading tab) recovers
/// every sample's raw tokens and consumes exactly the written bytes.
#[verifier::rlimit(100)]
#[verifier::spinoff_prover]
pub proof fn lemma_double_of_rows(g: Seq<Seq<Seq<Seq<u8>>>>, rest: Seq<u8>)
    requires
        g.len() >= 1,
        forall|x: int| 0 <= x < g.len() ==> row_wf(#[trigger] g[x]),
        rest.len() == 0 || rest[0] == '\r' as u8 || rest[0] == '\n' as u8,
    ensures
        ({
            let written = spec_write_rows(g).skip(1);
            spec_double_nested_values(
                written + rest,
                genotype_col_stops(),
                ',' as u8,
                ':' as u8,
                '\t' as u8,
            ) == (g.map_values(|row: Seq<Seq<Seq<u8>>>| raw_row(row)), written.len() as nat)
        }),
    decreases g.len(),
{
    let stops = genotype_col_stops();
    let written = spec_write_rows(g).skip(1);
    let s = written + rest;
    let row0 = g[0];
    let w0 = spec_write_row(row0);
    let after0: Seq<u8> = if g.len() == 1 {
        rest
    } else {
        seq!['\t' as u8] + spec_write_rows(g.drop_first()).skip(1) + rest
    };
    assert(s =~= w0 + after0) by {
        assert(spec_write_rows(g) == seq!['\t' as u8] + w0 + spec_write_rows(g.drop_first()));
        if g.len() == 1 {
            assert(spec_write_rows(g.drop_first()).len() == 0);
        } else {
            assert(spec_write_rows(g.drop_first()) == seq!['\t' as u8] + spec_write_row(
                g.drop_first()[0],
            ) + spec_write_rows(g.drop_first().drop_first()));
            assert(spec_write_rows(g.drop_first()).skip(1) =~= spec_write_row(g.drop_first()[0])
                + spec_write_rows(g.drop_first().drop_first()));
        }
    }
    assert(column_boundary(after0)) by {
        if g.len() > 1 {
            assert(after0[0] == '\t' as u8);
        }
    }
    lemma_nested_of_row(row0, after0);
    let n = spec_nested_values(s, stops, ',' as u8, ':' as u8);
    assert(n == (raw_row(row0), w0.len() as nat)) by {
        assert(w0 + after0 == spec_write_row(row0) + after0);
    }
    if g.len() == 1 {
        if n.1 < s.len() {
            assert(s[n.1 as int] == rest[0]);
            assert(s[n.1 as int] != '\t' as u8);
        }
        assert(spec_double_nested_values(s, stops, ',' as u8, ':' as u8, '\t' as u8).0 =~=
            g.map_values(|row: Seq<Seq<Seq<u8>>>| raw_row(row)));
    } else {
        assert(s[n.1 as int] == '\t' as u8) by {
            assert(s[n.1 as int] == after0[0]);
        }
        let srest = spec_write_rows(g.drop_first()).skip(1) + rest;
        assert(s.skip(n.1 + 1 as int) =~= srest);
        assert(forall|x: int| 0 <= x < g.drop_first().len() ==> row_wf(
            #[trigger] g.drop_first()[x],
        )) by {
            assert(forall|x: int|
                0 <= x < g.drop_first().len() ==> g.drop_first()[x] == g[x + 1]);
        }
        lemma_double_of_rows(g.drop_first(), rest);
        assert(spec_double_nested_values(s, stops, ',' as u8, ':' as u8, '\t' as u8).0 =~=
            g.map_values(|row: Seq<Seq<Seq<u8>>>| raw_row(row))) by {
            assert(spec_double_nested_values(s, stops, ',' as u8, ':' as u8, '\t' as u8).0
                == seq![raw_row(row0)] + g.drop_first().map_values(
                |row: Seq<Seq<Seq<u8>>>| raw_row(row),
            ));
            let lhs = seq![raw_row(row0)] + g.drop_first().map_values(
                |row: Seq<Seq<Seq<u8>>>| raw_row(row),
            );
            let rhs = g.map_values(|row: Seq<Seq<Seq<u8>>>| raw_row(row));
            assert forall|x: int| 0 <= x < g.len() implies #[trigger] lhs[x] == rhs[x] by {
                if x > 0 {
                    assert(g.drop_first().map_values(|row: Seq<Seq<Seq<u8>>>| raw_row(row))[x - 1]
                        == raw_row(g.drop_first()[x - 1]));
                    assert(g.drop_first()[x - 1] == g[x]);
                }
            }
            assert(lhs =~= rhs);
        }
        assert(spec_double_nested_values(s, stops, ',' as u8, ':' as u8, '\t' as u8).1 == n.1 + 1
            + spec_write_rows(g.drop_first()).skip(1).len());
        assert(written.len() == w0.len() + 1 + spec_write_rows(g.drop_first()).skip(1).len()) by {
            assert(spec_write_rows(g.drop_first()).len() >= 1);
        }
    }
}

/// A single-column field: non-empty, free of tabs and line ends.
pub open spec fn plain_field_wf(f: Seq<u8>) -> bool {
    f.len() >= 1 && forall|j: int| 0 <= j < f.len() ==> !hard_stops().contains(#[trigger] f[j])
}

/// A delimited list column: non-empty values (the codec shields their
/// bytes), and not the single token `.` (which would be read back as an
/// absent list).
pub open spec fn list_column_wf(l: Seq<Seq<u8>>) -> bool {
    tokens_nonempty(l) && !(l =~= seq![dot_bytes()])
}

/// A well-formed record for byte-exact serialization: every field avoids the
/// bytes that delimit it, and no written field aliases the `.` sentinel.
pub open spec fn record_roundtrip_wf(pr: ParsedRecord) -> bool {
    &&& plain_field_wf(pr.chromosome)
    &&& plain_field_wf(pr.reference)
    &&& list_column_wf(pr.id)
    &&& list_column_wf(pr.alternative)
    &&& list_column_wf(pr.filter)
    &&& (match pr.qual {
        None => true,
        Some(q) => q.len() >= 1 && !(q =~= dot_bytes()) && spec_float_len(q) == Some(
            q.len() as nat,
        ),
    })
    &&& info_wf(pr.info)
    &&& !(pr.info =~= seq![(dot_bytes(), Seq::<Seq<u8>>::empty())])
    &&& list_column_wf(pr.format)
    &&& (pr.format.len() == 0 ==> pr.genotype.len() == 0)
    &&& (forall|x: int|
        0 <= x < pr.genotype.len() ==> row_wf(#[trigger] pr.genotype[x]) && !(pr.genotype[x].len()
            == 1 && pr.genotype[x][0].len() == 0) && forall|i: int|
            0 <= i < pr.genotype[x].len() ==> !(#[trigger] pr.genotype[x][i] =~= seq![dot_bytes()]))
}

/// The comma-column stop set holds only delimiters.
proof fn proof_delimiter_comma()
    ensures
        delimiter_stops(comma_col_stops()),
{
    assert forall|j: int| 0 <= j < comma_col_stops().len() implies crate::codec::is_reserved_byte(
        #[trigger] comma_col_stops()[j],
    ) && comma_col_stops()[j] != '%' as u8 by {
        assert(comma_col_stops().len() == 4);
    }
}

/// The FORMAT-column stop set holds only delimiters.
proof fn proof_delimiter_format()
    ensures
        delimiter_stops(format_col_stops()),
{
    assert forall|j: int| 0 <= j < format_col_stops().len() implies crate::codec::is_reserved_byte(
        #[trigger] format_col_stops()[j],
    ) && format_col_stops()[j] != '%' as u8 by {
        assert(format_col_stops().len() == 4);
    }
}

/// Parsing a list column written by `spec_write_array` recovers the
/// collapsed, decoded list and consumes the written bytes.
proof fn lemma_list_column(l: Seq<Seq<u8>>, stops: Seq<u8>, sep: u8, rest: Seq<u8>)
    requires
        list_column_wf(l),
        delimiter_stops(stops),
        stops.contains(sep),
        !stops.contains('.' as u8),
        '.' as u8 != sep,
        list_boundary(rest, stops, sep),
    ensures
        ({
            let w = crate::record::spec_write_array(l, sep);
            let sv = spec_sep_values(w + rest, stops, sep, false);
            crate::record::parser::spec_decoded_all(
                crate::record::parser::collapse_dot_list(sv.0),
            ) == l && sv.1 == w.len()
        }),
{
    if l.len() == 0 {
        lemma_sep_values_of_dot(stops, sep, rest);
        assert(crate::record::parser::collapse_dot_list(seq![dot_bytes()]) =~= Seq::<
            Seq<u8>,
        >::empty());
        assert(crate::record::parser::spec_decoded_all(Seq::<Seq<u8>>::empty()) =~= l);
    } else {
        let enc = crate::record::spec_encoded_all(l);
        lemma_encoded_values_wf(l, stops);
        lemma_sep_values_of_join(enc, stops, sep, rest);
        lemma_encoded_all_dot(l);
        assert(crate::record::parser::collapse_dot_list(enc) == enc);
        lemma_decode_encode_all(l);
    }
}

/// From `line.skip(p) == seg + rest`, steps past `seg`.
proof fn lemma_advance(line: Seq<u8>, p: int, seg: Seq<u8>, rest: Seq<u8>)
    requires
        0 <= p <= line.len(),
        line.skip(p) == seg + rest,
    ensures
        p + seg.len() <= line.len(),
        line.skip(p + seg.len()) == rest,
        seg.len() > 0 ==> line[p] == seg[0],
        rest.len() > 0 ==> line[p + seg.len()] == rest[0],
{
    assert(line.skip(p).len() == line.len() - p);
    assert forall|i: int| 0 <= i < rest.len() implies line.skip(p + seg.len())[i] == rest[i] by {
        assert(line.skip(p + seg.len())[i] == line[p + seg.len() + i]);
        assert(line.skip(p)[seg.len() + i] == line[p + seg.len() + i]);
        assert((seg + rest)[seg.len() + i] == rest[i]);
    }
    assert(line.skip(p + seg.len()) =~= rest);
    if seg.len() > 0 {
        assert(line[p] == line.skip(p)[0]);
    }
    if rest.len() > 0 {
        assert(line[p + seg.len()] == line.skip(p + seg.len())[0]);
    }
}

/// Parsing the written optional columns recovers them and stops at the
/// final newline.
#[verifier::rlimit(100)]
#[verifier::spinoff_prover]
proof fn lemma_optional_of_write(pr: ParsedRecord, line: Seq<u8>, p6: int)
    requires
        record_roundtrip_wf(pr),
        0 <= p6 <= line.len(),
        line.skip(p6) == crate::record::spec_optional_written(pr),
    ensures
        spec_optional_columns(line, p6 as nat) == Some(
            (pr.qual, pr.filter, pr.info, pr.format, pr.genotype, (line.len() - 1) as nat),
        ),
{
    let tab = seq!['\t' as u8];
    let nl = seq!['\n' as u8];
    let qw: Seq<u8> = match pr.qual {
        None => dot_bytes(),
        Some(q) => q,
    };
    let fw = spec_write_array(pr.filter, ',' as u8);
    let iw = spec_write_info(pr.info);
    let fmtw = spec_write_array(pr.format, ':' as u8);
    let rowsw = crate::record::spec_write_rows(pr.genotype);
    let tailw: Seq<u8> = if pr.format.len() == 0 {
        Seq::<u8>::empty()
    } else {
        tab + fmtw + rowsw
    };
    let r_after_i = tailw + nl;
    let r_i = iw + r_after_i;
    let r_tf = tab + r_i;
    let r_f = fw + r_tf;
    let r_tq = tab + r_f;
    let r_q = qw + r_tq;
    assert(line.skip(p6) =~= tab + r_q);
    lemma_advance(line, p6, tab, r_q);
    assert(line[p6] == '\t' as u8);
    let p7 = p6 + 1;

    // quality
    match pr.qual {
        None => {
            assert(line.skip(p7)[0] == '.' as u8) by {
                assert(line.skip(p7)[0] == r_q[0]);
                assert(r_q[0] == dot_bytes()[0]);
            }
            assert(spec_float_len(line.skip(p7)) == Some(1nat));
            assert(line.skip(p7).take(1) =~= dot_bytes());
        },
        Some(q) => {
            lemma_float_of_text(q, r_tq);
            assert(spec_float_len(line.skip(p7)) == Some(q.len() as nat)) by {
                assert(line.skip(p7) == q + r_tq);
            }
            assert(line.skip(p7).take(q.len() as int) =~= q);
            assert(!(line.skip(p7).take(q.len() as int) =~= dot_bytes()));
        },
    }
    lemma_advance(line, p7, qw, r_tq);
    let p8 = p7 + qw.len();
    assert(line[p8] == '\t' as u8);
    lemma_advance(line, p8, tab, r_f);
    let p9a = p8 + 1;

    // filter
    proof_delimiter_comma();
    lemma_list_column(pr.filter, comma_col_stops(), ',' as u8, r_tf);
    let sv_f = spec_sep_values(line.skip(p9a), comma_col_stops(), ',' as u8, false);
    assert(sv_f.1 == fw.len() && crate::record::parser::spec_decoded_all(
        crate::record::parser::collapse_dot_list(sv_f.0),
    ) == pr.filter) by {
        assert(line.skip(p9a) == fw + r_tf);
    }
    lemma_advance(line, p9a, fw, r_tf);
    let p9 = p9a + fw.len();
    assert(line[p9] == '\t' as u8);
    lemma_advance(line, p9, tab, r_i);
    let p10a = p9 + 1;

    // info
    assert(column_boundary(r_after_i)) by {
        if pr.format.len() == 0 {
            assert(r_after_i =~= nl);
        } else {
            assert(r_after_i[0] == '\t' as u8);
        }
    }
    if pr.info.len() == 0 {
        assert(iw == dot_bytes());
        lemma_parse_info_of_dot(r_after_i);
        assert(spec_info_collapse(seq![(dot_bytes(), Seq::<Seq<u8>>::empty())]) =~= pr.info);
    } else {
        lemma_parse_info_of_join(pr.info, r_after_i);
        assert(iw =~= spec_join_with(
            pr.info.map_values(|e: (Seq<u8>, Seq<Seq<u8>>)| spec_write_info_entry(e)),
            ';' as u8,
        ));
        assert(spec_info_collapse(pr.info) == pr.info);
    }
    let pi = spec_parse_info(line.skip(p10a));
    assert(pi.1 == iw.len() && spec_info_collapse(pi.0) == pr.info) by {
        assert(line.skip(p10a) == iw + r_after_i);
    }
    lemma_advance(line, p10a, iw, r_after_i);
    let p10 = p10a + iw.len();

    // format and genotypes
    if pr.format.len() == 0 {
        assert(pr.genotype.len() == 0);
        assert(line.skip(p10) =~= nl);
        assert(line[p10] == '\n' as u8);
        assert(line.len() - 1 == p10);
        assert(spec_optional_columns(line, p6 as nat) == Some(
            (pr.qual, pr.filter, pr.info, pr.format, pr.genotype, (line.len() - 1) as nat),
        ));
    } else {
        let r_rows = rowsw + nl;
        let r_fmt = fmtw + r_rows;
        assert(line.skip(p10) =~= tab + r_fmt);
        lemma_advance(line, p10, tab, r_fmt);
        assert(line[p10] == '\t' as u8);
        let p11a = p10 + 1;
        assert(list_boundary(r_rows, format_col_stops(), ':' as u8)) by {
            if pr.genotype.len() == 0 {
                assert(r_rows =~= nl);
            } else {
                assert(r_rows[0] == '\t' as u8);
            }
        }
        proof_delimiter_format();
        lemma_list_column(pr.format, format_col_stops(), ':' as u8, r_rows);
        let sv_fmt = spec_sep_values(line.skip(p11a), format_col_stops(), ':' as u8, false);
        assert(sv_fmt.1 == fmtw.len() && crate::record::parser::spec_decoded_all(
            crate::record::parser::collapse_dot_list(sv_fmt.0),
        ) == pr.format) by {
            assert(line.skip(p11a) == fmtw + r_rows);
        }
        lemma_advance(line, p11a, fmtw, r_rows);
        let p11 = p11a + fmtw.len();
        if pr.genotype.len() == 0 {
            assert(rowsw.len() == 0);
            assert(line.skip(p11) =~= nl);
            assert(line[p11] == '\n' as u8);
            assert(line.len() - 1 == p11);
            assert(crate::record::parser::genotype_decode(
                crate::record::parser::genotype_collapse(Seq::<Seq<Seq<Seq<u8>>>>::empty()),
            ) =~= pr.genotype);
        } else {
            assert(rowsw[0] == '\t' as u8);
            assert(line[p11] == '\t' as u8) by {
                assert(r_rows[0] == rowsw[0]);
            }
            assert(line.skip(p11) =~= tab + (rowsw.skip(1) + nl)) by {
                assert(rowsw =~= tab + rowsw.skip(1));
            }
            lemma_advance(line, p11, tab, rowsw.skip(1) + nl);
            let p12 = p11 + 1;
            lemma_double_of_rows(pr.genotype, nl);
            let dvg = crate::record::parser::spec_double_nested_values(
                line.skip(p12),
                crate::record::parser::genotype_col_stops(),
                ',' as u8,
                ':' as u8,
                '\t' as u8,
            );
            assert(dvg == (
                pr.genotype.map_values(|row: Seq<Seq<Seq<u8>>>| raw_row(row)),
                rowsw.skip(1).len() as nat,
            )) by {
                assert(line.skip(p12) == rowsw.skip(1) + nl);
            }
            assert(crate::record::parser::genotype_decode(
                crate::record::parser::genotype_collapse(dvg.0),
            ) =~~= pr.genotype) by {
                let collapsed = crate::record::parser::genotype_collapse(dvg.0);
                let decoded = crate::record::parser::genotype_decode(collapsed);
                assert forall|x: int| 0 <= x < pr.genotype.len() implies #[trigger] decoded[x]
                    == pr.genotype[x] by {
                    assert(dvg.0[x] == raw_row(pr.genotype[x]));
                    assert(collapsed[x] == row_collapse(raw_row(pr.genotype[x])));
                    assert(decoded[x] == collapsed[x].map_values(
                        |c: Seq<Seq<u8>>| crate::record::parser::spec_decoded_all(c),
                    ));
                    lemma_row_collapse_raw(pr.genotype[x]);
                }
            }
            lemma_advance(line, p12, rowsw.skip(1), nl);
            assert(line.len() - 1 == p12 + rowsw.skip(1).len());
        }
    }
}

/// The five fixed columns of a written record parse back to the record's
/// fields, leaving the optional columns at the right position.
#[verifier::rlimit(100)]
#[verifier::spinoff_prover]
proof fn lemma_fixed_of_write(pr: ParsedRecord)
    requires
        record_roundtrip_wf(pr),
    ensures
        ({
            let line = crate::record::spec_write_record(pr);
            let cl = token_run(line, hard_stops());
            let p1 = cl + 1;
            let dl = digit_run(line.skip(p1 as int));
            let digits = line.skip(p1 as int).take(dl as int);
            let p2 = p1 + dl + 1;
            let sv_id = spec_sep_values(line.skip(p2 as int), comma_col_stops(), ',' as u8, false);
            let p3 = p2 + sv_id.1;
            let p4 = p3 + 1;
            let rl = token_run(line.skip(p4 as int), hard_stops());
            let p5 = p4 + rl + 1;
            let sv_alt = spec_sep_values(line.skip(p5 as int), comma_col_stops(), ',' as u8, false);
            let p6 = p5 + sv_alt.1;
            &&& cl == pr.chromosome.len() && cl >= 1
            &&& line.take(cl as int) == pr.chromosome
            &&& cl < line.len() && line[cl as int] == '\t' as u8
            &&& dl >= 1 && dec_val(digits) == pr.position
            &&& p1 + dl < line.len() && line[(p1 + dl) as int] == '\t' as u8
            &&& crate::record::parser::spec_decoded_all(
                crate::record::parser::collapse_dot_list(sv_id.0),
            ) == pr.id
            &&& p3 < line.len() && line[p3 as int] == '\t' as u8
            &&& rl >= 1 && line.skip(p4 as int).take(rl as int) == pr.reference
            &&& p4 + rl < line.len() && line[(p4 + rl) as int] == '\t' as u8
            &&& crate::record::parser::spec_decoded_all(
                crate::record::parser::collapse_dot_list(sv_alt.0),
            ) == pr.alternative
            &&& p6 <= line.len() && line.skip(p6 as int) == crate::record::spec_optional_written(
                pr,
            )
        }),
{
    let tab = seq!['\t' as u8];
    let c = pr.chromosome;
    let posd = dec_digits(pr.position as nat);
    let idw = spec_write_array(pr.id, ',' as u8);
    let refw = pr.reference;
    let altw = spec_write_array(pr.alternative, ',' as u8);
    let line = crate::record::spec_write_record(pr);
    lemma_dec_digits_shape(pr.position as nat);

    let opt = crate::record::spec_optional_written(pr);
    let r8 = altw + opt;
    let r7 = tab + r8;
    let r6 = refw + r7;
    let r5 = tab + r6;
    let r4 = idw + r5;
    let r3 = tab + r4;
    let r2 = posd + r3;
    let r1 = tab + r2;
    assert(line == c + r1);
    assert(line.skip(0) =~= line);

    // chromosome
    lemma_token_run_concat(c, r1, hard_stops());
    let cl = token_run(line, hard_stops());
    assert(cl == c.len()) by {
        assert(token_run(c + r1, hard_stops()) == c.len());
    }
    assert(line.take(cl as int) =~= c);
    lemma_advance(line, 0, c, r1);
    assert(line[cl as int] == '\t' as u8);
    lemma_advance(line, cl as int, tab, r2);
    let p1 = cl + 1;

    // position
    lemma_digit_run_concat(posd, r3);
    crate::record::parser::lemma_digit_run_bounds(posd);
    assert(digit_run(posd) == posd.len()) by {
        if digit_run(posd) < posd.len() {
            assert(crate::bytestr::is_digit_byte(posd[digit_run(posd) as int]));
        }
    }
    let dl = digit_run(line.skip(p1 as int));
    assert(dl == posd.len()) by {
        assert(line.skip(p1 as int) == posd + r3);
    }
    assert(line.skip(p1 as int).take(dl as int) =~= posd);
    assert(dec_val(posd) == pr.position);
    lemma_advance(line, p1 as int, posd, r3);
    assert(line[(p1 + dl) as int] == '\t' as u8);
    lemma_advance(line, (p1 + dl) as int, tab, r4);
    let p2 = p1 + dl + 1;

    // id
    proof_delimiter_comma();
    lemma_list_column(pr.id, comma_col_stops(), ',' as u8, r5);
    let sv_id = spec_sep_values(line.skip(p2 as int), comma_col_stops(), ',' as u8, false);
    assert(sv_id.1 == idw.len() && crate::record::parser::spec_decoded_all(
        crate::record::parser::collapse_dot_list(sv_id.0),
    ) == pr.id) by {
        assert(line.skip(p2 as int) == idw + r5);
    }
    lemma_advance(line, p2 as int, idw, r5);
    let p3 = p2 + sv_id.1;
    assert(line[p3 as int] == '\t' as u8);
    lemma_advance(line, p3 as int, tab, r6);
    let p4 = p3 + 1;

    // reference
    lemma_token_run_concat(refw, r7, hard_stops());
    let rl = token_run(line.skip(p4 as int), hard_stops());
    assert(rl == refw.len()) by {
        assert(line.skip(p4 as int) == refw + r7);
    }
    assert(line.skip(p4 as int).take(rl as int) =~= refw);
    lemma_advance(line, p4 as int, refw, r7);
    assert(line[(p4 + rl) as int] == '\t' as u8);
    lemma_advance(line, (p4 + rl) as int, tab, r8);
    let p5 = p4 + rl + 1;

    // alternative
    lemma_list_column(pr.alternative, comma_col_stops(), ',' as u8, opt);
    let sv_alt = spec_sep_values(line.skip(p5 as int), comma_col_stops(), ',' as u8, false);
    assert(sv_alt.1 == altw.len() && crate::record::parser::spec_decoded_all(
        crate::record::parser::collapse_dot_list(sv_alt.0),
    ) == pr.alternative) by {
        assert(line.skip(p5 as int) == altw + opt);
    }
    lemma_advance(line, p5 as int, altw, opt);
}

/// Writing a well-formed record and parsing the bytes back yields the
/// record unchanged: the round-trip law for data lines.
#[verifier::rlimit(100)]
#[verifier::spinoff_prover]
pub proof fn lemma_write_then_parse(pr: ParsedRecord)
    requires
        record_roundtrip_wf(pr),
    ensures
        ({
            let line = crate::record::spec_write_record(pr);
            spec_parse_record(line) == Some(ParsedRecord { end: line.len() as nat, ..pr })
        }),
{
    let line = crate::record::spec_write_record(pr);
    lemma_fixed_of_write(pr);
    let cl = token_run(line, hard_stops());
    let p1 = cl + 1;
    let dl = digit_run(line.skip(p1 as int));
    let p2 = p1 + dl + 1;
    let sv_id = spec_sep_values(line.skip(p2 as int), comma_col_stops(), ',' as u8, false);
    let p3 = p2 + sv_id.1;
    let p4 = p3 + 1;
    let rl = token_run(line.skip(p4 as int), hard_stops());
    let p5 = p4 + rl + 1;
    let sv_alt = spec_sep_values(line.skip(p5 as int), comma_col_stops(), ',' as u8, false);
    let p6 = p5 + sv_alt.1;
    lemma_optional_of_write(pr, line, p6 as int);
    let o = spec_optional_columns(line, p6 as nat);
    let pe: int = line.len() - 1;
    assert(line[pe] == '\n' as u8) by {
        assert(crate::record::spec_optional_written(pr).last() == '\n' as u8);
        assert(line.skip(p6 as int).last() == line[line.len() - 1]);
    }
    assert(!(line[pe] == '\r' as u8));
    assert(dec_val(line.skip(p1 as int).take(dl as int)) <= u64::MAX);
    let built = ParsedRecord {
        chromosome: line.take(cl as int),
        position: dec_val(line.skip(p1 as int).take(dl as int)) as u64,
        id: crate::record::parser::spec_decoded_all(
            crate::record::parser::collapse_dot_list(sv_id.0),
        ),
        reference: line.skip(p4 as int).take(rl as int),
        alternative: crate::record::parser::spec_decoded_all(
            crate::record::parser::collapse_dot_list(sv_alt.0),
        ),
        qual: o.unwrap().0,
        filter: o.unwrap().1,
        info: o.unwrap().2,
        format: o.unwrap().3,
        genotype: o.unwrap().4,
        end: (pe + 1) as nat,
    };
    assert(spec_parse_record(line) == Some(built));
    assert(built == ParsedRecord { end: line.len() as nat, ..pr }) by {
        assert(built.position == pr.position);
        assert(built.chromosome == pr.chromosome);
        assert(built.id == pr.id);
        assert(built.reference == pr.reference);
        assert(built.alternative == pr.alternative);
        assert(built.qual == pr.qual);
        assert(built.filter == pr.filter);
        assert(built.info == pr.info);
        assert(built.format == pr.format);
        assert(built.genotype == pr.genotype);
        assert(built.end == line.len() as nat);
    }
}

/// The round-trip law at the byte level: any line that some well-formed
/// record serializes to parses successfully, and writing the parsed record
/// reproduces the line byte for byte.
pub proof fn lemma_line_round_trip(line: Seq<u8>)
    requires
        exists|pr: ParsedRecord|
            record_roundtrip_wf(pr) && line == #[trigger] crate::record::spec_write_record(pr),
    ensures
        spec_parse_record(line) is Some,
        crate::record::spec_write_record(spec_parse_record(line).unwrap()) == line,
{
    let pr = choose|pr: ParsedRecord|
        record_roundtrip_wf(pr) && line == #[trigger] crate::record::spec_write_record(pr);
    lemma_write_then_parse(pr);
    let parsed = spec_parse_record(line).unwrap();
    assert(crate::record::spec_write_record(parsed) == crate::record::spec_write_record(pr)) by {
        assert(crate::record::spec_optional_written(parsed) == crate::record::spec_optional_written(
            pr,
        ));
    }
}

} // verus!
