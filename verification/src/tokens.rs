//! The fixed byte tokens of the VCF header and column-header grammars, each
//! available as a spec sequence and as an executable value.

use vstd::prelude::*;

verus! {

pub open spec fn lit_info_open() -> Seq<u8> {
    seq!['I' as u8, 'N' as u8, 'F' as u8, 'O' as u8, '=' as u8, '<' as u8]
}

/// The bytes `INFO=<`.
pub fn tok_info_open() -> (r: Vec<u8>)
    ensures
        r@ == lit_info_open(),
{
    let a: [u8; 6] = ['I' as u8, 'N' as u8, 'F' as u8, 'O' as u8, '=' as u8, '<' as u8];
    let r = vstd::slice::slice_to_vec(a.as_slice());
    proof {
        assert(r@ =~= lit_info_open());
    }
    r
}

pub open spec fn lit_format_open() -> Seq<u8> {
    seq!['F' as u8, 'O' as u8, 'R' as u8, 'M' as u8, 'A' as u8, 'T' as u8, '=' as u8, '<' as u8]
}

/// The bytes `FORMAT=<`.
pub fn tok_format_open() -> (r: Vec<u8>)
    ensures
        r@ == lit_format_open(),
{
    let a: [u8; 8] = ['F' as u8, 'O' as u8, 'R' as u8, 'M' as u8, 'A' as u8, 'T' as u8, '=' as u8, '<' as u8];
    let r = vstd::slice::slice_to_vec(a.as_slice());
    proof {
        assert(r@ =~= lit_format_open());
    }
    r
}

pub open spec fn lit_alt_open() -> Seq<u8> {
    seq!['A' as u8, 'L' as u8, 'T' as u8, '=' as u8, '<' as u8]
}

/// The bytes `ALT=<`.
pub fn tok_alt_open() -> (r: Vec<u8>)
    ensures
        r@ == lit_alt_open(),
{
    let a: [u8; 5] = ['A' as u8, 'L' as u8, 'T' as u8, '=' as u8, '<' as u8];
    let r = vstd::slice::slice_to_vec(a.as_slice());
    proof {
        assert(r@ =~= lit_alt_open());
    }
    r
}

pub open spec fn lit_filter_open() -> Seq<u8> {
    seq!['F' as u8, 'I' as u8, 'L' as u8, 'T' as u8, 'E' as u8, 'R' as u8, '=' as u8, '<' as u8]
}

/// The bytes `FILTER=<`.
pub fn tok_filter_open() -> (r: Vec<u8>)
    ensures
        r@ == lit_filter_open(),
{
    let a: [u8; 8] = ['F' as u8, 'I' as u8, 'L' as u8, 'T' as u8, 'E' as u8, 'R' as u8, '=' as u8, '<' as u8];
    let r = vstd::slice::slice_to_vec(a.as_slice());
    proof {
        assert(r@ =~= lit_filter_open());
    }
    r
}

pub open spec fn lit_contig_open() -> Seq<u8> {
    seq!['c' as u8, 'o' as u8, 'n' as u8, 't' as u8, 'i' as u8, 'g' as u8, '=' as u8, '<' as u8]
}

/// The bytes `contig=<`.
pub fn tok_contig_open() -> (r: Vec<u8>)
    ensures
        r@ == lit_contig_open(),
{
    let a: [u8; 8] = ['c' as u8, 'o' as u8, 'n' as u8, 't' as u8, 'i' as u8, 'g' as u8, '=' as u8, '<' as u8];
    let r = vstd::slice::slice_to_vec(a.as_slice());
    proof {
        assert(r@ =~= lit_contig_open());
    }
    r
}

pub open spec fn lit_fileformat_eq() -> Seq<u8> {
    seq!['f' as u8, 'i' as u8, 'l' as u8, 'e' as u8, 'f' as u8, 'o' as u8, 'r' as u8, 'm' as u8, 'a' as u8, 't' as u8, '=' as u8]
}

/// The bytes `fileformat=`.
pub fn tok_fileformat_eq() -> (r: Vec<u8>)
    ensures
        r@ == lit_fileformat_eq(),
{
    let a: [u8; 11] = ['f' as u8, 'i' as u8, 'l' as u8, 'e' as u8, 'f' as u8, 'o' as u8, 'r' as u8, 'm' as u8, 'a' as u8, 't' as u8, '=' as u8];
    let r = vstd::slice::slice_to_vec(a.as_slice());
    proof {
        assert(r@ =~= lit_fileformat_eq());
    }
    r
}

pub open spec fn lit_key_id() -> Seq<u8> {
    seq!['I' as u8, 'D' as u8]
}

/// The bytes `ID`.
pub fn tok_key_id() -> (r: Vec<u8>)
    ensures
        r@ == lit_key_id(),
{
    let a: [u8; 2] = ['I' as u8, 'D' as u8];
    let r = vstd::slice::slice_to_vec(a.as_slice());
    proof {
        assert(r@ =~= lit_key_id());
    }
    r
}

pub open spec fn lit_key_number() -> Seq<u8> {
    seq!['N' as u8, 'u' as u8, 'm' as u8, 'b' as u8, 'e' as u8, 'r' as u8]
}

/// The bytes `Number`.
pub fn tok_key_number() -> (r: Vec<u8>)
    ensures
        r@ == lit_key_number(),
{
    let a: [u8; 6] = ['N' as u8, 'u' as u8, 'm' as u8, 'b' as u8, 'e' as u8, 'r' as u8];
    let r = vstd::slice::slice_to_vec(a.as_slice());
    proof {
        assert(r@ =~= lit_key_number());
    }
    r
}

pub open spec fn lit_key_type() -> Seq<u8> {
    seq!['T' as u8, 'y' as u8, 'p' as u8, 'e' as u8]
}

/// The bytes `Type`.
pub fn tok_key_type() -> (r: Vec<u8>)
    ensures
        r@ == lit_key_type(),
{
    let a: [u8; 4] = ['T' as u8, 'y' as u8, 'p' as u8, 'e' as u8];
    let r = vstd::slice::slice_to_vec(a.as_slice());
    proof {
        assert(r@ =~= lit_key_type());
    }
    r
}

pub open spec fn lit_key_description() -> Seq<u8> {
    seq!['D' as u8, 'e' as u8, 's' as u8, 'c' as u8, 'r' as u8, 'i' as u8, 'p' as u8, 't' as u8, 'i' as u8, 'o' as u8, 'n' as u8]
}

/// The bytes `Description`.
pub fn tok_key_description() -> (r: Vec<u8>)
    ensures
        r@ == lit_key_description(),
{
    let a: [u8; 11] = ['D' as u8, 'e' as u8, 's' as u8, 'c' as u8, 'r' as u8, 'i' as u8, 'p' as u8, 't' as u8, 'i' as u8, 'o' as u8, 'n' as u8];
    let r = vstd::slice::slice_to_vec(a.as_slice());
    proof {
        assert(r@ =~= lit_key_description());
    }
    r
}

pub open spec fn lit_key_source() -> Seq<u8> {
    seq!['S' as u8, 'o' as u8, 'u' as u8, 'r' as u8, 'c' as u8, 'e' as u8]
}

/// The bytes `Source`.
pub fn tok_key_source() -> (r: Vec<u8>)
    ensures
        r@ == lit_key_source(),
{
    let a: [u8; 6] = ['S' as u8, 'o' as u8, 'u' as u8, 'r' as u8, 'c' as u8, 'e' as u8];
    let r = vstd::slice::slice_to_vec(a.as_slice());
    proof {
        assert(r@ =~= lit_key_source());
    }
    r
}

pub open spec fn lit_key_version() -> Seq<u8> {
    seq!['V' as u8, 'e' as u8, 'r' as u8, 's' as u8, 'i' as u8, 'o' as u8, 'n' as u8]
}

/// The bytes `Version`.
pub fn tok_key_version() -> (r: Vec<u8>)
    ensures
        r@ == lit_key_version(),
{
    let a: [u8; 7] = ['V' as u8, 'e' as u8, 'r' as u8, 's' as u8, 'i' as u8, 'o' as u8, 'n' as u8];
    let r = vstd::slice::slice_to_vec(a.as_slice());
    proof {
        assert(r@ =~= lit_key_version());
    }
    r
}

pub open spec fn lit_key_length() -> Seq<u8> {
    seq!['l' as u8, 'e' as u8, 'n' as u8, 'g' as u8, 't' as u8, 'h' as u8]
}

/// The bytes `length`.
pub fn tok_key_length() -> (r: Vec<u8>)
    ensures
        r@ == lit_key_length(),
{
    let a: [u8; 6] = ['l' as u8, 'e' as u8, 'n' as u8, 'g' as u8, 't' as u8, 'h' as u8];
    let r = vstd::slice::slice_to_vec(a.as_slice());
    proof {
        assert(r@ =~= lit_key_length());
    }
    r
}

pub open spec fn lit_vt_string() -> Seq<u8> {
    seq!['S' as u8, 't' as u8, 'r' as u8, 'i' as u8, 'n' as u8, 'g' as u8]
}

/// The bytes `String`.
pub fn tok_vt_string() -> (r: Vec<u8>)
    ensures
        r@ == lit_vt_string(),
{
    let a: [u8; 6] = ['S' as u8, 't' as u8, 'r' as u8, 'i' as u8, 'n' as u8, 'g' as u8];
    let r = vstd::slice::slice_to_vec(a.as_slice());
    proof {
        assert(r@ =~= lit_vt_string());
    }
    r
}

pub open spec fn lit_vt_integer() -> Seq<u8> {
    seq!['I' as u8, 'n' as u8, 't' as u8, 'e' as u8, 'g' as u8, 'e' as u8, 'r' as u8]
}

/// The bytes `Integer`.
pub fn tok_vt_integer() -> (r: Vec<u8>)
    ensures
        r@ == lit_vt_integer(),
{
    let a: [u8; 7] = ['I' as u8, 'n' as u8, 't' as u8, 'e' as u8, 'g' as u8, 'e' as u8, 'r' as u8];
    let r = vstd::slice::slice_to_vec(a.as_slice());
    proof {
        assert(r@ =~= lit_vt_integer());
    }
    r
}

pub open spec fn lit_vt_flag() -> Seq<u8> {
    seq!['F' as u8, 'l' as u8, 'a' as u8, 'g' as u8]
}

/// The bytes `Flag`.
pub fn tok_vt_flag() -> (r: Vec<u8>)
    ensures
        r@ == lit_vt_flag(),
{
    let a: [u8; 4] = ['F' as u8, 'l' as u8, 'a' as u8, 'g' as u8];
    let r = vstd::slice::slice_to_vec(a.as_slice());
    proof {
        assert(r@ =~= lit_vt_flag());
    }
    r
}

pub open spec fn lit_vt_character() -> Seq<u8> {
    seq!['C' as u8, 'h' as u8, 'a' as u8, 'r' as u8, 'a' as u8, 'c' as u8, 't' as u8, 'e' as u8, 'r' as u8]
}

/// The bytes `Character`.
pub fn tok_vt_character() -> (r: Vec<u8>)
    ensures
        r@ == lit_vt_character(),
{
    let a: [u8; 9] = ['C' as u8, 'h' as u8, 'a' as u8, 'r' as u8, 'a' as u8, 'c' as u8, 't' as u8, 'e' as u8, 'r' as u8];
    let r = vstd::slice::slice_to_vec(a.as_slice());
    proof {
        assert(r@ =~= lit_vt_character());
    }
    r
}

pub open spec fn lit_vt_float() -> Seq<u8> {
    seq!['F' as u8, 'l' as u8, 'o' as u8, 'a' as u8, 't' as u8]
}

/// The bytes `Float`.
pub fn tok_vt_float() -> (r: Vec<u8>)
    ensures
        r@ == lit_vt_float(),
{
    let a: [u8; 5] = ['F' as u8, 'l' as u8, 'o' as u8, 'a' as u8, 't' as u8];
    let r = vstd::slice::slice_to_vec(a.as_slice());
    proof {
        assert(r@ =~= lit_vt_float());
    }
    r
}

pub open spec fn lit_ver_4_0() -> Seq<u8> {
    seq!['V' as u8, 'C' as u8, 'F' as u8, 'v' as u8, '4' as u8, '.' as u8, '0' as u8]
}

/// The bytes `VCFv4.0`.
pub fn tok_ver_4_0() -> (r: Vec<u8>)
    ensures
        r@ == lit_ver_4_0(),
{
    let a: [u8; 7] = ['V' as u8, 'C' as u8, 'F' as u8, 'v' as u8, '4' as u8, '.' as u8, '0' as u8];
    let r = vstd::slice::slice_to_vec(a.as_slice());
    proof {
        assert(r@ =~= lit_ver_4_0());
    }
    r
}

pub open spec fn lit_ver_4_1() -> Seq<u8> {
    seq!['V' as u8, 'C' as u8, 'F' as u8, 'v' as u8, '4' as u8, '.' as u8, '1' as u8]
}

/// The bytes `VCFv4.1`.
pub fn tok_ver_4_1() -> (r: Vec<u8>)
    ensures
        r@ == lit_ver_4_1(),
{
    let a: [u8; 7] = ['V' as u8, 'C' as u8, 'F' as u8, 'v' as u8, '4' as u8, '.' as u8, '1' as u8];
    let r = vstd::slice::slice_to_vec(a.as_slice());
    proof {
        assert(r@ =~= lit_ver_4_1());
    }
    r
}

pub open spec fn lit_ver_4_2() -> Seq<u8> {
    seq!['V' as u8, 'C' as u8, 'F' as u8, 'v' as u8, '4' as u8, '.' as u8, '2' as u8]
}

/// The bytes `VCFv4.2`.
pub fn tok_ver_4_2() -> (r: Vec<u8>)
    ensures
        r@ == lit_ver_4_2(),
{
    let a: [u8; 7] = ['V' as u8, 'C' as u8, 'F' as u8, 'v' as u8, '4' as u8, '.' as u8, '2' as u8];
    let r = vstd::slice::slice_to_vec(a.as_slice());
    proof {
        assert(r@ =~= lit_ver_4_2());
    }
    r
}

pub open spec fn lit_ver_4_3() -> Seq<u8> {
    seq!['V' as u8, 'C' as u8, 'F' as u8, 'v' as u8, '4' as u8, '.' as u8, '3' as u8]
}

/// The bytes `VCFv4.3`.
pub fn tok_ver_4_3() -> (r: Vec<u8>)
    ensures
        r@ == lit_ver_4_3(),
{
    let a: [u8; 7] = ['V' as u8, 'C' as u8, 'F' as u8, 'v' as u8, '4' as u8, '.' as u8, '3' as u8];
    let r = vstd::slice::slice_to_vec(a.as_slice());
    proof {
        assert(r@ =~= lit_ver_4_3());
    }
    r
}

pub open spec fn lit_sample_prefix() -> Seq<u8> {
    seq!['#' as u8, 'C' as u8, 'H' as u8, 'R' as u8, 'O' as u8, 'M' as u8, '\t' as u8, 'P' as u8, 'O' as u8, 'S' as u8, '\t' as u8, 'I' as u8, 'D' as u8, '\t' as u8, 'R' as u8, 'E' as u8, 'F' as u8, '\t' as u8, 'A' as u8, 'L' as u8, 'T' as u8]
}

/// The bytes `#CHROM\tPOS\tID\tREF\tALT`.
pub fn tok_sample_prefix() -> (r: Vec<u8>)
    ensures
        r@ == lit_sample_prefix(),
{
    let a: [u8; 21] = ['#' as u8, 'C' as u8, 'H' as u8, 'R' as u8, 'O' as u8, 'M' as u8, '\t' as u8, 'P' as u8, 'O' as u8, 'S' as u8, '\t' as u8, 'I' as u8, 'D' as u8, '\t' as u8, 'R' as u8, 'E' as u8, 'F' as u8, '\t' as u8, 'A' as u8, 'L' as u8, 'T' as u8];
    let r = vstd::slice::slice_to_vec(a.as_slice());
    proof {
        assert(r@ =~= lit_sample_prefix());
    }
    r
}

pub open spec fn lit_opt_qual() -> Seq<u8> {
    seq!['\t' as u8, 'Q' as u8, 'U' as u8, 'A' as u8, 'L' as u8]
}

/// The bytes `\tQUAL`.
pub fn tok_opt_qual() -> (r: Vec<u8>)
    ensures
        r@ == lit_opt_qual(),
{
    let a: [u8; 5] = ['\t' as u8, 'Q' as u8, 'U' as u8, 'A' as u8, 'L' as u8];
    let r = vstd::slice::slice_to_vec(a.as_slice());
    proof {
        assert(r@ =~= lit_opt_qual());
    }
    r
}

pub open spec fn lit_opt_filter() -> Seq<u8> {
    seq!['\t' as u8, 'F' as u8, 'I' as u8, 'L' as u8, 'T' as u8, 'E' as u8, 'R' as u8]
}

/// The bytes `\tFILTER`.
pub fn tok_opt_filter() -> (r: Vec<u8>)
    ensures
        r@ == lit_opt_filter(),
{
    let a: [u8; 7] = ['\t' as u8, 'F' as u8, 'I' as u8, 'L' as u8, 'T' as u8, 'E' as u8, 'R' as u8];
    let r = vstd::slice::slice_to_vec(a.as_slice());
    proof {
        assert(r@ =~= lit_opt_filter());
    }
    r
}

pub open spec fn lit_opt_info() -> Seq<u8> {
    seq!['\t' as u8, 'I' as u8, 'N' as u8, 'F' as u8, 'O' as u8]
}

/// The bytes `\tINFO`.
pub fn tok_opt_info() -> (r: Vec<u8>)
    ensures
        r@ == lit_opt_info(),
{
    let a: [u8; 5] = ['\t' as u8, 'I' as u8, 'N' as u8, 'F' as u8, 'O' as u8];
    let r = vstd::slice::slice_to_vec(a.as_slice());
    proof {
        assert(r@ =~= lit_opt_info());
    }
    r
}

pub open spec fn lit_opt_format() -> Seq<u8> {
    seq!['\t' as u8, 'F' as u8, 'O' as u8, 'R' as u8, 'M' as u8, 'A' as u8, 'T' as u8]
}

/// The bytes `\tFORMAT`.
pub fn tok_opt_format() -> (r: Vec<u8>)
    ensures
        r@ == lit_opt_format(),
{
    let a: [u8; 7] = ['\t' as u8, 'F' as u8, 'O' as u8, 'R' as u8, 'M' as u8, 'A' as u8, 'T' as u8];
    let r = vstd::slice::slice_to_vec(a.as_slice());
    proof {
        assert(r@ =~= lit_opt_format());
    }
    r
}

pub open spec fn lit_column_header() -> Seq<u8> {
    seq!['#' as u8, 'C' as u8, 'H' as u8, 'R' as u8, 'O' as u8, 'M' as u8, '\t' as u8, 'P' as u8, 'O' as u8, 'S' as u8, '\t' as u8, 'I' as u8, 'D' as u8, '\t' as u8, 'R' as u8, 'E' as u8, 'F' as u8, '\t' as u8, 'A' as u8, 'L' as u8, 'T' as u8, '\t' as u8, 'Q' as u8, 'U' as u8, 'A' as u8, 'L' as u8, '\t' as u8, 'F' as u8, 'I' as u8, 'L' as u8, 'T' as u8, 'E' as u8, 'R' as u8, '\t' as u8, 'I' as u8, 'N' as u8, 'F' as u8, 'O' as u8]
}

/// The bytes `#CHROM\tPOS\tID\tREF\tALT\tQUAL\tFILTER\tINFO`.
pub fn tok_column_header() -> (r: Vec<u8>)
    ensures
        r@ == lit_column_header(),
{
    let a: [u8; 38] = ['#' as u8, 'C' as u8, 'H' as u8, 'R' as u8, 'O' as u8, 'M' as u8, '\t' as u8, 'P' as u8, 'O' as u8, 'S' as u8, '\t' as u8, 'I' as u8, 'D' as u8, '\t' as u8, 'R' as u8, 'E' as u8, 'F' as u8, '\t' as u8, 'A' as u8, 'L' as u8, 'T' as u8, '\t' as u8, 'Q' as u8, 'U' as u8, 'A' as u8, 'L' as u8, '\t' as u8, 'F' as u8, 'I' as u8, 'L' as u8, 'T' as u8, 'E' as u8, 'R' as u8, '\t' as u8, 'I' as u8, 'N' as u8, 'F' as u8, 'O' as u8];
    let r = vstd::slice::slice_to_vec(a.as_slice());
    proof {
        assert(r@ =~= lit_column_header());
    }
    r
}

} // verus!
