//! The VCF header model: typed `##` line contents, the header aggregate, and
//! its id-to-line lookup tables.

pub mod parser;

use vstd::prelude::*;

use crate::bytestr::clone_bytes;
use crate::kvlist::{
    assoc_find, assoc_lookup, assoc_set, lemma_assoc_find_some_iff, lemma_last_match_bounds,
    lemma_last_match_push, last_match,
};

verus! {

/// A declared arity of an INFO or FORMAT entry.
#[derive(Debug, Clone, Hash, PartialEq, Eq, PartialOrd, Ord)]
pub enum Number {
    Reference,
    Allele,
    Genotype,
    Zero,
    Number(i32),
    Unknown,
    Other(Vec<u8>),
}

/// A declared value type of an INFO or FORMAT entry.
#[derive(Debug, Clone, Hash, PartialEq, Eq, PartialOrd, Ord)]
pub enum ValueType {
    String,
    Integer,
    Flag,
    Character,
    Float,
    Other(Vec<u8>),
}

#[derive(Debug, Clone, Hash, PartialEq, Eq, PartialOrd, Ord)]
pub enum VCFVersion {
    Vcf4_3,
    Vcf4_2,
    Vcf4_1,
    Vcf4_0,
    Other(Vec<u8>),
}

/// The parsed content of one header line.
#[derive(Debug, Clone, Hash, PartialEq, Eq, PartialOrd, Ord)]
pub enum VCFHeaderContent {
    INFO {
        id: Vec<u8>,
        number: Number,
        value_type: ValueType,
        description: Vec<u8>,
        source: Option<Vec<u8>>,
        version: Option<Vec<u8>>,
    },
    FORMAT {
        id: Vec<u8>,
        number: Number,
        value_type: ValueType,
        description: Vec<u8>,
        source: Option<Vec<u8>>,
        version: Option<Vec<u8>>,
    },
    ALT {
        id: Vec<u8>,
        description: Vec<u8>,
    },
    FILTER {
        id: Vec<u8>,
        description: Vec<u8>,
    },
    Contig {
        id: Vec<u8>,
        length: Option<u64>,
    },
    FileFormat(VCFVersion),
    Other,
}

/// Structural equality of two `Number`s, comparing raw bytes by content.
pub open spec fn number_matches(a: Number, b: Number) -> bool {
    match (a, b) {
        (Number::Reference, Number::Reference) => true,
        (Number::Allele, Number::Allele) => true,
        (Number::Genotype, Number::Genotype) => true,
        (Number::Zero, Number::Zero) => true,
        (Number::Number(x), Number::Number(y)) => x == y,
        (Number::Unknown, Number::Unknown) => true,
        (Number::Other(u), Number::Other(v)) => u@ == v@,
        _ => false,
    }
}

/// Structural equality of two `ValueType`s, comparing raw bytes by content.
pub open spec fn value_type_matches(a: ValueType, b: ValueType) -> bool {
    match (a, b) {
        (ValueType::String, ValueType::String) => true,
        (ValueType::Integer, ValueType::Integer) => true,
        (ValueType::Flag, ValueType::Flag) => true,
        (ValueType::Character, ValueType::Character) => true,
        (ValueType::Float, ValueType::Float) => true,
        (ValueType::Other(u), ValueType::Other(v)) => u@ == v@,
        _ => false,
    }
}

/// `Option<Vec<u8>>` seen as an optional byte string.
pub open spec fn opt_bytes_view(o: Option<Vec<u8>>) -> Option<Seq<u8>> {
    match o {
        None => None,
        Some(v) => Some(v@),
    }
}

/// The typed fields of one INFO or FORMAT declaration.
#[derive(Debug, Clone, Hash, PartialEq, Eq, PartialOrd, Ord)]
pub struct VCFHeaderInfoFormat {
    pub id: Vec<u8>,
    pub number: Number,
    pub value_type: ValueType,
    pub description: Vec<u8>,
    pub source: Option<Vec<u8>>,
    pub version: Option<Vec<u8>>,
}

/// The typed fields of one FILTER or ALT declaration.
#[derive(Debug, Clone, Hash, PartialEq, Eq, PartialOrd, Ord)]
pub struct VCFHeaderFilterAlt {
    pub id: Vec<u8>,
    pub description: Vec<u8>,
}

/// One header line: the raw bytes exactly as read, plus the parsed content.
/// Writing a header emits `line` verbatim, so a parsed file round-trips.
#[derive(Debug, Clone, Hash, PartialEq, Eq, PartialOrd, Ord)]
pub struct VCFHeaderLine {
    line: Vec<u8>,
    contents: VCFHeaderContent,
}

impl VCFHeaderLine {
    /// The raw bytes of the line.
    pub closed spec fn spec_line(self) -> Seq<u8> {
        self.line@
    }

    /// The parsed content of the line.
    pub closed spec fn spec_contents(self) -> VCFHeaderContent {
        self.contents
    }

    pub fn line(&self) -> (r: &[u8])
        ensures
            r@ == self.spec_line(),
    {
        self.line.as_slice()
    }

    pub fn contents(&self) -> (r: &VCFHeaderContent)
        ensures
            *r == self.spec_contents(),
    {
        &self.contents
    }
}

/// Does this line declare INFO id `k`?
pub open spec fn info_pred(k: Seq<u8>) -> spec_fn(VCFHeaderLine) -> bool {
    |l: VCFHeaderLine|
        l.spec_contents() matches VCFHeaderContent::INFO { id, .. } && id@ == k
}

/// Does this line declare FORMAT id `k`?
pub open spec fn format_pred(k: Seq<u8>) -> spec_fn(VCFHeaderLine) -> bool {
    |l: VCFHeaderLine|
        l.spec_contents() matches VCFHeaderContent::FORMAT { id, .. } && id@ == k
}

/// Does this line declare ALT id `k`?
pub open spec fn alt_pred(k: Seq<u8>) -> spec_fn(VCFHeaderLine) -> bool {
    |l: VCFHeaderLine|
        l.spec_contents() matches VCFHeaderContent::ALT { id, .. } && id@ == k
}

/// Does this line declare FILTER id `k`?
pub open spec fn filter_pred(k: Seq<u8>) -> spec_fn(VCFHeaderLine) -> bool {
    |l: VCFHeaderLine|
        l.spec_contents() matches VCFHeaderContent::FILTER { id, .. } && id@ == k
}

pub open spec fn as_usize_opt(o: Option<int>) -> Option<usize> {
    match o {
        None => None,
        Some(i) => Some(i as usize),
    }
}

/// The views of a list of byte strings.
pub open spec fn views_of(v: Seq<Vec<u8>>) -> Seq<Seq<u8>> {
    v.map_values(|x: Vec<u8>| x@)
}

fn clone_number(n: &Number) -> (r: Number)
    ensures
        number_matches(r, *n),
{
    match n {
        Number::Reference => Number::Reference,
        Number::Allele => Number::Allele,
        Number::Genotype => Number::Genotype,
        Number::Zero => Number::Zero,
        Number::Number(x) => Number::Number(*x),
        Number::Unknown => Number::Unknown,
        Number::Other(v) => Number::Other(clone_bytes(v)),
    }
}

fn clone_value_type(t: &ValueType) -> (r: ValueType)
    ensures
        value_type_matches(r, *t),
{
    match t {
        ValueType::String => ValueType::String,
        ValueType::Integer => ValueType::Integer,
        ValueType::Flag => ValueType::Flag,
        ValueType::Character => ValueType::Character,
        ValueType::Float => ValueType::Float,
        ValueType::Other(v) => ValueType::Other(clone_bytes(v)),
    }
}

fn clone_opt_bytes(o: &Option<Vec<u8>>) -> (r: Option<Vec<u8>>)
    ensures
        opt_bytes_view(r) == opt_bytes_view(*o),
{
    match o {
        None => None,
        Some(v) => Some(clone_bytes(v)),
    }
}

/// The VCF header: its lines in declaration order, the sample names, and
/// id-to-line-index tables for the four declaration kinds.
#[derive(Debug, Clone, PartialEq, Eq)]
pub struct VCFHeader {
    items: Vec<VCFHeaderLine>,
    samples: Vec<Vec<u8>>,
    info_key: Vec<(Vec<u8>, usize)>,
    format_key: Vec<(Vec<u8>, usize)>,
    alt_key: Vec<(Vec<u8>, usize)>,
    filter_key: Vec<(Vec<u8>, usize)>,
    sample_to_index: Vec<(Vec<u8>, usize)>,
}

impl VCFHeader {
    /// The header lines, in declaration order.
    pub closed spec fn spec_items(self) -> Seq<VCFHeaderLine> {
        self.items@
    }

    /// The sample names, in column order.
    pub closed spec fn spec_samples(self) -> Seq<Vec<u8>> {
        self.samples@
    }

    /// The lookup tables point exactly at the last declaration of each id.
    /// `new` establishes this and nothing can unmake it; the lookup methods
    /// rely on it.
    pub closed spec fn wf(self) -> bool {
        &&& forall|k: Seq<u8>|
            assoc_find(self.info_key@, k) == as_usize_opt(last_match(self.items@, info_pred(k)))
        &&& forall|k: Seq<u8>|
            assoc_find(self.format_key@, k) == as_usize_opt(last_match(self.items@, format_pred(k)))
        &&& forall|k: Seq<u8>|
            assoc_find(self.alt_key@, k) == as_usize_opt(last_match(self.items@, alt_pred(k)))
        &&& forall|k: Seq<u8>|
            assoc_find(self.filter_key@, k) == as_usize_opt(last_match(self.items@, filter_pred(k)))
        &&& forall|k: Seq<u8>|
            assoc_find(self.sample_to_index@, k) == as_usize_opt(
                crate::kvlist::last_index_of(views_of(self.samples@), k),
            )
    }

    /// Builds a header from its lines and sample names, deriving the lookup
    /// tables in one pass each.
    pub fn new(items: Vec<VCFHeaderLine>, samples: Vec<Vec<u8>>) -> (r: VCFHeader)
        ensures
            r.spec_items() == items@,
            r.spec_samples() == samples@,
            r.wf(),
    {
        let info_key = create_info_key(&items);
        let format_key = create_format_key(&items);
        let alt_key = create_alt_key(&items);
        let filter_key = create_filter_key(&items);
        let sample_to_index = create_sample_index(&samples);
        VCFHeader { items, samples, info_key, format_key, alt_key, filter_key, sample_to_index }
    }

    pub fn items(&self) -> (r: &[VCFHeaderLine])
        ensures
            r@ == self.spec_items(),
    {
        self.items.as_slice()
    }

    pub fn samples(&self) -> (r: &[Vec<u8>])
        ensures
            r@ == self.spec_samples(),
    {
        self.samples.as_slice()
    }

    /// The INFO declaration for `key`, if any: the fields of the last
    /// `##INFO=<ID=key,...>` line.
    pub fn info(&self, key: &[u8]) -> (r: Option<VCFHeaderInfoFormat>)
        requires
            self.wf(),
        ensures
            ({
                let m = last_match(self.spec_items(), info_pred(key@));
                match r {
                    Some(f) => m matches Some(i)
                        && (self.spec_items()[i].spec_contents() matches VCFHeaderContent::INFO {
                            id, number, value_type, description, source, version,
                        } && f.id@ == id@ && number_matches(f.number, number) && value_type_matches(
                            f.value_type,
                            value_type,
                        ) && f.description@ == description@ && opt_bytes_view(f.source)
                            == opt_bytes_view(source) && opt_bytes_view(f.version)
                            == opt_bytes_view(version)),
                    None => m is None,
                }
            }),
    {
        proof {
            lemma_last_match_bounds(self.items@, info_pred(key@));
        }
        match assoc_lookup(&self.info_key, key) {
            None => None,
            Some(i) => {
                let n = self.items.len();
                proof {
                    assert(i < n);
                }
                match &self.items[i].contents {
                    VCFHeaderContent::INFO { id, number, value_type, description, source, version } => {
                        Some(VCFHeaderInfoFormat {
                            id: clone_bytes(id),
                            number: clone_number(number),
                            value_type: clone_value_type(value_type),
                            description: clone_bytes(description),
                            source: clone_opt_bytes(source),
                            version: clone_opt_bytes(version),
                        })
                    },
                    _ => None,
                }
            },
        }
    }

    /// The FORMAT declaration for `key`, if any.
    pub fn format(&self, key: &[u8]) -> (r: Option<VCFHeaderInfoFormat>)
        requires
            self.wf(),
        ensures
            ({
                let m = last_match(self.spec_items(), format_pred(key@));
                match r {
                    Some(f) => m matches Some(i)
                        && (self.spec_items()[i].spec_contents() matches VCFHeaderContent::FORMAT {
                            id, number, value_type, description, source, version,
                        } && f.id@ == id@ && number_matches(f.number, number) && value_type_matches(
                            f.value_type,
                            value_type,
                        ) && f.description@ == description@ && opt_bytes_view(f.source)
                            == opt_bytes_view(source) && opt_bytes_view(f.version)
                            == opt_bytes_view(version)),
                    None => m is None,
                }
            }),
    {
        proof {
            lemma_last_match_bounds(self.items@, format_pred(key@));
        }
        match assoc_lookup(&self.format_key, key) {
            None => None,
            Some(i) => {
                let n = self.items.len();
                proof {
                    assert(i < n);
                }
                match &self.items[i].contents {
                    VCFHeaderContent::FORMAT { id, number, value_type, description, source, version } => {
                        Some(VCFHeaderInfoFormat {
                            id: clone_bytes(id),
                            number: clone_number(number),
                            value_type: clone_value_type(value_type),
                            description: clone_bytes(description),
                            source: clone_opt_bytes(source),
                            version: clone_opt_bytes(version),
                        })
                    },
                    _ => None,
                }
            },
        }
    }

    /// The ALT declaration for `key`, if any.
    pub fn alt(&self, key: &[u8]) -> (r: Option<VCFHeaderFilterAlt>)
        requires
            self.wf(),
        ensures
            ({
                let m = last_match(self.spec_items(), alt_pred(key@));
                match r {
                    Some(f) => m matches Some(i)
                        && (self.spec_items()[i].spec_contents() matches VCFHeaderContent::ALT {
                            id, description,
                        } && f.id@ == id@ && f.description@ == description@),
                    None => m is None,
                }
            }),
    {
        proof {
            lemma_last_match_bounds(self.items@, alt_pred(key@));
        }
        match assoc_lookup(&self.alt_key, key) {
            None => None,
            Some(i) => {
                let n = self.items.len();
                proof {
                    assert(i < n);
                }
                match &self.items[i].contents {
                    VCFHeaderContent::ALT { id, description } => {
                        Some(VCFHeaderFilterAlt { id: clone_bytes(id), description: clone_bytes(description) })
                    },
                    _ => None,
                }
            },
        }
    }

    /// The FILTER declaration for `key`, if any.
    pub fn filter(&self, key: &[u8]) -> (r: Option<VCFHeaderFilterAlt>)
        requires
            self.wf(),
        ensures
            ({
                let m = last_match(self.spec_items(), filter_pred(key@));
                match r {
                    Some(f) => m matches Some(i)
                        && (self.spec_items()[i].spec_contents() matches VCFHeaderContent::FILTER {
                            id, description,
                        } && f.id@ == id@ && f.description@ == description@),
                    None => m is None,
                }
            }),
    {
        proof {
            lemma_last_match_bounds(self.items@, filter_pred(key@));
        }
        match assoc_lookup(&self.filter_key, key) {
            None => None,
            Some(i) => {
                let n = self.items.len();
                proof {
                    assert(i < n);
                }
                match &self.items[i].contents {
                    VCFHeaderContent::FILTER { id, description } => {
                        Some(VCFHeaderFilterAlt { id: clone_bytes(id), description: clone_bytes(description) })
                    },
                    _ => None,
                }
            },
        }
    }

    /// The ids of all INFO declarations.
    pub fn info_list(&self) -> (r: Vec<Vec<u8>>)
        requires
            self.wf(),
        ensures
            forall|k: Seq<u8>|
                r.deep_view().contains(k) <==> last_match(self.spec_items(), info_pred(k)) is Some,
    {
        let r = assoc_keys(&self.info_key);
        proof {
            assert forall|k: Seq<u8>|
                r.deep_view().contains(k) <==> last_match(self.spec_items(), info_pred(k)) is Some by {
                lemma_assoc_find_some_iff(self.info_key@, k);
            }
        }
        r
    }

    /// The ids of all FORMAT declarations.
    pub fn format_list(&self) -> (r: Vec<Vec<u8>>)
        requires
            self.wf(),
        ensures
            forall|k: Seq<u8>|
                r.deep_view().contains(k) <==> last_match(self.spec_items(), format_pred(k)) is Some,
    {
        let r = assoc_keys(&self.format_key);
        proof {
            assert forall|k: Seq<u8>|
                r.deep_view().contains(k) <==> last_match(self.spec_items(), format_pred(k)) is Some by {
                lemma_assoc_find_some_iff(self.format_key@, k);
            }
        }
        r
    }

    /// The ids of all ALT declarations.
    pub fn alt_list(&self) -> (r: Vec<Vec<u8>>)
        requires
            self.wf(),
        ensures
            forall|k: Seq<u8>|
                r.deep_view().contains(k) <==> last_match(self.spec_items(), alt_pred(k)) is Some,
    {
        let r = assoc_keys(&self.alt_key);
        proof {
            assert forall|k: Seq<u8>|
                r.deep_view().contains(k) <==> last_match(self.spec_items(), alt_pred(k)) is Some by {
                lemma_assoc_find_some_iff(self.alt_key@, k);
            }
        }
        r
    }

    /// The ids of all FILTER declarations.
    pub fn filter_list(&self) -> (r: Vec<Vec<u8>>)
        requires
            self.wf(),
        ensures
            forall|k: Seq<u8>|
                r.deep_view().contains(k) <==> last_match(self.spec_items(), filter_pred(k)) is Some,
    {
        let r = assoc_keys(&self.filter_key);
        proof {
            assert forall|k: Seq<u8>|
                r.deep_view().contains(k) <==> last_match(self.spec_items(), filter_pred(k)) is Some by {
                lemma_assoc_find_some_iff(self.filter_key@, k);
            }
        }
        r
    }

    /// Column position of the sample named `sample_name`, if present.
    pub fn sample_index(&self, sample_name: &[u8]) -> (r: Option<usize>)
        requires
            self.wf(),
        ensures
            r == as_usize_opt(
                crate::kvlist::last_index_of(views_of(self.spec_samples()), sample_name@),
            ),
    {
        assoc_lookup(&self.sample_to_index, sample_name)
    }
}

/// The keys of a lookup table, in table order.
fn assoc_keys(m: &Vec<(Vec<u8>, usize)>) -> (r: Vec<Vec<u8>>)
    ensures
        r.deep_view() == m@.map_values(|e: (Vec<u8>, usize)| e.0@),
        forall|k: Seq<u8>|
            r.deep_view().contains(k) <==> exists|i: int|
                0 <= i < m@.len() && #[trigger] m@[i].0@ == k,
{
    let mut r: Vec<Vec<u8>> = Vec::new();
    let mut i: usize = 0;
    while i < m.len()
        invariant
            i <= m@.len(),
            r.deep_view() == m@.take(i as int).map_values(|e: (Vec<u8>, usize)| e.0@),
        decreases m@.len() - i,
    {
        let ghost dv0 = r.deep_view();
        r.push(clone_bytes(&m[i].0));
        proof {
            assert(r.deep_view() =~~= dv0 + seq![m@[i as int].0@]);
            assert(r.deep_view() =~~= m@.take(i + 1).map_values(|e: (Vec<u8>, usize)| e.0@));
        }
        i += 1;
    }
    proof {
        assert(m@.take(i as int) =~= m@);
        assert forall|k: Seq<u8>|
            r.deep_view().contains(k) <==> exists|j: int|
                0 <= j < m@.len() && #[trigger] m@[j].0@ == k by {
            let dv = m@.map_values(|e: (Vec<u8>, usize)| e.0@);
            if dv.contains(k) {
                let j = choose|j: int| 0 <= j < dv.len() && dv[j] == k;
                assert(m@[j].0@ == k);
            }
            if exists|j: int| 0 <= j < m@.len() && #[trigger] m@[j].0@ == k {
                let j = choose|j: int| 0 <= j < m@.len() && #[trigger] m@[j].0@ == k;
                assert(dv[j] == k);
            }
        }
    }
    r
}

/// Table from INFO id to the index of its last declaration.
fn create_info_key(header_line: &Vec<VCFHeaderLine>) -> (r: Vec<(Vec<u8>, usize)>)
    ensures
        forall|k: Seq<u8>|
            assoc_find(r@, k) == as_usize_opt(last_match(header_line@, info_pred(k))),
{
    let mut m: Vec<(Vec<u8>, usize)> = Vec::new();
    let mut i: usize = 0;
    while i < header_line.len()
        invariant
            i <= header_line@.len(),
            forall|k: Seq<u8>|
                assoc_find(m@, k) == as_usize_opt(
                    last_match(header_line@.take(i as int), info_pred(k)),
                ),
        decreases header_line@.len() - i,
    {
        let ghost pre = header_line@.take(i as int);
        let ghost cur = header_line@[i as int];
        let ghost m0 = m@;
        match &header_line[i].contents {
            VCFHeaderContent::INFO { id, .. } => {
                let idc = clone_bytes(id);
                assoc_set(&mut m, idc, i);
            },
            _ => {},
        }
        proof {
            assert(header_line@.take(i + 1) =~= pre.push(cur));
            assert forall|k: Seq<u8>|
                assoc_find(m@, k) == as_usize_opt(
                    last_match(header_line@.take(i + 1), info_pred(k)),
                ) by {
                lemma_last_match_push(pre, cur, info_pred(k));
            }
        }
        i += 1;
    }
    proof {
        assert(header_line@.take(i as int) =~= header_line@);
    }
    m
}

/// Table from FORMAT id to the index of its last declaration.
fn create_format_key(header_line: &Vec<VCFHeaderLine>) -> (r: Vec<(Vec<u8>, usize)>)
    ensures
        forall|k: Seq<u8>|
            assoc_find(r@, k) == as_usize_opt(last_match(header_line@, format_pred(k))),
{
    let mut m: Vec<(Vec<u8>, usize)> = Vec::new();
    let mut i: usize = 0;
    while i < header_line.len()
        invariant
            i <= header_line@.len(),
            forall|k: Seq<u8>|
                assoc_find(m@, k) == as_usize_opt(
                    last_match(header_line@.take(i as int), format_pred(k)),
                ),
        decreases header_line@.len() - i,
    {
        let ghost pre = header_line@.take(i as int);
        let ghost cur = header_line@[i as int];
        match &header_line[i].contents {
            VCFHeaderContent::FORMAT { id, .. } => {
                let idc = clone_bytes(id);
                assoc_set(&mut m, idc, i);
            },
            _ => {},
        }
        proof {
            assert(header_line@.take(i + 1) =~= pre.push(cur));
            assert forall|k: Seq<u8>|
                assoc_find(m@, k) == as_usize_opt(
                    last_match(header_line@.take(i + 1), format_pred(k)),
                ) by {
                lemma_last_match_push(pre, cur, format_pred(k));
            }
        }
        i += 1;
    }
    proof {
        assert(header_line@.take(i as int) =~= header_line@);
    }
    m
}

/// Table from ALT id to the index of its last declaration.
fn create_alt_key(header_line: &Vec<VCFHeaderLine>) -> (r: Vec<(Vec<u8>, usize)>)
    ensures
        forall|k: Seq<u8>|
            assoc_find(r@, k) == as_usize_opt(last_match(header_line@, alt_pred(k))),
{
    let mut m: Vec<(Vec<u8>, usize)> = Vec::new();
    let mut i: usize = 0;
    while i < header_line.len()
        invariant
            i <= header_line@.len(),
            forall|k: Seq<u8>|
                assoc_find(m@, k) == as_usize_opt(
                    last_match(header_line@.take(i as int), alt_pred(k)),
                ),
        decreases header_line@.len() - i,
    {
        let ghost pre = header_line@.take(i as int);
        let ghost cur = header_line@[i as int];
        match &header_line[i].contents {
            VCFHeaderContent::ALT { id, .. } => {
                let idc = clone_bytes(id);
                assoc_set(&mut m, idc, i);
            },
            _ => {},
        }
        proof {
            assert(header_line@.take(i + 1) =~= pre.push(cur));
            assert forall|k: Seq<u8>|
                assoc_find(m@, k) == as_usize_opt(
                    last_match(header_line@.take(i + 1), alt_pred(k)),
                ) by {
                lemma_last_match_push(pre, cur, alt_pred(k));
            }
        }
        i += 1;
    }
    proof {
        assert(header_line@.take(i as int) =~= header_line@);
    }
    m
}

/// Table from FILTER id to the index of its last declaration.
fn create_filter_key(header_line: &Vec<VCFHeaderLine>) -> (r: Vec<(Vec<u8>, usize)>)
    ensures
        forall|k: Seq<u8>|
            assoc_find(r@, k) == as_usize_opt(last_match(header_line@, filter_pred(k))),
{
    let mut m: Vec<(Vec<u8>, usize)> = Vec::new();
    let mut i: usize = 0;
    while i < header_line.len()
        invariant
            i <= header_line@.len(),
            forall|k: Seq<u8>|
                assoc_find(m@, k) == as_usize_opt(
                    last_match(header_line@.take(i as int), filter_pred(k)),
                ),
        decreases header_line@.len() - i,
    {
        let ghost pre = header_line@.take(i as int);
        let ghost cur = header_line@[i as int];
        match &header_line[i].contents {
            VCFHeaderContent::FILTER { id, .. } => {
                let idc = clone_bytes(id);
                assoc_set(&mut m, idc, i);
            },
            _ => {},
        }
        proof {
            assert(header_line@.take(i + 1) =~= pre.push(cur));
            assert forall|k: Seq<u8>|
                assoc_find(m@, k) == as_usize_opt(
                    last_match(header_line@.take(i + 1), filter_pred(k)),
                ) by {
                lemma_last_match_push(pre, cur, filter_pred(k));
            }
        }
        i += 1;
    }
    proof {
        assert(header_line@.take(i as int) =~= header_line@);
    }
    m
}

/// Table from sample name to its last column position.
fn create_sample_index(samples: &Vec<Vec<u8>>) -> (r: Vec<(Vec<u8>, usize)>)
    ensures
        forall|k: Seq<u8>|
            assoc_find(r@, k) == as_usize_opt(crate::kvlist::last_index_of(views_of(samples@), k)),
{
    let mut m: Vec<(Vec<u8>, usize)> = Vec::new();
    let mut i: usize = 0;
    while i < samples.len()
        invariant
            i <= samples@.len(),
            forall|k: Seq<u8>|
                assoc_find(m@, k) == as_usize_opt(
                    crate::kvlist::last_index_of(views_of(samples@.take(i as int)), k),
                ),
        decreases samples@.len() - i,
    {
        let ghost pre = views_of(samples@.take(i as int));
        let name = clone_bytes(&samples[i]);
        assoc_set(&mut m, name, i);
        proof {
            assert(views_of(samples@.take(i + 1)) =~= pre.push(samples@[i as int]@));
            assert forall|k: Seq<u8>|
                assoc_find(m@, k) == as_usize_opt(
                    crate::kvlist::last_index_of(views_of(samples@.take(i + 1)), k),
                ) by {
                crate::kvlist::lemma_last_index_of_push(pre, samples@[i as int]@, k);
            }
        }
        i += 1;
    }
    proof {
        assert(samples@.take(i as int) =~= samples@);
        assert(views_of(samples@.take(i as int)) =~= views_of(samples@));
    }
    m
}

impl VCFHeaderLine {
    /// Parses one `##` header line; a grammar failure is reported as a
    /// header parse error at `line_num`.
    pub fn from_bytes(line: &[u8], line_num: u64) -> (r: Result<VCFHeaderLine, crate::VCFError>)
        ensures
            r is Ok <==> parser::spec_header_item_ok(line@),
            r matches Ok(l) ==> l.spec_line() == line@ && parser::spec_content_matches(
                l.spec_contents(),
                line@.skip(2),
            ),
            r matches Err(e) ==> e matches crate::VCFError::HeaderParseError(n) && n == line_num,
    {
        match parser::parse_header_item(line) {
            Ok(l) => Ok(l),
            Err(_) => Err(crate::VCFError::HeaderParseError(line_num)),
        }
    }
}

/// Reads the header block from a stream: every leading `##` line is parsed
/// and collected, the first `#` line is read as the column header, and a
/// line with neither mark ends the header and is handed back to be replayed
/// as the first record.  Returns the count of lines consumed, the replay
/// line if any, and the assembled header, whose every item satisfies the
/// header-line grammar and whose samples come from a column-header line.
pub fn parse_header<R: std::io::BufRead>(reader: &mut R) -> (r: Result<
    (u64, Option<Vec<u8>>, VCFHeader),
    crate::VCFError,
>)
    ensures
        r matches Ok(t) ==> ({
            &&& t.2.wf()
            &&& forall|j: int|
                0 <= j < t.2.spec_items().len() ==> parser::spec_header_item_ok(
                    (#[trigger] t.2.spec_items()[j]).spec_line(),
                ) && parser::spec_content_matches(
                    t.2.spec_items()[j].spec_contents(),
                    t.2.spec_items()[j].spec_line().skip(2),
                )
            &&& t.1 is Some ==> t.2.spec_samples().len() == 0
            &&& t.1 is None ==> exists|l: Seq<u8>| #[trigger] parser::spec_samples_of(l) == Some(
                views_of(t.2.spec_samples()),
            )
        }),
{
    let mut line_num: u64 = 0;
    let mut items: Vec<VCFHeaderLine> = Vec::new();
    loop
        invariant
            line_num <= u64::MAX,
            forall|j: int|
                0 <= j < items@.len() ==> parser::spec_header_item_ok(
                    (#[trigger] items@[j]).spec_line(),
                ) && parser::spec_content_matches(
                    items@[j].spec_contents(),
                    items@[j].spec_line().skip(2),
                ),
        decreases u64::MAX - line_num,
    {
        if line_num == u64::MAX {
            // the line counter is exhausted; treat the stream as malformed
            return Err(crate::VCFError::HeaderParseError(line_num));
        }
        let mut buffer: Vec<u8> = Vec::new();
        line_num = line_num + 1;
        match crate::read_until_newline(reader, &mut buffer) {
            Ok(_) => {},
            Err(e) => {
                return Err(crate::VCFError::IoError(e));
            },
        }
        let sharp2: [u8; 2] = ['#' as u8, '#' as u8];
        let sharp1: [u8; 1] = ['#' as u8];
        if crate::bytestr::starts_with_at(buffer.as_slice(), 0, sharp2.as_slice()) {
            match parser::parse_header_item(buffer.as_slice()) {
                Ok(item) => {
                    items.push(item);
                },
                Err(_) => {
                    return Err(crate::VCFError::HeaderParseError(line_num));
                },
            }
        } else if crate::bytestr::starts_with_at(buffer.as_slice(), 0, sharp1.as_slice()) {
            match parser::parse_samples(buffer.as_slice()) {
                Ok(samples) => {
                    proof {
                        assert(views_of(samples@) =~~= samples.deep_view());
                        assert(parser::spec_samples_of(buffer@) == Some(views_of(samples@)));
                    }
                    return Ok((line_num, None, VCFHeader::new(items, samples)));
                },
                Err(_) => {
                    return Err(crate::VCFError::HeaderParseError(line_num));
                },
            }
        } else {
            let empty_samples: Vec<Vec<u8>> = Vec::new();
            let header = VCFHeader::new(items, empty_samples);
            proof {
                assert(header.spec_samples().len() == 0);
            }
            return Ok((line_num, Some(buffer), header));
        }
    }
}

} // verus!
