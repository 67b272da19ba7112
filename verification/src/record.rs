//! One VCF data line, decomposed into its columns, plus the key-index caches
//! that give constant-time INFO and genotype lookup.

pub mod laws;
pub mod parser;

use vstd::prelude::*;

use crate::bytestr::{clone_bytes, copy_range, dec_digits, push_u64_dec};
use crate::header::{opt_bytes_view, views_of, VCFHeader};
use crate::kvlist::{
    assoc_find, assoc_lookup, assoc_set, last_index_of, lemma_last_index_of_bounds,
    lemma_last_index_of_push,
};

verus! {

/// Cache value marking an entry whose key no longer occurs: it is larger
/// than any valid index, so lookups through it fail.
pub const NOT_FOUND: usize = usize::MAX;

/// The key of each INFO entry.
pub open spec fn info_keys(info: Seq<(Seq<u8>, Seq<Seq<u8>>)>) -> Seq<Seq<u8>> {
    info.map_values(|e: (Seq<u8>, Seq<Seq<u8>>)| e.0)
}

/// A key-index table is consistent with a key list when every key that
/// occurs maps to its last occurrence, and every other lookup either misses
/// or lands on the `NOT_FOUND` sentinel.
pub open spec fn cache_ok(cache: Seq<(Vec<u8>, usize)>, keys: Seq<Seq<u8>>) -> bool {
    forall|k: Seq<u8>|
        match #[trigger] last_index_of(keys, k) {
            Some(i) => assoc_find(cache, k) == Some(i as usize),
            None => assoc_find(cache, k) is None || assoc_find(cache, k) == Some(NOT_FOUND),
        }
}

/// The value list of the last INFO entry for `key`, if any.
pub open spec fn spec_info_of(info: Seq<(Seq<u8>, Seq<Seq<u8>>)>, key: Seq<u8>) -> Option<
    Seq<Seq<u8>>,
> {
    match last_index_of(info_keys(info), key) {
        None => None,
        Some(i) => Some(info[i].1),
    }
}

/// One VCF data line.  The list-valued columns hold percent-decoded byte
/// strings (writing re-escapes the eight reserved characters); an empty
/// list stands for the `.` sentinel.  The quality column is kept as its raw
/// text, so a record writes back exactly as it was read.
pub struct VCFRecord {
    pub header: VCFHeader,
    pub chromosome: Vec<u8>,
    pub position: u64,
    pub id: Vec<Vec<u8>>,
    pub reference: Vec<u8>,
    pub alternative: Vec<Vec<u8>>,
    pub qual: Option<Vec<u8>>,
    pub filter: Vec<Vec<u8>>,
    pub info: Vec<(Vec<u8>, Vec<Vec<u8>>)>,
    pub info_index: Vec<(Vec<u8>, usize)>,
    pub format: Vec<Vec<u8>>,
    pub format_index: Vec<(Vec<u8>, usize)>,
    pub genotype: Vec<Vec<Vec<Vec<u8>>>>,
}

impl VCFRecord {
    /// The caches are consistent with the INFO keys and the FORMAT keys, and
    /// the header's own tables are sound.  Parsing and the insert methods
    /// keep this; after editing `info` or `format` directly, call
    /// `recreate_info_and_genotype_index` to restore it.
    pub open spec fn wf(self) -> bool {
        &&& self.header.wf()
        &&& cache_ok(self.info_index@, info_keys(self.info.deep_view()))
        &&& cache_ok(self.format_index@, self.format.deep_view())
    }

    /// A fresh, empty record bound to `header`.
    pub fn new(header: VCFHeader) -> (r: VCFRecord)
        requires
            header.wf(),
        ensures
            r.wf(),
            r.header == header,
            r.chromosome@.len() == 0,
            r.position == 0,
            r.id@.len() == 0,
            r.reference@.len() == 0,
            r.alternative@.len() == 0,
            r.qual is None,
            r.filter@.len() == 0,
            r.info@.len() == 0,
            r.format@.len() == 0,
            r.genotype@.len() == 0,
    {
        let r = VCFRecord {
            header,
            chromosome: Vec::new(),
            position: 0,
            id: Vec::new(),
            reference: Vec::new(),
            alternative: Vec::new(),
            qual: None,
            filter: Vec::new(),
            info: Vec::new(),
            info_index: Vec::new(),
            format: Vec::new(),
            format_index: Vec::new(),
            genotype: Vec::new(),
        };
        proof {
            assert(info_keys(r.info.deep_view()) =~= Seq::<Seq<u8>>::empty());
            assert(r.format.deep_view() =~= Seq::<Seq<u8>>::empty());
            assert forall|k: Seq<u8>| #[trigger]
                last_index_of(Seq::<Seq<u8>>::empty(), k) is None by {}
        }
        r
    }

    pub fn header(&self) -> (r: &VCFHeader)
        ensures
            *r == self.header,
    {
        &self.header
    }

    /// The values recorded under the INFO key `key`, if present.
    pub fn info(&self, key: &[u8]) -> (r: Option<&Vec<Vec<u8>>>)
        requires
            self.wf(),
        ensures
            ({
                let m = spec_info_of(self.info.deep_view(), key@);
                match r {
                    Some(v) => m matches Some(vals) && v.deep_view() == vals,
                    None => m is None,
                }
            }),
    {
        proof {
            lemma_last_index_of_bounds(info_keys(self.info.deep_view()), key@);
        }
        match assoc_lookup(&self.info_index, key) {
            None => None,
            Some(i) => {
                if i < self.info.len() {
                    proof {
                        let dv = self.info.deep_view();
                        assert(dv.len() == self.info@.len());
                        assert(last_index_of(info_keys(dv), key@) matches Some(j) && j == i);
                    }
                    Some(&self.info[i].1)
                } else {
                    None
                }
            },
        }
    }

    /// A mutable borrow of the values recorded under the INFO key `key`.
    /// Writes through the borrow change exactly that entry's values; the key
    /// list, and with it the cache, stays as it was (see
    /// [`lemma_wf_after_info_value_update`]).
    pub fn info_mut(&mut self, key: &[u8]) -> (r: Option<&mut Vec<Vec<u8>>>)
        requires
            old(self).wf(),
        ensures
            ({
                let dv = old(self).info.deep_view();
                match r {
                    None => spec_info_of(dv, key@) is None && *final(self) == *old(self),
                    Some(v) => spec_info_of(dv, key@) matches Some(vals) && v.deep_view() == vals
                        && ({
                        let i = last_index_of(info_keys(dv), key@).unwrap();
                        &&& final(self).info@ == old(self).info@.update(
                            i,
                            (old(self).info@[i].0, *final(v)),
                        )
                        &&& final(self).header == old(self).header
                        &&& final(self).chromosome == old(self).chromosome
                        &&& final(self).position == old(self).position
                        &&& final(self).id == old(self).id
                        &&& final(self).reference == old(self).reference
                        &&& final(self).alternative == old(self).alternative
                        &&& final(self).qual == old(self).qual
                        &&& final(self).filter == old(self).filter
                        &&& final(self).info_index == old(self).info_index
                        &&& final(self).format == old(self).format
                        &&& final(self).format_index == old(self).format_index
                        &&& final(self).genotype == old(self).genotype
                    }),
                }
            }),
    {
        let ghost dv = self.info.deep_view();
        let ghost keys0 = info_keys(dv);
        proof {
            lemma_last_index_of_bounds(keys0, key@);
        }
        let n = self.info.len();
        let looked = assoc_lookup(&self.info_index, key);
        let found: Option<usize> = match looked {
            Some(i) => if i < n {
                Some(i)
            } else {
                None
            },
            None => None,
        };
        match found {
            Some(i) => {
                proof {
                    assert(last_index_of(keys0, key@) matches Some(j) && j == i);
                    assert(dv[i as int].1 == self.info@[i as int].1.deep_view());
                }
                let entry = &mut self.info[i];
                Some(&mut entry.1)
            },
            None => {
                return None;
            },
        }
    }

    /// A record stays well formed when one INFO entry's values are replaced
    /// and everything else, the key included, is kept: the caches index
    /// keys, not values.
    pub proof fn lemma_wf_after_info_value_update(r0: VCFRecord, r1: VCFRecord, i: int)
        requires
            r0.wf(),
            0 <= i < r0.info@.len(),
            r1.info@ == r0.info@.update(i, (r0.info@[i].0, r1.info@[i].1)),
            r1.info_index == r0.info_index,
            r1.format == r0.format,
            r1.format_index == r0.format_index,
            r1.header == r0.header,
        ensures
            r1.wf(),
    {
        assert(info_keys(r1.info.deep_view()) =~= info_keys(r0.info.deep_view())) by {
            assert(r1.info@[i].0 == r0.info@[i].0);
            assert(forall|j: int|
                0 <= j < r1.info@.len() ==> #[trigger] r1.info@[j].0 == r0.info@[j].0);
        }
    }

    /// A mutable borrow of one sample's values under the FORMAT key `key`.
    /// Writes through the borrow change exactly that cell.
    pub fn genotype_mut(&mut self, sample_name: &[u8], key: &[u8]) -> (r: Option<
        &mut Vec<Vec<u8>>,
    >)
        requires
            old(self).wf(),
        ensures
            ({
                let m = old(self).spec_genotype_of(sample_name@, key@);
                match r {
                    None => m is None && *final(self) == *old(self),
                    Some(v) => m matches Some(vals) && v.deep_view() == vals && ({
                        let x = last_index_of(
                            views_of(old(self).header.spec_samples()),
                            sample_name@,
                        ).unwrap();
                        let y = last_index_of(old(self).format.deep_view(), key@).unwrap();
                        &&& final(self).genotype@.len() == old(self).genotype@.len()
                        &&& final(self).genotype@[x]@ == old(self).genotype@[x]@.update(
                            y,
                            *final(v),
                        )
                        &&& (forall|x2: int|
                            0 <= x2 < old(self).genotype@.len() && x2 != x
                                ==> final(self).genotype@[x2] == old(self).genotype@[x2])
                        &&& final(self).header == old(self).header
                        &&& final(self).chromosome == old(self).chromosome
                        &&& final(self).position == old(self).position
                        &&& final(self).id == old(self).id
                        &&& final(self).reference == old(self).reference
                        &&& final(self).alternative == old(self).alternative
                        &&& final(self).qual == old(self).qual
                        &&& final(self).filter == old(self).filter
                        &&& final(self).info == old(self).info
                        &&& final(self).info_index == old(self).info_index
                        &&& final(self).format == old(self).format
                        &&& final(self).format_index == old(self).format_index
                    }),
                }
            }),
    {
        let ns: usize = self.header.samples().len();
        let nf: usize = self.format.len();
        proof {
            assert(views_of(self.header.spec_samples()).len() == ns);
            assert(self.format.deep_view().len() == nf);
            lemma_last_index_of_bounds(views_of(self.header.spec_samples()), sample_name@);
            lemma_last_index_of_bounds(self.format.deep_view(), key@);
        }
        let sx = self.header.sample_index(sample_name);
        let ky = assoc_lookup(&self.format_index, key);
        let found: Option<(usize, usize)> = match (sx, ky) {
            (Some(x), Some(y)) => {
                if x < self.genotype.len() {
                    let rl: usize = self.genotype[x].len();
                    if y < rl {
                        Some((x, y))
                    } else {
                        None
                    }
                } else {
                    None
                }
            },
            _ => None,
        };
        match found {
            Some((x, y)) => {
                proof {
                    let g = self.genotype.deep_view();
                    assert(x < self.genotype@.len() && y < self.genotype@[x as int]@.len());
                    if last_index_of(self.format.deep_view(), key@) is None {
                        assert(y == NOT_FOUND);
                        assert(false);
                    }
                    assert(g.len() == self.genotype@.len());
                    assert(g[x as int].len() == self.genotype@[x as int]@.len());
                    assert(g[x as int][y as int] == self.genotype@[x as int]@[y as int].deep_view());
                    assert(self.spec_genotype_of(sample_name@, key@) matches Some(vals) && vals
                        == g[x as int][y as int]);
                }
                Some(&mut self.genotype[x][y])
            },
            None => {
                return None;
            },
        }
    }

    /// The per-format values of sample `sample_name` under the FORMAT key
    /// `key`, if the sample exists and its row reaches that column.
    pub fn genotype(&self, sample_name: &[u8], key: &[u8]) -> (r: Option<&Vec<Vec<u8>>>)
        requires
            self.wf(),
        ensures
            ({
                let m = self.spec_genotype_of(sample_name@, key@);
                match r {
                    Some(v) => m matches Some(vals) && v.deep_view() == vals,
                    None => m is None,
                }
            }),
    {
        let ns: usize = self.header.samples().len();
        let nf: usize = self.format.len();
        proof {
            assert(views_of(self.header.spec_samples()).len() == ns);
            assert(self.format.deep_view().len() == nf);
            lemma_last_index_of_bounds(self.format.deep_view(), key@);
            lemma_last_index_of_bounds(
                views_of(self.header.spec_samples()),
                sample_name@,
            );
        }
        match self.header.sample_index(sample_name) {
            None => None,
            Some(x) => {
                match assoc_lookup(&self.format_index, key) {
                    None => None,
                    Some(y) => {
                        if x < self.genotype.len() {
                            let row = &self.genotype[x];
                            let rl: usize = row.len();
                            proof {
                                if last_index_of(self.format.deep_view(), key@) is None {
                                    assert(y == NOT_FOUND && rl <= usize::MAX);
                                }
                            }
                            if y < row.len() {
                                proof {
                                    let g = self.genotype.deep_view();
                                    assert(g.len() == self.genotype@.len());
                                    assert(g[x as int].len() == self.genotype@[x as int]@.len());
                                }
                                Some(&row[y])
                            } else {
                                None
                            }
                        } else {
                            None
                        }
                    },
                }
            },
        }
    }

    /// The genotype cell addressed by a sample name and a FORMAT key: the
    /// sample's column comes from the header, the key's position from the
    /// FORMAT list, and both must fall inside the stored rows.
    pub open spec fn spec_genotype_of(self, sample: Seq<u8>, key: Seq<u8>) -> Option<Seq<Seq<u8>>> {
        let g = self.genotype.deep_view();
        match last_index_of(views_of(self.header.spec_samples()), sample) {
            None => None,
            Some(x) => match last_index_of(self.format.deep_view(), key) {
                None => None,
                Some(y) => {
                    if x < g.len() && y < g[x].len() {
                        Some(g[x][y])
                    } else {
                        None
                    }
                },
            },
        }
    }
}

/// A genotype cell holding only the `.` missing marker, used to pad rows.
pub open spec fn dot_cell() -> Seq<Seq<u8>> {
    seq![seq!['.' as u8]]
}

/// `row` extended with `.` cells until it is `upto` cells long.
pub open spec fn padded_row(row: Seq<Seq<Seq<u8>>>, upto: int) -> Seq<Seq<Seq<u8>>> {
    if row.len() < upto {
        row + Seq::new((upto - row.len()) as nat, |i: int| dot_cell())
    } else {
        row
    }
}

/// What a rebuilt cache returns for `k`: the last occurrence among `keys`,
/// or the sentinel for keys the cache used to hold, or nothing.
pub open spec fn spec_rebuilt(
    old_cache: Seq<(Vec<u8>, usize)>,
    keys: Seq<Seq<u8>>,
    k: Seq<u8>,
) -> Option<usize> {
    match last_index_of(keys, k) {
        Some(i) => Some(i as usize),
        None => match assoc_find(old_cache, k) {
            Some(_) => Some(NOT_FOUND),
            None => None,
        },
    }
}

/// A copy of `cache` with every entry's value set to `NOT_FOUND`.
fn blank_index(cache: &Vec<(Vec<u8>, usize)>) -> (r: Vec<(Vec<u8>, usize)>)
    ensures
        r@.len() == cache@.len(),
        forall|j: int| 0 <= j < r@.len() ==> #[trigger] r@[j].0@ == cache@[j].0@,
        forall|j: int| 0 <= j < r@.len() ==> #[trigger] r@[j].1 == NOT_FOUND,
{
    let mut out: Vec<(Vec<u8>, usize)> = Vec::new();
    let mut i: usize = 0;
    while i < cache.len()
        invariant
            i <= cache@.len(),
            out@.len() == i,
            forall|j: int| 0 <= j < i ==> #[trigger] out@[j].0@ == cache@[j].0@,
            forall|j: int| 0 <= j < i ==> #[trigger] out@[j].1 == NOT_FOUND,
        decreases cache@.len() - i,
    {
        out.push((clone_bytes(&cache[i].0), NOT_FOUND));
        i += 1;
    }
    out
}

/// Lookups in a blanked cache hit exactly where they hit before, always at
/// the sentinel.
proof fn lemma_blank_find(a: Seq<(Vec<u8>, usize)>, b: Seq<(Vec<u8>, usize)>, k: Seq<u8>)
    requires
        b.len() == a.len(),
        forall|j: int| 0 <= j < b.len() ==> #[trigger] b[j].0@ == a[j].0@,
        forall|j: int| 0 <= j < b.len() ==> #[trigger] b[j].1 == NOT_FOUND,
    ensures
        assoc_find(b, k) == (match assoc_find(a, k) {
            Some(_) => Some(NOT_FOUND),
            None => None::<usize>,
        }),
    decreases a.len(),
{
    if a.len() > 0 {
        assert(b[0].0@ == a[0].0@);
        if a[0].0@ != k {
            assert forall|j: int|
                0 <= j < b.drop_first().len() implies #[trigger] b.drop_first()[j].0@
                == a.drop_first()[j].0@ by {
                assert(b.drop_first()[j] == b[j + 1]);
                assert(a.drop_first()[j] == a[j + 1]);
            }
            assert forall|j: int|
                0 <= j < b.drop_first().len() implies #[trigger] b.drop_first()[j].1
                == NOT_FOUND by {
                assert(b.drop_first()[j] == b[j + 1]);
            }
            lemma_blank_find(a.drop_first(), b.drop_first(), k);
        }
    }
}

impl VCFRecord {
    /// Records `values` under the INFO key `key`: an existing entry has its
    /// values replaced (the old ones are returned), a new key is appended and
    /// indexed at once, so a following lookup needs no cache rebuild.
    pub fn insert_info(&mut self, key: &[u8], values: Vec<Vec<u8>>) -> (r: Option<Vec<Vec<u8>>>)
        requires
            old(self).wf(),
        ensures
            final(self).wf(),
            final(self).header == old(self).header,
            final(self).chromosome == old(self).chromosome,
            final(self).position == old(self).position,
            final(self).id == old(self).id,
            final(self).reference == old(self).reference,
            final(self).alternative == old(self).alternative,
            final(self).qual == old(self).qual,
            final(self).filter == old(self).filter,
            final(self).format == old(self).format,
            final(self).format_index == old(self).format_index,
            final(self).genotype == old(self).genotype,
            ({
                let dv = old(self).info.deep_view();
                match spec_info_of(dv, key@) {
                    Some(oldvals) => r matches Some(v) && v.deep_view() == oldvals && final(self).info.deep_view() == dv.update(
                        last_index_of(info_keys(dv), key@).unwrap(),
                        (key@, values.deep_view()),
                    ) && final(self).info_index == old(self).info_index,
                    None => r is None && final(self).info.deep_view() == dv + seq![
                        (key@, values.deep_view()),
                    ],
                }
            }),
            spec_info_of(final(self).info.deep_view(), key@) == Some(values.deep_view()),
    {
        let ghost dv = self.info.deep_view();
        let ghost keys0 = info_keys(dv);
        proof {
            lemma_last_index_of_bounds(keys0, key@);
        }
        let n = self.info.len();
        let looked = assoc_lookup(&self.info_index, key);
        if let Some(i) = looked {
            if i < n {
                proof {
                    assert(last_index_of(keys0, key@) matches Some(j) && j == i);
                }
                let mut vals = values;
                core::mem::swap(&mut self.info[i].1, &mut vals);
                proof {
                    let dv2 = self.info.deep_view();
                    assert(keys0[i as int] == key@);
                    assert(dv2 =~~= dv.update(i as int, (key@, self.info@[i as int].1.deep_view())));
                    assert(info_keys(dv2) =~= keys0);
                    assert(spec_info_of(dv2, key@) == Some(dv2[i as int].1));
                }
                return Some(vals);
            }
        }
        proof {
            if looked matches Some(i) {
                assert(last_index_of(keys0, key@) is None);
            }
            assert(last_index_of(keys0, key@) is None);
        }
        let keyv = copy_range(key, 0, key.len());
        let keyv2 = copy_range(key, 0, key.len());
        proof {
            assert(key@.subrange(0, key@.len() as int) =~= key@);
        }
        self.info.push((keyv, values));
        assoc_set(&mut self.info_index, keyv2, n);
        proof {
            let dv2 = self.info.deep_view();
            assert(dv2 =~~= dv + seq![(key@, self.info@[n as int].1.deep_view())]);
            assert(info_keys(dv2) =~= keys0.push(key@));
            assert forall|k: Seq<u8>|
                match #[trigger] last_index_of(info_keys(dv2), k) {
                    Some(i) => assoc_find(self.info_index@, k) == Some(i as usize),
                    None => assoc_find(self.info_index@, k) is None || assoc_find(
                        self.info_index@,
                        k,
                    ) == Some(NOT_FOUND),
                } by {
                lemma_last_index_of_push(keys0, key@, k);
            }
            lemma_last_index_of_push(keys0, key@, key@);
            assert(spec_info_of(dv2, key@) == Some(values.deep_view()));
        }
        None
    }

    /// Records `values` for one sample under the FORMAT key `key`.  An
    /// existing cell is replaced (the old values are returned); otherwise the
    /// sample's row alone is padded with `.` cells up to the key's column and
    /// the values appended, a new key being added to the FORMAT list first.
    /// An unknown sample changes nothing.  The caller must have a genotype
    /// row for the sample (a parsed record with all its genotype columns
    /// does): the row is indexed by the sample's column position.
    pub fn insert_genotype(
        &mut self,
        sample_name: &[u8],
        key: &[u8],
        values: Vec<Vec<u8>>,
    ) -> (r: Option<Vec<Vec<u8>>>)
        requires
            old(self).wf(),
            (match last_index_of(
                views_of(old(self).header.spec_samples()),
                sample_name@,
            ) {
                Some(x) => x < old(self).genotype.deep_view().len(),
                None => true,
            }),
        ensures
            final(self).wf(),
            final(self).header == old(self).header,
            final(self).chromosome == old(self).chromosome,
            final(self).position == old(self).position,
            final(self).id == old(self).id,
            final(self).reference == old(self).reference,
            final(self).alternative == old(self).alternative,
            final(self).qual == old(self).qual,
            final(self).filter == old(self).filter,
            final(self).info == old(self).info,
            final(self).info_index == old(self).info_index,
            ({
                let sx = last_index_of(views_of(old(self).header.spec_samples()), sample_name@);
                let fy = last_index_of(old(self).format.deep_view(), key@);
                let g = old(self).genotype.deep_view();
                match sx {
                    None => r is None && final(self).genotype == old(self).genotype && final(self).format == old(self).format && final(self).format_index == old(
                        self,
                    ).format_index,
                    Some(x) => match fy {
                        Some(y) => {
                            if y < g[x].len() {
                                r matches Some(v) && v.deep_view() == g[x][y]
                                    && final(self).genotype.deep_view() == g.update(
                                    x,
                                    g[x].update(y, values.deep_view()),
                                ) && final(self).format == old(self).format
                                    && final(self).format_index == old(self).format_index
                            } else {
                                r is None && final(self).genotype.deep_view() == g.update(
                                    x,
                                    padded_row(g[x], y) + seq![values.deep_view()],
                                ) && final(self).format == old(self).format
                                    && final(self).format_index == old(self).format_index
                            }
                        },
                        None => r is None && final(self).format.deep_view() == old(
                            self,
                        ).format.deep_view().push(key@) && final(self).genotype.deep_view()
                            == g.update(
                            x,
                            padded_row(g[x], old(self).format.deep_view().len() as int) + seq![
                                values.deep_view(),
                            ],
                        ),
                    },
                }
            }),
            ({
                let sx = last_index_of(views_of(old(self).header.spec_samples()), sample_name@);
                let fy = last_index_of(old(self).format.deep_view(), key@);
                let g = old(self).genotype.deep_view();
                match sx {
                    None => true,
                    Some(x) => (match fy {
                        Some(_) => true,
                        None => g[x].len() <= old(self).format.deep_view().len(),
                    }) ==> final(self).spec_genotype_of(sample_name@, key@) == Some(
                        values.deep_view(),
                    ),
                }
            }),
    {
        let ghost g = self.genotype.deep_view();
        let ghost fkeys = self.format.deep_view();
        let ns: usize = self.header.samples().len();
        let nf: usize = self.format.len();
        proof {
            assert(views_of(self.header.spec_samples()).len() == ns);
            assert(fkeys.len() == nf);
            lemma_last_index_of_bounds(views_of(self.header.spec_samples()), sample_name@);
            lemma_last_index_of_bounds(fkeys, key@);
        }
        let x = match self.header.sample_index(sample_name) {
            None => {
                return None;
            },
            Some(x) => x,
        };
        let looked = assoc_lookup(&self.format_index, key);
        let row_len = self.genotype[x].len();
        match looked {
            Some(y) if y < row_len => {
                proof {
                    assert(last_index_of(fkeys, key@) matches Some(j) && j == y);
                    assert(g[x as int].len() == self.genotype@[x as int].deep_view().len());
                }
                let mut vals = values;
                let row = &mut self.genotype[x];
                core::mem::swap(&mut row[y], &mut vals);
                proof {
                    assert(self.genotype.deep_view() =~~= g.update(
                        x as int,
                        g[x as int].update(y as int, self.genotype@[x as int]@[y as int].deep_view()),
                    ));
                }
                Some(vals)
            },
            Some(y) if y < nf => {
                // the key exists but this sample's row stops short: pad, then append
                proof {
                    assert(last_index_of(fkeys, key@) matches Some(j) && j == y);
                }
                let row = &mut self.genotype[x];
                let ghost row0 = row.deep_view();
                while row.len() < y
                    invariant
                        row.deep_view() == padded_row(row0, row.deep_view().len() as int),
                        row0.len() <= row.deep_view().len(),
                        row.deep_view().len() <= y || row.deep_view() == row0,
                    decreases y - row.deep_view().len(),
                {
                    let mut cell: Vec<Vec<u8>> = Vec::new();
                    let mut dot: Vec<u8> = Vec::new();
                    dot.push('.' as u8);
                    cell.push(dot);
                    let ghost rdv = row.deep_view();
                    row.push(cell);
                    proof {
                        assert(dot@ =~= seq!['.' as u8]);
                        assert(row.deep_view() =~~= rdv + seq![dot_cell()]);
                        assert(row.deep_view() =~~= padded_row(row0, row.deep_view().len() as int));
                    }
                }
                let ghost rdv = row.deep_view();
                row.push(values);
                proof {
                    assert(rdv == padded_row(row0, y as int));
                    assert(row.deep_view() =~~= padded_row(row0, y as int) + seq![
                        values.deep_view(),
                    ]);
                    assert(self.genotype.deep_view() =~~= g.update(
                        x as int,
                        padded_row(g[x as int], y as int) + seq![values.deep_view()],
                    ));
                }
                None
            },
            _ => {
                // the key is new: extend the FORMAT list, index it, pad, append
                proof {
                    if looked matches Some(y) {
                        assert(last_index_of(fkeys, key@) is None);
                    }
                    assert(last_index_of(fkeys, key@) is None);
                }
                let keyv = copy_range(key, 0, key.len());
                let keyv2 = copy_range(key, 0, key.len());
                proof {
                    assert(key@.subrange(0, key@.len() as int) =~= key@);
                }
                self.format.push(keyv);
                assoc_set(&mut self.format_index, keyv2, nf);
                proof {
                    assert(self.format.deep_view() =~~= fkeys.push(key@));
                    assert forall|k: Seq<u8>|
                        match #[trigger] last_index_of(self.format.deep_view(), k) {
                            Some(i) => assoc_find(self.format_index@, k) == Some(i as usize),
                            None => assoc_find(self.format_index@, k) is None || assoc_find(
                                self.format_index@,
                                k,
                            ) == Some(NOT_FOUND),
                        } by {
                        lemma_last_index_of_push(fkeys, key@, k);
                    }
                }
                let row = &mut self.genotype[x];
                let ghost row0 = row.deep_view();
                while row.len() < nf
                    invariant
                        row.deep_view() == padded_row(row0, row.deep_view().len() as int),
                        row0.len() <= row.deep_view().len(),
                        row.deep_view().len() <= nf || row.deep_view() == row0,
                    decreases nf - row.deep_view().len(),
                {
                    let mut cell: Vec<Vec<u8>> = Vec::new();
                    let mut dot: Vec<u8> = Vec::new();
                    dot.push('.' as u8);
                    cell.push(dot);
                    let ghost rdv = row.deep_view();
                    row.push(cell);
                    proof {
                        assert(dot@ =~= seq!['.' as u8]);
                        assert(row.deep_view() =~~= rdv + seq![dot_cell()]);
                        assert(row.deep_view() =~~= padded_row(row0, row.deep_view().len() as int));
                    }
                }
                let ghost rdv = row.deep_view();
                row.push(values);
                proof {
                    assert(rdv == padded_row(row0, nf as int));
                    assert(row.deep_view() =~~= padded_row(row0, nf as int) + seq![
                        values.deep_view(),
                    ]);
                    assert(self.genotype.deep_view() =~~= g.update(
                        x as int,
                        padded_row(g[x as int], nf as int) + seq![values.deep_view()],
                    ));
                }
                None
            },
        }
    }

    /// Rebuilds both key caches from the current `info` and `format` lists.
    /// Call this after editing those lists directly; the insert methods keep
    /// the caches consistent on their own.
    pub fn recreate_info_and_genotype_index(&mut self)
        ensures
            old(self).header.wf() ==> final(self).wf(),
            final(self).header == old(self).header,
            final(self).chromosome == old(self).chromosome,
            final(self).position == old(self).position,
            final(self).id == old(self).id,
            final(self).reference == old(self).reference,
            final(self).alternative == old(self).alternative,
            final(self).qual == old(self).qual,
            final(self).filter == old(self).filter,
            final(self).info == old(self).info,
            final(self).format == old(self).format,
            final(self).genotype == old(self).genotype,
            forall|k: Seq<u8>| #[trigger] assoc_find(final(self).info_index@, k) == spec_rebuilt(
                old(self).info_index@,
                info_keys(old(self).info.deep_view()),
                k,
            ),
            forall|k: Seq<u8>| #[trigger] assoc_find(final(self).format_index@, k) == spec_rebuilt(
                old(self).format_index@,
                old(self).format.deep_view(),
                k,
            ),
    {
        let ghost old_info_index = self.info_index@;
        let ghost old_format_index = self.format_index@;
        let ghost ikeys = info_keys(self.info.deep_view());
        let ghost fkeys = self.format.deep_view();
        // info cache
        let blank = blank_index(&self.info_index);
        self.info_index = blank;
        proof {
            assert forall|k: Seq<u8>| #[trigger] assoc_find(self.info_index@, k) == spec_rebuilt(
                old_info_index,
                ikeys.take(0),
                k,
            ) by {
                lemma_blank_find(old_info_index, self.info_index@, k);
                assert(last_index_of(ikeys.take(0), k) is None);
            }
        }
        let mut i: usize = 0;
        while i < self.info.len()
            invariant
                i <= self.info@.len(),
                ikeys == info_keys(self.info.deep_view()),
                self.info == old(self).info,
                self.format == old(self).format,
                self.format_index == old(self).format_index,
                self.header == old(self).header,
                self.chromosome == old(self).chromosome,
                self.position == old(self).position,
                self.id == old(self).id,
                self.reference == old(self).reference,
                self.alternative == old(self).alternative,
                self.qual == old(self).qual,
                self.filter == old(self).filter,
                self.genotype == old(self).genotype,
                forall|k: Seq<u8>| #[trigger] assoc_find(self.info_index@, k) == spec_rebuilt(
                    old_info_index,
                    ikeys.take(i as int),
                    k,
                ),
            decreases self.info@.len() - i,
        {
            let keyc = clone_bytes(&self.info[i].0);
            assoc_set(&mut self.info_index, keyc, i);
            proof {
                assert(ikeys.take(i + 1) =~= ikeys.take(i as int).push(ikeys[i as int]));
                assert(ikeys[i as int] == self.info@[i as int].0@);
                assert forall|k: Seq<u8>| #[trigger] assoc_find(self.info_index@, k)
                    == spec_rebuilt(old_info_index, ikeys.take(i + 1), k) by {
                    lemma_last_index_of_push(ikeys.take(i as int), ikeys[i as int], k);
                }
            }
            i += 1;
        }
        proof {
            assert(ikeys.take(i as int) =~= ikeys);
        }
        // format cache
        let blank = blank_index(&self.format_index);
        self.format_index = blank;
        proof {
            assert forall|k: Seq<u8>| #[trigger] assoc_find(self.format_index@, k) == spec_rebuilt(
                old_format_index,
                fkeys.take(0),
                k,
            ) by {
                lemma_blank_find(old_format_index, self.format_index@, k);
                assert(last_index_of(fkeys.take(0), k) is None);
            }
        }
        let mut i: usize = 0;
        while i < self.format.len()
            invariant
                i <= self.format@.len(),
                fkeys == self.format.deep_view(),
                self.format == old(self).format,
                self.info == old(self).info,
                ikeys == info_keys(self.info.deep_view()),
                forall|k: Seq<u8>| #[trigger] assoc_find(self.info_index@, k) == spec_rebuilt(
                    old_info_index,
                    ikeys,
                    k,
                ),
                self.header == old(self).header,
                self.chromosome == old(self).chromosome,
                self.position == old(self).position,
                self.id == old(self).id,
                self.reference == old(self).reference,
                self.alternative == old(self).alternative,
                self.qual == old(self).qual,
                self.filter == old(self).filter,
                self.genotype == old(self).genotype,
                forall|k: Seq<u8>| #[trigger] assoc_find(self.format_index@, k) == spec_rebuilt(
                    old_format_index,
                    fkeys.take(i as int),
                    k,
                ),
            decreases self.format@.len() - i,
        {
            let keyc = clone_bytes(&self.format[i]);
            assoc_set(&mut self.format_index, keyc, i);
            proof {
                assert(fkeys.take(i + 1) =~= fkeys.take(i as int).push(fkeys[i as int]));
                assert(fkeys[i as int] == self.format@[i as int]@);
                assert forall|k: Seq<u8>| #[trigger] assoc_find(self.format_index@, k)
                    == spec_rebuilt(old_format_index, fkeys.take(i + 1), k) by {
                    lemma_last_index_of_push(fkeys.take(i as int), fkeys[i as int], k);
                }
            }
            i += 1;
        }
        proof {
            assert(fkeys.take(i as int) =~= fkeys);
            assert forall|k: Seq<u8>|
                match #[trigger] last_index_of(ikeys, k) {
                    Some(j) => assoc_find(self.info_index@, k) == Some(j as usize),
                    None => assoc_find(self.info_index@, k) is None || assoc_find(
                        self.info_index@,
                        k,
                    ) == Some(NOT_FOUND),
                } by {
                lemma_last_index_of_bounds(ikeys, k);
            }
            assert forall|k: Seq<u8>|
                match #[trigger] last_index_of(fkeys, k) {
                    Some(j) => assoc_find(self.format_index@, k) == Some(j as usize),
                    None => assoc_find(self.format_index@, k) is None || assoc_find(
                        self.format_index@,
                        k,
                    ) == Some(NOT_FOUND),
                } by {
                lemma_last_index_of_bounds(fkeys, k);
            }
        }
    }
}

/// The parts joined by single copies of `d`.
pub open spec fn spec_join_with(parts: Seq<Seq<u8>>, d: u8) -> Seq<u8>
    decreases parts.len(),
{
    if parts.len() == 0 {
        Seq::empty()
    } else if parts.len() == 1 {
        parts[0]
    } else {
        parts[0] + seq![d] + spec_join_with(parts.drop_first(), d)
    }
}

pub proof fn lemma_join_push(parts: Seq<Seq<u8>>, x: Seq<u8>, d: u8)
    ensures
        spec_join_with(parts.push(x), d) == (if parts.len() == 0 {
            x
        } else {
            spec_join_with(parts, d) + seq![d] + x
        }),
    decreases parts.len(),
{
    let grown = parts.push(x);
    if parts.len() == 0 {
        assert(grown[0] == x);
    } else if parts.len() == 1 {
        assert(grown.drop_first() =~= seq![x]);
        assert(spec_join_with(grown, d) == grown[0] + seq![d] + spec_join_with(seq![x], d));
        assert(spec_join_with(seq![x], d) == x);
        assert(spec_join_with(parts, d) == parts[0]);
    } else {
        assert(grown.drop_first() =~= parts.drop_first().push(x));
        lemma_join_push(parts.drop_first(), x, d);
        assert(spec_join_with(grown, d) == grown[0] + seq![d] + spec_join_with(
            parts.drop_first().push(x),
            d,
        ));
        assert(grown[0] == parts[0]);
        assert(parts[0] + seq![d] + (spec_join_with(parts.drop_first(), d) + seq![d] + x) =~= (
        parts[0] + seq![d] + spec_join_with(parts.drop_first(), d)) + seq![d] + x);
    }
}

/// Each value percent-escaped through the codec.
pub open spec fn spec_encoded_all(vs: Seq<Seq<u8>>) -> Seq<Seq<u8>> {
    vs.map_values(|v: Seq<u8>| crate::codec::spec_encode(v))
}

/// A list column's wire form: the values, each percent-escaped, joined by
/// `d`, or `.` when the list is empty.
pub open spec fn spec_write_array(parts: Seq<Seq<u8>>, d: u8) -> Seq<u8> {
    if parts.len() == 0 {
        crate::record::parser::dot_bytes()
    } else {
        spec_join_with(spec_encoded_all(parts), d)
    }
}

/// One INFO entry's wire form: `key` alone, or `key=v1,v2,...` with each
/// value percent-escaped.
pub open spec fn spec_write_info_entry(e: (Seq<u8>, Seq<Seq<u8>>)) -> Seq<u8> {
    if e.1.len() == 0 {
        e.0
    } else {
        e.0 + seq!['=' as u8] + spec_join_with(spec_encoded_all(e.1), ',' as u8)
    }
}

/// The INFO column's wire form.
pub open spec fn spec_write_info(info: Seq<(Seq<u8>, Seq<Seq<u8>>)>) -> Seq<u8> {
    if info.len() == 0 {
        crate::record::parser::dot_bytes()
    } else {
        spec_join_with(info.map_values(|e: (Seq<u8>, Seq<Seq<u8>>)| spec_write_info_entry(e)), ';' as u8)
    }
}

/// One sample's wire form: its cells joined by `:`, each cell its values
/// joined by `,`; an absent cell or an absent row is `.`.
pub open spec fn spec_write_row(row: Seq<Seq<Seq<u8>>>) -> Seq<u8> {
    if row.len() == 0 {
        crate::record::parser::dot_bytes()
    } else {
        spec_join_with(row.map_values(|c: Seq<Seq<u8>>| spec_write_array(c, ',' as u8)), ':' as u8)
    }
}

/// The genotype columns' wire form: a tab before each sample.
pub open spec fn spec_write_rows(g: Seq<Seq<Seq<Seq<u8>>>>) -> Seq<u8>
    decreases g.len(),
{
    if g.len() == 0 {
        Seq::empty()
    } else {
        seq!['\t' as u8] + spec_write_row(g[0]) + spec_write_rows(g.drop_first())
    }
}

/// The serialized optional trailing columns: the tab before QUAL through
/// the final newline.  The FORMAT and genotype columns appear only when the
/// FORMAT list is non-empty.
/// The quality column's wire form: the raw text, or `.` when absent.
pub open spec fn spec_qual_written(q: Option<Seq<u8>>) -> Seq<u8> {
    match q {
        None => crate::record::parser::dot_bytes(),
        Some(t) => t,
    }
}

pub open spec fn spec_optional_written(pr: crate::record::parser::ParsedRecord) -> Seq<u8> {
    let tab = seq!['\t' as u8];
    let qual = spec_qual_written(pr.qual);
    let tail = if pr.format.len() == 0 {
        Seq::<u8>::empty()
    } else {
        tab + (spec_write_array(pr.format, ':' as u8) + spec_write_rows(pr.genotype))
    };
    tab + (qual + (tab + (spec_write_array(pr.filter, ',' as u8) + (tab + (spec_write_info(
        pr.info,
    ) + (tail + seq!['\n' as u8]))))))
}

/// The full wire form of one record, terminated by `\n`.
pub open spec fn spec_write_record(pr: crate::record::parser::ParsedRecord) -> Seq<u8> {
    let tab = seq!['\t' as u8];
    pr.chromosome + (tab + (dec_digits(pr.position as nat) + (tab + (spec_write_array(
        pr.id,
        ',' as u8,
    ) + (tab + (pr.reference + (tab + (spec_write_array(pr.alternative, ',' as u8)
        + spec_optional_written(pr)))))))))
}

/// The record's wire form, spelled as the writer assembles it: column by
/// column, left to right.
#[verifier::rlimit(100)]
#[verifier::spinoff_prover]
proof fn lemma_line_assembly(pr: crate::record::parser::ParsedRecord)
    ensures
        spec_write_record(pr) == pr.chromosome + seq!['\t' as u8] + dec_digits(pr.position as nat)
            + seq!['\t' as u8] + spec_write_array(pr.id, ',' as u8) + seq!['\t' as u8]
            + pr.reference + seq!['\t' as u8] + spec_write_array(pr.alternative, ',' as u8)
            + seq!['\t' as u8] + spec_qual_written(pr.qual) + seq!['\t' as u8] + spec_write_array(
            pr.filter,
            ',' as u8,
        ) + seq!['\t' as u8] + spec_write_info(pr.info) + (if pr.format.len() == 0 {
            Seq::<u8>::empty()
        } else {
            seq!['\t' as u8] + spec_write_array(pr.format, ':' as u8) + spec_write_rows(
                pr.genotype,
            )
        }) + seq!['\n' as u8],
{
    assert(spec_write_record(pr) =~= pr.chromosome + seq!['\t' as u8] + dec_digits(
        pr.position as nat,
    ) + seq!['\t' as u8] + spec_write_array(pr.id, ',' as u8) + seq!['\t' as u8] + pr.reference
        + seq!['\t' as u8] + spec_write_array(pr.alternative, ',' as u8) + seq!['\t' as u8]
        + spec_qual_written(pr.qual) + seq!['\t' as u8] + spec_write_array(pr.filter, ',' as u8)
        + seq!['\t' as u8] + spec_write_info(pr.info) + (if pr.format.len() == 0 {
        Seq::<u8>::empty()
    } else {
        seq!['\t' as u8] + spec_write_array(pr.format, ':' as u8) + spec_write_rows(pr.genotype)
    }) + seq!['\n' as u8]);
}

/// The abstract contents of a record, as the writer sees them.
pub open spec fn spec_record_view(rec: VCFRecord) -> crate::record::parser::ParsedRecord {
    crate::record::parser::ParsedRecord {
        chromosome: rec.chromosome@,
        position: rec.position,
        id: rec.id.deep_view(),
        reference: rec.reference@,
        alternative: rec.alternative.deep_view(),
        qual: opt_bytes_view(rec.qual),
        filter: rec.filter.deep_view(),
        info: crate::record::parser::info_entries_view(rec.info@),
        format: rec.format.deep_view(),
        genotype: rec.genotype.deep_view(),
        end: 0,
    }
}

/// Appends `b` to `out`.
pub fn push_bytes(out: &mut Vec<u8>, b: &[u8])
    ensures
        final(out)@ == old(out)@ + b@,
{
    let mut i: usize = 0;
    while i < b.len()
        invariant
            i <= b@.len(),
            out@ == old(out)@ + b@.take(i as int),
        decreases b@.len() - i,
    {
        out.push(b[i]);
        proof {
            assert(out@ =~= old(out)@ + b@.take(i + 1));
        }
        i += 1;
    }
    proof {
        assert(b@.take(i as int) =~= b@);
        assert(out@ =~= old(out)@ + b@);
    }
}

/// Appends a list column: values percent-escaped and joined by `delimiter`,
/// or `.` when empty.
pub fn write_array(out: &mut Vec<u8>, array: &Vec<Vec<u8>>, delimiter: u8)
    ensures
        final(out)@ == old(out)@ + spec_write_array(array.deep_view(), delimiter),
{
    let ghost dv = array.deep_view();
    let ghost ev = spec_encoded_all(dv);
    if array.len() == 0 {
        out.push('.' as u8);
        proof {
            assert(out@ =~= old(out)@ + crate::record::parser::dot_bytes());
        }
        return ;
    }
    let mut i: usize = 0;
    while i < array.len()
        invariant
            i <= array@.len(),
            dv == array.deep_view(),
            ev == spec_encoded_all(dv),
            dv.len() == array@.len(),
            out@ == old(out)@ + spec_join_with(ev.take(i as int), delimiter),
        decreases array@.len() - i,
    {
        proof {
            lemma_join_push(ev.take(i as int), ev[i as int], delimiter);
            assert(ev.take(i + 1) =~= ev.take(i as int).push(ev[i as int]));
        }
        if i != 0 {
            out.push(delimiter);
        }
        let encoded = crate::codec::encode(array[i].as_slice());
        push_bytes(out, encoded.as_slice());
        proof {
            assert(dv[i as int] == array@[i as int]@);
            assert(ev[i as int] == crate::codec::spec_encode(dv[i as int]));
            if i == 0 {
                assert(spec_join_with(ev.take(0), delimiter) =~= Seq::<u8>::empty());
                assert(out@ =~= old(out)@ + spec_join_with(ev.take(1), delimiter));
            } else {
                assert(out@ =~= old(out)@ + spec_join_with(ev.take(i + 1), delimiter));
            }
        }
        i += 1;
    }
    proof {
        assert(ev.take(i as int) =~= ev);
        assert(ev.len() == dv.len());
    }
}

/// Appends the INFO column: `;`-joined `key` or `key=v1,v2` entries, or `.`.
pub fn write_info(out: &mut Vec<u8>, info: &Vec<(Vec<u8>, Vec<Vec<u8>>)>)
    ensures
        final(out)@ == old(out)@ + spec_write_info(
            crate::record::parser::info_entries_view(info@),
        ),
{
    let ghost ev = crate::record::parser::info_entries_view(info@);
    let ghost entries = ev.map_values(|e: (Seq<u8>, Seq<Seq<u8>>)| spec_write_info_entry(e));
    if info.len() == 0 {
        out.push('.' as u8);
        proof {
            assert(out@ =~= old(out)@ + crate::record::parser::dot_bytes());
        }
        return ;
    }
    let mut i: usize = 0;
    while i < info.len()
        invariant
            i <= info@.len(),
            ev == crate::record::parser::info_entries_view(info@),
            entries == ev.map_values(|e: (Seq<u8>, Seq<Seq<u8>>)| spec_write_info_entry(e)),
            entries.len() == info@.len(),
            out@ == old(out)@ + spec_join_with(entries.take(i as int), ';' as u8),
        decreases info@.len() - i,
    {
        proof {
            lemma_join_push(entries.take(i as int), entries[i as int], ';' as u8);
            assert(entries.take(i + 1) =~= entries.take(i as int).push(entries[i as int]));
        }
        if i != 0 {
            out.push(';' as u8);
        }
        let ghost before_entry = out@;
        push_bytes(out, info[i].0.as_slice());
        if info[i].1.len() != 0 {
            out.push('=' as u8);
            let mut vals: Vec<u8> = Vec::new();
            write_array(&mut vals, &info[i].1, ',' as u8);
            push_bytes(out, vals.as_slice());
            proof {
                assert(ev[i as int] == (info@[i as int].0@, info@[i as int].1.deep_view()));
                assert(info@[i as int].1.deep_view().len() == info@[i as int].1@.len());
                assert(vals@ =~= spec_join_with(
                    spec_encoded_all(info@[i as int].1.deep_view()),
                    ',' as u8,
                ));
                assert(out@ =~= before_entry + spec_write_info_entry(ev[i as int]));
            }
        } else {
            proof {
                assert(ev[i as int] == (info@[i as int].0@, info@[i as int].1.deep_view()));
                assert(info@[i as int].1.deep_view().len() == info@[i as int].1@.len());
                assert(out@ =~= before_entry + spec_write_info_entry(ev[i as int]));
            }
        }
        proof {
            if i == 0 {
                assert(spec_join_with(entries.take(0), ';' as u8) =~= Seq::<u8>::empty());
                assert(before_entry == old(out)@);
                assert(out@ =~= old(out)@ + spec_join_with(entries.take(1), ';' as u8));
            } else {
                assert(out@ =~= old(out)@ + spec_join_with(entries.take(i + 1), ';' as u8));
            }
        }
        i += 1;
    }
    proof {
        assert(entries.take(i as int) =~= entries);
    }
}

/// Appends one sample's genotype column.
fn write_row(out: &mut Vec<u8>, row: &Vec<Vec<Vec<u8>>>)
    ensures
        final(out)@ == old(out)@ + spec_write_row(row.deep_view()),
{
    let ghost rdv = row.deep_view();
    let ghost cells = rdv.map_values(|c: Seq<Seq<u8>>| spec_write_array(c, ',' as u8));
    if row.len() == 0 {
        out.push('.' as u8);
        proof {
            assert(out@ =~= old(out)@ + crate::record::parser::dot_bytes());
        }
        return ;
    }
    let mut i: usize = 0;
    while i < row.len()
        invariant
            i <= row@.len(),
            rdv == row.deep_view(),
            cells == rdv.map_values(|c: Seq<Seq<u8>>| spec_write_array(c, ',' as u8)),
            cells.len() == row@.len(),
            out@ == old(out)@ + spec_join_with(cells.take(i as int), ':' as u8),
        decreases row@.len() - i,
    {
        proof {
            lemma_join_push(cells.take(i as int), cells[i as int], ':' as u8);
            assert(cells.take(i + 1) =~= cells.take(i as int).push(cells[i as int]));
        }
        if i != 0 {
            out.push(':' as u8);
        }
        let ghost before_cell = out@;
        write_array(out, &row[i], ',' as u8);
        proof {
            assert(rdv[i as int] == row@[i as int].deep_view());
            assert(out@ =~= before_cell + cells[i as int]);
            if i == 0 {
                assert(spec_join_with(cells.take(0), ':' as u8) =~= Seq::<u8>::empty());
                assert(out@ =~= old(out)@ + spec_join_with(cells.take(1), ':' as u8));
            } else {
                assert(out@ =~= old(out)@ + spec_join_with(cells.take(i + 1), ':' as u8));
            }
        }
        i += 1;
    }
    proof {
        assert(cells.take(i as int) =~= cells);
    }
}

impl VCFRecord {
    /// The exact bytes this record serializes to, including the final `\n`.
    #[verifier::rlimit(100)]
    pub fn to_line_bytes(&self) -> (r: Vec<u8>)
        ensures
            r@ == spec_write_record(spec_record_view(*self)),
    {
        let mut out: Vec<u8> = Vec::new();
        push_bytes(&mut out, self.chromosome.as_slice());
        out.push('\t' as u8);
        push_u64_dec(&mut out, self.position);
        out.push('\t' as u8);
        write_array(&mut out, &self.id, ',' as u8);
        out.push('\t' as u8);
        push_bytes(&mut out, self.reference.as_slice());
        out.push('\t' as u8);
        write_array(&mut out, &self.alternative, ',' as u8);
        out.push('\t' as u8);
        match &self.qual {
            None => {
                out.push('.' as u8);
            },
            Some(q) => {
                push_bytes(&mut out, q.as_slice());
            },
        }
        out.push('\t' as u8);
        write_array(&mut out, &self.filter, ',' as u8);
        out.push('\t' as u8);
        write_info(&mut out, &self.info);
        if self.format.len() != 0 {
            out.push('\t' as u8);
            write_array(&mut out, &self.format, ':' as u8);
            let ghost gdv = self.genotype.deep_view();
            let ghost base = out@;
            let mut x: usize = 0;
            proof {
                assert(spec_write_rows(gdv.skip(0)) == spec_write_rows(gdv)) by {
                    assert(gdv.skip(0) =~= gdv);
                }
            }
            while x < self.genotype.len()
                invariant
                    x <= self.genotype@.len(),
                    gdv == self.genotype.deep_view(),
                    gdv.len() == self.genotype@.len(),
                    base + spec_write_rows(gdv) == out@ + spec_write_rows(gdv.skip(x as int)),
                decreases self.genotype@.len() - x,
            {
                let ghost before = out@;
                out.push('\t' as u8);
                write_row(&mut out, &self.genotype[x]);
                proof {
                    let rest = gdv.skip(x as int);
                    assert(rest[0] == gdv[x as int]);
                    assert(gdv[x as int] == self.genotype@[x as int].deep_view());
                    assert(rest.drop_first() =~= gdv.skip(x + 1));
                    assert(spec_write_rows(rest) == seq!['\t' as u8] + spec_write_row(rest[0])
                        + spec_write_rows(gdv.skip(x + 1)));
                    assert(out@ =~= before + seq!['\t' as u8] + spec_write_row(gdv[x as int]));
                    assert(base + spec_write_rows(gdv) =~= out@ + spec_write_rows(gdv.skip(x + 1)));
                }
                x += 1;
            }
            proof {
                assert(spec_write_rows(gdv.skip(x as int)).len() == 0);
                assert(base + spec_write_rows(gdv) =~= out@);
            }
        }
        out.push('\n' as u8);
        proof {
            let pr = spec_record_view(*self);
            lemma_line_assembly(pr);
            assert(out@ =~= pr.chromosome + seq!['\t' as u8] + dec_digits(pr.position as nat)
                + seq!['\t' as u8] + spec_write_array(pr.id, ',' as u8) + seq!['\t' as u8]
                + pr.reference + seq!['\t' as u8] + spec_write_array(pr.alternative, ',' as u8)
                + seq!['\t' as u8] + spec_qual_written(pr.qual) + seq!['\t' as u8]
                + spec_write_array(pr.filter, ',' as u8) + seq!['\t' as u8] + spec_write_info(
                pr.info,
            ) + (if pr.format.len() == 0 {
                Seq::<u8>::empty()
            } else {
                seq!['\t' as u8] + spec_write_array(pr.format, ':' as u8) + spec_write_rows(
                    pr.genotype,
                )
            }) + seq!['\n' as u8]);
        }
        out
    }
}

impl VCFRecord {
    /// Parses `line` into this record; a grammar failure is reported as a
    /// record parse error at `line_num` and leaves the record unchanged.
    pub fn parse_bytes(&mut self, line: &[u8], line_num: u64) -> (r: Result<(), crate::VCFError>)
        ensures
            r is Ok <==> crate::record::parser::spec_parse_record(line@) is Some,
            r matches Err(e) ==> e matches crate::VCFError::RecordParseError(n) && n == line_num
                && *final(self) == *old(self),
            r is Ok ==> ({
                let pr = crate::record::parser::spec_parse_record(line@).unwrap();
                &&& spec_record_view(*final(self)) == crate::record::parser::ParsedRecord {
                    end: 0,
                    ..pr
                }
                &&& final(self).header == old(self).header
                &&& (old(self).header.wf() ==> final(self).wf())
            }),
    {
        match crate::record::parser::parse_record(line, self) {
            Ok(_) => {
                proof {
                    let pr = crate::record::parser::spec_parse_record(line@).unwrap();
                    assert(spec_record_view(*self) =~~= crate::record::parser::ParsedRecord {
                        end: 0,
                        ..pr
                    });
                }
                Ok(())
            },
            Err(_) => Err(crate::VCFError::RecordParseError(line_num)),
        }
    }

    /// Parses `line` into a fresh record bound to `header`.
    pub fn from_bytes(line: &[u8], line_num: u64, header: VCFHeader) -> (r: Result<
        VCFRecord,
        crate::VCFError,
    >)
        requires
            header.wf(),
        ensures
            r is Ok <==> crate::record::parser::spec_parse_record(line@) is Some,
            r matches Err(e) ==> e matches crate::VCFError::RecordParseError(n) && n == line_num,
            r matches Ok(rec) ==> ({
                let pr = crate::record::parser::spec_parse_record(line@).unwrap();
                &&& spec_record_view(rec) == crate::record::parser::ParsedRecord { end: 0, ..pr }
                &&& rec.header == header
                &&& rec.wf()
            }),
    {
        let mut record = VCFRecord::new(header);
        match record.parse_bytes(line, line_num) {
            Ok(_) => Ok(record),
            Err(e) => Err(e),
        }
    }

    /// Serializes this record, through [`Self::to_line_bytes`], into `writer`.
    pub fn write_record<W: std::io::Write>(&self, writer: &mut W) -> (r: Result<
        (),
        std::io::Error,
    >) {
        let bytes = self.to_line_bytes();
        crate::write_all_bytes(writer, bytes.as_slice())
    }
}

} // verus!
