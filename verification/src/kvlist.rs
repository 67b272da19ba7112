//! Key-to-index tables, kept as association lists with unique keys.  They
//! stand in for hash maps: the contracts below pin every lookup exactly.

use vstd::prelude::*;

verus! {

/// Value of the first entry whose key is `key`, if any.
pub open spec fn assoc_find(m: Seq<(Vec<u8>, usize)>, key: Seq<u8>) -> Option<usize>
    decreases m.len(),
{
    if m.len() == 0 {
        None
    } else if m[0].0@ == key {
        Some(m[0].1)
    } else {
        assoc_find(m.drop_first(), key)
    }
}

/// Index of the last element of `keys` equal to `key`, if any.
pub open spec fn last_index_of(keys: Seq<Seq<u8>>, key: Seq<u8>) -> Option<int>
    decreases keys.len(),
{
    if keys.len() == 0 {
        None
    } else if keys.last() == key {
        Some(keys.len() - 1)
    } else {
        last_index_of(keys.drop_last(), key)
    }
}

pub proof fn lemma_last_index_of_bounds(keys: Seq<Seq<u8>>, key: Seq<u8>)
    ensures
        last_index_of(keys, key) matches Some(i) ==> 0 <= i < keys.len() && keys[i] == key,
        last_index_of(keys, key) is None ==> forall|i: int| 0 <= i < keys.len() ==> keys[i] != key,
    decreases keys.len(),
{
    if keys.len() > 0 && keys.last() != key {
        lemma_last_index_of_bounds(keys.drop_last(), key);
        assert(forall|i: int| 0 <= i < keys.len() - 1 ==> keys[i] == keys.drop_last()[i]);
    }
}

/// Appending a key makes it the last occurrence and shadows nothing else.
pub proof fn lemma_last_index_of_push(keys: Seq<Seq<u8>>, pushed: Seq<u8>, key: Seq<u8>)
    ensures
        last_index_of(keys.push(pushed), key) == (if key == pushed {
            Some(keys.len() as int)
        } else {
            last_index_of(keys, key)
        }),
{
    let grown = keys.push(pushed);
    assert(grown.last() == pushed);
    if key != pushed {
        assert(grown.drop_last() =~= keys);
    }
}

/// A scan that rejected the first `i` entries finds what the tail finds.
pub proof fn lemma_assoc_find_skip(m: Seq<(Vec<u8>, usize)>, key: Seq<u8>, i: int)
    requires
        0 <= i <= m.len(),
        forall|j: int| 0 <= j < i ==> #[trigger] m[j].0@ != key,
    ensures
        assoc_find(m, key) == assoc_find(m.skip(i), key),
    decreases i,
{
    if i > 0 {
        assert(m[0].0@ != key);
        assert(m.drop_first() =~= m.skip(1));
        assert forall|j: int| 0 <= j < i - 1 implies #[trigger] m.skip(1)[j].0@ != key by {
            assert(m.skip(1)[j] == m[j + 1]);
        }
        lemma_assoc_find_skip(m.skip(1), key, i - 1);
        assert(m.skip(1).skip(i - 1) =~= m.skip(i));
    } else {
        assert(m.skip(0) =~= m);
    }
}

/// Looks `key` up in the table.
pub fn assoc_lookup(m: &Vec<(Vec<u8>, usize)>, key: &[u8]) -> (r: Option<usize>)
    ensures
        r == assoc_find(m@, key@),
{
    let mut i: usize = 0;
    while i < m.len()
        invariant
            i <= m@.len(),
            forall|j: int| 0 <= j < i ==> #[trigger] m@[j].0@ != key@,
        decreases m@.len() - i,
    {
        if crate::bytestr::bytes_eq(m[i].0.as_slice(), key) {
            proof {
                lemma_assoc_find_skip(m@, key@, i as int);
                assert(m@.skip(i as int)[0] == m@[i as int]);
            }
            return Some(m[i].1);
        }
        i += 1;
    }
    proof {
        lemma_assoc_find_skip(m@, key@, i as int);
    }
    None
}

/// Sets `key` to `val`: overwrites the entry holding `key`, or appends one.
/// Every other key's lookup is untouched.
pub fn assoc_set(m: &mut Vec<(Vec<u8>, usize)>, key: Vec<u8>, val: usize)
    ensures
        assoc_find(final(m)@, key@) == Some(val),
        forall|k: Seq<u8>| k != key@ ==> assoc_find(final(m)@, k) == assoc_find(old(m)@, k),
{
    let ghost orig = m@;
    let mut i: usize = 0;
    while i < m.len()
        invariant
            m@ == orig,
            orig == old(m)@,
            i <= m@.len(),
            forall|j: int| 0 <= j < i ==> #[trigger] m@[j].0@ != key@,
        decreases m@.len() - i,
    {
        if crate::bytestr::bytes_eq(m[i].0.as_slice(), key.as_slice()) {
            let ghost pos = i as int;
            m[i] = (key, val);
            proof {
                assert(m@.len() == orig.len());
                assert(forall|j: int| 0 <= j < orig.len() && j != pos ==> m@[j] == orig[j]);
                assert(m@[pos].0@ == key@ && m@[pos].1 == val);
                assert forall|k: Seq<u8>| #[trigger] assoc_find(m@, k) == (if k == key@ {
                    Some(val)
                } else {
                    assoc_find(orig, k)
                }) by {
                    lemma_assoc_prefix_same(orig, m@, k, pos, key@, val);
                }
            }
            return ;
        }
        i += 1;
    }
    m.push((key, val));
    proof {
        assert forall|k: Seq<u8>| #[trigger] assoc_find(m@, k) == (if k == key@ {
            Some(val)
        } else {
            assoc_find(orig, k)
        }) by {
            if k == key@ {
                lemma_assoc_find_skip(m@, k, orig.len() as int);
                assert(m@.skip(orig.len() as int) =~= seq![(m@.last().0, m@.last().1)]);
            } else {
                lemma_assoc_update_or_push(orig, m@, k);
            }
        }
    }
}

/// Lookup of `k` agrees between `orig` and `m` when `m` is `orig` with entry
/// `pos` (the first holding `key`) overwritten by `(key, val)`.
proof fn lemma_assoc_prefix_same(
    orig: Seq<(Vec<u8>, usize)>,
    m: Seq<(Vec<u8>, usize)>,
    k: Seq<u8>,
    pos: int,
    key: Seq<u8>,
    val: usize,
)
    requires
        0 <= pos < orig.len(),
        m.len() == orig.len(),
        forall|j: int| 0 <= j < pos ==> #[trigger] orig[j].0@ != key,
        forall|j: int| 0 <= j < orig.len() && j != pos ==> m[j] == orig[j],
        orig[pos].0@ == key,
        m[pos].0@ == key,
        m[pos].1 == val,
    ensures
        assoc_find(m, k) == (if k == key {
            Some(val)
        } else {
            assoc_find(orig, k)
        }),
    decreases pos,
{
    if pos == 0 {
        if k == key {
        } else {
            assert(m.drop_first() =~= orig.drop_first());
        }
    } else {
        assert(m[0] == orig[0]);
        if orig[0].0@ == k {
        } else {
            lemma_assoc_prefix_same(orig.drop_first(), m.drop_first(), k, pos - 1, key, val);
            assert(m.drop_first() =~= m.skip(1));
        }
    }
}

/// Lookup of a key other than the pushed one ignores the pushed entry.
proof fn lemma_assoc_update_or_push(orig: Seq<(Vec<u8>, usize)>, m: Seq<(Vec<u8>, usize)>, k: Seq<u8>)
    requires
        m.len() == orig.len() + 1,
        forall|j: int| 0 <= j < orig.len() ==> m[j] == orig[j],
        m.last().0@ != k,
    ensures
        assoc_find(m, k) == assoc_find(orig, k),
    decreases orig.len(),
{
    if orig.len() == 0 {
        assert(m[0].0@ != k);
    } else {
        assert(m[0] == orig[0]);
        if orig[0].0@ == k {
        } else {
            lemma_assoc_update_or_push(orig.drop_first(), m.drop_first(), k);
        }
    }
}

/// Index of the last element satisfying `p`, if any.
pub open spec fn last_match<T>(xs: Seq<T>, p: spec_fn(T) -> bool) -> Option<int>
    decreases xs.len(),
{
    if xs.len() == 0 {
        None
    } else if p(xs.last()) {
        Some(xs.len() - 1)
    } else {
        last_match(xs.drop_last(), p)
    }
}

pub proof fn lemma_last_match_bounds<T>(xs: Seq<T>, p: spec_fn(T) -> bool)
    ensures
        last_match(xs, p) matches Some(i) ==> 0 <= i < xs.len() && p(xs[i]),
        last_match(xs, p) is None ==> forall|i: int| 0 <= i < xs.len() ==> !p(xs[i]),
    decreases xs.len(),
{
    if xs.len() > 0 && !p(xs.last()) {
        lemma_last_match_bounds(xs.drop_last(), p);
        assert(forall|i: int| 0 <= i < xs.len() - 1 ==> xs[i] == xs.drop_last()[i]);
    }
}

/// Appending an element shifts the last match only if the element matches.
pub proof fn lemma_last_match_push<T>(xs: Seq<T>, x: T, p: spec_fn(T) -> bool)
    ensures
        last_match(xs.push(x), p) == (if p(x) {
            Some(xs.len() as int)
        } else {
            last_match(xs, p)
        }),
{
    let grown = xs.push(x);
    assert(grown.last() == x);
    if !p(x) {
        assert(grown.drop_last() =~= xs);
    }
}

/// `assoc_find` succeeds exactly when some entry holds the key.
pub proof fn lemma_assoc_find_some_iff(m: Seq<(Vec<u8>, usize)>, key: Seq<u8>)
    ensures
        assoc_find(m, key) is Some <==> exists|i: int| 0 <= i < m.len() && #[trigger] m[i].0@ == key,
    decreases m.len(),
{
    if m.len() > 0 {
        lemma_assoc_find_some_iff(m.drop_first(), key);
        if m[0].0@ != key {
            assert(forall|i: int|
                0 <= i < m.drop_first().len() ==> #[trigger] m.drop_first()[i] == m[i + 1]);
            if assoc_find(m, key) is Some {
                let i = choose|i: int| 0 <= i < m.drop_first().len() && #[trigger] m.drop_first()[i].0@ == key;
                assert(m[i + 1].0@ == key);
            }
            if exists|i: int| 0 <= i < m.len() && #[trigger] m[i].0@ == key {
                let i = choose|i: int| 0 <= i < m.len() && #[trigger] m[i].0@ == key;
                assert(m.drop_first()[i - 1].0@ == key);
            }
        }
    }
}

} // verus!
