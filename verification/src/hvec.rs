//! The key-value store itself: three parallel vectors holding the keys
//! in strictly increasing order, the values, and the cached digest of
//! each entry.
//!
//! The well-formedness predicate [`HVec::wf`] ties the cached digests
//! to the entries, so every range-hash query can be specified as an
//! XOR over the entries themselves.

use vstd::map::*;
use vstd::prelude::*;

use crate::hash::{entry_hash, hash, lemma_xor_assoc, lemma_xor_comm, lemma_xor_zero, Hashable};
use crate::range_compare::{in_range, spec_full_range, KeyBound, KeyRange};

verus! {

/// Keys are in strictly increasing order: no duplicates.
pub open spec fn sorted_strict(s: Seq<u64>) -> bool {
    forall|i: int, j: int| 0 <= i < j < s.len() ==> s[i] < s[j]
}

/// Number of keys in `s` strictly below `key`.  On a sorted key
/// sequence this is the rank of `key`: the index where it sits or
/// would be inserted.
pub open spec fn count_lt(s: Seq<u64>, key: u64) -> int
    decreases s.len(),
{
    if s.len() == 0 {
        0
    } else {
        count_lt(s.drop_last(), key) + (if s.last() < key {
            1int
        } else {
            0int
        })
    }
}

/// Number of keys in `s` at or below `key`.
pub open spec fn count_le(s: Seq<u64>, key: u64) -> int
    decreases s.len(),
{
    if s.len() == 0 {
        0
    } else {
        count_le(s.drop_last(), key) + (if s.last() <= key {
            1int
        } else {
            0int
        })
    }
}

/// On a sorted sequence, `count_lt` splits the indices: everything
/// before it is below `key`, everything from it on is at or above.
pub proof fn lemma_count_lt_split(s: Seq<u64>, key: u64)
    requires
        sorted_strict(s),
    ensures
        0 <= count_lt(s, key) <= s.len(),
        forall|i: int| 0 <= i < count_lt(s, key) ==> s[i] < key,
        forall|i: int| count_lt(s, key) <= i < s.len() ==> s[i] >= key,
    decreases s.len(),
{
    if s.len() > 0 {
        let t = s.drop_last();
        assert(sorted_strict(t));
        lemma_count_lt_split(t, key);
        let c = count_lt(t, key);
        if s.last() < key {
            assert forall|i: int| 0 <= i < s.len() - 1 implies s[i] < key by {
                assert(s[i] < s[s.len() - 1]);
            }
            if c < t.len() {
                assert(t[c] >= key);
                assert(t[c] == s[c]);
            }
            assert(count_lt(s, key) == s.len());
            assert forall|i: int| 0 <= i < count_lt(s, key) implies s[i] < key by {
                if i < s.len() - 1 {
                    assert(s[i] < s[s.len() - 1]);
                }
            }
        } else {
            assert forall|i: int| 0 <= i < count_lt(s, key) implies s[i] < key by {
                assert(t[i] < key);
                assert(t[i] == s[i]);
            }
            assert forall|i: int| c <= i < s.len() implies s[i] >= key by {
                if i < s.len() - 1 {
                    assert(t[i] >= key);
                }
            }
        }
    }
}

/// Same split for `count_le`.
pub proof fn lemma_count_le_split(s: Seq<u64>, key: u64)
    requires
        sorted_strict(s),
    ensures
        0 <= count_le(s, key) <= s.len(),
        forall|i: int| 0 <= i < count_le(s, key) ==> s[i] <= key,
        forall|i: int| count_le(s, key) <= i < s.len() ==> s[i] > key,
    decreases s.len(),
{
    if s.len() > 0 {
        let t = s.drop_last();
        assert(sorted_strict(t));
        lemma_count_le_split(t, key);
        let c = count_le(t, key);
        if s.last() <= key {
            assert forall|i: int| 0 <= i < s.len() - 1 implies s[i] <= key by {
                assert(s[i] < s[s.len() - 1]);
            }
            if c < t.len() {
                assert(t[c] > key);
                assert(t[c] == s[c]);
            }
            assert(count_le(s, key) == s.len());
            assert forall|i: int| 0 <= i < count_le(s, key) implies s[i] <= key by {
                if i < s.len() - 1 {
                    assert(s[i] < s[s.len() - 1]);
                }
            }
        } else {
            assert forall|i: int| 0 <= i < count_le(s, key) implies s[i] <= key by {
                assert(t[i] <= key);
                assert(t[i] == s[i]);
            }
            assert forall|i: int| c <= i < s.len() implies s[i] > key by {
                if i < s.len() - 1 {
                    assert(t[i] > key);
                }
            }
        }
    }
}

/// If `key` sits at index `i` of a sorted sequence, its rank is `i`.
pub proof fn lemma_count_lt_at(s: Seq<u64>, key: u64, i: int)
    requires
        sorted_strict(s),
        0 <= i < s.len(),
        s[i] == key,
    ensures
        count_lt(s, key) == i,
{
    lemma_count_lt_split(s, key);
    let c = count_lt(s, key);
    if c < i {
        assert(s[c] >= key);
        assert(s[c] < s[i]);
    }
    if c > i {
        assert(s[i] < key);
    }
}

/// On a sorted sequence, `key` is present exactly when the entry at
/// its rank equals it.
pub proof fn lemma_contains_rank(s: Seq<u64>, key: u64)
    requires
        sorted_strict(s),
    ensures
        s.contains(key) <==> (count_lt(s, key) < s.len() && s[count_lt(s, key)] == key),
{
    lemma_count_lt_split(s, key);
    let c = count_lt(s, key);
    if s.contains(key) {
        let i = choose|i: int| 0 <= i < s.len() && s[i] == key;
        lemma_count_lt_at(s, key, i);
    }
}

/// Parallel key/value sequences read as a map from key to value.
pub open spec fn seqs_contents<V>(keys: Seq<u64>, vals: Seq<V>) -> Map<u64, V> {
    Map::new(|k: u64| keys.contains(k), |k: u64| vals[count_lt(keys, k)])
}

/// The store: sorted keys, their values, and the cached digest of each
/// entry, kept in three parallel vectors.
#[derive(Debug, PartialEq, Eq)]
pub struct HVec<V> {
    keys: Vec<u64>,
    values: Vec<V>,
    hashes: Vec<u64>,
}

impl<V> HVec<V> {
    /// The keys, in increasing order.
    pub closed spec fn key_seq(&self) -> Seq<u64> {
        self.keys@
    }

    /// The values, parallel to the keys.
    pub closed spec fn val_seq(&self) -> Seq<V> {
        self.values@
    }

    /// The cached entry digests, parallel to the keys.
    pub closed spec fn hash_seq(&self) -> Seq<u64> {
        self.hashes@
    }
}

impl<V: Hashable> HVec<V> {
    /// Well-formedness: parallel lengths, strictly sorted keys, and
    /// every cached digest equal to the digest of its entry.
    pub open spec fn wf(&self) -> bool {
        &&& self.val_seq().len() == self.key_seq().len()
        &&& self.hash_seq().len() == self.key_seq().len()
        &&& sorted_strict(self.key_seq())
        &&& forall|i: int|
            0 <= i < self.key_seq().len() ==> self.hash_seq()[i] == entry_hash(
                self.key_seq()[i],
                self.val_seq()[i].digest(),
            )
    }

    /// The store as a map from key to value.
    pub open spec fn contents(&self) -> Map<u64, V> {
        seqs_contents(self.key_seq(), self.val_seq())
    }
}

/// Position of a search result: the index where the key was found, or
/// the index where it would be inserted.
pub fn ok_index(result: Result<usize, usize>) -> (index: usize)
    ensures
        index == (match result {
            Result::Ok(i) => i,
            Result::Err(i) => i,
        }),
{
    match result {
        Result::Ok(index) => index,
        Result::Err(index) => index,
    }
}

/// Binary search over the sorted key vector: `Ok` with the index of
/// the key, or `Err` with its rank when absent.
fn binary_search_keys(keys: &Vec<u64>, key: u64) -> (r: Result<usize, usize>)
    requires
        sorted_strict(keys@),
    ensures
        match r {
            Result::Ok(i) => i < keys@.len() && keys@[i as int] == key && i == count_lt(
                keys@,
                key,
            ),
            Result::Err(i) => i == count_lt(keys@, key) && !keys@.contains(key),
        },
{
    let mut lo: usize = 0;
    let mut hi: usize = keys.len();
    while lo < hi
        invariant
            lo <= hi <= keys@.len(),
            sorted_strict(keys@),
            forall|i: int| 0 <= i < lo ==> keys@[i] < key,
            forall|i: int| hi <= i < keys@.len() ==> keys@[i] > key,
        decreases hi - lo,
    {
        let mid: usize = lo + (hi - lo) / 2;
        if keys[mid] < key {
            lo = mid + 1;
        } else if keys[mid] > key {
            assert forall|i: int| mid <= i < keys@.len() implies keys@[i] > key by {
                if i > mid {
                    assert(keys@[mid as int] < keys@[i]);
                }
            }
            hi = mid;
        } else {
            proof {
                lemma_count_lt_at(keys@, key, mid as int);
            }
            return Result::Ok(mid);
        }
    }
    proof {
        lemma_count_lt_split(keys@, key);
        let c = count_lt(keys@, key);
        if c < lo {
            assert(keys@[c] < key);
        }
        if c > lo {
            assert(keys@[lo as int] >= key);
            assert(keys@[lo as int] > key) by {
                if keys@[lo as int] == key {
                    lemma_count_lt_at(keys@, key, lo as int);
                }
            }
        }
        assert forall|i: int| 0 <= i < keys@.len() implies keys@[i] != key by {
            if i < lo {
                assert(keys@[i] < key);
            } else {
                assert(keys@[i] > key);
            }
        }
    }
    Result::Err(lo)
}

impl<V: Hashable> HVec<V> {
    /// An empty store.
    pub fn new() -> (r: Self)
        ensures
            r.wf(),
            r.key_seq().len() == 0,
            r.val_seq().len() == 0,
    {
        HVec { keys: Vec::new(), values: Vec::new(), hashes: Vec::new() }
    }

    /// Number of entries.
    pub fn len(&self) -> (n: usize)
        ensures
            n == self.key_seq().len(),
    {
        self.keys.len()
    }

    /// Whether the store holds no entry.
    pub fn is_empty(&self) -> (b: bool)
        ensures
            b == (self.key_seq().len() == 0),
    {
        self.keys.len() == 0
    }

    /// Index of `key` if present.
    pub fn position(&self, key: u64) -> (r: Option<usize>)
        requires
            self.wf(),
        ensures
            match r {
                Some(i) => i < self.key_seq().len() && self.key_seq()[i as int] == key,
                None => !self.key_seq().contains(key),
            },
    {
        match binary_search_keys(&self.keys, key) {
            Result::Ok(i) => Some(i),
            Result::Err(_) => None,
        }
    }

    /// Reference to the value stored under `key`, if any.
    pub fn get(&self, key: u64) -> (r: Option<&V>)
        requires
            self.wf(),
        ensures
            match r {
                Some(v) => self.key_seq().contains(key) && *v == self.val_seq()[count_lt(
                    self.key_seq(),
                    key,
                )],
                None => !self.key_seq().contains(key),
            },
    {
        match binary_search_keys(&self.keys, key) {
            Result::Ok(i) => Some(&self.values[i]),
            Result::Err(_) => None,
        }
    }

    /// Place or replace the value under `key`; returns the value that
    /// was there, if any.
    pub fn insert(&mut self, key: u64, value: V) -> (prior: Option<V>)
        requires
            old(self).wf(),
        ensures
            final(self).wf(),
            ({
                let i = count_lt(old(self).key_seq(), key);
                if old(self).key_seq().contains(key) {
                    &&& final(self).key_seq() == old(self).key_seq()
                    &&& final(self).val_seq() == old(self).val_seq().update(i, value)
                    &&& prior == Some(old(self).val_seq()[i])
                } else {
                    &&& final(self).key_seq() == old(self).key_seq().insert(i, key)
                    &&& final(self).val_seq() == old(self).val_seq().insert(i, value)
                    &&& prior is None
                }
            }),
    {
        proof {
            lemma_contains_rank(self.key_seq(), key);
        }
        let h = hash(key, &value);
        match binary_search_keys(&self.keys, key) {
            Result::Ok(index) => {
                self.hashes[index] = h;
                let prior = self.values.remove(index);
                self.values.insert(index, value);
                assert(self.val_seq() =~= old(self).val_seq().update(index as int, value));
                Some(prior)
            },
            Result::Err(index) => {
                proof {
                    lemma_count_lt_split(self.key_seq(), key);
                }
                self.hashes.insert(index, h);
                self.keys.insert(index, key);
                self.values.insert(index, value);
                assert(sorted_strict(self.key_seq())) by {
                    let s = self.key_seq();
                    let t = old(self).key_seq();
                    assert forall|i: int, j: int| 0 <= i < j < s.len() implies s[i] < s[j] by {
                        if i < index as int && j == index as int {
                            assert(s[i] == t[i] && t[i] < key);
                        } else if i == index as int && j > index as int {
                            assert(s[j] == t[j - 1] && t[j - 1] >= key && t[j - 1] != key);
                        }
                    }
                }
                None
            },
        }
    }

    /// Remove the entry under `key`, returning its value if it was
    /// present.
    pub fn remove(&mut self, key: u64) -> (prior: Option<V>)
        requires
            old(self).wf(),
        ensures
            final(self).wf(),
            ({
                let i = count_lt(old(self).key_seq(), key);
                if old(self).key_seq().contains(key) {
                    &&& final(self).key_seq() == old(self).key_seq().remove(i)
                    &&& final(self).val_seq() == old(self).val_seq().remove(i)
                    &&& prior == Some(old(self).val_seq()[i])
                } else {
                    &&& final(self).key_seq() == old(self).key_seq()
                    &&& final(self).val_seq() == old(self).val_seq()
                    &&& prior is None
                }
            }),
    {
        proof {
            lemma_contains_rank(self.key_seq(), key);
        }
        match binary_search_keys(&self.keys, key) {
            Result::Ok(index) => {
                self.keys.remove(index);
                self.hashes.remove(index);
                let prior = self.values.remove(index);
                Some(prior)
            },
            Result::Err(_) => None,
        }
    }
}

/// XOR of `hashes[lo..hi]`.
pub open spec fn xor_slice(hashes: Seq<u64>, lo: int, hi: int) -> u64
    decreases hi - lo,
{
    if hi <= lo {
        0
    } else {
        xor_slice(hashes, lo, hi - 1) ^ hashes[hi - 1]
    }
}

/// XOR of `hashes[i]` over the first `n` entries whose key falls in
/// the range.
pub open spec fn range_xor_upto(keys: Seq<u64>, hashes: Seq<u64>, r: KeyRange, n: int) -> u64
    decreases n,
{
    if n <= 0 {
        0
    } else {
        range_xor_upto(keys, hashes, r, n - 1) ^ (if in_range(r, keys[n - 1]) {
            hashes[n - 1]
        } else {
            0u64
        })
    }
}

/// The digests of a sequence of entries.
pub open spec fn entry_hash_seq<V: Hashable>(keys: Seq<u64>, values: Seq<V>) -> Seq<u64> {
    Seq::new(keys.len(), |i: int| entry_hash(keys[i], values[i].digest()))
}

/// Index of the first entry at or after a start bound.
pub open spec fn start_rank(keys: Seq<u64>, b: KeyBound) -> int {
    match b {
        KeyBound::Unbounded => 0,
        KeyBound::Included(k) => count_lt(keys, k),
        KeyBound::Excluded(k) => count_le(keys, k),
    }
}

/// Index just past the last entry at or before an end bound.
pub open spec fn end_rank(keys: Seq<u64>, b: KeyBound) -> int {
    match b {
        KeyBound::Unbounded => keys.len() as int,
        KeyBound::Included(k) => count_le(keys, k),
        KeyBound::Excluded(k) => count_lt(keys, k),
    }
}

/// `count_le` exceeds `count_lt` exactly when the key is present.
pub proof fn lemma_count_le_lt(s: Seq<u64>, key: u64)
    requires
        sorted_strict(s),
    ensures
        count_le(s, key) == count_lt(s, key) + (if s.contains(key) {
            1int
        } else {
            0int
        }),
{
    lemma_count_lt_split(s, key);
    lemma_count_le_split(s, key);
    lemma_contains_rank(s, key);
    let cl = count_lt(s, key);
    let ce = count_le(s, key);
    if s.contains(key) {
        assert(s[cl] == key);
        if ce <= cl {
            assert(s[cl] > key);
        }
        if cl + 1 < ce {
            assert(s[cl + 1] <= key);
            assert(s[cl] < s[cl + 1]);
        }
    } else {
        if ce > cl {
            assert(s[cl] <= key);
            assert(s[cl] >= key);
            assert(s.contains(key));
        }
        if ce < cl {
            assert(s[ce] > key);
            assert(s[ce] < key);
        }
    }
}

/// On a sorted key sequence the entries inside a range are exactly
/// those between the ranks of its two bounds.
pub proof fn lemma_rank_range(keys: Seq<u64>, r: KeyRange)
    requires
        sorted_strict(keys),
    ensures
        0 <= start_rank(keys, r.start) <= keys.len(),
        0 <= end_rank(keys, r.end) <= keys.len(),
        forall|i: int|
            0 <= i < keys.len() ==> (in_range(r, keys[i]) <==> (start_rank(keys, r.start) <= i
                < end_rank(keys, r.end))),
{
    let lo = start_rank(keys, r.start);
    let hi = end_rank(keys, r.end);
    match r.start {
        KeyBound::Unbounded => {},
        KeyBound::Included(k) => {
            lemma_count_lt_split(keys, k);
        },
        KeyBound::Excluded(k) => {
            lemma_count_le_split(keys, k);
        },
    }
    match r.end {
        KeyBound::Unbounded => {},
        KeyBound::Included(k) => {
            lemma_count_le_split(keys, k);
        },
        KeyBound::Excluded(k) => {
            lemma_count_lt_split(keys, k);
        },
    }
    assert forall|i: int| 0 <= i < keys.len() implies (in_range(r, keys[i]) <==> (lo <= i
        < hi)) by {
        match r.start {
            KeyBound::Unbounded => {},
            KeyBound::Included(k) => {
                if i < lo {
                    assert(keys[i] < k);
                } else {
                    assert(keys[i] >= k);
                }
            },
            KeyBound::Excluded(k) => {
                if i < lo {
                    assert(keys[i] <= k);
                } else {
                    assert(keys[i] > k);
                }
            },
        }
        match r.end {
            KeyBound::Unbounded => {},
            KeyBound::Included(k) => {
                if i < hi {
                    assert(keys[i] <= k);
                } else {
                    assert(keys[i] > k);
                }
            },
            KeyBound::Excluded(k) => {
                if i < hi {
                    assert(keys[i] < k);
                } else {
                    assert(keys[i] >= k);
                }
            },
        }
    }
}

/// A range containing none of the first `n` keys contributes nothing.
pub proof fn lemma_range_xor_none(keys: Seq<u64>, hashes: Seq<u64>, r: KeyRange, n: int)
    requires
        0 <= n <= keys.len(),
        forall|i: int| 0 <= i < n ==> !in_range(r, keys[i]),
    ensures
        range_xor_upto(keys, hashes, r, n) == 0,
    decreases n,
{
    if n > 0 {
        lemma_range_xor_none(keys, hashes, r, n - 1);
        crate::hash::lemma_xor_zero(0);
    }
}

/// When the in-range entries form the index interval `[lo, hi)`, the
/// range XOR is the XOR over that slice of cached digests.
pub proof fn lemma_range_xor_as_slice(
    keys: Seq<u64>,
    hashes: Seq<u64>,
    r: KeyRange,
    lo: int,
    hi: int,
    n: int,
)
    requires
        0 <= n <= keys.len(),
        hashes.len() == keys.len(),
        0 <= lo,
        hi <= n,
        forall|i: int| 0 <= i < n ==> (in_range(r, keys[i]) <==> (lo <= i < hi)),
    ensures
        range_xor_upto(keys, hashes, r, n) == xor_slice(hashes, lo, hi),
    decreases n,
{
    if hi <= lo {
        lemma_range_xor_none(keys, hashes, r, n);
    } else if hi == n {
        lemma_range_xor_as_slice(keys, hashes, r, lo, hi - 1, n - 1);
    } else {
        lemma_range_xor_as_slice(keys, hashes, r, lo, hi, n - 1);
        crate::hash::lemma_xor_zero(range_xor_upto(keys, hashes, r, n - 1));
    }
}

impl<V: Hashable> HVec<V> {
    /// XOR of the digests of all entries whose key falls in the range.
    pub open spec fn spec_range_hash(&self, r: KeyRange) -> u64 {
        range_xor_upto(
            self.key_seq(),
            entry_hash_seq(self.key_seq(), self.val_seq()),
            r,
            self.key_seq().len() as int,
        )
    }

    /// The root hash: XOR of the digests of all entries.
    pub open spec fn spec_root_hash(&self) -> u64 {
        self.spec_range_hash(spec_full_range())
    }

    /// Rank of `key`: number of keys strictly below it.
    fn rank_lt(&self, key: u64) -> (i: usize)
        requires
            self.wf(),
        ensures
            i as int == count_lt(self.key_seq(), key),
    {
        ok_index(binary_search_keys(&self.keys, key))
    }

    /// Number of keys at or below `key`.
    fn rank_le(&self, key: u64) -> (i: usize)
        requires
            self.wf(),
        ensures
            i as int == count_le(self.key_seq(), key),
    {
        proof {
            lemma_count_le_lt(self.key_seq(), key);
            lemma_count_le_split(self.key_seq(), key);
        }
        let n = self.keys.len();
        match binary_search_keys(&self.keys, key) {
            Result::Ok(i) => {
                assert(i < n);
                i + 1
            },
            Result::Err(i) => i,
        }
    }

    /// Index of the first entry at or after a start bound, or just
    /// past the last entry at or before an end bound.
    fn index_bound_of_key_bound(&self, key: &KeyBound, start: bool) -> (i: usize)
        requires
            self.wf(),
        ensures
            i as int == (if start {
                start_rank(self.key_seq(), *key)
            } else {
                end_rank(self.key_seq(), *key)
            }),
    {
        match key {
            KeyBound::Unbounded => if start {
                0
            } else {
                self.keys.len()
            },
            KeyBound::Included(k) => if start {
                self.rank_lt(*k)
            } else {
                self.rank_le(*k)
            },
            KeyBound::Excluded(k) => if start {
                self.rank_le(*k)
            } else {
                self.rank_lt(*k)
            },
        }
    }

    /// The index interval covered by a key range.
    fn index_range_of_key_range(&self, range: &KeyRange) -> (r: (usize, usize))
        requires
            self.wf(),
        ensures
            r.0 as int == start_rank(self.key_seq(), range.start),
            r.1 as int == end_rank(self.key_seq(), range.end),
    {
        (
            self.index_bound_of_key_bound(&range.start, true),
            self.index_bound_of_key_bound(&range.end, false),
        )
    }

    /// XOR-hash over a key range: exactly the XOR of the digests of
    /// the entries the range contains, zero for an empty range.
    pub fn hash(&self, range: &KeyRange) -> (h: u64)
        requires
            self.wf(),
        ensures
            h == self.spec_range_hash(*range),
    {
        proof {
            lemma_rank_range(self.key_seq(), *range);
        }
        let (lo, hi) = self.index_range_of_key_range(range);
        let mut acc: u64 = 0;
        let mut i: usize = lo;
        while i < hi
            invariant
                self.wf(),
                lo <= i,
                i <= self.key_seq().len(),
                i <= hi || i == lo,
                hi <= self.key_seq().len() || hi == i,
                acc == xor_slice(self.hash_seq(), lo as int, i as int),
            decreases hi - i,
        {
            acc = acc ^ self.hashes[i];
            i = i + 1;
        }
        proof {
            assert(acc == xor_slice(self.hash_seq(), lo as int, hi as int));
            lemma_range_xor_as_slice(
                self.key_seq(),
                self.hash_seq(),
                *range,
                lo as int,
                hi as int,
                self.key_seq().len() as int,
            );
            assert(entry_hash_seq(self.key_seq(), self.val_seq()) =~= self.hash_seq());
        }
        acc
    }

    /// Rank of `key`: the index where it sits, or would be inserted.
    pub fn insertion_position(&self, key: u64) -> (i: usize)
        requires
            self.wf(),
        ensures
            i as int == count_lt(self.key_seq(), key),
    {
        self.rank_lt(key)
    }

    /// The key at the given index in sorted order.
    pub fn key_at(&self, index: usize) -> (k: u64)
        requires
            self.wf(),
            index < self.key_seq().len(),
        ensures
            k == self.key_seq()[index as int],
    {
        self.keys[index]
    }

    /// All entries in order, as key/value-reference pairs.
    pub fn iter(&self) -> (out: Vec<(u64, &V)>)
        requires
            self.wf(),
        ensures
            out@.len() == self.key_seq().len(),
            forall|j: int|
                0 <= j < out@.len() ==> out@[j].0 == self.key_seq()[j] && *out@[j].1
                    == self.val_seq()[j],
    {
        let mut out: Vec<(u64, &V)> = Vec::new();
        let mut i: usize = 0;
        while i < self.keys.len()
            invariant
                self.wf(),
                i <= self.key_seq().len(),
                out@.len() == i,
                forall|j: int|
                    0 <= j < i ==> out@[j].0 == self.key_seq()[j] && *out@[j].1
                        == self.val_seq()[j],
            decreases self.key_seq().len() - i,
        {
            let k = self.keys[i];
            let vref = &self.values[i];
            out.push((k, vref));
            assert(out@.last() == (k, vref));
            i = i + 1;
        }
        out
    }

    /// The entries whose keys fall in the range, in order.
    pub fn get_range(&self, range: &KeyRange) -> (out: Vec<(u64, &V)>)
        requires
            self.wf(),
        ensures
            ({
                let lo = start_rank(self.key_seq(), range.start);
                let hi = end_rank(self.key_seq(), range.end);
                &&& out@.len() == (if hi >= lo {
                    hi - lo
                } else {
                    0int
                })
                &&& forall|j: int|
                    0 <= j < out@.len() ==> out@[j].0 == self.key_seq()[lo + j] && *out@[j].1
                        == self.val_seq()[lo + j]
            }),
    {
        proof {
            lemma_rank_range(self.key_seq(), *range);
        }
        let (lo, hi) = self.index_range_of_key_range(range);
        let mut out: Vec<(u64, &V)> = Vec::new();
        let mut i: usize = lo;
        while i < hi
            invariant
                self.wf(),
                lo <= i,
                i <= self.key_seq().len(),
                i <= hi || i == lo,
                hi <= self.key_seq().len() || hi == i,
                out@.len() == i - lo,
                forall|j: int|
                    0 <= j < out@.len() ==> out@[j].0 == self.key_seq()[lo + j] && *out@[j].1
                        == self.val_seq()[lo + j],
            decreases hi - i,
        {
            let k = self.keys[i];
            let vref = &self.values[i];
            out.push((k, vref));
            assert(out@.last() == (k, vref));
            i = i + 1;
        }
        out
    }
}

/// XOR-hash of a key range over entry sequences.
pub open spec fn seqs_range_hash<V: Hashable>(keys: Seq<u64>, values: Seq<V>, r: KeyRange) -> u64 {
    range_xor_upto(keys, entry_hash_seq(keys, values), r, keys.len() as int)
}

/// Disjoint ranges hash independently: the XOR-hash of their union is
/// the XOR of their two hashes.
proof fn lemma_range_xor_union(
    keys: Seq<u64>,
    hashes: Seq<u64>,
    r1: KeyRange,
    r2: KeyRange,
    r: KeyRange,
    n: int,
)
    requires
        0 <= n <= keys.len(),
        forall|k: u64| !(in_range(r1, k) && in_range(r2, k)),
        forall|k: u64| in_range(r, k) <==> (in_range(r1, k) || in_range(r2, k)),
    ensures
        range_xor_upto(keys, hashes, r, n) == range_xor_upto(keys, hashes, r1, n) ^ range_xor_upto(
            keys,
            hashes,
            r2,
            n,
        ),
    decreases n,
{
    if n <= 0 {
        lemma_xor_zero(0);
    } else {
        lemma_range_xor_union(keys, hashes, r1, r2, r, n - 1);
        let a = range_xor_upto(keys, hashes, r1, n - 1);
        let b = range_xor_upto(keys, hashes, r2, n - 1);
        let h = hashes[n - 1];
        let k = keys[n - 1];
        if in_range(r1, k) {
            assert(!in_range(r2, k));
            lemma_xor_zero(b);
            lemma_xor_assoc(a, h, b);
            lemma_xor_comm(h, b);
            lemma_xor_assoc(a, b, h);
        } else if in_range(r2, k) {
            lemma_xor_zero(a);
            lemma_xor_assoc(a, b, h);
        } else {
            lemma_xor_zero(a);
            lemma_xor_zero(b);
            lemma_xor_zero(a ^ b);
        }
    }
}

/// Law: when two ranges are disjoint and a third contains exactly the
/// keys of either, the hash of the third is the XOR of their hashes.
pub proof fn lemma_disjoint_range_hash<V: Hashable>(
    t: &HVec<V>,
    r1: KeyRange,
    r2: KeyRange,
    r: KeyRange,
)
    requires
        t.wf(),
        forall|k: u64| !(in_range(r1, k) && in_range(r2, k)),
        forall|k: u64| in_range(r, k) <==> (in_range(r1, k) || in_range(r2, k)),
    ensures
        t.spec_range_hash(r) == t.spec_range_hash(r1) ^ t.spec_range_hash(r2),
{
    lemma_range_xor_union(
        t.key_seq(),
        entry_hash_seq(t.key_seq(), t.val_seq()),
        r1,
        r2,
        r,
        t.key_seq().len() as int,
    );
}

/// Law: inserting a fresh key and then removing it returns the store
/// to its previous state, and with it every range hash.
pub proof fn lemma_insert_then_remove<V: Hashable>(
    keys: Seq<u64>,
    values: Seq<V>,
    key: u64,
    value: V,
)
    requires
        sorted_strict(keys),
        values.len() == keys.len(),
        !keys.contains(key),
    ensures
        ({
            let i = count_lt(keys, key);
            let keys1 = keys.insert(i, key);
            let values1 = values.insert(i, value);
            &&& keys1.contains(key)
            &&& count_lt(keys1, key) == i
            &&& keys1.remove(count_lt(keys1, key)) == keys
            &&& values1.remove(count_lt(keys1, key)) == values
            &&& forall|r: KeyRange|
                seqs_range_hash(
                    keys1.remove(count_lt(keys1, key)),
                    values1.remove(count_lt(keys1, key)),
                    r,
                ) == seqs_range_hash(keys, values, r)
        }),
{
    lemma_count_lt_split(keys, key);
    let i = count_lt(keys, key);
    let keys1 = keys.insert(i, key);
    let values1 = values.insert(i, value);
    assert(keys1[i] == key);
    assert(keys1.contains(key));
    assert(sorted_strict(keys1)) by {
        assert forall|p: int, q: int| 0 <= p < q < keys1.len() implies keys1[p] < keys1[q] by {
            if p < i && q == i {
                assert(keys1[p] == keys[p] && keys[p] < key);
            } else if p == i && q > i {
                assert(keys1[q] == keys[q - 1] && keys[q - 1] >= key && keys[q - 1] != key);
            }
        }
    }
    lemma_count_lt_at(keys1, key, i);
    assert(keys1.remove(i) =~= keys);
    assert(values1.remove(i) =~= values);
}

/// Two strictly sorted sequences with the same members are equal.
pub proof fn lemma_sorted_unique(s1: Seq<u64>, s2: Seq<u64>)
    requires
        sorted_strict(s1),
        sorted_strict(s2),
        forall|k: u64| s1.contains(k) <==> s2.contains(k),
    ensures
        s1 == s2,
    decreases s1.len(),
{
    if s1.len() == 0 {
        if s2.len() > 0 {
            assert(s2.contains(s2[0]));
            assert(s1.contains(s2[0]));
        }
        assert(s1 =~= s2);
    } else {
        let l1 = s1.last();
        assert(s1.contains(l1));
        assert(s2.contains(l1));
        assert(s2.len() > 0);
        let l2 = s2.last();
        let i2 = choose|i: int| 0 <= i < s2.len() && s2[i] == l1;
        assert(l1 <= l2) by {
            if i2 < s2.len() - 1 {
                assert(s2[i2] < s2[s2.len() - 1]);
            }
        }
        assert(s2.contains(l2));
        assert(s1.contains(l2));
        let i1 = choose|i: int| 0 <= i < s1.len() && s1[i] == l2;
        assert(l2 <= l1) by {
            if i1 < s1.len() - 1 {
                assert(s1[i1] < s1[s1.len() - 1]);
            }
        }
        let t1 = s1.drop_last();
        let t2 = s2.drop_last();
        assert(sorted_strict(t1));
        assert(sorted_strict(t2));
        assert forall|k: u64| t1.contains(k) <==> t2.contains(k) by {
            if t1.contains(k) {
                let t = choose|t: int| 0 <= t < t1.len() && t1[t] == k;
                assert(s1[t] == k);
                assert(s1.contains(k));
                assert(k < l1);
                assert(s2.contains(k));
                let u = choose|u: int| 0 <= u < s2.len() && s2[u] == k;
                assert(u < s2.len() - 1) by {
                    if u == s2.len() - 1 {
                        assert(s2[u] == l2);
                    }
                }
                assert(t2[u] == k);
                assert(t2.contains(k));
            }
            if t2.contains(k) {
                let t = choose|t: int| 0 <= t < t2.len() && t2[t] == k;
                assert(s2[t] == k);
                assert(s2.contains(k));
                assert(k < l2);
                assert(s1.contains(k));
                let u = choose|u: int| 0 <= u < s1.len() && s1[u] == k;
                assert(u < s1.len() - 1) by {
                    if u == s1.len() - 1 {
                        assert(s1[u] == l1);
                    }
                }
                assert(t1[u] == k);
                assert(t1.contains(k));
            }
        }
        lemma_sorted_unique(t1, t2);
        assert(s1.len() == s2.len());
        assert forall|t: int| 0 <= t < s1.len() implies s1[t] == s2[t] by {
            if t < s1.len() - 1 {
                assert(s1.drop_last()[t] == s1[t]);
                assert(s2.drop_last()[t] == s2[t]);
            }
        }
        assert(s1 =~= s2);
    }
}

/// Law: every range hash depends only on the contents of the store,
/// never on the order in which entries were inserted or removed.
pub proof fn lemma_hash_order_independent<V: Hashable>(a: &HVec<V>, b: &HVec<V>)
    requires
        a.wf(),
        b.wf(),
        a.contents() == b.contents(),
    ensures
        a.key_seq() == b.key_seq(),
        a.val_seq() == b.val_seq(),
        forall|r: KeyRange| a.spec_range_hash(r) == b.spec_range_hash(r),
{
    assert forall|k: u64| a.key_seq().contains(k) <==> b.key_seq().contains(k) by {
        assert(a.contents().dom().contains(k) == a.key_seq().contains(k));
        assert(b.contents().dom().contains(k) == b.key_seq().contains(k));
    }
    lemma_sorted_unique(a.key_seq(), b.key_seq());
    assert(a.val_seq().len() == b.val_seq().len());
    assert forall|i: int| 0 <= i < a.val_seq().len() implies a.val_seq()[i] == b.val_seq()[i] by {
        let k = a.key_seq()[i];
        lemma_count_lt_at(a.key_seq(), k, i);
        assert(a.key_seq().contains(k));
        assert(a.contents()[k] == a.val_seq()[i]);
        assert(b.contents()[k] == b.val_seq()[i]);
    }
    assert(a.val_seq() =~= b.val_seq());
}

/// Inserting a fresh key at its rank keeps the keys sorted.
pub proof fn lemma_sorted_insert(keys: Seq<u64>, key: u64)
    requires
        sorted_strict(keys),
        !keys.contains(key),
    ensures
        sorted_strict(keys.insert(count_lt(keys, key), key)),
        keys.insert(count_lt(keys, key), key)[count_lt(keys, key)] == key,
        count_lt(keys.insert(count_lt(keys, key), key), key) == count_lt(keys, key),
{
    lemma_count_lt_split(keys, key);
    let i = count_lt(keys, key);
    let keys1 = keys.insert(i, key);
    assert(keys1[i] == key);
    assert(sorted_strict(keys1)) by {
        assert forall|p: int, q: int| 0 <= p < q < keys1.len() implies keys1[p] < keys1[q] by {
            if p < i && q == i {
                assert(keys1[p] == keys[p] && keys[p] < key);
            } else if p == i && q > i {
                assert(keys1[q] == keys[q - 1] && keys[q - 1] >= key && keys[q - 1] != key);
            }
        }
    }
    lemma_count_lt_at(keys1, key, i);
}

/// After placing `value` under `key`, the contents are the previous
/// contents with that binding added.
pub proof fn lemma_contents_insert<V>(
    keys: Seq<u64>,
    vals: Seq<V>,
    keys2: Seq<u64>,
    vals2: Seq<V>,
    key: u64,
    value: V,
)
    requires
        sorted_strict(keys),
        vals.len() == keys.len(),
        ({
            let i = count_lt(keys, key);
            if keys.contains(key) {
                keys2 == keys && vals2 == vals.update(i, value)
            } else {
                keys2 == keys.insert(i, key) && vals2 == vals.insert(i, value)
            }
        }),
    ensures
        seqs_contents(keys2, vals2) == seqs_contents(keys, vals).insert(key, value),
{
    let i = count_lt(keys, key);
    lemma_count_lt_split(keys, key);
    lemma_contains_rank(keys, key);
    if keys.contains(key) {
        assert(keys[i] == key);
        assert_maps_equal!(seqs_contents(keys2, vals2), seqs_contents(keys, vals).insert(key, value), k => {
            if seqs_contents(keys2, vals2).dom().contains(k) || seqs_contents(keys, vals).insert(
                key,
                value,
            ).dom().contains(k) {
                assert(keys.contains(k));
                let t = choose|t: int| 0 <= t < keys.len() && keys[t] == k;
                lemma_count_lt_at(keys, k, t);
                if k == key {
                    if t < i {
                        assert(keys[t] < keys[i]);
                    }
                    if t > i {
                        assert(keys[i] < keys[t]);
                    }
                    assert(t == i);
                    assert(vals2[t] == vals.update(i, value)[t]);
                } else {
                    assert(t != i);
                    assert(vals2[t] == vals.update(i, value)[t]);
                }
            }
        });
    } else {
        lemma_sorted_insert(keys, key);
        let keys1 = keys2;
        assert(sorted_strict(keys1));
        assert(keys1[i] == keys.insert(i, key)[i]);
        assert(keys1[i] == key);
        assert_maps_equal!(seqs_contents(keys2, vals2), seqs_contents(keys, vals).insert(key, value), k => {
            if seqs_contents(keys2, vals2).dom().contains(k) {
                assert(keys1.contains(k));
                let t = choose|t: int| 0 <= t < keys1.len() && keys1[t] == k;
                lemma_count_lt_at(keys1, k, t);
                assert(keys1[t] == keys.insert(i, key)[t]);
                if t < i {
                    assert(keys[t] == k);
                    assert(keys.contains(k));
                    lemma_count_lt_at(keys, k, t);
                    assert(vals2[t] == vals.insert(i, value)[t]);
                } else if t == i {
                    assert(k == key);
                    assert(vals2[t] == vals.insert(i, value)[t]);
                    assert(vals2[t] == value);
                } else {
                    assert(keys[t - 1] == k);
                    assert(keys.contains(k));
                    lemma_count_lt_at(keys, k, t - 1);
                    assert(vals2[t] == vals.insert(i, value)[t]);
                    assert(vals2[t] == vals[t - 1]);
                }
            }
            if seqs_contents(keys, vals).insert(key, value).dom().contains(k) {
                if k == key {
                    assert(keys1[i] == k);
                    assert(keys1.contains(k));
                } else {
                    assert(keys.contains(k));
                    let t = choose|t: int| 0 <= t < keys.len() && keys[t] == k;
                    if t < i {
                        assert(keys1[t] == keys.insert(i, key)[t]);
                        assert(keys1[t] == k);
                    } else {
                        assert(keys1[t + 1] == keys.insert(i, key)[t + 1]);
                        assert(keys1[t + 1] == k);
                    }
                    assert(keys1.contains(k));
                }
            }
        });
    }
}

/// After removing `key`, the contents are the previous contents
/// without that binding.
pub proof fn lemma_contents_remove<V>(
    keys: Seq<u64>,
    vals: Seq<V>,
    keys2: Seq<u64>,
    vals2: Seq<V>,
    key: u64,
)
    requires
        sorted_strict(keys),
        vals.len() == keys.len(),
        ({
            let i = count_lt(keys, key);
            if keys.contains(key) {
                keys2 == keys.remove(i) && vals2 == vals.remove(i)
            } else {
                keys2 == keys && vals2 == vals
            }
        }),
    ensures
        seqs_contents(keys2, vals2) == seqs_contents(keys, vals).remove(key),
{
    let i = count_lt(keys, key);
    lemma_count_lt_split(keys, key);
    lemma_contains_rank(keys, key);
    if keys.contains(key) {
        assert(keys[i] == key);
        let keys2 = keys2;
        assert(sorted_strict(keys2)) by {
            assert forall|p: int, q: int| 0 <= p < q < keys2.len() implies keys2[p] < keys2[q] by {
                assert(keys2[p] == keys.remove(i)[p]);
                assert(keys2[q] == keys.remove(i)[q]);
            }
        }
        assert_maps_equal!(seqs_contents(keys2, vals2), seqs_contents(keys, vals).remove(key), k => {
            if seqs_contents(keys2, vals2).dom().contains(k) {
                assert(keys2.contains(k));
                let t = choose|t: int| 0 <= t < keys2.len() && keys2[t] == k;
                lemma_count_lt_at(keys2, k, t);
                assert(keys2[t] == keys.remove(i)[t]);
                if t < i {
                    assert(keys[t] == k);
                    assert(keys.contains(k));
                    lemma_count_lt_at(keys, k, t);
                    assert(keys[t] < keys[i]);
                    assert(k != key);
                    assert(vals2[t] == vals.remove(i)[t]);
                } else {
                    assert(keys[t + 1] == k);
                    assert(keys.contains(k));
                    lemma_count_lt_at(keys, k, t + 1);
                    assert(keys[i] < keys[t + 1]);
                    assert(k != key);
                    assert(vals2[t] == vals.remove(i)[t]);
                    assert(vals2[t] == vals[t + 1]);
                }
            }
            if seqs_contents(keys, vals).remove(key).dom().contains(k) {
                assert(keys.contains(k) && k != key);
                let t = choose|t: int| 0 <= t < keys.len() && keys[t] == k;
                if t < i {
                    assert(keys2[t] == keys.remove(i)[t]);
                    assert(keys2[t] == k);
                    assert(keys2.contains(k));
                } else {
                    assert(t != i);
                    assert(keys2[t - 1] == keys.remove(i)[t - 1]);
                    assert(keys2[t - 1] == k);
                    assert(keys2.contains(k));
                }
            }
        });
    } else {
        assert_maps_equal!(seqs_contents(keys2, vals2), seqs_contents(keys, vals).remove(key), k => {});
    }
}

/// An empty store hashes every range to zero.
pub proof fn lemma_empty_store_hash<V: Hashable>(t: &HVec<V>, r: KeyRange)
    requires
        t.key_seq().len() == 0,
    ensures
        t.spec_range_hash(r) == 0,
{
}

/// The two stores disagree on `k`: one holds it and the other does
/// not, or both hold it with different entry digests.
pub open spec fn entry_differs<V: Hashable>(a: &HVec<V>, b: &HVec<V>, k: u64) -> bool {
    if a.key_seq().contains(k) && b.key_seq().contains(k) {
        a.hash_seq()[count_lt(a.key_seq(), k)] != b.hash_seq()[count_lt(b.key_seq(), k)]
    } else {
        a.key_seq().contains(k) != b.key_seq().contains(k)
    }
}

/// Every key below both merge frontiers has been decided.
pub open spec fn merge_processed(
    a_keys: Seq<u64>,
    b_keys: Seq<u64>,
    i: int,
    j: int,
    k: u64,
) -> bool {
    &&& (i == a_keys.len() || k < a_keys[i])
    &&& (j == b_keys.len() || k < b_keys[j])
}

/// Appending an element extends membership by exactly that element.
proof fn lemma_push_contains(s: Seq<u64>, x: u64, k: u64)
    ensures
        s.push(x).contains(k) <==> (s.contains(k) || k == x),
{
    if s.push(x).contains(k) {
        let t = choose|t: int| 0 <= t < s.push(x).len() && s.push(x)[t] == k;
        if t < s.len() {
            assert(s[t] == k);
        }
    }
    if s.contains(k) {
        let t = choose|t: int| 0 <= t < s.len() && s[t] == k;
        assert(s.push(x)[t] == k);
    }
    if k == x {
        assert(s.push(x)[s.len() as int] == k);
    }
}

/// A key below everything from position `p` on and above everything
/// before it does not occur in a sorted sequence.
proof fn lemma_sorted_not_contains(s: Seq<u64>, p: int, k: u64)
    requires
        sorted_strict(s),
        0 <= p <= s.len(),
        forall|t: int| 0 <= t < p ==> s[t] < k,
        forall|t: int| p <= t < s.len() ==> s[t] > k,
    ensures
        !s.contains(k),
{
}

/// One step of the merge in `fast_diff` keeps the frontier
/// characterisation of the output.
proof fn lemma_merge_step<V: Hashable>(
    a: &HVec<V>,
    b: &HVec<V>,
    old_out: Seq<u64>,
    new_out: Seq<u64>,
    i0: int,
    j0: int,
    i1: int,
    j1: int,
    k0: u64,
    pushed: bool,
)
    requires
        a.wf(),
        b.wf(),
        0 <= i0 <= i1 <= a.key_seq().len(),
        0 <= j0 <= j1 <= b.key_seq().len(),
        i1 == i0 + 1 || i1 == i0,
        j1 == j0 + 1 || j1 == j0,
        i1 + j1 > i0 + j0,
        i1 == i0 + 1 ==> i0 < a.key_seq().len() && a.key_seq()[i0] == k0,
        j1 == j0 + 1 ==> j0 < b.key_seq().len() && b.key_seq()[j0] == k0,
        i1 == i0 ==> (i0 == a.key_seq().len() || a.key_seq()[i0] > k0),
        j1 == j0 ==> (j0 == b.key_seq().len() || b.key_seq()[j0] > k0),
        i1 == i0 ==> forall|t: int| 0 <= t < i0 ==> a.key_seq()[t] < k0,
        j1 == j0 ==> forall|t: int| 0 <= t < j0 ==> b.key_seq()[t] < k0,
        new_out == (if pushed {
            old_out.push(k0)
        } else {
            old_out
        }),
        pushed <==> entry_differs(a, b, k0),
        forall|k: u64|
            old_out.contains(k) <==> (entry_differs(a, b, k) && merge_processed(
                a.key_seq(),
                b.key_seq(),
                i0,
                j0,
                k,
            )),
    ensures
        forall|k: u64|
            new_out.contains(k) <==> (entry_differs(a, b, k) && merge_processed(
                a.key_seq(),
                b.key_seq(),
                i1,
                j1,
                k,
            )),
{
    let ak = a.key_seq();
    let bk = b.key_seq();
    assert forall|k: u64|
        new_out.contains(k) <==> (entry_differs(a, b, k) && merge_processed(
            ak,
            bk,
            i1,
            j1,
            k,
        )) by {
        if pushed {
            lemma_push_contains(old_out, k0, k);
        }
        if k == k0 {
            // the decided key is now below both frontiers ...
            assert(merge_processed(ak, bk, i1, j1, k0)) by {
                if i1 < ak.len() {
                    if i1 == i0 + 1 {
                        assert(ak[i0] < ak[i1]);
                    }
                }
                if j1 < bk.len() {
                    if j1 == j0 + 1 {
                        assert(bk[j0] < bk[j1]);
                    }
                }
            }
            // ... and was not below the old ones, so it is newly decided
            assert(!merge_processed(ak, bk, i0, j0, k0));
        } else {
            // other keys: the old characterisation carries over
            if merge_processed(ak, bk, i0, j0, k) {
                assert(merge_processed(ak, bk, i1, j1, k)) by {
                    if i1 == i0 + 1 && i1 < ak.len() {
                        assert(ak[i0] < ak[i1]);
                    }
                    if j1 == j0 + 1 && j1 < bk.len() {
                        assert(bk[j0] < bk[j1]);
                    }
                }
            }
            if merge_processed(ak, bk, i1, j1, k) && !merge_processed(ak, bk, i0, j0, k) {
                // a key newly below the frontiers other than the one
                // decided lies strictly between the entries of both
                // stores, so neither holds it
                assert(k > k0);
                assert(!ak.contains(k)) by {
                    assert forall|t: int| 0 <= t < i1 implies ak[t] < k by {
                        if i1 == i0 + 1 {
                            if t < i0 {
                                assert(ak[t] < ak[i0]);
                            }
                        }
                    }
                    lemma_sorted_not_contains(ak, i1, k);
                }
                assert(!bk.contains(k)) by {
                    assert forall|t: int| 0 <= t < j1 implies bk[t] < k by {
                        if j1 == j0 + 1 {
                            if t < j0 {
                                assert(bk[t] < bk[j0]);
                            }
                        }
                    }
                    lemma_sorted_not_contains(bk, j1, k);
                }
                assert(!entry_differs(a, b, k));
            }
        }
    }
}

impl<V: Hashable> HVec<V> {
    /// Direct comparison of two stores: the sorted list of keys on
    /// which they disagree, either because only one side holds the
    /// key or because the entry digests differ.
    pub fn fast_diff(&self, other: &Self) -> (out: Vec<u64>)
        requires
            self.wf(),
            other.wf(),
        ensures
            sorted_strict(out@),
            forall|k: u64| out@.contains(k) <==> entry_differs(self, other, k),
    {
        let ghost ak = self.key_seq();
        let ghost bk = other.key_seq();
        let mut out: Vec<u64> = Vec::new();
        let mut i: usize = 0;
        let mut j: usize = 0;
        let n = self.keys.len();
        let m = other.keys.len();
        while i < n || j < m
            invariant
                self.wf(),
                other.wf(),
                ak == self.key_seq(),
                bk == other.key_seq(),
                n == ak.len(),
                m == bk.len(),
                i <= n,
                j <= m,
                forall|j2: int| 0 <= j2 < j ==> (i == n || bk[j2] < ak[i as int]),
                forall|i2: int| 0 <= i2 < i ==> (j == m || ak[i2] < bk[j as int]),
                sorted_strict(out@),
                forall|t: int|
                    0 <= t < out@.len() ==> merge_processed(ak, bk, i as int, j as int, out@[t]),
                forall|k: u64|
                    out@.contains(k) <==> (entry_differs(self, other, k) && merge_processed(
                        ak,
                        bk,
                        i as int,
                        j as int,
                        k,
                    )),
            decreases n - i + m - j,
        {
            let ghost i0 = i as int;
            let ghost j0 = j as int;
            let ghost old_out = out@;
            let both = i < n && j < m && self.keys[i] == other.keys[j];
            let take_a = j == m || (i < n && self.keys[i] < other.keys[j]);
            if both {
                let k0 = self.keys[i];
                proof {
                    lemma_count_lt_at(ak, k0, i0);
                    lemma_count_lt_at(bk, k0, j0);
                    assert(ak.contains(k0));
                    assert(bk.contains(k0));
                }
                let differs = self.hashes[i] != other.hashes[j];
                if differs {
                    proof {
                        assert forall|t: int| 0 <= t < old_out.len() implies old_out[t] < k0 by {
                            assert(merge_processed(ak, bk, i0, j0, old_out[t]));
                        }
                    }
                    out.push(k0);
                }
                i = i + 1;
                j = j + 1;
                proof {
                    assert(entry_differs(self, other, k0) <==> differs);
                    lemma_merge_step(
                        self,
                        other,
                        old_out,
                        out@,
                        i0,
                        j0,
                        i as int,
                        j as int,
                        k0,
                        differs,
                    );
                }
            } else if take_a {
                let k0 = self.keys[i];
                proof {
                    lemma_count_lt_at(ak, k0, i0);
                    assert(ak.contains(k0));
                    assert forall|t: int| 0 <= t < j0 implies bk[t] < k0 by {
                        assert(bk[t] < ak[i0]);
                    }
                    assert(j0 == bk.len() || bk[j0] > k0);
                    lemma_sorted_not_contains(bk, j0, k0);
                    assert(entry_differs(self, other, k0));
                    assert forall|t: int| 0 <= t < old_out.len() implies old_out[t] < k0 by {
                        assert(merge_processed(ak, bk, i0, j0, old_out[t]));
                    }
                }
                out.push(k0);
                i = i + 1;
                proof {
                    lemma_merge_step(
                        self,
                        other,
                        old_out,
                        out@,
                        i0,
                        j0,
                        i as int,
                        j0,
                        k0,
                        true,
                    );
                }
            } else {
                let k0 = other.keys[j];
                proof {
                    lemma_count_lt_at(bk, k0, j0);
                    assert(bk.contains(k0));
                    assert forall|t: int| 0 <= t < i0 implies ak[t] < k0 by {
                        assert(ak[t] < bk[j0]);
                    }
                    assert(i0 == ak.len() || ak[i0] > k0);
                    lemma_sorted_not_contains(ak, i0, k0);
                    assert(entry_differs(self, other, k0));
                    assert forall|t: int| 0 <= t < old_out.len() implies old_out[t] < k0 by {
                        assert(merge_processed(ak, bk, i0, j0, old_out[t]));
                    }
                }
                out.push(k0);
                j = j + 1;
                proof {
                    lemma_merge_step(
                        self,
                        other,
                        old_out,
                        out@,
                        i0,
                        j0,
                        i0,
                        j as int,
                        k0,
                        true,
                    );
                }
            }
        }
        out
    }
}

impl<V: Hashable> crate::diff::HashRangeQueryable for HVec<V> {
    open spec fn key_model(&self) -> Seq<u64> {
        self.key_seq()
    }

    open spec fn hash_model(&self) -> Seq<u64> {
        self.hash_seq()
    }

    open spec fn inv(&self) -> bool {
        self.wf()
    }

    proof fn lemma_model_wf(&self) {
    }

    fn hash(&self, range: &KeyRange) -> (h: u64) {
        let h = HVec::hash(self, range);
        proof {
            assert(entry_hash_seq(self.key_seq(), self.val_seq()) =~= self.hash_seq());
        }
        h
    }

    fn insertion_position(&self, key: u64) -> (i: usize) {
        HVec::insertion_position(self, key)
    }

    fn key_at(&self, index: usize) -> (k: u64) {
        HVec::key_at(self, index)
    }

    fn len(&self) -> (n: usize) {
        HVec::len(self)
    }

    fn is_empty(&self) -> (b: bool) {
        HVec::is_empty(self)
    }
}

impl<V: Hashable> Default for HVec<V> {
    /// An empty store.
    fn default() -> (r: Self)
        ensures
            r.wf(),
            r.key_seq().len() == 0,
            r.val_seq().len() == 0,
    {
        HVec::new()
    }
}

} // verus!
