//! The basic key-value map contract that the reconciliation service
//! runs against, and its implementation for [`HVec`].

use vstd::prelude::*;

use crate::hash::Hashable;
use crate::hvec::{
    count_lt, end_rank, lemma_contains_rank, lemma_contents_insert, lemma_contents_remove,
    lemma_count_lt_at, lemma_rank_range, start_rank, HVec,
};
use crate::range_compare::{in_range, KeyRange};

verus! {

/// A key-value map with the operations the service needs: point
/// lookup and update, and enumeration of the entries of the ranges
/// that the comparison protocol has identified as differing.
pub trait KvMap: Sized {
    type Value;

    /// The map's contents.
    spec fn map_contents(&self) -> Map<u64, Self::Value>;

    /// The map's internal invariant.
    spec fn map_inv(&self) -> bool;

    /// Reference to the value under `key`, if any.
    fn get(&self, key: u64) -> (r: Option<&Self::Value>)
        requires
            self.map_inv(),
        ensures
            match r {
                Some(v) => self.map_contents().dom().contains(key) && *v
                    == self.map_contents()[key],
                None => !self.map_contents().dom().contains(key),
            },
    ;

    /// Place or replace the value under `key`; returns the prior
    /// value if there was one.
    fn insert(&mut self, key: u64, value: Self::Value) -> (prior: Option<Self::Value>)
        requires
            old(self).map_inv(),
        ensures
            final(self).map_inv(),
            final(self).map_contents() == old(self).map_contents().insert(key, value),
            match prior {
                Some(v) => old(self).map_contents().dom().contains(key) && v == old(
                    self,
                ).map_contents()[key],
                None => !old(self).map_contents().dom().contains(key),
            },
    ;

    /// Remove the entry under `key`, returning its value if present.
    fn remove(&mut self, key: u64) -> (prior: Option<Self::Value>)
        requires
            old(self).map_inv(),
        ensures
            final(self).map_inv(),
            final(self).map_contents() == old(self).map_contents().remove(key),
            match prior {
                Some(v) => old(self).map_contents().dom().contains(key) && v == old(
                    self,
                ).map_contents()[key],
                None => !old(self).map_contents().dom().contains(key),
            },
    ;

    /// The entries of the map that fall in any of the given ranges:
    /// every listed pair is a true entry inside one of the ranges,
    /// and every entry inside one of the ranges is listed.
    fn enumerate_diff_ranges(&self, diff_ranges: &Vec<KeyRange>) -> (out: Vec<(u64, &Self::Value)>)
        requires
            self.map_inv(),
        ensures
            forall|j: int|
                0 <= j < out@.len() ==> self.map_contents().dom().contains(#[trigger] out@[j].0)
                    && *out@[j].1 == self.map_contents()[out@[j].0] && exists|ri: int|
                    0 <= ri < diff_ranges@.len() && in_range(#[trigger] diff_ranges@[ri], out@[j].0),
            forall|k: u64, ri: int|
                0 <= ri < diff_ranges@.len() && self.map_contents().dom().contains(k)
                    && #[trigger] in_range(diff_ranges@[ri], k) ==> exists|j: int|
                    0 <= j < out@.len() && (#[trigger] out@[j]).0 == k,
    ;
}

impl<V: Hashable> KvMap for HVec<V> {
    type Value = V;

    open spec fn map_contents(&self) -> Map<u64, V> {
        self.contents()
    }

    open spec fn map_inv(&self) -> bool {
        self.wf()
    }

    fn get(&self, key: u64) -> (r: Option<&V>) {
        proof {
            lemma_contains_rank(self.key_seq(), key);
        }
        HVec::get(self, key)
    }

    fn insert(&mut self, key: u64, value: V) -> (prior: Option<V>) {
        proof {
            lemma_contains_rank(old(self).key_seq(), key);
        }
        let ghost pre = *self;
        let prior = HVec::insert(self, key, value);
        proof {
            lemma_contents_insert(
                pre.key_seq(),
                pre.val_seq(),
                self.key_seq(),
                self.val_seq(),
                key,
                value,
            );
        }
        prior
    }

    fn remove(&mut self, key: u64) -> (prior: Option<V>) {
        proof {
            lemma_contains_rank(old(self).key_seq(), key);
        }
        let ghost pre = *self;
        let prior = HVec::remove(self, key);
        proof {
            lemma_contents_remove(
                pre.key_seq(),
                pre.val_seq(),
                self.key_seq(),
                self.val_seq(),
                key,
            );
        }
        prior
    }

    fn enumerate_diff_ranges(&self, diff_ranges: &Vec<KeyRange>) -> (out: Vec<(u64, &V)>) {
        let mut out: Vec<(u64, &V)> = Vec::new();
        let mut ri: usize = 0;
        while ri < diff_ranges.len()
            invariant
                self.wf(),
                ri <= diff_ranges@.len(),
                forall|j: int|
                    0 <= j < out@.len() ==> self.contents().dom().contains(#[trigger] out@[j].0)
                        && *out@[j].1 == self.contents()[out@[j].0] && exists|r2: int|
                        0 <= r2 < diff_ranges@.len() && in_range(
                            #[trigger] diff_ranges@[r2],
                            out@[j].0,
                        ),
                forall|k: u64, r2: int|
                    0 <= r2 < ri && self.contents().dom().contains(k) && #[trigger] in_range(
                        diff_ranges@[r2],
                        k,
                    ) ==> exists|j: int| 0 <= j < out@.len() && (#[trigger] out@[j]).0 == k,
            decreases diff_ranges@.len() - ri,
        {
            let range = diff_ranges[ri];
            proof {
                lemma_rank_range(self.key_seq(), range);
            }
            let part = self.get_range(&range);
            let ghost lo = start_rank(self.key_seq(), range.start);
            let ghost out_before = out@;
            let mut p: usize = 0;
            while p < part.len()
                invariant
                    self.wf(),
                    p <= part@.len(),
                    out@ == out_before + part@.take(p as int),
                decreases part@.len() - p,
            {
                out.push(part[p]);
                proof {
                    assert(out@ =~= out_before + part@.take(p as int + 1));
                }
                p = p + 1;
            }
            proof {
                assert(out@ =~= out_before + part@);
                assert forall|j: int|
                    0 <= j < out@.len() implies self.contents().dom().contains(
                    #[trigger] out@[j].0,
                ) && *out@[j].1 == self.contents()[out@[j].0] && exists|r2: int|
                    0 <= r2 < diff_ranges@.len() && in_range(
                        #[trigger] diff_ranges@[r2],
                        out@[j].0,
                    ) by {
                    if j >= out_before.len() {
                        let e = j - out_before.len();
                        let idx = lo + e;
                        assert(part@[e].0 == self.key_seq()[idx]);
                        assert(self.key_seq().contains(out@[j].0));
                        lemma_count_lt_at(self.key_seq(), out@[j].0, idx);
                        assert(*part@[e].1 == self.val_seq()[idx]);
                        assert(in_range(diff_ranges@[ri as int], out@[j].0));
                    }
                }
                assert forall|k: u64, r2: int|
                    0 <= r2 < ri + 1 && self.contents().dom().contains(k) && #[trigger] in_range(
                        diff_ranges@[r2],
                        k,
                    ) implies exists|j: int| 0 <= j < out@.len() && (#[trigger] out@[j]).0 == k by {
                    if r2 == ri as int {
                        assert(self.key_seq().contains(k));
                        let t = choose|t: int| 0 <= t < self.key_seq().len() && self.key_seq()[t] == k;
                        assert(lo <= t < end_rank(self.key_seq(), range.end));
                        assert(part@[t - lo].0 == k);
                        assert(out@[out_before.len() + t - lo].0 == k);
                    } else {
                        let j0 = choose|j: int| 0 <= j < out_before.len() && out_before[j].0 == k;
                        assert(out@[j0].0 == k);
                    }
                }
            }
            ri = ri + 1;
        }
        out
    }
}

} // verus!
