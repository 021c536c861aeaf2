//! The comparison protocol between two stores.
//!
//! [`HashRangeQueryable`] is the query contract a store must satisfy;
//! [`Diffable`] builds one round of the reconciliation protocol on top
//! of it: a received batch of [`HashSegment`]s is answered with further
//! segments (narrower questions) and with [`DiffRange`]s (ranges whose
//! entries should be sent to the peer).  The whole round is specified
//! as a function of the store's key and digest model.

use vstd::prelude::*;

use crate::hvec::{count_lt, lemma_range_xor_none, lemma_rank_range, range_xor_upto, sorted_strict};
use crate::range_compare::{above_start, below_end, in_range, spec_full_range, KeyBound, KeyRange};

verus! {

/// One unit of comparison on the wire: a key range together with the
/// XOR-hash and the number of the sender's entries in it.
#[derive(Clone, Copy, Debug, PartialEq, Eq, Structural)]
pub struct HashSegment {
    pub range: KeyRange,
    pub hash: u64,
    pub size: usize,
}

/// A range identified as differing: its entries should be sent.
pub type DiffRange = KeyRange;

/// The query contract of the store: range hashes, ranks, keys by
/// index and the entry count, all specified against a model of sorted
/// keys and their entry digests.
pub trait HashRangeQueryable: Sized {
    /// The keys, in strictly increasing order.
    spec fn key_model(&self) -> Seq<u64>;

    /// The entry digests, parallel to the keys.
    spec fn hash_model(&self) -> Seq<u64>;

    /// The store's internal invariant.
    spec fn inv(&self) -> bool;

    /// The invariant keeps the model well-formed.
    proof fn lemma_model_wf(&self)
        requires
            self.inv(),
        ensures
            sorted_strict(self.key_model()),
            self.hash_model().len() == self.key_model().len(),
    ;

    /// XOR of the digests of the entries in the range.
    fn hash(&self, range: &KeyRange) -> (h: u64)
        requires
            self.inv(),
        ensures
            h == model_range_hash(self.key_model(), self.hash_model(), *range),
    ;

    /// Number of keys strictly below `key`: the index where it sits
    /// or would be inserted.
    fn insertion_position(&self, key: u64) -> (i: usize)
        requires
            self.inv(),
        ensures
            i as int == count_lt(self.key_model(), key),
    ;

    /// The key at a given index in sorted order.
    fn key_at(&self, index: usize) -> (k: u64)
        requires
            self.inv(),
            index < self.key_model().len(),
        ensures
            k == self.key_model()[index as int],
    ;

    /// Number of entries.
    fn len(&self) -> (n: usize)
        requires
            self.inv(),
        ensures
            n == self.key_model().len(),
    ;

    /// Whether the store holds no entry.
    fn is_empty(&self) -> (b: bool)
        requires
            self.inv(),
        ensures
            b == (self.key_model().len() == 0),
    ;
}

/// XOR-hash of a range over the whole model.
pub open spec fn model_range_hash(keys: Seq<u64>, hashes: Seq<u64>, r: KeyRange) -> u64 {
    range_xor_upto(keys, hashes, r, keys.len() as int)
}

/// A segment as the protocol puts it on the wire: the start bound is
/// never exclusive, the end bound never inclusive, and only an empty
/// claim carries a zero size.
pub open spec fn segment_wf(seg: HashSegment) -> bool {
    &&& !(seg.range.start is Excluded)
    &&& !(seg.range.end is Included)
    &&& seg.size == 0 ==> seg.hash == 0
}

/// An empty "please send your entries of this range" question.
pub open spec fn seg_query(r: KeyRange) -> HashSegment {
    HashSegment { range: r, hash: 0, size: 0 }
}

/// Rank of a start bound of a wire segment.
pub open spec fn seg_start_index(keys: Seq<u64>, b: KeyBound) -> int {
    match b {
        KeyBound::Unbounded => 0,
        KeyBound::Included(k) => count_lt(keys, k),
        KeyBound::Excluded(k) => 0,
    }
}

/// Rank of an end bound of a wire segment.
pub open spec fn seg_end_index(keys: Seq<u64>, b: KeyBound) -> int {
    match b {
        KeyBound::Unbounded => keys.len() as int,
        KeyBound::Included(k) => keys.len() as int,
        KeyBound::Excluded(k) => count_lt(keys, k),
    }
}

/// The subdivision of a disagreeing range into contiguous
/// sub-segments of about `step` local entries each, cut at local
/// keys.
pub open spec fn spec_subdivide(
    keys: Seq<u64>,
    hashes: Seq<u64>,
    cur: KeyBound,
    cur_index: int,
    end: KeyBound,
    end_index: int,
    step: int,
) -> Seq<HashSegment>
    decreases end_index - cur_index,
{
    if step < 1 || cur_index + step >= end_index {
        seq![
            HashSegment {
                range: KeyRange { start: cur, end },
                hash: model_range_hash(keys, hashes, KeyRange { start: cur, end }),
                size: (end_index - cur_index) as usize,
            },
        ]
    } else {
        let next_key = keys[cur_index + step];
        let head = KeyRange { start: cur, end: KeyBound::Excluded(next_key) };
        seq![
            HashSegment {
                range: head,
                hash: model_range_hash(keys, hashes, head),
                size: step as usize,
            },
        ] + spec_subdivide(
            keys,
            hashes,
            KeyBound::Included(next_key),
            cur_index + step,
            end,
            end_index,
            step,
        )
    }
}

/// The segments a store answers to one incoming segment.
pub open spec fn spec_seg_out(keys: Seq<u64>, hashes: Seq<u64>, seg: HashSegment) -> Seq<
    HashSegment,
> {
    let local = model_range_hash(keys, hashes, seg.range);
    if seg.hash == local {
        Seq::empty()
    } else if seg.hash == 0 {
        Seq::empty()
    } else if local == 0 {
        seq![seg_query(seg.range)]
    } else {
        let lo = seg_start_index(keys, seg.range.start);
        let hi = seg_end_index(keys, seg.range.end);
        let local_size = hi - lo;
        if seg.size == 1 && local_size == 1 {
            seq![seg_query(seg.range)]
        } else if local_size == 1 {
            seq![HashSegment { range: seg.range, hash: local, size: 1 }]
        } else {
            let step = if local_size / 16 >= 1 {
                local_size / 16
            } else {
                1int
            };
            spec_subdivide(keys, hashes, seg.range.start, lo, seg.range.end, hi, step)
        }
    }
}

/// The difference ranges a store announces for one incoming segment.
pub open spec fn spec_seg_diffs(keys: Seq<u64>, hashes: Seq<u64>, seg: HashSegment) -> Seq<
    DiffRange,
> {
    let local = model_range_hash(keys, hashes, seg.range);
    if seg.hash == local {
        Seq::empty()
    } else if seg.hash == 0 {
        seq![seg.range]
    } else if local == 0 {
        Seq::empty()
    } else {
        let lo = seg_start_index(keys, seg.range.start);
        let hi = seg_end_index(keys, seg.range.end);
        let local_size = hi - lo;
        if seg.size == 1 && local_size == 1 {
            seq![seg.range]
        } else {
            Seq::empty()
        }
    }
}

/// All segments answered to a batch, in order.
pub open spec fn spec_round_out(keys: Seq<u64>, hashes: Seq<u64>, segs: Seq<HashSegment>) -> Seq<
    HashSegment,
>
    decreases segs.len(),
{
    if segs.len() == 0 {
        Seq::empty()
    } else {
        spec_round_out(keys, hashes, segs.drop_last()) + spec_seg_out(keys, hashes, segs.last())
    }
}

/// All difference ranges announced for a batch, in order.
pub open spec fn spec_round_diffs(keys: Seq<u64>, hashes: Seq<u64>, segs: Seq<HashSegment>) -> Seq<
    DiffRange,
>
    decreases segs.len(),
{
    if segs.len() == 0 {
        Seq::empty()
    } else {
        spec_round_diffs(keys, hashes, segs.drop_last()) + spec_seg_diffs(
            keys,
            hashes,
            segs.last(),
        )
    }
}

/// One round of the reconciliation protocol, over the query contract.
pub trait Diffable: HashRangeQueryable {
    /// The opening claim: one segment covering every key, with the
    /// root hash and the entry count.
    fn start_diff(&self) -> (out: Vec<HashSegment>)
        requires
            self.inv(),
        ensures
            out@ == seq![
                HashSegment {
                    range: spec_full_range(),
                    hash: model_range_hash(self.key_model(), self.hash_model(), spec_full_range()),
                    size: self.key_model().len() as usize,
                },
            ],
    ;

    /// Consume a batch of incoming segments and append the answers:
    /// further segments to `out_comparison` and ranges whose entries
    /// the peer should receive to `differences`.
    fn diff_round(
        &self,
        in_comparison: Vec<HashSegment>,
        out_comparison: &mut Vec<HashSegment>,
        differences: &mut Vec<DiffRange>,
    )
        requires
            self.inv(),
            forall|i: int| 0 <= i < in_comparison@.len() ==> segment_wf(#[trigger] in_comparison@[i]),
        ensures
            final(out_comparison)@ == old(out_comparison)@ + spec_round_out(
                self.key_model(),
                self.hash_model(),
                in_comparison@,
            ),
            final(differences)@ == old(differences)@ + spec_round_diffs(
                self.key_model(),
                self.hash_model(),
                in_comparison@,
            ),
    ;
}

/// Append the subdivision of `[cur_index, end_index)` to `out`, one
/// segment per `step` local entries, cutting at local keys.
fn subdivide<T: HashRangeQueryable>(
    t: &T,
    cur: KeyBound,
    cur_index: usize,
    end: KeyBound,
    end_index: usize,
    step: usize,
    out: &mut Vec<HashSegment>,
)
    requires
        t.inv(),
        step >= 1,
        cur_index < end_index <= t.key_model().len(),
    ensures
        final(out)@ == old(out)@ + spec_subdivide(
            t.key_model(),
            t.hash_model(),
            cur,
            cur_index as int,
            end,
            end_index as int,
            step as int,
        ),
    decreases end_index - cur_index,
{
    let ghost keys = t.key_model();
    let ghost hashes = t.hash_model();
    if step >= end_index - cur_index {
        let range = KeyRange { start: cur, end };
        let h = t.hash(&range);
        out.push(HashSegment { range, hash: h, size: end_index - cur_index });
    } else {
        let next_index = cur_index + step;
        let next_key = t.key_at(next_index);
        let range = KeyRange { start: cur, end: KeyBound::Excluded(next_key) };
        let h = t.hash(&range);
        let ghost mid = out@.push(HashSegment { range, hash: h, size: step });
        out.push(HashSegment { range, hash: h, size: step });
        subdivide(t, KeyBound::Included(next_key), next_index, end, end_index, step, out);
        proof {
            let head = seq![HashSegment { range, hash: h, size: step as usize }];
            let rest = spec_subdivide(
                keys,
                hashes,
                KeyBound::Included(next_key),
                next_index as int,
                end,
                end_index as int,
                step as int,
            );
            assert(mid =~= old(out)@ + head);
            assert((old(out)@ + head) + rest =~= old(out)@ + (head + rest));
        }
    }
}

/// A range whose XOR-hash is non-zero holds at least one entry, so
/// its end rank lies strictly past its start rank.
proof fn lemma_nonzero_hash_nonempty(keys: Seq<u64>, hashes: Seq<u64>, seg: HashSegment)
    requires
        sorted_strict(keys),
        hashes.len() == keys.len(),
        segment_wf(seg),
        model_range_hash(keys, hashes, seg.range) != 0,
    ensures
        0 <= seg_start_index(keys, seg.range.start) < seg_end_index(keys, seg.range.end)
            <= keys.len(),
{
    lemma_rank_range(keys, seg.range);
    let lo = seg_start_index(keys, seg.range.start);
    let hi = seg_end_index(keys, seg.range.end);
    assert(lo == crate::hvec::start_rank(keys, seg.range.start));
    assert(hi == crate::hvec::end_rank(keys, seg.range.end));
    if forall|i: int| 0 <= i < keys.len() ==> !in_range(seg.range, keys[i]) {
        lemma_range_xor_none(keys, hashes, seg.range, keys.len() as int);
        assert(false);
    }
    let w = choose|i: int| 0 <= i < keys.len() && in_range(seg.range, keys[i]);
    assert(lo <= w < hi);
}

impl<T: HashRangeQueryable> Diffable for T {
    fn start_diff(&self) -> (out: Vec<HashSegment>)
    {
        let range = KeyRange { start: KeyBound::Unbounded, end: KeyBound::Unbounded };
        let h = self.hash(&range);
        let n = self.len();
        let mut out: Vec<HashSegment> = Vec::new();
        out.push(HashSegment { range, hash: h, size: n });
        proof {
            assert(out@ =~= seq![
                HashSegment {
                    range: spec_full_range(),
                    hash: model_range_hash(self.key_model(), self.hash_model(), spec_full_range()),
                    size: self.key_model().len() as usize,
                },
            ]);
        }
        out
    }

    fn diff_round(
        &self,
        in_comparison: Vec<HashSegment>,
        out_comparison: &mut Vec<HashSegment>,
        differences: &mut Vec<DiffRange>,
    ) {
        let ghost keys = self.key_model();
        let ghost hashes = self.hash_model();
        let ghost segs = in_comparison@;
        let ghost out0 = out_comparison@;
        let ghost diffs0 = differences@;
        proof {
            self.lemma_model_wf();
        }
        let mut idx: usize = 0;
        while idx < in_comparison.len()
            invariant
                self.inv(),
                keys == self.key_model(),
                hashes == self.hash_model(),
                segs == in_comparison@,
                sorted_strict(keys),
                hashes.len() == keys.len(),
                forall|i: int| 0 <= i < segs.len() ==> segment_wf(#[trigger] segs[i]),
                idx <= segs.len(),
                out_comparison@ == out0 + spec_round_out(keys, hashes, segs.take(idx as int)),
                differences@ == diffs0 + spec_round_diffs(keys, hashes, segs.take(idx as int)),
            decreases segs.len() - idx,
        {
            let seg = in_comparison[idx];
            let ghost out_before = out_comparison@;
            let ghost diffs_before = differences@;
            let local_hash = self.hash(&seg.range);
            if seg.hash == local_hash {
                // the peer agrees on this range; nothing to do
            } else if seg.hash == 0 {
                // the peer has nothing here: announce our entries
                differences.push(seg.range);
            } else if local_hash == 0 {
                // we have nothing here: ask the peer to announce its
                // entries by bouncing an empty claim back
                out_comparison.push(HashSegment { range: seg.range, hash: 0, size: 0 });
            } else {
                proof {
                    lemma_nonzero_hash_nonempty(keys, hashes, seg);
                }
                let start_index = match seg.range.start {
                    KeyBound::Unbounded => 0,
                    KeyBound::Included(k) => self.insertion_position(k),
                    KeyBound::Excluded(_) => {
                        proof {
                            assert(false);
                        }
                        0
                    },
                };
                let end_index = match seg.range.end {
                    KeyBound::Unbounded => self.len(),
                    KeyBound::Excluded(k) => self.insertion_position(k),
                    KeyBound::Included(_) => {
                        proof {
                            assert(false);
                        }
                        0
                    },
                };
                let local_size = end_index - start_index;
                if seg.size == 1 && local_size == 1 {
                    // a single conflicting entry on both sides: send
                    // ours and ask for theirs
                    out_comparison.push(HashSegment { range: seg.range, hash: 0, size: 0 });
                    differences.push(seg.range);
                } else if local_size == 1 {
                    // too little local resolution: echo our claim so
                    // the peer subdivides instead
                    out_comparison.push(
                        HashSegment { range: seg.range, hash: local_hash, size: 1 },
                    );
                } else {
                    let step = {
                        let s = local_size / 16;
                        if s >= 1 {
                            s
                        } else {
                            1
                        }
                    };
                    subdivide(
                        self,
                        seg.range.start,
                        start_index,
                        seg.range.end,
                        end_index,
                        step,
                        out_comparison,
                    );
                }
            }
            idx = idx + 1;
            proof {
                assert(segs.take(idx as int).drop_last() =~= segs.take(idx as int - 1));
                assert(segs.take(idx as int).last() == seg);
                assert(out_comparison@ == out_before + spec_seg_out(keys, hashes, seg));
                assert(out_comparison@ =~= out0 + spec_round_out(keys, hashes, segs.take(idx as int)));
                assert(differences@ == diffs_before + spec_seg_diffs(keys, hashes, seg));
                assert(differences@ =~= diffs0 + spec_round_diffs(keys, hashes, segs.take(idx as int)));
            }
        }
        proof {
            assert(segs.take(segs.len() as int) =~= segs);
        }
    }
}

/// Subdivision emits only well-formed wire segments.
proof fn lemma_subdivide_wf(
    keys: Seq<u64>,
    hashes: Seq<u64>,
    cur: KeyBound,
    cur_index: int,
    end: KeyBound,
    end_index: int,
    step: int,
)
    requires
        !(cur is Excluded),
        !(end is Included),
        cur_index < end_index,
        end_index - cur_index <= usize::MAX,
        step <= usize::MAX,
    ensures
        forall|i: int|
            0 <= i < spec_subdivide(keys, hashes, cur, cur_index, end, end_index, step).len()
                ==> segment_wf(
                #[trigger] spec_subdivide(keys, hashes, cur, cur_index, end, end_index, step)[i],
            ),
    decreases end_index - cur_index,
{
    let out = spec_subdivide(keys, hashes, cur, cur_index, end, end_index, step);
    if step < 1 || cur_index + step >= end_index {
        assert(out[0].size == (end_index - cur_index) as usize);
        assert(out[0].size >= 1);
    } else {
        let next_key = keys[cur_index + step];
        lemma_subdivide_wf(
            keys,
            hashes,
            KeyBound::Included(next_key),
            cur_index + step,
            end,
            end_index,
            step,
        );
        let rest = spec_subdivide(
            keys,
            hashes,
            KeyBound::Included(next_key),
            cur_index + step,
            end,
            end_index,
            step,
        );
        assert forall|i: int| 0 <= i < out.len() implies segment_wf(#[trigger] out[i]) by {
            if i == 0 {
                assert(out[0].size == step as usize);
            } else {
                assert(out[i] == rest[i - 1]);
            }
        }
    }
}

/// The answer to one well-formed segment consists of well-formed
/// segments only: starts stay inclusive or open, ends exclusive or
/// open, and a zero size appears only on empty claims.
pub proof fn lemma_seg_out_wf(keys: Seq<u64>, hashes: Seq<u64>, seg: HashSegment)
    requires
        sorted_strict(keys),
        hashes.len() == keys.len(),
        keys.len() <= usize::MAX,
        segment_wf(seg),
    ensures
        forall|i: int|
            0 <= i < spec_seg_out(keys, hashes, seg).len() ==> segment_wf(
                #[trigger] spec_seg_out(keys, hashes, seg)[i],
            ),
{
    let local = model_range_hash(keys, hashes, seg.range);
    if seg.hash == local || seg.hash == 0 || local == 0 {
    } else {
        lemma_nonzero_hash_nonempty(keys, hashes, seg);
        let lo = seg_start_index(keys, seg.range.start);
        let hi = seg_end_index(keys, seg.range.end);
        let local_size = hi - lo;
        if seg.size == 1 && local_size == 1 {
        } else if local_size == 1 {
        } else {
            let step = if local_size / 16 >= 1 {
                local_size / 16
            } else {
                1int
            };
            lemma_subdivide_wf(keys, hashes, seg.range.start, lo, seg.range.end, hi, step);
        }
    }
}

/// A whole round of answers to well-formed segments is well-formed.
pub proof fn lemma_round_out_wf(keys: Seq<u64>, hashes: Seq<u64>, segs: Seq<HashSegment>)
    requires
        sorted_strict(keys),
        hashes.len() == keys.len(),
        keys.len() <= usize::MAX,
        forall|i: int| 0 <= i < segs.len() ==> segment_wf(#[trigger] segs[i]),
    ensures
        forall|i: int|
            0 <= i < spec_round_out(keys, hashes, segs).len() ==> segment_wf(
                #[trigger] spec_round_out(keys, hashes, segs)[i],
            ),
    decreases segs.len(),
{
    if segs.len() > 0 {
        let t = segs.drop_last();
        assert(forall|i: int| 0 <= i < t.len() ==> segment_wf(#[trigger] t[i]));
        lemma_round_out_wf(keys, hashes, t);
        assert(segment_wf(segs.last())) by {
            assert(segs[segs.len() - 1] == segs.last());
        }
        lemma_seg_out_wf(keys, hashes, segs.last());
        let front = spec_round_out(keys, hashes, t);
        let tail = spec_seg_out(keys, hashes, segs.last());
        assert forall|i: int|
            0 <= i < spec_round_out(keys, hashes, segs).len() implies segment_wf(
            #[trigger] spec_round_out(keys, hashes, segs)[i],
        ) by {
            if i < front.len() {
                assert(spec_round_out(keys, hashes, segs)[i] == front[i]);
            } else {
                assert(spec_round_out(keys, hashes, segs)[i] == tail[i - front.len()]);
            }
        }
    }
}

/// A batch whose every segment matches the local hashes is answered
/// with silence: no further segments and no difference ranges.  In
/// particular two stores with equal contents finish in one round.
pub proof fn lemma_agreeing_round_is_silent(
    keys: Seq<u64>,
    hashes: Seq<u64>,
    segs: Seq<HashSegment>,
)
    requires
        forall|i: int|
            0 <= i < segs.len() ==> (#[trigger] segs[i]).hash == model_range_hash(
                keys,
                hashes,
                segs[i].range,
            ),
    ensures
        spec_round_out(keys, hashes, segs).len() == 0,
        spec_round_diffs(keys, hashes, segs).len() == 0,
    decreases segs.len(),
{
    if segs.len() > 0 {
        lemma_agreeing_round_is_silent(keys, hashes, segs.drop_last());
    }
}

/// Some segment of the batch covers the key.
pub open spec fn covered_by_segments(segs: Seq<HashSegment>, k: u64) -> bool {
    exists|i: int| 0 <= i < segs.len() && in_range((#[trigger] segs[i]).range, k)
}

/// Some range of the batch covers the key.
pub open spec fn covered_by_ranges(ranges: Seq<DiffRange>, k: u64) -> bool {
    exists|i: int| 0 <= i < ranges.len() && in_range(#[trigger] ranges[i], k)
}

/// Subdivision covers exactly the range it splits: no key is lost
/// when a disagreeing range is narrowed.
proof fn lemma_subdivide_covers(
    keys: Seq<u64>,
    hashes: Seq<u64>,
    cur: KeyBound,
    cur_index: int,
    end: KeyBound,
    end_index: int,
    step: int,
    k: u64,
)
    requires
        sorted_strict(keys),
        0 <= cur_index < end_index <= keys.len(),
        forall|t: int|
            cur_index <= t < end_index ==> above_start(cur, #[trigger] keys[t]) && below_end(
                end,
                keys[t],
            ),
    ensures
        in_range(KeyRange { start: cur, end }, k) <==> covered_by_segments(
            spec_subdivide(keys, hashes, cur, cur_index, end, end_index, step),
            k,
        ),
    decreases end_index - cur_index,
{
    let out = spec_subdivide(keys, hashes, cur, cur_index, end, end_index, step);
    if step < 1 || cur_index + step >= end_index {
        assert(out[0].range == KeyRange { start: cur, end });
        if in_range(KeyRange { start: cur, end }, k) {
            assert(covered_by_segments(out, k));
        }
        if covered_by_segments(out, k) {
            let i = choose|i: int| 0 <= i < out.len() && in_range((#[trigger] out[i]).range, k);
            assert(i == 0);
        }
    } else {
        let next_key = keys[cur_index + step];
        let head = KeyRange { start: cur, end: KeyBound::Excluded(next_key) };
        let rest = spec_subdivide(
            keys,
            hashes,
            KeyBound::Included(next_key),
            cur_index + step,
            end,
            end_index,
            step,
        );
        assert forall|t: int|
            cur_index + step <= t < end_index implies above_start(
            KeyBound::Included(next_key),
            #[trigger] keys[t],
        ) && below_end(end, keys[t]) by {
            if t > cur_index + step {
                assert(keys[cur_index + step] < keys[t]);
            }
        }
        lemma_subdivide_covers(
            keys,
            hashes,
            KeyBound::Included(next_key),
            cur_index + step,
            end,
            end_index,
            step,
            k,
        );
        let tail_range = KeyRange { start: KeyBound::Included(next_key), end };
        // the cut key itself lies inside the range being split
        assert(above_start(cur, next_key) && below_end(end, next_key));
        if in_range(KeyRange { start: cur, end }, k) {
            if k < next_key {
                assert(in_range(head, k));
                assert(out[0].range == head);
                assert(covered_by_segments(out, k));
            } else {
                assert(in_range(tail_range, k));
                let i = choose|i: int|
                    0 <= i < rest.len() && in_range((#[trigger] rest[i]).range, k);
                assert(out[i + 1] == rest[i]);
                assert(covered_by_segments(out, k));
            }
        }
        if covered_by_segments(out, k) {
            let i = choose|i: int| 0 <= i < out.len() && in_range((#[trigger] out[i]).range, k);
            if i == 0 {
                // inside the head piece, hence inside the whole range
                assert(in_range(head, k));
                assert(k < next_key);
            } else {
                assert(out[i] == rest[i - 1]);
                assert(covered_by_segments(rest, k));
                assert(in_range(tail_range, k));
            }
        }
    }
}

/// Law: the answer to a disagreeing well-formed segment keeps every
/// key of its range in play: each one stays covered by a returned
/// segment or by an announced difference range.  Only ranges on
/// which both sides agree are dropped, so narrowing loses no key.
pub proof fn lemma_seg_out_covers(keys: Seq<u64>, hashes: Seq<u64>, seg: HashSegment, k: u64)
    requires
        sorted_strict(keys),
        hashes.len() == keys.len(),
        segment_wf(seg),
        seg.hash != model_range_hash(keys, hashes, seg.range),
        in_range(seg.range, k),
    ensures
        covered_by_segments(spec_seg_out(keys, hashes, seg), k) || covered_by_ranges(
            spec_seg_diffs(keys, hashes, seg),
            k,
        ),
{
    let local = model_range_hash(keys, hashes, seg.range);
    let out = spec_seg_out(keys, hashes, seg);
    let diffs = spec_seg_diffs(keys, hashes, seg);
    if seg.hash == 0 {
        assert(diffs[0] == seg.range);
        assert(covered_by_ranges(diffs, k));
    } else if local == 0 {
        assert(out[0].range == seg.range);
        assert(covered_by_segments(out, k));
    } else {
        lemma_nonzero_hash_nonempty(keys, hashes, seg);
        let lo = seg_start_index(keys, seg.range.start);
        let hi = seg_end_index(keys, seg.range.end);
        let local_size = hi - lo;
        if seg.size == 1 && local_size == 1 {
            assert(diffs[0] == seg.range);
            assert(covered_by_ranges(diffs, k));
        } else if local_size == 1 {
            assert(out[0].range == seg.range);
            assert(covered_by_segments(out, k));
        } else {
            let step = if local_size / 16 >= 1 {
                local_size / 16
            } else {
                1int
            };
            lemma_rank_range(keys, seg.range);
            assert(crate::hvec::start_rank(keys, seg.range.start) == lo);
            assert(crate::hvec::end_rank(keys, seg.range.end) == hi);
            assert forall|t: int|
                lo <= t < hi implies above_start(seg.range.start, #[trigger] keys[t])
                && below_end(seg.range.end, keys[t]) by {
                assert(in_range(seg.range, keys[t]));
            }
            lemma_subdivide_covers(
                keys,
                hashes,
                seg.range.start,
                lo,
                seg.range.end,
                hi,
                step,
                k,
            );
            assert(in_range(KeyRange { start: seg.range.start, end: seg.range.end }, k));
        }
    }
}

/// Law: two stores with the same contents finish in one round.  The
/// opening claim of one side is answered by the other with no further
/// segments and no difference ranges, whatever order either store's
/// entries were inserted or removed in.
pub proof fn lemma_equal_contents_silent<V: crate::hash::Hashable>(
    a: &crate::hvec::HVec<V>,
    b: &crate::hvec::HVec<V>,
)
    requires
        a.wf(),
        b.wf(),
        a.contents() == b.contents(),
    ensures
        ({
            let start = seq![
                HashSegment {
                    range: spec_full_range(),
                    hash: model_range_hash(a.key_seq(), a.hash_seq(), spec_full_range()),
                    size: a.key_seq().len() as usize,
                },
            ];
            &&& spec_round_out(b.key_seq(), b.hash_seq(), start).len() == 0
            &&& spec_round_diffs(b.key_seq(), b.hash_seq(), start).len() == 0
        }),
{
    crate::hvec::lemma_hash_order_independent(a, b);
    assert(a.hash_seq() =~= b.hash_seq());
    let start = seq![
        HashSegment {
            range: spec_full_range(),
            hash: model_range_hash(a.key_seq(), a.hash_seq(), spec_full_range()),
            size: a.key_seq().len() as usize,
        },
    ];
    assert forall|i: int|
        0 <= i < start.len() implies (#[trigger] start[i]).hash == model_range_hash(
        b.key_seq(),
        b.hash_seq(),
        start[i].range,
    ) by {
        assert(start[0].range == spec_full_range());
    }
    lemma_agreeing_round_is_silent(b.key_seq(), b.hash_seq(), start);
}

} // verus!
