//! Key ranges as the protocol speaks of them: a start and an end bound,
//! each unbounded, inclusive or exclusive, and the comparison of a key
//! against such a range.

use vstd::prelude::*;

verus! {

/// One bound of a key range.
#[derive(Clone, Copy, Debug, PartialEq, Eq, Structural)]
pub enum KeyBound {
    Unbounded,
    Included(u64),
    Excluded(u64),
}

/// A range of keys, as carried by the comparison and difference items
/// of the protocol.
#[derive(Clone, Copy, Debug, PartialEq, Eq, Structural)]
pub struct KeyRange {
    pub start: KeyBound,
    pub end: KeyBound,
}

/// Where a key stands relative to a range.
#[derive(Clone, Copy, Debug, PartialEq, Eq, Structural)]
pub enum RangeOrdering {
    Less,
    Inside,
    Greater,
}

/// The key lies at or after the start bound.
pub open spec fn above_start(b: KeyBound, key: u64) -> bool {
    match b {
        KeyBound::Unbounded => true,
        KeyBound::Included(s) => s <= key,
        KeyBound::Excluded(s) => s < key,
    }
}

/// The key lies at or before the end bound.
pub open spec fn below_end(b: KeyBound, key: u64) -> bool {
    match b {
        KeyBound::Unbounded => true,
        KeyBound::Included(e) => key <= e,
        KeyBound::Excluded(e) => key < e,
    }
}

/// The key falls inside the range.
pub open spec fn in_range(r: KeyRange, key: u64) -> bool {
    above_start(r.start, key) && below_end(r.end, key)
}

/// The full range, over which the root hash is taken.
pub open spec fn spec_full_range() -> KeyRange {
    KeyRange { start: KeyBound::Unbounded, end: KeyBound::Unbounded }
}

/// The full range, as a value.
pub fn full_range() -> (r: KeyRange)
    ensures
        r == spec_full_range(),
{
    KeyRange { start: KeyBound::Unbounded, end: KeyBound::Unbounded }
}

/// Compare a key against a range: before its start, inside, or past
/// its end.
pub fn range_compare(item: u64, range: &KeyRange) -> (r: RangeOrdering)
    ensures
        r == RangeOrdering::Less <==> !above_start(range.start, item),
        r == RangeOrdering::Greater <==> above_start(range.start, item) && !below_end(
            range.end,
            item,
        ),
        r == RangeOrdering::Inside <==> in_range(*range, item),
{
    let below = match range.start {
        KeyBound::Unbounded => false,
        KeyBound::Included(s) => item < s,
        KeyBound::Excluded(s) => item <= s,
    };
    if below {
        return RangeOrdering::Less;
    }
    let above = match range.end {
        KeyBound::Unbounded => false,
        KeyBound::Included(e) => item > e,
        KeyBound::Excluded(e) => item >= e,
    };
    if above {
        return RangeOrdering::Greater;
    }
    RangeOrdering::Inside
}

} // verus!
