//! Conflict handling for replicated values: a value carries a
//! timestamp, deletions are kept as timestamped tombstones, and when a
//! local and a remote value for the same key meet, the strictly newer
//! one wins while the locally present one wins ties.

use vstd::prelude::*;

use crate::hash::{fnv_step, fnv_mix, Hashable, FNV_OFFSET};

verus! {

/// Outcome of comparing a local value against a remote one.
#[derive(Clone, Copy, Debug, PartialEq, Eq, Structural)]
pub enum ReconciliationResult {
    KeepSelf,
    KeepOther,
}

/// Values stored in a reconciled map decide conflicts themselves.
pub trait Reconcilable: Sized {
    /// Whether the remote value should replace this one.
    spec fn keep_other(&self, other: &Self) -> bool;

    /// Decide the conflict between this (local) value and a remote
    /// one.
    fn reconcile(&self, other: &Self) -> (r: ReconciliationResult)
        ensures
            r == (if self.keep_other(other) {
                ReconciliationResult::KeepOther
            } else {
                ReconciliationResult::KeepSelf
            }),
    ;
}

/// A timestamped value slot: `Some` is a live value, `None` a
/// tombstone whose timestamp keeps ordering deletions against
/// concurrent writes.
#[derive(Clone, Debug, PartialEq, Eq)]
pub struct DatedMaybeTombstone<V> {
    pub timestamp: u64,
    pub value: Option<V>,
}

impl<V: Hashable> Hashable for DatedMaybeTombstone<V> {
    /// The slot digests by folding the timestamp into the chain
    /// before the (possibly absent) value.
    open spec fn digest(&self) -> u64 {
        fnv_step(fnv_step(FNV_OFFSET, self.timestamp), self.value.digest())
    }

    fn compute_digest(&self) -> (d: u64) {
        fnv_mix(fnv_mix(FNV_OFFSET, self.timestamp), self.value.compute_digest())
    }
}

impl<V> Reconcilable for DatedMaybeTombstone<V> {
    /// Last writer wins: the remote slot replaces the local one only
    /// when its timestamp is strictly greater.
    open spec fn keep_other(&self, other: &Self) -> bool {
        other.timestamp > self.timestamp
    }

    fn reconcile(&self, other: &Self) -> (r: ReconciliationResult) {
        if other.timestamp > self.timestamp {
            ReconciliationResult::KeepOther
        } else {
            ReconciliationResult::KeepSelf
        }
    }
}

/// A remote update is accepted when the key is absent locally or the
/// local value yields to the remote one.
pub open spec fn spec_update_accepted<V: Reconcilable>(m: Map<u64, V>, key: u64, value: V) -> bool {
    !m.dom().contains(key) || m[key].keep_other(&value)
}

/// The map after one remote update has been applied under the
/// conflict rule.
pub open spec fn spec_apply_update<V: Reconcilable>(m: Map<u64, V>, key: u64, value: V) -> Map<
    u64,
    V,
> {
    if spec_update_accepted(m, key, value) {
        m.insert(key, value)
    } else {
        m
    }
}

/// Law: for timestamped slots with distinct timestamps, applying two
/// updates of the same key commutes, so concurrent writers converge
/// to the same value in either delivery order.
pub proof fn lemma_last_writer_wins<V>(
    m: Map<u64, DatedMaybeTombstone<V>>,
    key: u64,
    u1: DatedMaybeTombstone<V>,
    u2: DatedMaybeTombstone<V>,
)
    requires
        u1.timestamp != u2.timestamp,
    ensures
        spec_apply_update(spec_apply_update(m, key, u1), key, u2) == spec_apply_update(
            spec_apply_update(m, key, u2),
            key,
            u1,
        ),
{
    let m1 = spec_apply_update(m, key, u1);
    let m2 = spec_apply_update(m, key, u2);
    let m12 = spec_apply_update(m1, key, u2);
    let m21 = spec_apply_update(m2, key, u1);
    assert(m.insert(key, u1).insert(key, u2) =~= m.insert(key, u2));
    assert(m.insert(key, u2).insert(key, u1) =~= m.insert(key, u1));
    assert(m12 =~= m21);
}

} // verus!
