//! The reconciliation service's decision core: local mutations, the
//! conflict rule for remote updates, the answer to a batch of
//! comparison segments, the tombstone lifecycle and the peer
//! directory rule.  Everything here is synchronous and verified; the
//! surrounding event loop only moves datagrams in and out.

use vstd::prelude::*;

use crate::hash::Hashable;
use crate::hvec::HVec;
use crate::map::KvMap;
use crate::reconcilable::{
    spec_apply_update, spec_update_accepted, DatedMaybeTombstone, Reconcilable,
    ReconciliationResult,
};
use crate::timeout_wheel::{spec_expired, TimeoutWheel};

verus! {

/// Every binding of `sub` is also a binding of `sup`.
pub open spec fn map_included<V>(sub: Map<u64, V>, sup: Map<u64, V>) -> bool {
    forall|k: u64| #[trigger] sub.dom().contains(k) ==> sup.dom().contains(k) && sub[k] == sup[k]
}

/// Every key of `pre` missing from `cur` had an expired tombstone in
/// the wheel.
pub open spec fn swept_were_expired<V>(
    pre: Map<u64, V>,
    cur: Map<u64, V>,
    wheel: Map<u64, u64>,
    timeout: u64,
    now: u64,
) -> bool {
    forall|k: u64|
        pre.dom().contains(k) && !(#[trigger] cur.dom().contains(k)) ==> wheel.dom().contains(k)
            && spec_expired(wheel[k], timeout, now)
}

/// No entry of the wheel has expired.
pub open spec fn wheel_unexpired(wheel: Map<u64, u64>, timeout: u64, now: u64) -> bool {
    forall|k: u64| #[trigger] wheel.dom().contains(k) ==> !spec_expired(wheel[k], timeout, now)
}

/// Wraps a key-value map for reconciliation between instances: local
/// mutations go through it, and remote updates are applied under the
/// values' own conflict rule.
pub struct ReconcileService<M> {
    map: M,
}

impl<M: KvMap> ReconcileService<M> {
    /// The wrapped map.
    pub closed spec fn map_view(&self) -> M {
        self.map
    }

    /// The service's invariant: the wrapped map's.
    pub open spec fn inv(&self) -> bool {
        self.map_view().map_inv()
    }

    /// The replicated contents.
    pub open spec fn contents(&self) -> Map<u64, M::Value> {
        self.map_view().map_contents()
    }

    /// Wrap a map.
    pub fn new(map: M) -> (s: Self)
        ensures
            s.map_view() == map,
    {
        ReconcileService { map }
    }

    /// Direct read access to the underlying map.
    pub fn read(&self) -> (m: &M)
        ensures
            *m == self.map_view(),
    {
        &self.map
    }

    /// Store a value locally; the caller fans the change out to the
    /// peers it knows.
    pub fn insert(&mut self, key: u64, value: M::Value) -> (prior: Option<M::Value>)
        requires
            old(self).inv(),
        ensures
            final(self).inv(),
            final(self).contents() == old(self).contents().insert(key, value),
            match prior {
                Some(v) => old(self).contents().dom().contains(key) && v == old(
                    self,
                ).contents()[key],
                None => !old(self).contents().dom().contains(key),
            },
    {
        self.map.insert(key, value)
    }

    /// Drop the entry under `key` from the map, physically.
    pub fn remove(&mut self, key: u64) -> (prior: Option<M::Value>)
        requires
            old(self).inv(),
        ensures
            final(self).inv(),
            final(self).contents() == old(self).contents().remove(key),
            match prior {
                Some(v) => old(self).contents().dom().contains(key) && v == old(
                    self,
                ).contents()[key],
                None => !old(self).contents().dom().contains(key),
            },
    {
        self.map.remove(key)
    }
}

impl<M: KvMap> ReconcileService<M> where M::Value: Reconcilable {
    /// Whether an update would be accepted under the conflict rule,
    /// without applying it; callers that observe changes (a hook, a
    /// notification) can ask before the map is touched.
    pub fn would_accept(&self, key: u64, value: &M::Value) -> (r: bool)
        requires
            self.inv(),
        ensures
            r == spec_update_accepted(self.contents(), key, *value),
    {
        match self.map.get(key) {
            Some(local) => match local.reconcile(value) {
                ReconciliationResult::KeepOther => true,
                ReconciliationResult::KeepSelf => false,
            },
            None => true,
        }
    }

    /// Apply one remote update under the conflict rule: accepted when
    /// the key is new or the local value yields, ignored otherwise.
    pub fn apply_update(&mut self, key: u64, value: M::Value) -> (applied: bool)
        requires
            old(self).inv(),
        ensures
            final(self).inv(),
            applied == spec_update_accepted(old(self).contents(), key, value),
            final(self).contents() == spec_apply_update(old(self).contents(), key, value),
    {
        let do_change = match self.map.get(key) {
            Some(local) => match local.reconcile(&value) {
                ReconciliationResult::KeepOther => true,
                ReconciliationResult::KeepSelf => false,
            },
            None => true,
        };
        if do_change {
            self.map.insert(key, value);
            true
        } else {
            false
        }
    }
}

/// The peer directory rule: of the known peers, those whose last
/// activity lies less than the expiration span before `now` are still
/// addressed; the others are dropped.  A peer is a plain address
/// value paired with the instant it was last heard from.
pub fn retain_active_peers(peers: &Vec<(u128, u64)>, now: u64, expiration: u64) -> (out: Vec<
    (u128, u64),
>)
    ensures
        out@ == peers@.filter(|p: (u128, u64)| now - p.1 < expiration),
{
    let mut out: Vec<(u128, u64)> = Vec::new();
    let mut i: usize = 0;
    while i < peers.len()
        invariant
            i <= peers@.len(),
            out@ == peers@.take(i as int).filter(|p: (u128, u64)| now - p.1 < expiration),
        decreases peers@.len() - i,
    {
        let (addr, seen) = peers[i];
        let keep = if seen <= now {
            now - seen < expiration
        } else {
            true
        };
        proof {
            assert(peers@.take(i + 1).drop_last() =~= peers@.take(i as int));
            assert(peers@.take(i + 1).last() == peers@[i as int]);
            reveal_with_fuel(Seq::filter, 2);
        }
        if keep {
            out.push((addr, seen));
        }
        i = i + 1;
    }
    proof {
        assert(peers@.take(peers@.len() as int) =~= peers@);
    }
    out
}

/// Applying a list of timestamped insertions in order.
pub open spec fn spec_bulk_insert_map<V>(
    m: Map<u64, DatedMaybeTombstone<V>>,
    items: Seq<(u64, V, u64)>,
) -> Map<u64, DatedMaybeTombstone<V>>
    decreases items.len(),
{
    if items.len() == 0 {
        m
    } else {
        spec_bulk_insert_map(m, items.drop_last()).insert(
            items.last().0,
            DatedMaybeTombstone { timestamp: items.last().2, value: Some(items.last().1) },
        )
    }
}

/// The wheel after a list of insertions: each inserted key stops
/// being a pending tombstone.
pub open spec fn spec_bulk_insert_wheel<V>(w: Map<u64, u64>, items: Seq<(u64, V, u64)>) -> Map<
    u64,
    u64,
>
    decreases items.len(),
{
    if items.len() == 0 {
        w
    } else {
        spec_bulk_insert_wheel(w, items.drop_last()).remove(items.last().0)
    }
}

/// Applying a list of timestamped removals in order.
pub open spec fn spec_bulk_remove_map<V>(
    m: Map<u64, DatedMaybeTombstone<V>>,
    items: Seq<(u64, u64)>,
) -> Map<u64, DatedMaybeTombstone<V>>
    decreases items.len(),
{
    if items.len() == 0 {
        m
    } else {
        spec_bulk_remove_map(m, items.drop_last()).insert(
            items.last().0,
            DatedMaybeTombstone { timestamp: items.last().1, value: None },
        )
    }
}

/// The wheel after a list of removals: each removed key becomes a
/// pending tombstone at its removal instant.
pub open spec fn spec_bulk_remove_wheel(w: Map<u64, u64>, items: Seq<(u64, u64)>) -> Map<u64, u64>
    decreases items.len(),
{
    if items.len() == 0 {
        w
    } else {
        spec_bulk_remove_wheel(w, items.drop_last()).insert(items.last().0, items.last().1)
    }
}

/// The removal-aware service: wraps the store of timestamped slots
/// and keeps the wheel of pending tombstones next to it, so deleted
/// keys keep reconciling until their tombstones expire and are swept.
pub struct RemoveService<V> {
    service: ReconcileService<HVec<DatedMaybeTombstone<V>>>,
    tombstones: TimeoutWheel,
}

impl<V: Hashable> RemoveService<V> {
    /// The wrapped store.
    pub closed spec fn map_view(&self) -> HVec<DatedMaybeTombstone<V>> {
        self.service.map_view()
    }

    /// The wheel of pending tombstones.
    pub closed spec fn wheel_view(&self) -> TimeoutWheel {
        self.tombstones
    }

    /// Both layers are well-formed.
    pub open spec fn inv(&self) -> bool {
        self.map_view().wf() && self.wheel_view().wf()
    }

    /// The replicated contents.
    pub open spec fn contents(&self) -> Map<u64, DatedMaybeTombstone<V>> {
        self.map_view().contents()
    }

    /// The pending tombstones, as a map from key to deletion instant.
    pub open spec fn wheel_map(&self) -> Map<u64, u64> {
        self.wheel_view().view_map()
    }

    /// Wrap a store, with an empty wheel.
    pub fn new(map: HVec<DatedMaybeTombstone<V>>) -> (s: Self)
        ensures
            s.map_view() == map,
            s.wheel_map() == Map::<u64, u64>::empty(),
            s.wheel_view().wf(),
            s.wheel_view().timeout() == crate::timeout_wheel::DEFAULT_EXPIRY_TIMEOUT_MS,
    {
        RemoveService { service: ReconcileService::new(map), tombstones: TimeoutWheel::new() }
    }

    /// The same service with another tombstone expiry timeout.
    pub fn with_tombstone_timeout(self, tombstone_timeout: u64) -> (s: Self)
        ensures
            s.map_view() == self.map_view(),
            s.wheel_map() == self.wheel_map(),
            s.wheel_view().wf() == self.wheel_view().wf(),
            s.wheel_view().timeout() == tombstone_timeout,
    {
        RemoveService {
            service: self.service,
            tombstones: self.tombstones.with_expiry_timeout(tombstone_timeout),
        }
    }

    /// Direct read access to the underlying store.
    pub fn read(&self) -> (m: &HVec<DatedMaybeTombstone<V>>)
        ensures
            *m == self.map_view(),
    {
        self.service.read()
    }

    /// The live value under `key`: tombstones and absent keys read as
    /// nothing.
    pub fn get(&self, key: u64) -> (r: Option<&V>)
        requires
            self.inv(),
        ensures
            match r {
                Some(v) => self.contents().dom().contains(key) && self.contents()[key].value
                    == Some(*v),
                None => !self.contents().dom().contains(key) || self.contents()[key].value
                    is None,
            },
    {
        match self.service.read().get(key) {
            Some(slot) => match &slot.value {
                Some(v) => Some(v),
                None => None,
            },
            None => None,
        }
    }

    /// Store a live value at `timestamp`; the key stops being a
    /// pending tombstone.  Returns the prior live value, if any.
    pub fn insert(&mut self, key: u64, value: V, timestamp: u64) -> (prior: Option<V>)
        requires
            old(self).inv(),
        ensures
            final(self).inv(),
            final(self).contents() == old(self).contents().insert(
                key,
                (DatedMaybeTombstone { timestamp, value: Some(value) }),
            ),
            final(self).wheel_map() == old(self).wheel_map().remove(key),
            final(self).wheel_view().timeout() == old(self).wheel_view().timeout(),
            prior == (if old(self).contents().dom().contains(key) {
                old(self).contents()[key].value
            } else {
                Option::<V>::None
            }),
    {
        self.tombstones.remove(key);
        let ret = self.service.insert(key, DatedMaybeTombstone { timestamp, value: Some(value) });
        match ret {
            Some(slot) => slot.value,
            None => None,
        }
    }

    /// Store a tombstone at `timestamp` and register the key in the
    /// wheel.  Returns the prior live value, if any.
    pub fn remove(&mut self, key: u64, timestamp: u64) -> (prior: Option<V>)
        requires
            old(self).inv(),
        ensures
            final(self).inv(),
            final(self).contents() == old(self).contents().insert(
                key,
                (DatedMaybeTombstone { timestamp, value: None }),
            ),
            final(self).wheel_map() == old(self).wheel_map().insert(key, timestamp),
            final(self).wheel_view().timeout() == old(self).wheel_view().timeout(),
            prior == (if old(self).contents().dom().contains(key) {
                old(self).contents()[key].value
            } else {
                Option::<V>::None
            }),
    {
        self.tombstones.insert(key, timestamp);
        let ret = self.service.insert(key, DatedMaybeTombstone { timestamp, value: None });
        match ret {
            Some(slot) => slot.value,
            None => None,
        }
    }

    /// Store a batch of live values in one pass.
    pub fn insert_bulk(&mut self, key_values: Vec<(u64, V, u64)>)
        requires
            old(self).inv(),
        ensures
            final(self).inv(),
            final(self).contents() == spec_bulk_insert_map(old(self).contents(), key_values@),
            final(self).wheel_map() == spec_bulk_insert_wheel(old(self).wheel_map(), key_values@),
            final(self).wheel_view().timeout() == old(self).wheel_view().timeout(),
    {
        let ghost orig = key_values@;
        let mut items = key_values;
        let ghost n = orig.len();
        let total = items.len();
        proof {
            assert(n == total);
            assert(orig.subrange(0, n as int) =~= orig);
        }
        let mut i: usize = 0;
        while items.len() > 0
            invariant
                self.inv(),
                i + items@.len() == n,
                n == total,
                n == orig.len(),
                items@ == orig.subrange(i as int, n as int),
                self.contents() == spec_bulk_insert_map(
                    old(self).contents(),
                    orig.take(i as int),
                ),
                self.wheel_map() == spec_bulk_insert_wheel(
                    old(self).wheel_map(),
                    orig.take(i as int),
                ),
                self.wheel_view().timeout() == old(self).wheel_view().timeout(),
            decreases items@.len(),
        {
            proof {
                assert(items@.len() > 0);
                assert(orig.subrange(i as int, n as int).len() == n - i);
                assert(i < n);
                assert(orig.subrange(i as int, n as int)[0] == orig[i as int]);
                assert(items@[0] == orig[i as int]);
            }
            let (key, value, timestamp) = items.remove(0);
            proof {
                let sub = orig.subrange(i as int, n as int);
                sub.remove_ensures(0);
                assert forall|t: int|
                    0 <= t < items@.len() implies items@[t] == orig.subrange(
                    i as int + 1,
                    n as int,
                )[t] by {
                    assert(items@[t] == sub.remove(0)[t]);
                    assert(sub.remove(0)[t] == sub[t + 1]);
                    assert(sub[t + 1] == orig[i + 1 + t]);
                    assert(orig.subrange(i as int + 1, n as int)[t] == orig[i + 1 + t]);
                }
                assert(items@ =~= orig.subrange(i as int + 1, n as int));
            }
            self.insert(key, value, timestamp);
            i = i + 1;
            proof {
                assert(orig.take(i as int).drop_last() =~= orig.take(i as int - 1));
                assert(orig.take(i as int).last() == orig[i as int - 1]);
            }
        }
        proof {
            assert(orig.take(n as int) =~= orig);
        }
    }

    /// Store a batch of tombstones in one pass.
    pub fn remove_bulk(&mut self, keys: Vec<(u64, u64)>)
        requires
            old(self).inv(),
        ensures
            final(self).inv(),
            final(self).contents() == spec_bulk_remove_map(old(self).contents(), keys@),
            final(self).wheel_map() == spec_bulk_remove_wheel(old(self).wheel_map(), keys@),
            final(self).wheel_view().timeout() == old(self).wheel_view().timeout(),
    {
        let ghost orig = keys@;
        let mut items = keys;
        let ghost n = orig.len();
        let total = items.len();
        proof {
            assert(n == total);
            assert(orig.subrange(0, n as int) =~= orig);
        }
        let mut i: usize = 0;
        while items.len() > 0
            invariant
                self.inv(),
                i + items@.len() == n,
                n == total,
                n == orig.len(),
                items@ == orig.subrange(i as int, n as int),
                self.contents() == spec_bulk_remove_map(
                    old(self).contents(),
                    orig.take(i as int),
                ),
                self.wheel_map() == spec_bulk_remove_wheel(
                    old(self).wheel_map(),
                    orig.take(i as int),
                ),
                self.wheel_view().timeout() == old(self).wheel_view().timeout(),
            decreases items@.len(),
        {
            proof {
                assert(items@.len() > 0);
                assert(orig.subrange(i as int, n as int).len() == n - i);
                assert(i < n);
                assert(orig.subrange(i as int, n as int)[0] == orig[i as int]);
                assert(items@[0] == orig[i as int]);
            }
            let (key, timestamp) = items.remove(0);
            proof {
                let sub = orig.subrange(i as int, n as int);
                sub.remove_ensures(0);
                assert forall|t: int|
                    0 <= t < items@.len() implies items@[t] == orig.subrange(
                    i as int + 1,
                    n as int,
                )[t] by {
                    assert(items@[t] == sub.remove(0)[t]);
                    assert(sub.remove(0)[t] == sub[t + 1]);
                    assert(sub[t + 1] == orig[i + 1 + t]);
                    assert(orig.subrange(i as int + 1, n as int)[t] == orig[i + 1 + t]);
                }
                assert(items@ =~= orig.subrange(i as int + 1, n as int));
            }
            self.remove(key, timestamp);
            i = i + 1;
            proof {
                assert(orig.take(i as int).drop_last() =~= orig.take(i as int - 1));
                assert(orig.take(i as int).last() == orig[i as int - 1]);
            }
        }
        proof {
            assert(orig.take(n as int) =~= orig);
        }
    }

    /// Whether a remote update would be accepted, without applying it.
    pub fn would_accept(&self, key: u64, slot: &DatedMaybeTombstone<V>) -> (r: bool)
        requires
            self.inv(),
        ensures
            r == spec_update_accepted(self.contents(), key, *slot),
    {
        self.service.would_accept(key, slot)
    }

    /// Apply one remote update under the conflict rule, and keep the
    /// wheel in step: an accepted tombstone registers the key, an
    /// accepted live value releases it, a rejected update changes
    /// nothing.
    pub fn apply_update(&mut self, key: u64, slot: DatedMaybeTombstone<V>) -> (applied: bool)
        requires
            old(self).inv(),
        ensures
            final(self).inv(),
            applied == spec_update_accepted(old(self).contents(), key, slot),
            final(self).contents() == spec_apply_update(old(self).contents(), key, slot),
            final(self).wheel_map() == (if applied {
                if slot.value is None {
                    old(self).wheel_map().insert(key, slot.timestamp)
                } else {
                    old(self).wheel_map().remove(key)
                }
            } else {
                old(self).wheel_map()
            }),
            final(self).wheel_view().timeout() == old(self).wheel_view().timeout(),
    {
        let is_tombstone = matches!(slot.value, None);
        let ts = slot.timestamp;
        let applied = self.service.apply_update(key, slot);
        if applied {
            if is_tombstone {
                self.tombstones.insert(key, ts);
            } else {
                self.tombstones.remove(key);
            }
        }
        applied
    }

    /// Sweep: physically drop from the store every key whose pending
    /// tombstone has waited out the timeout at `now`.  Entries only
    /// ever disappear, each such key had an expired tombstone, and
    /// everything left in the wheel is unexpired.
    pub fn clear_expired_tombstones(&mut self, now: u64)
        requires
            old(self).inv(),
        ensures
            final(self).inv(),
            final(self).wheel_view().timeout() == old(self).wheel_view().timeout(),
            map_included(final(self).contents(), old(self).contents()),
            swept_were_expired(
                old(self).contents(),
                final(self).contents(),
                old(self).wheel_map(),
                old(self).wheel_view().timeout(),
                now,
            ),
            map_included(final(self).wheel_map(), old(self).wheel_map()),
            wheel_unexpired(final(self).wheel_map(), final(self).wheel_view().timeout(), now),
            forall|k: u64|
                old(self).wheel_map().dom().contains(k) && spec_expired(
                    old(self).wheel_map()[k],
                    old(self).wheel_view().timeout(),
                    now,
                ) ==> !final(self).contents().dom().contains(k),
    {
        let ghost c0 = self.contents();
        let ghost w0 = self.wheel_map();
        let ghost to0 = self.wheel_view().timeout();
        let mut go: u8 = 1;
        while go == 1
            invariant
                self.inv(),
                c0 == old(self).contents(),
                w0 == old(self).wheel_map(),
                to0 == old(self).wheel_view().timeout(),
                self.wheel_view().timeout() == to0,
                map_included(self.contents(), c0),
                swept_were_expired(c0, self.contents(), w0, to0, now),
                map_included(self.wheel_map(), w0),
                forall|k: u64|
                    w0.dom().contains(k) && spec_expired(w0[k], to0, now)
                        ==> self.wheel_map().dom().contains(k) || !(
                    #[trigger] self.contents().dom().contains(k)),
                go != 1 ==> wheel_unexpired(self.wheel_map(), to0, now),
            decreases go, self.wheel_view().entries_seq().len(),
        {
            let ghost c_pre = self.contents();
            let ghost w_pre = self.wheel_map();
            let popped = self.tombstones.pop_expired(now);
            match popped {
                Some(key) => {
                    proof {
                        assert(self.contents() == c_pre);
                        assert(w_pre.dom().contains(key));
                        assert(w0.dom().contains(key));
                        assert(w0[key] == w_pre[key]);
                        assert(spec_expired(w0[key], to0, now));
                    }
                    let _removed = self.service.remove(key);
                    proof {
                        assert(self.contents() == c_pre.remove(key));
                        assert(self.wheel_map() == w_pre.remove(key));
                        assert(map_included(self.contents(), c0)) by {
                            assert forall|k: u64| #[trigger]
                                self.contents().dom().contains(k) implies c0.dom().contains(k)
                                && self.contents()[k] == c0[k] by {
                                assert(c_pre.dom().contains(k));
                                assert(self.contents()[k] == c_pre[k]);
                            }
                        }
                        assert(swept_were_expired(c0, self.contents(), w0, to0, now)) by {
                            assert forall|k: u64|
                                c0.dom().contains(k) && !(#[trigger] self.contents().dom().contains(
                                    k,
                                )) implies w0.dom().contains(k) && spec_expired(
                                w0[k],
                                to0,
                                now,
                            ) by {
                                if k != key {
                                    assert(!c_pre.dom().contains(k) || self.contents().dom().contains(
                                        k,
                                    ));
                                }
                            }
                        }
                        assert(map_included(self.wheel_map(), w0)) by {
                            assert forall|k: u64| #[trigger]
                                self.wheel_map().dom().contains(k) implies w0.dom().contains(k)
                                && self.wheel_map()[k] == w0[k] by {
                                assert(w_pre.dom().contains(k));
                                assert(self.wheel_map()[k] == w_pre[k]);
                            }
                        }
                        assert forall|k: u64|
                            w0.dom().contains(k) && spec_expired(w0[k], to0, now)
                                implies self.wheel_map().dom().contains(k) || !(
                        #[trigger] self.contents().dom().contains(k)) by {
                            if k != key {
                                if w_pre.dom().contains(k) {
                                    assert(self.wheel_map().dom().contains(k));
                                } else {
                                    assert(self.contents().dom().contains(k)
                                        ==> c_pre.dom().contains(k));
                                }
                            }
                        }
                    }
                },
                None => {
                    proof {
                        assert(wheel_unexpired(self.wheel_map(), to0, now)) by {
                            assert forall|k: u64| #[trigger]
                                self.wheel_map().dom().contains(k) implies !spec_expired(
                                self.wheel_map()[k],
                                to0,
                                now,
                            ) by {
                                assert(w_pre.dom().contains(k));
                            }
                        }
                    }
                    go = 0;
                },
            }
        }
    }
}

} // verus!
