//! The tombstone wheel: keys waiting out their expiry timeout, each
//! with the timestamp of its deletion.  Entries come out once they
//! are older than the configured timeout, oldest first.

use vstd::map::*;
use vstd::prelude::*;

verus! {

/// How long an entry lives before it may be popped, unless
/// configured otherwise: one minute, in milliseconds.
pub const DEFAULT_EXPIRY_TIMEOUT_MS: u64 = 60000;

/// `(timestamp, key)` entries read as a map from key to timestamp.
pub open spec fn entries_map(s: Seq<(u64, u64)>) -> Map<u64, u64>
    decreases s.len(),
{
    if s.len() == 0 {
        Map::empty()
    } else {
        entries_map(s.drop_last()).insert(s.last().1, s.last().0)
    }
}

/// No key occurs twice.
pub open spec fn unique_keys(s: Seq<(u64, u64)>) -> bool {
    forall|i: int, j: int| 0 <= i < j < s.len() ==> (#[trigger] s[i]).1 != (#[trigger] s[j]).1
}

/// A timestamp has expired once it lies more than the timeout before
/// `now`.
pub open spec fn spec_expired(ts: u64, timeout: u64, now: u64) -> bool {
    ts + timeout < now
}

/// A key is in the map view exactly when some entry carries it.
pub proof fn lemma_entries_map_dom(s: Seq<(u64, u64)>, k: u64)
    ensures
        entries_map(s).dom().contains(k) <==> exists|i: int|
            0 <= i < s.len() && (#[trigger] s[i]).1 == k,
    decreases s.len(),
{
    if s.len() > 0 {
        let t = s.drop_last();
        lemma_entries_map_dom(t, k);
        if entries_map(s).dom().contains(k) {
            if k == s.last().1 {
                assert(s[s.len() - 1].1 == k);
            } else {
                let i = choose|i: int| 0 <= i < t.len() && (#[trigger] t[i]).1 == k;
                assert(s[i].1 == k);
            }
        }
        if exists|i: int| 0 <= i < s.len() && (#[trigger] s[i]).1 == k {
            let i = choose|i: int| 0 <= i < s.len() && (#[trigger] s[i]).1 == k;
            if i < s.len() - 1 {
                assert(t[i].1 == k);
            }
        }
    }
}

/// With unique keys, the map view reads each entry's timestamp.
pub proof fn lemma_entries_map_at(s: Seq<(u64, u64)>, i: int)
    requires
        unique_keys(s),
        0 <= i < s.len(),
    ensures
        entries_map(s).dom().contains(s[i].1),
        entries_map(s)[s[i].1] == s[i].0,
    decreases s.len(),
{
    let t = s.drop_last();
    assert(unique_keys(t));
    if i == s.len() - 1 {
    } else {
        lemma_entries_map_at(t, i);
        assert(s.last().1 != s[i].1);
        assert(t[i] == s[i]);
    }
}

/// Removing the entry at one index removes exactly its key from the
/// map view.
pub proof fn lemma_entries_map_remove(s: Seq<(u64, u64)>, i: int)
    requires
        unique_keys(s),
        0 <= i < s.len(),
    ensures
        unique_keys(s.remove(i)),
        entries_map(s.remove(i)) == entries_map(s).remove(s[i].1),
    decreases s.len(),
{
    let r = s.remove(i);
    assert forall|p: int, q: int| 0 <= p < q < r.len() implies (#[trigger] r[p]).1 != (
    #[trigger] r[q]).1 by {
        assert(r[p] == (if p < i {
            s[p]
        } else {
            s[p + 1]
        }));
        assert(r[q] == (if q < i {
            s[q]
        } else {
            s[q + 1]
        }));
    }
    if i == s.len() - 1 {
        assert(r =~= s.drop_last());
        lemma_entries_map_dom(s.drop_last(), s[i].1);
        assert forall|j: int| 0 <= j < s.drop_last().len() implies (#[trigger] s.drop_last()[j]).1
            != s[i].1 by {
            assert(s.drop_last()[j] == s[j]);
        }
        assert(!entries_map(s.drop_last()).dom().contains(s[i].1));
        assert(entries_map(s.drop_last()).insert(s.last().1, s.last().0).remove(s[i].1)
            =~= entries_map(s.drop_last()));
    } else {
        let t = s.drop_last();
        assert(unique_keys(t));
        assert(0 <= i < t.len());
        lemma_entries_map_remove(t, i);
        assert(r.last() == s.last());
        assert(r.drop_last() =~= t.remove(i));
        assert(entries_map(r) == entries_map(t.remove(i)).insert(s.last().1, s.last().0));
        assert(t[i] == s[i]);
        assert(s.last().1 != s[i].1);
        assert(entries_map(t).remove(s[i].1).insert(s.last().1, s.last().0) =~= entries_map(
            t,
        ).insert(s.last().1, s.last().0).remove(s[i].1));
    }
}

/// The tombstone wheel: pending deletions with their timestamps and
/// the expiry timeout they wait out.
pub struct TimeoutWheel {
    entries: Vec<(u64, u64)>,
    expiry_timeout: u64,
}

impl TimeoutWheel {
    /// The `(timestamp, key)` entries.
    pub closed spec fn entries_seq(&self) -> Seq<(u64, u64)> {
        self.entries@
    }

    /// The entries as a map from key to timestamp.
    pub open spec fn view_map(&self) -> Map<u64, u64> {
        entries_map(self.entries_seq())
    }

    /// The configured expiry timeout, in milliseconds.
    pub closed spec fn timeout(&self) -> u64 {
        self.expiry_timeout
    }

    /// Each key is registered at most once.
    pub open spec fn wf(&self) -> bool {
        unique_keys(self.entries_seq())
    }

    /// An empty wheel with the default timeout.
    pub fn new() -> (w: Self)
        ensures
            w.wf(),
            w.entries_seq().len() == 0,
            w.timeout() == DEFAULT_EXPIRY_TIMEOUT_MS,
    {
        TimeoutWheel { entries: Vec::new(), expiry_timeout: DEFAULT_EXPIRY_TIMEOUT_MS }
    }

    /// The same wheel with another expiry timeout.
    pub fn with_expiry_timeout(self, expiry_timeout: u64) -> (w: Self)
        ensures
            w.entries_seq() == self.entries_seq(),
            w.timeout() == expiry_timeout,
    {
        TimeoutWheel { entries: self.entries, expiry_timeout }
    }

    /// Index of the entry carrying `key`, if any.
    fn find_key(&self, key: u64) -> (r: Option<usize>)
        ensures
            match r {
                Some(i) => i < self.entries_seq().len() && self.entries_seq()[i as int].1 == key,
                None => forall|i: int|
                    0 <= i < self.entries_seq().len() ==> (#[trigger] self.entries_seq()[i]).1
                        != key,
            },
    {
        let mut i: usize = 0;
        while i < self.entries.len()
            invariant
                i <= self.entries_seq().len(),
                forall|j: int| 0 <= j < i ==> (#[trigger] self.entries_seq()[j]).1 != key,
            decreases self.entries_seq().len() - i,
        {
            if self.entries[i].1 == key {
                return Some(i);
            }
            i = i + 1;
        }
        None
    }

    /// Register `key` as deleted at `instant`; a key already present
    /// is re-registered at the new instant.
    pub fn insert(&mut self, key: u64, instant: u64)
        requires
            old(self).wf(),
        ensures
            final(self).wf(),
            final(self).view_map() == old(self).view_map().insert(key, instant),
            final(self).timeout() == old(self).timeout(),
    {
        let ghost s0 = self.entries_seq();
        match self.find_key(key) {
            Some(i) => {
                proof {
                    lemma_entries_map_remove(s0, i as int);
                }
                self.entries.remove(i);
            },
            None => {
                proof {
                    lemma_entries_map_dom(s0, key);
                    assert(self.view_map().remove(key) =~= self.view_map());
                }
            },
        }
        let ghost s1 = self.entries_seq();
        self.entries.push((instant, key));
        proof {
            assert(self.entries_seq().drop_last() =~= s1);
            assert(unique_keys(self.entries_seq())) by {
                lemma_entries_map_dom(s1, key);
                assert forall|p: int, q: int|
                    0 <= p < q < self.entries_seq().len() implies (#[trigger] self.entries_seq()[p]).1
                    != (#[trigger] self.entries_seq()[q]).1 by {
                    if q == self.entries_seq().len() - 1 {
                        assert(self.entries_seq()[p] == s1[p]);
                        assert(!entries_map(s1).dom().contains(key) ==> s1[p].1 != key);
                        assert(entries_map(s1) == old(self).view_map().remove(key));
                    } else {
                        assert(self.entries_seq()[p] == s1[p]);
                        assert(self.entries_seq()[q] == s1[q]);
                    }
                }
            }
            assert(old(self).view_map().remove(key).insert(key, instant) =~= old(
                self,
            ).view_map().insert(key, instant));
        }
    }

    /// Unregister `key`; returns it when it was present.
    pub fn remove(&mut self, key: u64) -> (r: Option<u64>)
        requires
            old(self).wf(),
        ensures
            final(self).wf(),
            final(self).view_map() == old(self).view_map().remove(key),
            final(self).timeout() == old(self).timeout(),
            r == (if old(self).view_map().dom().contains(key) {
                Some(key)
            } else {
                Option::<u64>::None
            }),
    {
        let ghost s0 = self.entries_seq();
        proof {
            lemma_entries_map_dom(s0, key);
        }
        match self.find_key(key) {
            Some(i) => {
                proof {
                    lemma_entries_map_remove(s0, i as int);
                }
                self.entries.remove(i);
                Some(key)
            },
            None => {
                proof {
                    assert(self.view_map().remove(key) =~= self.view_map());
                }
                None
            },
        }
    }

    /// Pop the oldest entry if it has waited out the timeout: the
    /// returned key was registered at the earliest instant of all,
    /// and that instant lies more than the timeout before `now`.
    pub fn pop_expired(&mut self, now: u64) -> (r: Option<u64>)
        requires
            old(self).wf(),
        ensures
            final(self).wf(),
            final(self).timeout() == old(self).timeout(),
            match r {
                Some(key) => {
                    &&& old(self).view_map().dom().contains(key)
                    &&& spec_expired(old(self).view_map()[key], old(self).timeout(), now)
                    &&& forall|k2: u64|
                        old(self).view_map().dom().contains(k2) ==> old(self).view_map()[k2] >= old(
                            self,
                        ).view_map()[key]
                    &&& final(self).view_map() == old(self).view_map().remove(key)
                    &&& final(self).entries_seq().len() == old(self).entries_seq().len() - 1
                },
                None => {
                    &&& final(self).view_map() == old(self).view_map()
                    &&& final(self).entries_seq().len() == old(self).entries_seq().len()
                    &&& forall|k2: u64|
                        old(self).view_map().dom().contains(k2) ==> !spec_expired(
                            old(self).view_map()[k2],
                            old(self).timeout(),
                            now,
                        )
                },
            },
    {
        let ghost s0 = self.entries_seq();
        if self.entries.len() == 0 {
            proof {
                assert forall|k2: u64| old(self).view_map().dom().contains(k2) implies !spec_expired(
                    old(self).view_map()[k2],
                    old(self).timeout(),
                    now,
                ) by {
                    lemma_entries_map_dom(s0, k2);
                }
            }
            return None;
        }
        // find the entry with the earliest timestamp
        let mut best: usize = 0;
        let mut i: usize = 1;
        while i < self.entries.len()
            invariant
                1 <= i <= self.entries_seq().len(),
                best < i,
                forall|j: int|
                    0 <= j < i ==> (#[trigger] self.entries_seq()[j]).0
                        >= self.entries_seq()[best as int].0,
            decreases self.entries_seq().len() - i,
        {
            if self.entries[i].0 < self.entries[best].0 {
                best = i;
            }
            i = i + 1;
        }
        let (ts, key) = self.entries[best];
        let expired = if self.expiry_timeout <= 0xffff_ffff_ffff_ffffu64 - ts {
            ts + self.expiry_timeout < now
        } else {
            false
        };
        if expired {
            proof {
                lemma_entries_map_at(s0, best as int);
                lemma_entries_map_remove(s0, best as int);
                assert forall|k2: u64|
                    old(self).view_map().dom().contains(k2) implies old(self).view_map()[k2]
                    >= old(self).view_map()[key] by {
                    lemma_entries_map_dom(s0, k2);
                    let j = choose|j: int| 0 <= j < s0.len() && (#[trigger] s0[j]).1 == k2;
                    lemma_entries_map_at(s0, j);
                }
            }
            self.entries.remove(best);
            Some(key)
        } else {
            proof {
                lemma_entries_map_at(s0, best as int);
                assert forall|k2: u64| old(self).view_map().dom().contains(k2) implies !spec_expired(
                    old(self).view_map()[k2],
                    old(self).timeout(),
                    now,
                ) by {
                    lemma_entries_map_dom(s0, k2);
                    let j = choose|j: int| 0 <= j < s0.len() && (#[trigger] s0[j]).1 == k2;
                    lemma_entries_map_at(s0, j);
                }
            }
            None
        }
    }
}

} // verus!
