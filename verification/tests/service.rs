use rand::rngs::StdRng;
use rand::{Rng, SeedableRng};

use reconcile::diff::{DiffRange, Diffable, HashSegment};
use reconcile::hvec::HVec;
use reconcile::map::KvMap;
use reconcile::range_compare::full_range;
use reconcile::reconcilable::DatedMaybeTombstone;
use reconcile::service::{retain_active_peers, ReconcileService, RemoveService};
use reconcile::timeout_wheel::TimeoutWheel;

type Store = HVec<DatedMaybeTombstone<u64>>;

fn exchange(a: &mut RemoveService<u64>, b: &mut RemoveService<u64>) -> usize {
    let mut rounds: usize = 0;
    let mut to_b: Vec<HashSegment> = a.read().start_diff();
    let mut to_a: Vec<HashSegment> = Vec::new();
    loop {
        rounds += 1;
        let mut out_b: Vec<HashSegment> = Vec::new();
        let mut ranges_b: Vec<DiffRange> = Vec::new();
        b.read().diff_round(std::mem::take(&mut to_b), &mut out_b, &mut ranges_b);
        let updates_b: Vec<(u64, DatedMaybeTombstone<u64>)> = b
            .read()
            .enumerate_diff_ranges(&ranges_b)
            .into_iter()
            .map(|(k, v)| (k, v.clone()))
            .collect();
        to_a.extend(out_b);
        for (k, v) in updates_b {
            a.apply_update(k, v);
        }

        let mut out_a: Vec<HashSegment> = Vec::new();
        let mut ranges_a: Vec<DiffRange> = Vec::new();
        a.read().diff_round(std::mem::take(&mut to_a), &mut out_a, &mut ranges_a);
        let updates_a: Vec<(u64, DatedMaybeTombstone<u64>)> = a
            .read()
            .enumerate_diff_ranges(&ranges_a)
            .into_iter()
            .map(|(k, v)| (k, v.clone()))
            .collect();
        to_b.extend(out_a);
        for (k, v) in updates_a {
            b.apply_update(k, v);
        }

        if to_a.is_empty() && to_b.is_empty() {
            return rounds;
        }
        assert!(rounds < 64);
    }
}

#[test]
fn service_convergence() {
    // fill one instance with a thousand entries, start the other
    // empty: after the exchange both hold the same contents
    let mut rng = StdRng::seed_from_u64(42);
    let mut a: RemoveService<u64> = RemoveService::new(Store::new());
    let mut b: RemoveService<u64> = RemoveService::new(Store::new());
    let mut known_key: u64 = 0;
    for i in 0..1000u64 {
        let key: u64 = rng.gen();
        let value: u64 = rng.gen();
        a.insert(key, value, 100 + i);
        known_key = key;
    }
    assert_ne!(
        a.read().hash(&full_range()),
        b.read().hash(&full_range())
    );
    exchange(&mut a, &mut b);
    assert_eq!(
        a.read().hash(&full_range()),
        b.read().hash(&full_range())
    );
    assert_eq!(b.read().len(), 1000);
    assert_eq!(b.get(known_key).copied(), a.get(known_key).copied());
}

#[test]
fn service_tombstone_propagation() {
    // a removal travels to the peer as a timestamped tombstone
    let mut a: RemoveService<u64> = RemoveService::new(Store::new());
    let mut b: RemoveService<u64> = RemoveService::new(Store::new());
    a.insert(10, 1, 100);
    a.insert(20, 2, 100);
    exchange(&mut a, &mut b);
    assert_eq!(b.get(10), Some(&1));

    a.remove(10, 200);
    exchange(&mut a, &mut b);
    assert_eq!(b.get(10), None);
    let slot = b.read().get(10).unwrap();
    assert_eq!(slot.timestamp, 200);
    assert_eq!(slot.value, None);
    assert_eq!(b.get(20), Some(&2));
}

#[test]
fn service_last_writer_wins() {
    // concurrent writes to the same key settle on the newer one,
    // whichever direction the updates travel in
    let mut a: RemoveService<u64> = RemoveService::new(Store::new());
    let mut b: RemoveService<u64> = RemoveService::new(Store::new());
    a.insert(5, 111, 1000);
    b.insert(5, 222, 2000);
    exchange(&mut a, &mut b);
    assert_eq!(a.get(5), Some(&222));
    assert_eq!(b.get(5), Some(&222));

    let mut a: RemoveService<u64> = RemoveService::new(Store::new());
    let mut b: RemoveService<u64> = RemoveService::new(Store::new());
    a.insert(5, 111, 2000);
    b.insert(5, 222, 1000);
    exchange(&mut a, &mut b);
    assert_eq!(a.get(5), Some(&111));
    assert_eq!(b.get(5), Some(&111));

    // a newer removal beats an older write ...
    let mut a: RemoveService<u64> = RemoveService::new(Store::new());
    let mut b: RemoveService<u64> = RemoveService::new(Store::new());
    a.insert(5, 111, 1000);
    b.insert(5, 222, 1500);
    b.remove(5, 2000);
    exchange(&mut a, &mut b);
    assert_eq!(a.get(5), None);
    assert_eq!(b.get(5), None);

    // ... and a newer write revives an older tombstone
    let mut a: RemoveService<u64> = RemoveService::new(Store::new());
    let mut b: RemoveService<u64> = RemoveService::new(Store::new());
    a.insert(5, 111, 1000);
    a.remove(5, 1500);
    b.insert(5, 222, 2000);
    exchange(&mut a, &mut b);
    assert_eq!(a.get(5), Some(&222));
    assert_eq!(b.get(5), Some(&222));
}

#[test]
fn tombstones_expiration() {
    // an already-expired tombstone pops out of the wheel at once,
    // and popping removes it
    let mut wheel = TimeoutWheel::new().with_expiry_timeout(1);
    wheel.insert(0, 4998);
    assert_eq!(wheel.pop_expired(5000), Some(0));
    assert_eq!(wheel.remove(0), None);

    // an entry inside the timeout stays
    let mut wheel = TimeoutWheel::new().with_expiry_timeout(1000);
    wheel.insert(3, 4998);
    assert_eq!(wheel.pop_expired(5000), None);
    assert_eq!(wheel.remove(3), Some(3));
}

#[test]
fn service_tombstone_sweep() {
    // with a timeout of a millisecond, a removed key whose tombstone
    // lies in the past is physically dropped from the store
    let mut service: RemoveService<u64> =
        RemoveService::new(Store::new()).with_tombstone_timeout(1);
    service.insert(1, 10, 4000);
    service.insert(2, 20, 4000);
    service.remove(1, 4500);
    assert_eq!(service.read().len(), 2);
    service.clear_expired_tombstones(5000);
    assert_eq!(service.read().len(), 1);
    assert_eq!(service.get(2), Some(&20));
    assert!(service.read().get(1).is_none());
}

#[test]
fn service_bulk_operations() {
    let mut service: RemoveService<u64> = RemoveService::new(Store::new());
    service.insert_bulk(vec![(1, 10, 100), (2, 20, 100), (3, 30, 100)]);
    assert_eq!(service.read().len(), 3);
    assert_eq!(service.get(2), Some(&20));
    service.remove_bulk(vec![(2, 200), (3, 200)]);
    assert_eq!(service.read().len(), 3);
    assert_eq!(service.get(2), None);
    assert_eq!(service.get(1), Some(&10));
    // a bulk insert of an existing key replaces its slot
    service.insert_bulk(vec![(2, 21, 300)]);
    assert_eq!(service.get(2), Some(&21));
}

#[test]
fn reconcile_service_basics() {
    let mut service: ReconcileService<HVec<u64>> = ReconcileService::new(HVec::new());
    assert_eq!(service.insert(4, 44), None);
    assert_eq!(service.insert(4, 45), Some(44));
    assert_eq!(service.read().get(4), Some(&45));
    assert_eq!(service.read().len(), 1);
    assert_eq!(service.remove(4), Some(45));
    assert_eq!(service.read().len(), 0);
}

#[test]
fn peer_directory_retention() {
    let peers: Vec<(u128, u64)> = vec![(1, 1000), (2, 50_000), (3, 61_001)];
    let kept = retain_active_peers(&peers, 61_000, 60_000);
    assert_eq!(kept, vec![(2, 50_000), (3, 61_001)]);
}
