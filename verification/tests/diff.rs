use rand::rngs::StdRng;
use rand::{Rng, SeedableRng};

use reconcile::diff::{DiffRange, Diffable, HashSegment};
use reconcile::hash::Hashable;
use reconcile::hvec::HVec;
use reconcile::range_compare::full_range;

fn diff_rounds<V: Hashable>(
    local: &HVec<V>,
    remote: &HVec<V>,
) -> (Vec<DiffRange>, Vec<DiffRange>, usize) {
    let mut local_diff_ranges: Vec<DiffRange> = Vec::new();
    let mut remote_diff_ranges: Vec<DiffRange> = Vec::new();
    let mut local_segments: Vec<HashSegment> = local.start_diff();
    let mut remote_segments: Vec<HashSegment> = Vec::new();
    let mut rounds: usize = 0;
    while !local_segments.is_empty() {
        rounds += 1;
        remote.diff_round(
            std::mem::take(&mut local_segments),
            &mut remote_segments,
            &mut remote_diff_ranges,
        );
        local.diff_round(
            std::mem::take(&mut remote_segments),
            &mut local_segments,
            &mut local_diff_ranges,
        );
        assert!(rounds < 64);
    }
    (local_diff_ranges, remote_diff_ranges, rounds)
}

fn reconcile_once<V: Hashable + Clone>(local: &mut HVec<V>, remote: &mut HVec<V>) {
    let (local_ranges, remote_ranges, _) = diff_rounds(local, remote);
    let local_updates: Vec<(u64, V)> = local_ranges
        .iter()
        .flat_map(|r| local.get_range(r))
        .map(|(k, v)| (k, v.clone()))
        .collect();
    let remote_updates: Vec<(u64, V)> = remote_ranges
        .iter()
        .flat_map(|r| remote.get_range(r))
        .map(|(k, v)| (k, v.clone()))
        .collect();
    for (k, v) in local_updates {
        remote.insert(k, v);
    }
    for (k, v) in remote_updates {
        local.insert(k, v);
    }
}

fn random_store(rng: &mut StdRng, n: usize) -> HVec<u64> {
    let mut store: HVec<u64> = HVec::new();
    for _ in 0..n {
        store.insert(rng.gen(), rng.gen());
    }
    store
}

#[test]
fn diff_empty_containers() {
    // two empty stores settle in a single round with nothing to send
    let a: HVec<u64> = HVec::new();
    let b: HVec<u64> = HVec::new();
    assert_eq!(a.hash(&full_range()), 0);
    assert_eq!(a.len(), 0);
    let (la, lb, rounds) = diff_rounds(&a, &b);
    assert_eq!(la, vec![]);
    assert_eq!(lb, vec![]);
    assert_eq!(rounds, 1);
}

#[test]
fn diff_identical_large() {
    // identical stores settle in a single round with nothing to send
    let mut rng = StdRng::seed_from_u64(42);
    let mut a: HVec<u64> = HVec::new();
    let mut b: HVec<u64> = HVec::new();
    for _ in 0..1000 {
        let k: u64 = rng.gen();
        let v: u64 = rng.gen();
        a.insert(k, v);
        b.insert(k, v);
    }
    let (la, lb, rounds) = diff_rounds(&a, &b);
    assert_eq!(la, vec![]);
    assert_eq!(lb, vec![]);
    assert_eq!(rounds, 1);
}

#[test]
fn diff_single_divergence() {
    // one extra entry on one side is narrowed down to one range for
    // the richer side, within a logarithmic number of rounds
    let mut rng = StdRng::seed_from_u64(42);
    let a = random_store(&mut rng, 1000);
    let mut b = HVec::new();
    for (k, v) in a.iter() {
        b.insert(k, *v);
    }
    b.insert(424242, 7);
    let (a_ranges, b_ranges, rounds) = diff_rounds(&a, &b);
    assert_eq!(a_ranges, vec![]);
    assert_eq!(b_ranges.len(), 1);
    assert!(rounds <= 5);
    let mut a = a;
    reconcile_once(&mut a, &mut b);
    assert_eq!(a.hash(&full_range()), b.hash(&full_range()));
    assert_eq!(a.get(424242), Some(&7));
}

#[test]
fn diff_is_symmetric() {
    // swapping the two roles leaves both sides with the same final
    // contents
    let mut rng = StdRng::seed_from_u64(42);
    let a = random_store(&mut rng, 300);
    let b = random_store(&mut rng, 300);

    let mut a1 = HVec::new();
    for (k, v) in a.iter() {
        a1.insert(k, *v);
    }
    let mut b1 = HVec::new();
    for (k, v) in b.iter() {
        b1.insert(k, *v);
    }
    let mut a2 = a;
    let mut b2 = b;

    reconcile_once(&mut a1, &mut b1);
    reconcile_once(&mut b2, &mut a2);

    assert_eq!(a1.hash(&full_range()), b1.hash(&full_range()));
    assert_eq!(a2.hash(&full_range()), b2.hash(&full_range()));
    assert_eq!(a1.hash(&full_range()), a2.hash(&full_range()));
    assert_eq!(a1, a2);
    assert_eq!(b1, b2);
}

#[test]
fn diff_reconcile_materializes() {
    // the single-key mismatch narrows to one range on each side, and
    // materialising those ranges leaves both stores with the union
    let mut t1: HVec<String> = HVec::new();
    for (k, v) in [(25, "World!"), (50, "Hello"), (75, "Everyone!")] {
        t1.insert(k, String::from(v));
    }
    let mut t4: HVec<String> = HVec::new();
    for (k, v) in [(75, "Everyone!"), (25, "World!"), (40, "Hello")] {
        t4.insert(k, String::from(v));
    }
    reconcile_once(&mut t1, &mut t4);
    assert_eq!(t1, t4);
    let items: Vec<(u64, String)> =
        t1.iter().into_iter().map(|(k, v)| (k, v.clone())).collect();
    assert_eq!(
        items,
        vec![
            (25, String::from("World!")),
            (40, String::from("Hello")),
            (50, String::from("Hello")),
            (75, String::from("Everyone!")),
        ]
    );
}
