use rand::rngs::StdRng;
use rand::seq::SliceRandom;
use rand::{Rng, SeedableRng};

use reconcile::diff::{DiffRange, Diffable, HashSegment};
use reconcile::hvec::HVec;
use reconcile::range_compare::{full_range, KeyBound, KeyRange};

fn diff(local: &HVec<String>, remote: &HVec<String>) -> (Vec<DiffRange>, Vec<DiffRange>) {
    let mut local_diff_ranges: Vec<DiffRange> = Vec::new();
    let mut remote_diff_ranges: Vec<DiffRange> = Vec::new();
    let mut local_segments: Vec<HashSegment> = local.start_diff();
    let mut remote_segments: Vec<HashSegment> = Vec::new();
    while !local_segments.is_empty() {
        remote.diff_round(
            std::mem::take(&mut local_segments),
            &mut remote_segments,
            &mut remote_diff_ranges,
        );
        local.diff_round(
            std::mem::take(&mut remote_segments),
            &mut local_segments,
            &mut local_diff_ranges,
        );
    }
    (local_diff_ranges, remote_diff_ranges)
}

fn build(items: &[(u64, &str)]) -> HVec<String> {
    let mut vec: HVec<String> = HVec::new();
    for (k, v) in items {
        vec.insert(*k, String::from(*v));
    }
    vec
}

#[test]
fn hvec_test_simple() {
    // empty
    let mut vec: HVec<String> = HVec::new();
    assert_eq!(vec.hash(&full_range()), 0);

    // 1 value
    vec.insert(50, String::from("Hello"));
    let hash1 = vec.hash(&full_range());
    assert_ne!(hash1, 0);

    // 2 values
    vec.insert(25, String::from("World!"));
    let hash2 = vec.hash(&full_range());
    assert_ne!(hash2, 0);
    assert_ne!(hash2, hash1);

    // 3 values
    vec.insert(75, String::from("Everyone!"));
    let hash3 = vec.hash(&full_range());
    assert_ne!(hash3, 0);
    assert_ne!(hash3, hash1);
    assert_ne!(hash3, hash2);

    // back to 2 values
    vec.remove(75);
    let hash4 = vec.hash(&full_range());
    assert_eq!(hash4, hash2);
}

#[test]
fn hvec_test_compare() {
    let vec1 = build(&[(25, "World!"), (50, "Hello"), (75, "Everyone!")]);
    let vec2 = build(&[(75, "Everyone!"), (50, "Hello"), (25, "World!")]);
    let vec3 = build(&[(75, "Everyone!"), (25, "World!"), (50, "Hello")]);
    let vec4 = build(&[(75, "Everyone!"), (25, "World!"), (40, "Hello")]);
    let vec5 = build(&[(25, "World!"), (50, "Hello"), (75, "Goodbye!")]);

    assert_eq!(vec1.hash(&full_range()), vec1.hash(&full_range()));
    assert_eq!(vec1.hash(&full_range()), vec2.hash(&full_range()));
    assert_eq!(vec1.hash(&full_range()), vec3.hash(&full_range()));
    assert_ne!(vec1.hash(&full_range()), vec4.hash(&full_range()));
    assert_ne!(vec1.hash(&full_range()), vec5.hash(&full_range()));

    assert_eq!(vec1, vec1);
    assert_eq!(vec1, vec2);
    assert_eq!(vec1, vec3);
    assert_ne!(vec1, vec4);
    assert_ne!(vec1, vec5);

    assert_eq!(diff(&vec1, &vec1), (vec![], vec![]));
    assert_eq!(diff(&vec1, &vec2), (vec![], vec![]));
    assert_eq!(diff(&vec1, &vec3), (vec![], vec![]));
    assert_eq!(
        diff(&vec1, &vec4),
        (
            vec![KeyRange { start: KeyBound::Included(40), end: KeyBound::Excluded(75) }],
            vec![KeyRange { start: KeyBound::Included(40), end: KeyBound::Excluded(75) }],
        ),
    );
    assert_eq!(
        diff(&vec1, &vec5),
        (
            vec![KeyRange { start: KeyBound::Included(75), end: KeyBound::Unbounded }],
            vec![KeyRange { start: KeyBound::Included(75), end: KeyBound::Unbounded }],
        ),
    );

    assert_eq!(vec1.fast_diff(&vec1), Vec::<u64>::new());
    assert_eq!(vec1.fast_diff(&vec2), Vec::<u64>::new());
    assert_eq!(vec1.fast_diff(&vec3), Vec::<u64>::new());
    assert_eq!(vec1.fast_diff(&vec4), vec![40, 50]);
    assert_eq!(vec1.fast_diff(&vec5), vec![75]);
}

#[test]
fn hvec_big_test() {
    let mut rng = StdRng::seed_from_u64(42);
    let mut vec: HVec<u64> = HVec::new();
    let mut key_values: Vec<(u64, u64)> = Vec::new();

    let mut expected_hash: u64 = 0;

    // add some
    for _ in 0..1000 {
        let key: u64 = rng.gen();
        let value: u64 = rng.gen();
        vec.insert(key, value);
        expected_hash ^= reconcile::hash::hash(key, &value);
        assert_eq!(vec.hash(&full_range()), expected_hash);
        key_values.push((key, value));
    }

    // check for partial ranges
    let mid = u64::MAX / 2;
    let low_half = KeyRange { start: KeyBound::Unbounded, end: KeyBound::Excluded(mid) };
    let high_half = KeyRange { start: KeyBound::Included(mid), end: KeyBound::Unbounded };
    assert_ne!(vec.hash(&high_half), vec.hash(&full_range()));
    assert_ne!(vec.hash(&low_half), vec.hash(&full_range()));
    assert_eq!(vec.hash(&low_half) ^ vec.hash(&high_half), vec.hash(&full_range()));

    // check key_at() with first and last indexes
    assert_eq!(
        key_values.iter().map(|(key, _)| *key).min(),
        Some(vec.key_at(0))
    );
    assert_eq!(
        key_values.iter().map(|(key, _)| *key).max(),
        Some(vec.key_at(vec.len() - 1))
    );

    // check for at/position consistency
    let key = key_values[0].0;
    let index = vec.position(key).unwrap();
    assert_ne!(index, 0);
    assert_eq!(vec.key_at(index), key);

    // test insertion_position
    assert_eq!(vec.insertion_position(key), vec.position(key).unwrap());
    assert_eq!(vec.insertion_position(0), 0);
    assert_eq!(vec.insertion_position(u64::MAX), vec.len());

    let items: Vec<(u64, u64)> = vec.iter().into_iter().map(|(k, v)| (k, *v)).collect();
    assert_eq!(items.len(), key_values.len());
    key_values.sort();
    assert_eq!(items, key_values);

    // remove some
    key_values.shuffle(&mut rng);
    for _ in 0..1000 {
        let (key, value) = key_values.pop().unwrap();
        let value2 = vec.remove(key);
        assert_eq!(value2, Some(value));
        expected_hash ^= reconcile::hash::hash(key, &value);
        assert_eq!(vec.hash(&full_range()), expected_hash);
    }
}

#[test]
fn hvec_get_and_replace() {
    let mut vec: HVec<String> = HVec::new();
    assert_eq!(vec.len(), 0);
    assert!(vec.is_empty());
    assert!(vec.get(7).is_none());
    assert_eq!(vec.insert(7, String::from("a")), None);
    assert_eq!(vec.get(7), Some(&String::from("a")));
    let prior = vec.insert(7, String::from("b"));
    assert_eq!(prior, Some(String::from("a")));
    assert_eq!(vec.get(7), Some(&String::from("b")));
    assert_eq!(vec.len(), 1);
    assert_eq!(vec.remove(9), None);
    assert_eq!(vec.remove(7), Some(String::from("b")));
    assert!(vec.is_empty());
    assert_eq!(vec.hash(&full_range()), 0);
}

#[test]
fn hvec_get_range_bounds() {
    let vec = build(&[(25, "World!"), (50, "Hello"), (75, "Everyone!")]);
    let r = KeyRange { start: KeyBound::Included(25), end: KeyBound::Excluded(75) };
    let part = vec.get_range(&r);
    let keys: Vec<u64> = part.iter().map(|(k, _)| *k).collect();
    assert_eq!(keys, vec![25, 50]);
    let r = KeyRange { start: KeyBound::Excluded(25), end: KeyBound::Included(75) };
    let part = vec.get_range(&r);
    let keys: Vec<u64> = part.iter().map(|(k, _)| *k).collect();
    assert_eq!(keys, vec![50, 75]);
    // an inverted range holds nothing
    let r = KeyRange { start: KeyBound::Included(75), end: KeyBound::Excluded(25) };
    assert_eq!(vec.hash(&r), 0);
    assert!(vec.get_range(&r).is_empty());
}
