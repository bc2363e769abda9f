use bus_phantom::histogram::CountHistogram;
use bus_phantom::vec_histogram::VecKeyHistogram;
use bus_phantom::canonical::canonical_ids;

#[test]
fn count_histogram_counts_and_buckets() {
    let mut h = CountHistogram::new();
    assert_eq!(h.get(3), 0);
    h.add_counts(3, 1);
    h.add_counts(3, 1);
    h.add_counts(5, 1);
    assert_eq!(h.get(3), 2);
    assert_eq!(h.get(5), 1);
    assert_eq!(h.get(4), 0);
    assert_eq!(h.num_buckets(), 2);
}

#[test]
fn count_histogram_weighted_total_is_lossless() {
    // Raw observations 3, 3, 5: the frequency-of-frequency form must keep
    // the same total, sum(value * count) = 11.
    let mut h = CountHistogram::new();
    h.add_counts(3, 1);
    h.add_counts(3, 1);
    h.add_counts(5, 1);
    let total: u128 = h
        .entries()
        .iter()
        .map(|(value, count)| *value as u128 * *count as u128)
        .sum();
    assert_eq!(total, 11);
}

#[test]
fn count_histogram_add_counts_inserts_fresh_bucket() {
    let mut h = CountHistogram::new();
    h.add_counts(7, 0);
    assert_eq!(h.get(7), 0);
    assert_eq!(h.num_buckets(), 1);
    h.add_counts(7, 4);
    assert_eq!(h.get(7), 4);
    assert_eq!(h.num_buckets(), 1);
}

#[test]
fn count_histogram_duplicate_matches() {
    let mut h = CountHistogram::new();
    h.add_counts(2, 9);
    let d = h.duplicate();
    assert_eq!(d.get(2), 9);
    assert_eq!(d.num_buckets(), 1);
}

#[test]
fn vec_key_histogram_counts_by_exact_vector() {
    let mut h = VecKeyHistogram::new();
    h.add_one(vec![0, 1]);
    h.add_one(vec![0, 1]);
    h.add_one(vec![1]);
    assert_eq!(h.get(&vec![0, 1]), 2);
    assert_eq!(h.get(&vec![1]), 1);
    assert_eq!(h.get(&vec![0]), 0);
    assert_eq!(h.num_keys(), 2);
}

#[test]
fn canonical_ids_sorts_and_dedups() {
    let key = canonical_ids(&vec![5, 2, 5, 9, 2]);
    assert_eq!(key, vec![2, 5, 9]);
}

#[test]
fn canonical_ids_same_set_same_key() {
    let a = canonical_ids(&vec![3, 1, 4]);
    let b = canonical_ids(&vec![4, 4, 1, 3]);
    assert_eq!(a, b);
}
