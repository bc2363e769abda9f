use bus_phantom::clones::clone_sizes;
use bus_phantom::fingerprint::fingerprint;
use bus_phantom::hopping::filter_hopping;
use bus_phantom::records::Key;
use bus_phantom::records::KeyedGroup;
use bus_phantom::records::NamedStream;
use bus_phantom::records::Record;

fn rec(barcode: u64, umi: u64, ec: u32, count: u32) -> Record {
    Record { barcode, umi, equivalence_class: ec, read_count: count }
}

fn group(barcode: u64, umi: u64, records: Vec<Record>) -> KeyedGroup {
    KeyedGroup { key: Key { barcode, umi }, records }
}

fn stream(name: &str, groups: Vec<KeyedGroup>) -> NamedStream {
    NamedStream { name: name.to_string(), groups }
}

#[test]
fn fingerprint_counts_abundance_vectors() {
    // Key 2 is present in both samples: UMI fingerprint [1, 1], reads
    // [2, 3]. Keys 1 and 3 are single-sample.
    let s0 = stream(
        "a",
        vec![group(1, 0, vec![rec(1, 10, 0, 1)]), group(2, 0, vec![rec(2, 20, 0, 2)])],
    );
    let s1 = stream(
        "b",
        vec![group(2, 0, vec![rec(2, 21, 0, 3)]), group(3, 0, vec![rec(3, 30, 0, 4)])],
    );
    let summary = fingerprint(vec![s0, s1]);
    assert_eq!(summary.sample_names, vec!["a".to_string(), "b".to_string()]);
    assert_eq!(summary.umi_histogram.get(&vec![1, 0]), 1);
    assert_eq!(summary.umi_histogram.get(&vec![1, 1]), 1);
    assert_eq!(summary.umi_histogram.get(&vec![0, 1]), 1);
    assert_eq!(summary.read_histogram.get(&vec![1, 0]), 1);
    assert_eq!(summary.read_histogram.get(&vec![2, 3]), 1);
    assert_eq!(summary.read_histogram.get(&vec![0, 4]), 1);
}

#[test]
fn fingerprint_single_active_sample_zeroes_other_slots() {
    // All data lives in the first sample; every fingerprint vector must be
    // zero in every slot but the first.
    let s0 = stream(
        "full",
        vec![group(1, 0, vec![rec(1, 0, 0, 5)]), group(2, 0, vec![rec(2, 0, 0, 7)])],
    );
    let s1 = stream("empty", vec![]);
    let summary = fingerprint(vec![s0, s1]);
    for (key, _count) in summary.umi_histogram.entries() {
        assert_eq!(key[1], 0);
    }
    for (key, _count) in summary.read_histogram.entries() {
        assert_eq!(key[1], 0);
    }
    assert_eq!(summary.read_histogram.get(&vec![5, 0]), 1);
    assert_eq!(summary.read_histogram.get(&vec![7, 0]), 1);
}

#[test]
fn clone_sizes_reports_rows_over_threshold() {
    // Sample a has 7 UMI groups at barcode 42, sample b has 1; with
    // min_clonesize 5 exactly one row {42, [7, 1]} is reported, and
    // barcodes below the threshold in every sample produce no row.
    let umis_a: Vec<Record> = (0..7).map(|u| rec(42, u, 0, 1)).collect();
    let s0 = stream(
        "a",
        vec![group(7, 0, vec![rec(7, 0, 0, 1)]), group(42, 0, umis_a)],
    );
    let s1 = stream(
        "b",
        vec![group(7, 0, vec![rec(7, 1, 0, 1)]), group(42, 0, vec![rec(42, 9, 0, 1)])],
    );
    let rows = clone_sizes(vec![s0, s1], 5);
    assert_eq!(rows.len(), 1);
    assert_eq!(rows[0].barcode, 42);
    assert_eq!(rows[0].sizes, vec![7, 1]);
}

#[test]
fn clone_sizes_threshold_is_strict() {
    let umis: Vec<Record> = (0..5).map(|u| rec(1, u, 0, 1)).collect();
    let s0 = stream("a", vec![group(1, 0, umis)]);
    let rows = clone_sizes(vec![s0], 5);
    assert!(rows.is_empty());
}

#[test]
fn filter_hopping_shared_key_goes_to_removed() {
    // Three samples; the (cb=1, umi=1) group exists in a (3 reads) and b
    // (2 reads), c is empty: both records land in the removed partitions,
    // nothing is kept, and c sees nothing at all.
    let s0 = stream("a", vec![group(1, 1, vec![rec(1, 1, 0, 3)])]);
    let s1 = stream("b", vec![group(1, 1, vec![rec(1, 1, 0, 2)])]);
    let s2 = stream("c", vec![]);
    let parts = filter_hopping(vec![s0, s1, s2]);
    assert_eq!(parts.kept[0], vec![]);
    assert_eq!(parts.kept[1], vec![]);
    assert_eq!(parts.kept[2], vec![]);
    assert_eq!(parts.removed[0], vec![rec(1, 1, 0, 3)]);
    assert_eq!(parts.removed[1], vec![rec(1, 1, 0, 2)]);
    assert_eq!(parts.removed[2], vec![]);
}

#[test]
fn filter_hopping_single_sample_removes_nothing() {
    let s0 = stream(
        "only",
        vec![
            group(1, 1, vec![rec(1, 1, 0, 3)]),
            group(1, 2, vec![rec(1, 2, 0, 1), rec(1, 2, 1, 2)]),
        ],
    );
    let parts = filter_hopping(vec![s0]);
    assert_eq!(parts.removed[0], vec![]);
    assert_eq!(
        parts.kept[0],
        vec![rec(1, 1, 0, 3), rec(1, 2, 0, 1), rec(1, 2, 1, 2)]
    );
}

#[test]
fn filter_hopping_sole_samples_keep_their_groups() {
    let s0 = stream("a", vec![group(1, 1, vec![rec(1, 1, 0, 3)])]);
    let s1 = stream("b", vec![group(2, 1, vec![rec(2, 1, 0, 2)])]);
    let parts = filter_hopping(vec![s0, s1]);
    assert_eq!(parts.kept[0], vec![rec(1, 1, 0, 3)]);
    assert_eq!(parts.kept[1], vec![rec(2, 1, 0, 2)]);
    assert_eq!(parts.removed[0], vec![]);
    assert_eq!(parts.removed[1], vec![]);
}

#[test]
fn fingerprint_single_sample_keys_are_positive_singletons() {
    // One sample, every record carrying at least one read: every key of
    // both histograms is a length-1 vector with a strictly positive entry.
    let s0 = stream(
        "only",
        vec![
            group(1, 0, vec![rec(1, 10, 0, 1)]),
            group(2, 0, vec![rec(2, 20, 0, 2), rec(2, 21, 0, 3)]),
        ],
    );
    let summary = fingerprint(vec![s0]);
    for (key, _count) in summary.umi_histogram.entries() {
        assert_eq!(key.len(), 1);
        assert!(key[0] >= 1);
    }
    for (key, _count) in summary.read_histogram.entries() {
        assert_eq!(key.len(), 1);
        assert!(key[0] >= 1);
    }
}
