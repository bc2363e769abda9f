use bus_phantom::merger::KeyedStreamMerger;
use bus_phantom::overlap::overlap;
use bus_phantom::records::Key;
use bus_phantom::records::KeyedGroup;
use bus_phantom::records::NamedStream;
use bus_phantom::records::Record;

fn rec(barcode: u64, umi: u64, ec: u32, count: u32) -> Record {
    Record { barcode, umi, equivalence_class: ec, read_count: count }
}

fn group(barcode: u64, umi: u64, records: Vec<Record>) -> KeyedGroup {
    KeyedGroup { key: Key { barcode, umi }, records }
}

fn stream(name: &str, groups: Vec<KeyedGroup>) -> NamedStream {
    NamedStream { name: name.to_string(), groups }
}

#[test]
fn merge_pairs_streams_by_key() {
    // Sample 0 holds keys 1 and 2, sample 1 holds keys 2 and 3: the merge
    // must yield 1 -> {0}, 2 -> {0, 1}, 3 -> {1}, in that order.
    let s0 = stream(
        "a",
        vec![group(1, 0, vec![rec(1, 10, 0, 1)]), group(2, 0, vec![rec(2, 20, 0, 2)])],
    );
    let s1 = stream(
        "b",
        vec![group(2, 0, vec![rec(2, 21, 0, 3)]), group(3, 0, vec![rec(3, 30, 0, 4)])],
    );
    let mut merger = KeyedStreamMerger::new(vec![s0, s1]);

    let e1 = merger.next().unwrap();
    assert_eq!(e1.key.barcode, 1);
    assert_eq!(e1.entries.len(), 1);
    assert_eq!(e1.entries[0].sample, 0);
    assert_eq!(e1.entries[0].records, vec![rec(1, 10, 0, 1)]);

    let e2 = merger.next().unwrap();
    assert_eq!(e2.key.barcode, 2);
    assert_eq!(e2.entries.len(), 2);
    assert_eq!(e2.entries[0].sample, 0);
    assert_eq!(e2.entries[1].sample, 1);
    assert_eq!(e2.entries[0].records, vec![rec(2, 20, 0, 2)]);
    assert_eq!(e2.entries[1].records, vec![rec(2, 21, 0, 3)]);

    let e3 = merger.next().unwrap();
    assert_eq!(e3.key.barcode, 3);
    assert_eq!(e3.entries.len(), 1);
    assert_eq!(e3.entries[0].sample, 1);

    assert!(merger.next().is_none());
    assert!(merger.next().is_none());
}

#[test]
fn merge_orders_keys_by_barcode_then_umi() {
    let s0 = stream(
        "a",
        vec![group(1, 2, vec![rec(1, 2, 0, 1)]), group(2, 1, vec![rec(2, 1, 0, 1)])],
    );
    let s1 = stream("b", vec![group(1, 3, vec![rec(1, 3, 0, 1)])]);
    let mut merger = KeyedStreamMerger::new(vec![s0, s1]);
    let ks: Vec<(u64, u64)> = std::iter::from_fn(|| merger.next())
        .map(|e| (e.key.barcode, e.key.umi))
        .collect();
    assert_eq!(ks, vec![(1, 2), (1, 3), (2, 1)]);
}

#[test]
fn overlap_counts_subsets() {
    let s0 = stream(
        "a",
        vec![group(1, 0, vec![rec(1, 10, 0, 1)]), group(2, 0, vec![rec(2, 20, 0, 2)])],
    );
    let s1 = stream(
        "b",
        vec![group(2, 0, vec![rec(2, 21, 0, 3)]), group(3, 0, vec![rec(3, 30, 0, 4)])],
    );
    let counts = overlap(vec![s0, s1]);
    assert_eq!(counts.get(&vec![0]), 1);
    assert_eq!(counts.get(&vec![0, 1]), 1);
    assert_eq!(counts.get(&vec![1]), 1);
    assert_eq!(counts.get(&vec![]), 0);
}

#[test]
fn overlap_rerun_is_identical() {
    // Re-running on the same inputs in the same order yields identical
    // histograms: no hidden iteration-order nondeterminism.
    let make = || {
        vec![
            stream(
                "a",
                vec![group(1, 0, vec![rec(1, 0, 0, 1)]), group(5, 0, vec![rec(5, 0, 0, 1)])],
            ),
            stream("b", vec![group(5, 0, vec![rec(5, 0, 0, 2)])]),
        ]
    };
    let first = overlap(make());
    let second = overlap(make());
    assert_eq!(first.num_keys(), second.num_keys());
    assert_eq!(first.get(&vec![0]), second.get(&vec![0]));
    assert_eq!(first.get(&vec![1]), second.get(&vec![1]));
    assert_eq!(first.get(&vec![0, 1]), second.get(&vec![0, 1]));
}

#[test]
fn overlap_single_sample_attributes_all_keys_to_it() {
    let s0 = stream(
        "only",
        vec![
            group(1, 0, vec![rec(1, 0, 0, 1)]),
            group(2, 0, vec![rec(2, 0, 0, 1)]),
            group(9, 0, vec![rec(9, 0, 0, 1)]),
        ],
    );
    let counts = overlap(vec![s0]);
    assert_eq!(counts.get(&vec![0]), 3);
    assert_eq!(counts.num_keys(), 1);
}
