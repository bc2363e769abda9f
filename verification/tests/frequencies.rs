use bus_phantom::frequency::barcode_frequency_histograms;
use bus_phantom::frequency::ec_read_histogram;
use bus_phantom::frequency::per_barcode_read_histograms;
use bus_phantom::frequency::reads_per_ec;
use bus_phantom::frequency::reads_per_group_histogram;
use bus_phantom::records::Key;
use bus_phantom::records::KeyedGroup;
use bus_phantom::records::Record;

fn rec(barcode: u64, umi: u64, ec: u32, count: u32) -> Record {
    Record { barcode, umi, equivalence_class: ec, read_count: count }
}

fn group(barcode: u64, umi: u64, records: Vec<Record>) -> KeyedGroup {
    KeyedGroup { key: Key { barcode, umi }, records }
}

#[test]
fn reads_per_group_counts_totals() {
    let groups = vec![
        group(1, 1, vec![rec(1, 1, 0, 2), rec(1, 1, 1, 3)]),  // 5 reads
        group(1, 2, vec![rec(1, 2, 0, 5)]),  // 5 reads
        group(2, 1, vec![rec(2, 1, 0, 1)]),  // 1 read
    ];
    let h = reads_per_group_histogram(&groups);
    assert_eq!(h.get(5), 2);
    assert_eq!(h.get(1), 1);
    assert_eq!(h.get(3), 0);
    // Lossless re-encoding: 2 * 5 + 1 * 1 == 5 + 5 + 1.
    let total: u128 = h
        .entries()
        .iter()
        .map(|(value, count)| *value as u128 * *count as u128)
        .sum();
    assert_eq!(total, 11);
}

#[test]
fn barcode_frequencies_count_units_and_reads() {
    let groups = vec![
        group(1, 0, vec![rec(1, 1, 0, 2), rec(1, 2, 0, 3)]),  // 2 UMIs, 5 reads
        group(2, 0, vec![rec(2, 1, 0, 4)]),  // 1 UMI, 4 reads
    ];
    let (umi_hist, read_hist) = barcode_frequency_histograms(&groups);
    assert_eq!(umi_hist.get(2), 1);
    assert_eq!(umi_hist.get(1), 1);
    assert_eq!(read_hist.get(5), 1);
    assert_eq!(read_hist.get(4), 1);
    assert_eq!(read_hist.get(9), 0);
}

#[test]
fn per_barcode_histograms_follow_stream_order() {
    let groups = vec![
        group(7, 0, vec![rec(7, 1, 0, 2), rec(7, 2, 0, 2), rec(7, 3, 0, 5)]),
        group(9, 0, vec![rec(9, 1, 0, 1)]),
    ];
    let rows = per_barcode_read_histograms(&groups);
    assert_eq!(rows.len(), 2);
    assert_eq!(rows[0].0, 7);
    assert_eq!(rows[0].1.get(2), 2);
    assert_eq!(rows[0].1.get(5), 1);
    assert_eq!(rows[1].0, 9);
    assert_eq!(rows[1].1.get(1), 1);
}

#[test]
fn reads_per_ec_sums_read_counts() {
    let groups = vec![
        group(1, 1, vec![rec(1, 1, 0, 2), rec(1, 1, 4, 3)]),
        group(1, 2, vec![rec(1, 2, 0, 5)]),
    ];
    let counter = reads_per_ec(&groups);
    assert_eq!(counter.get(0), 7);
    assert_eq!(counter.get(4), 3);
    assert_eq!(counter.get(1), 0);
}

#[test]
fn ec_read_histogram_skips_multi_record_keys() {
    // A key holding two records carries two equivalence classes and is
    // skipped as inconsistent, not bucketed at its summed reads; keys with
    // a single record are bucketed at that record's count.
    let groups = vec![
        group(1, 1, vec![rec(1, 1, 0, 1), rec(1, 1, 1, 1)]),  // skipped
        group(1, 2, vec![rec(1, 2, 0, 2)]),
        group(2, 1, vec![rec(2, 1, 3, 2)]),
    ];
    let h = ec_read_histogram(&groups);
    assert_eq!(h.get(2), 2);
    assert_eq!(h.get(1), 0);
    assert_eq!(h.num_buckets(), 1);
}

#[test]
fn ec_read_histogram_of_only_multi_record_keys_is_empty() {
    let groups = vec![group(1, 1, vec![rec(1, 1, 0, 1), rec(1, 1, 1, 1)])];
    let h = ec_read_histogram(&groups);
    assert_eq!(h.num_buckets(), 0);
    assert_eq!(h.get(2), 0);
}
