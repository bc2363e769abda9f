use std::collections::HashMap;
use std::collections::HashSet;

use bustools::consistent_genes::Ec2GeneMapper;
use bustools::consistent_genes::Genename;
use bustools::consistent_genes::EC;
use bustools::consistent_transcripts::Ec2TranscriptMapper;
use bustools::consistent_transcripts::Transcriptname;

use bus_phantom::assignment::assignment_histograms_gene;
use bus_phantom::assignment::gene_collapsed_read_histogram;
use bus_phantom::assignment::assignment_histograms_transcript;
use bus_phantom::consistency::consistency_classify;
use bus_phantom::records::Key;
use bus_phantom::records::KeyedGroup;
use bus_phantom::records::Record;
use bus_phantom::fingerprint::fingerprint;
use bus_phantom::records::NamedStream;
use bus_phantom::resolver::ResolvedClass;
use bus_phantom::resolver::resolve_gene_groups;
use bus_phantom::vec_histogram::VecKeyHistogram;

fn rec(barcode: u64, umi: u64, ec: u32, count: u32) -> Record {
    Record { barcode, umi, equivalence_class: ec, read_count: count }
}

fn group(barcode: u64, umi: u64, records: Vec<Record>) -> KeyedGroup {
    KeyedGroup { key: Key { barcode, umi }, records }
}

/// Ten genes g0..g9; gene ids follow the sorted name order, so gene "g7"
/// gets id 7. EC 0 resolves to {g7}; EC 1 to {g2, g3}; EC 2 to {g5}; EC 3
/// to {g2}.
fn gene_mapper() -> Ec2GeneMapper {
    let mut ec2gene: HashMap<EC, HashSet<Genename>> = HashMap::new();
    let names = |xs: &[&str]| -> HashSet<Genename> {
        xs.iter().map(|n| Genename(n.to_string())).collect()
    };
    ec2gene.insert(EC(0), names(&["g7"]));
    ec2gene.insert(EC(1), names(&["g2", "g3"]));
    ec2gene.insert(EC(2), names(&["g5"]));
    ec2gene.insert(EC(3), names(&["g2"]));
    for (i, n) in ["g0", "g1", "g4", "g6", "g8", "g9"].iter().enumerate() {
        ec2gene.insert(EC(10 + i as u32), names(&[n]));
    }
    Ec2GeneMapper::new(ec2gene)
}

#[test]
fn single_assignment_fills_gene_bucket() {
    // A group resolving to gene 7 with total reads 12 puts one count in
    // gene 7's bucket at value 12; a second identical group raises it to 2.
    let mapper = gene_mapper();
    let groups = vec![
        group(1, 1, vec![rec(1, 1, 0, 5), rec(1, 1, 0, 7)]),
        group(1, 2, vec![rec(1, 2, 0, 5), rec(1, 2, 0, 7)]),
    ];
    let report = assignment_histograms_gene(&groups, &mapper);
    assert_eq!(report.per_id.get(7, 12), 2);
    assert_eq!(report.per_id.get(7, 5), 0);
    assert_eq!(report.per_id.get(2, 12), 0);
    assert_eq!(report.multimapped.get(12), 0);
    assert_eq!(report.inconsistent.get(12), 0);
}

#[test]
fn gene_names_follow_id_order() {
    let mapper = gene_mapper();
    let groups = vec![group(1, 1, vec![rec(1, 1, 0, 12)])];
    let report = assignment_histograms_gene(&groups, &mapper);
    assert_eq!(report.names.len(), 10);
    assert_eq!(report.names[7], "g7".to_string());
    assert_eq!(report.labeled.len(), 1);
    assert_eq!(report.labeled[0].0, "g7".to_string());
    assert_eq!(report.labeled[0].1.get(12), 1);
}

#[test]
fn multimapped_and_inconsistent_populations() {
    let mapper = gene_mapper();
    let groups = vec![
        // EC 1 alone: candidates {g2, g3}, multimapped, 4 reads.
        group(1, 1, vec![rec(1, 1, 1, 4)]),
        // EC 2 and EC 3 share no gene: inconsistent, 3 reads.
        group(1, 2, vec![rec(1, 2, 2, 1), rec(1, 2, 3, 2)]),
        // EC 1 and EC 3 agree on g2: a single assignment, 6 reads.
        group(2, 1, vec![rec(2, 1, 1, 5), rec(2, 1, 3, 1)]),
    ];
    let report = assignment_histograms_gene(&groups, &mapper);
    assert_eq!(report.multimapped.get(4), 1);
    assert_eq!(report.inconsistent.get(3), 1);
    assert_eq!(report.per_id.get(2, 6), 1);
}

#[test]
fn resolver_outcomes_reflect_candidate_sets() {
    let mapper = gene_mapper();
    let groups = vec![
        group(1, 1, vec![rec(1, 1, 0, 1)]),
        group(1, 2, vec![rec(1, 2, 1, 1)]),
        group(1, 3, vec![rec(1, 3, 2, 1), rec(1, 3, 3, 1)]),
    ];
    let outs = resolve_gene_groups(&groups, &mapper);
    assert!(matches!(outs[0], ResolvedClass::Single(7)));
    match &outs[1] {
        ResolvedClass::Multi(ids) => {
            let mut sorted = ids.clone();
            sorted.sort();
            assert_eq!(sorted, vec![2, 3]);
        },
        _ => panic!("expected a multimapped outcome"),
    }
    assert!(matches!(outs[2], ResolvedClass::Inconsistent));
}

#[test]
fn consistency_table_counts_per_barcode() {
    let mapper = gene_mapper();
    let groups = vec![
        group(1, 1, vec![rec(1, 1, 0, 5)]),  // pure, barcode 1
        group(1, 2, vec![rec(1, 2, 1, 1)]),  // multimapped, barcode 1
        group(2, 1, vec![rec(2, 1, 2, 1), rec(2, 1, 3, 1)]),  // inconsistent, barcode 2
        group(2, 2, vec![rec(2, 2, 0, 2)]),  // pure, barcode 2
    ];
    let report = consistency_classify(&groups, &mapper);
    assert_eq!(report.table.len(), 2);
    assert_eq!(report.table[0].barcode, 1);
    assert_eq!(report.table[0].pure, 1);
    assert_eq!(report.table[0].multimapped, 1);
    assert_eq!(report.table[0].inconsistent, 0);
    assert_eq!(report.table[1].barcode, 2);
    assert_eq!(report.table[1].pure, 1);
    assert_eq!(report.table[1].multimapped, 0);
    assert_eq!(report.table[1].inconsistent, 1);
}

#[test]
fn consistency_counts_exact_sets() {
    let mapper = gene_mapper();
    let groups = vec![
        group(1, 1, vec![rec(1, 1, 1, 1)]),  // multimapped over {g2, g3} = ids {2, 3}
        group(1, 2, vec![rec(1, 2, 1, 2)]),  // same set again
        group(2, 1, vec![rec(2, 1, 2, 1), rec(2, 1, 3, 1)]),  // inconsistent, ECs {2, 3}
    ];
    let report = consistency_classify(&groups, &mapper);
    assert_eq!(report.multimapped_sets.get(&vec![2, 3]), 2);
    assert_eq!(report.inconsistent_sets.get(&vec![2, 3]), 1);
    assert_eq!(report.multimapped_names.len(), 1);
    assert_eq!(
        report.multimapped_names[0].0,
        vec!["g2".to_string(), "g3".to_string()]
    );
    assert_eq!(report.multimapped_names[0].1, 2);
    assert_eq!(report.gene_names[2], "g2".to_string());
}

#[test]
fn transcript_assignment_mirrors_gene_pass() {
    let mut ec2t: HashMap<EC, HashSet<Transcriptname>> = HashMap::new();
    let names = |xs: &[&str]| -> HashSet<Transcriptname> {
        xs.iter().map(|n| Transcriptname(n.to_string())).collect()
    };
    ec2t.insert(EC(0), names(&["t0"]));
    ec2t.insert(EC(1), names(&["t1"]));
    let mapper = Ec2TranscriptMapper::new(ec2t);
    let groups = vec![group(1, 1, vec![rec(1, 1, 1, 9)])];
    let report = assignment_histograms_transcript(&groups, &mapper);
    assert_eq!(report.per_id.get(1, 9), 1);
    assert_eq!(report.names, vec!["t0".to_string(), "t1".to_string()]);
}

#[test]
fn assignment_histograms_partition_the_groups() {
    // Every group lands in exactly one histogram: summed over the per-gene
    // histograms and the two global ones, the bucket counts recover the
    // group count, and the value-weighted sums recover the total reads.
    let mapper = gene_mapper();
    let groups = vec![
        group(1, 1, vec![rec(1, 1, 0, 5), rec(1, 1, 0, 7)]),  // single, 12 reads
        group(1, 2, vec![rec(1, 2, 1, 4)]),  // multimapped, 4 reads
        group(2, 1, vec![rec(2, 1, 2, 1), rec(2, 1, 3, 2)]),  // inconsistent, 3 reads
        group(2, 2, vec![rec(2, 2, 0, 6)]),  // single, 6 reads
    ];
    let report = assignment_histograms_gene(&groups, &mapper);
    let mut count_sum: u128 = 0;
    let mut weighted_sum: u128 = 0;
    for (_id, hist) in report.per_id.entries() {
        for (value, count) in hist.entries() {
            count_sum += *count as u128;
            weighted_sum += *value as u128 * *count as u128;
        }
    }
    for hist in [&report.multimapped, &report.inconsistent] {
        for (value, count) in hist.entries() {
            count_sum += *count as u128;
            weighted_sum += *value as u128 * *count as u128;
        }
    }
    assert_eq!(count_sum, 4);
    assert_eq!(weighted_sum, 12 + 4 + 3 + 6);
}

#[test]
fn fingerprint_weighted_totals_recover_raw_totals() {
    let s0 = NamedStream {
        name: "a".to_string(),
        groups: vec![
            group(1, 0, vec![rec(1, 10, 0, 1)]),
            group(2, 0, vec![rec(2, 20, 0, 2), rec(2, 21, 0, 3)]),
        ],
    };
    let s1 = NamedStream {
        name: "b".to_string(),
        groups: vec![group(2, 0, vec![rec(2, 22, 0, 4)])],
    };
    let summary = fingerprint(vec![s0, s1]);
    let weighted = |h: &VecKeyHistogram| -> u128 {
        h.entries()
            .iter()
            .map(|(key, count)| *count as u128 * key.iter().map(|v| *v as u128).sum::<u128>())
            .sum()
    };
    // 4 records in all; 1 + 2 + 3 + 4 reads in all.
    assert_eq!(weighted(&summary.umi_histogram), 4);
    assert_eq!(weighted(&summary.read_histogram), 10);
}

#[test]
fn gene_collapsed_histogram_counts_single_assignments_only() {
    let mapper = gene_mapper();
    let groups = vec![
        group(1, 1, vec![rec(1, 1, 0, 5), rec(1, 1, 0, 7)]),  // single, 12 reads
        group(1, 2, vec![rec(1, 2, 1, 4)]),  // multimapped: skipped
        group(2, 1, vec![rec(2, 1, 2, 1), rec(2, 1, 3, 2)]),  // inconsistent: skipped
        group(2, 2, vec![rec(2, 2, 0, 12)]),  // single, 12 reads
    ];
    let hist = gene_collapsed_read_histogram(&groups, &mapper);
    assert_eq!(hist.get(12), 2);
    assert_eq!(hist.get(4), 0);
    assert_eq!(hist.get(3), 0);
    assert_eq!(hist.num_buckets(), 1);
}
