//! Frequency-of-frequency summaries of one sample's stream. Instead of one
//! entry per observed unit, each pass keeps a count-of-counts histogram:
//! reads per (barcode, umi) group, UMIs and reads per barcode, reads per
//! record within each barcode, and total reads per equivalence class. Each
//! histogram re-encodes its raw observations losslessly: its weighted total
//! equals the sum of the observations.

use vstd::prelude::*;
use crate::histogram::CountHistogram;
use crate::records::KeyedGroup;
use crate::records::Record;
use crate::records::group_reads;
use crate::records::seq_reads;

verus! {

/// Sum of the read totals of the first `k` groups.
pub open spec fn total_reads(groups: Seq<KeyedGroup>, k: int) -> int
    decreases k,
{
    if k <= 0 {
        0
    } else {
        total_reads(groups, k - 1) + seq_reads(groups[k - 1].records@)
    }
}

/// Sum of the group sizes (UMI counts) of the first `k` groups.
pub open spec fn total_units(groups: Seq<KeyedGroup>, k: int) -> int
    decreases k,
{
    if k <= 0 {
        0
    } else {
        total_units(groups, k - 1) + groups[k - 1].records@.len()
    }
}

/// How many of the first `k` groups have `v` total reads.
pub open spec fn groups_with_reads(groups: Seq<KeyedGroup>, v: u64, k: int) -> int
    decreases k,
{
    if k <= 0 {
        0
    } else {
        groups_with_reads(groups, v, k - 1) + if seq_reads(groups[k - 1].records@) == v {
            1int
        } else {
            0int
        }
    }
}

/// How many of the first `k` groups have `v` records.
pub open spec fn groups_with_units(groups: Seq<KeyedGroup>, v: u64, k: int) -> int
    decreases k,
{
    if k <= 0 {
        0
    } else {
        groups_with_units(groups, v, k - 1) + if groups[k - 1].records@.len() == v {
            1int
        } else {
            0int
        }
    }
}

proof fn lemma_group_counts_bounds(groups: Seq<KeyedGroup>, v: u64, k: int)
    requires
        0 <= k,
    ensures
        0 <= groups_with_reads(groups, v, k) <= k,
        0 <= groups_with_units(groups, v, k) <= k,
    decreases k,
{
    if k > 0 {
        lemma_group_counts_bounds(groups, v, k - 1);
    }
}

/// Histogram the total reads per group: bucket `v` counts the groups whose
/// records sum to `v` reads. The weighted total equals the reads of the
/// whole stream: the histogram re-encodes the raw totals losslessly.
pub fn reads_per_group_histogram(groups: &Vec<KeyedGroup>) -> (r: CountHistogram)
    requires
        forall|j: int| 0 <= j < groups@.len() ==> (#[trigger] groups@[j]).records@.len() <= u32::MAX,
    ensures
        r.wf(),
        forall|v: u64|
            r.count_of(v) == groups_with_reads(groups@, v, groups@.len() as int),
        r.weighted_total() == total_reads(groups@, groups@.len() as int),
        r.total_count() == groups@.len(),
{
    let n = groups.len();
    let mut hist = CountHistogram::new();
    let mut k: usize = 0;
    while k < n
        invariant
            0 <= k <= n,
            n == groups@.len(),
            hist.wf(),
            forall|j: int|
                0 <= j < groups@.len() ==> (#[trigger] groups@[j]).records@.len() <= u32::MAX,
            forall|v: u64| hist.count_of(v) == groups_with_reads(groups@, v, k as int),
            hist.weighted_total() == total_reads(groups@, k as int),
            hist.total_count() == k,
        decreases n - k,
    {
        let reads = group_reads(&groups[k].records);
        proof {
            lemma_group_counts_bounds(groups@, reads, k as int);
        }
        hist.add_counts(reads, 1);
        k = k + 1;
    }
    hist
}

/// Histogram each barcode's UMI count and read total: one bucket update per
/// group (the stream is grouped by barcode). Both weighted totals equal the
/// stream's raw totals.
pub fn barcode_frequency_histograms(groups: &Vec<KeyedGroup>) -> (r: (
    CountHistogram,
    CountHistogram,
))
    requires
        forall|j: int| 0 <= j < groups@.len() ==> (#[trigger] groups@[j]).records@.len() <= u32::MAX,
    ensures
        r.0.wf(),
        r.1.wf(),
        forall|v: u64| r.0.count_of(v) == groups_with_units(groups@, v, groups@.len() as int),
        forall|v: u64| r.1.count_of(v) == groups_with_reads(groups@, v, groups@.len() as int),
        r.0.weighted_total() == total_units(groups@, groups@.len() as int),
        r.1.weighted_total() == total_reads(groups@, groups@.len() as int),
        r.0.total_count() == groups@.len(),
        r.1.total_count() == groups@.len(),
{
    let n = groups.len();
    let mut umi_hist = CountHistogram::new();
    let mut read_hist = CountHistogram::new();
    let mut k: usize = 0;
    while k < n
        invariant
            0 <= k <= n,
            n == groups@.len(),
            umi_hist.wf(),
            read_hist.wf(),
            forall|j: int|
                0 <= j < groups@.len() ==> (#[trigger] groups@[j]).records@.len() <= u32::MAX,
            forall|v: u64| umi_hist.count_of(v) == groups_with_units(groups@, v, k as int),
            forall|v: u64| read_hist.count_of(v) == groups_with_reads(groups@, v, k as int),
            umi_hist.weighted_total() == total_units(groups@, k as int),
            read_hist.weighted_total() == total_reads(groups@, k as int),
            umi_hist.total_count() == k,
            read_hist.total_count() == k,
        decreases n - k,
    {
        let units = groups[k].records.len() as u64;
        let reads = group_reads(&groups[k].records);
        proof {
            lemma_group_counts_bounds(groups@, units, k as int);
            lemma_group_counts_bounds(groups@, reads, k as int);
            assert(groups@[k as int].records@.len() == groups[k as int].records.len());
        }
        umi_hist.add_counts(units, 1);
        read_hist.add_counts(reads, 1);
        k = k + 1;
    }
    (umi_hist, read_hist)
}

/// How many of the first `k` groups hold exactly one record, with that
/// record carrying `v` reads.
pub open spec fn single_record_groups_with_reads(groups: Seq<KeyedGroup>, v: u64, k: int) -> int
    decreases k,
{
    if k <= 0 {
        0
    } else {
        single_record_groups_with_reads(groups, v, k - 1) + if groups[k - 1].records@.len() == 1
            && groups[k - 1].records@[0].read_count as u64 == v {
            1int
        } else {
            0int
        }
    }
}

/// How many of the first `k` groups hold exactly one record.
pub open spec fn single_record_group_count(groups: Seq<KeyedGroup>, k: int) -> int
    decreases k,
{
    if k <= 0 {
        0
    } else {
        single_record_group_count(groups, k - 1) + if groups[k - 1].records@.len() == 1 {
            1int
        } else {
            0int
        }
    }
}

/// Read total of the sole records of the first `k` single-record groups.
pub open spec fn single_record_reads(groups: Seq<KeyedGroup>, k: int) -> int
    decreases k,
{
    if k <= 0 {
        0
    } else {
        single_record_reads(groups, k - 1) + if groups[k - 1].records@.len() == 1 {
            groups[k - 1].records@[0].read_count as int
        } else {
            0int
        }
    }
}

proof fn lemma_single_record_counts_bounds(groups: Seq<KeyedGroup>, v: u64, k: int)
    requires
        0 <= k,
    ensures
        0 <= single_record_groups_with_reads(groups, v, k) <= k,
    decreases k,
{
    if k > 0 {
        lemma_single_record_counts_bounds(groups, v, k - 1);
    }
}

/// The equivalence-class frequency of frequency: histogram the read count
/// of every (barcode, umi) group holding exactly one record. A key with
/// several records carries several equivalence classes — an ambiguous
/// molecular identity — and is skipped as inconsistent rather than summed.
pub fn ec_read_histogram(groups: &Vec<KeyedGroup>) -> (r: CountHistogram)
    ensures
        r.wf(),
        forall|v: u64|
            r.count_of(v) == single_record_groups_with_reads(groups@, v, groups@.len() as int),
        r.total_count() == single_record_group_count(groups@, groups@.len() as int),
        r.weighted_total() == single_record_reads(groups@, groups@.len() as int),
{
    let n = groups.len();
    let mut hist = CountHistogram::new();
    let mut k: usize = 0;
    while k < n
        invariant
            0 <= k <= n,
            n == groups@.len(),
            hist.wf(),
            forall|v: u64|
                hist.count_of(v) == single_record_groups_with_reads(groups@, v, k as int),
            hist.total_count() == single_record_group_count(groups@, k as int),
            hist.weighted_total() == single_record_reads(groups@, k as int),
        decreases n - k,
    {
        if groups[k].records.len() == 1 {
            let reads = groups[k].records[0].read_count as u64;
            proof {
                lemma_single_record_counts_bounds(groups@, reads, k as int);
            }
            hist.add_counts(reads, 1);
        }
        k = k + 1;
    }
    hist
}

/// How many of the first `k` records of a group carry `v` reads.
pub open spec fn records_with_reads(recs: Seq<Record>, v: u64, k: int) -> int
    decreases k,
{
    if k <= 0 {
        0
    } else {
        records_with_reads(recs, v, k - 1) + if recs[k - 1].read_count as u64 == v {
            1int
        } else {
            0int
        }
    }
}

proof fn lemma_records_with_reads_bounds(recs: Seq<Record>, v: u64, k: int)
    requires
        0 <= k,
    ensures
        0 <= records_with_reads(recs, v, k) <= k,
    decreases k,
{
    if k > 0 {
        lemma_records_with_reads_bounds(recs, v, k - 1);
    }
}

/// Sum of the reads of the first `k` records of a group.
pub open spec fn partial_reads(recs: Seq<Record>, k: int) -> int
    decreases k,
{
    if k <= 0 {
        0
    } else {
        partial_reads(recs, k - 1) + recs[k - 1].read_count
    }
}

proof fn lemma_partial_reads_full(recs: Seq<Record>, k: int)
    requires
        0 <= k <= recs.len(),
    ensures
        partial_reads(recs, k) == seq_reads(recs.subrange(0, k)),
    decreases k,
{
    if k > 0 {
        lemma_partial_reads_full(recs, k - 1);
        assert(recs.subrange(0, k).drop_last() =~= recs.subrange(0, k - 1));
    }
}

/// Per barcode, histogram the reads of each of its records. One entry per
/// group, in stream order, under the group's barcode; each histogram's
/// weighted total equals that barcode's raw read total.
pub fn per_barcode_read_histograms(groups: &Vec<KeyedGroup>) -> (r: Vec<(u64, CountHistogram)>)
    requires
        forall|j: int| 0 <= j < groups@.len() ==> (#[trigger] groups@[j]).records@.len() <= u32::MAX,
    ensures
        r@.len() == groups@.len(),
        forall|j: int|
            0 <= j < groups@.len() ==> (#[trigger] r@[j]).0 == groups@[j].key.barcode,
        forall|j: int| 0 <= j < groups@.len() ==> (#[trigger] r@[j]).1.wf(),
        forall|j: int, v: u64|
            0 <= j < groups@.len() ==> #[trigger] r@[j].1.count_of(v) == records_with_reads(
                groups@[j].records@,
                v,
                groups@[j].records@.len() as int,
            ),
        forall|j: int|
            0 <= j < groups@.len() ==> (#[trigger] r@[j]).1.weighted_total() == seq_reads(
                groups@[j].records@,
            ),
        forall|j: int|
            0 <= j < groups@.len() ==> (#[trigger] r@[j]).1.total_count() == groups@[j].records@.len(),
{
    let n = groups.len();
    let mut out: Vec<(u64, CountHistogram)> = Vec::new();
    let mut k: usize = 0;
    while k < n
        invariant
            0 <= k <= n,
            n == groups@.len(),
            out@.len() == k,
            forall|j: int|
                0 <= j < groups@.len() ==> (#[trigger] groups@[j]).records@.len() <= u32::MAX,
            forall|j: int| 0 <= j < k ==> (#[trigger] out@[j]).0 == groups@[j].key.barcode,
            forall|j: int| 0 <= j < k ==> (#[trigger] out@[j]).1.wf(),
            forall|j: int, v: u64|
                0 <= j < k ==> #[trigger] out@[j].1.count_of(v) == records_with_reads(
                    groups@[j].records@,
                    v,
                    groups@[j].records@.len() as int,
                ),
            forall|j: int|
                0 <= j < k ==> (#[trigger] out@[j]).1.weighted_total() == seq_reads(
                    groups@[j].records@,
                ),
            forall|j: int|
                0 <= j < k ==> (#[trigger] out@[j]).1.total_count() == groups@[j].records@.len(),
        decreases n - k,
    {
        let recs = &groups[k].records;
        let m = recs.len();
        let mut hist = CountHistogram::new();
        let mut i: usize = 0;
        while i < m
            invariant
                0 <= i <= m,
                m == recs@.len() <= u32::MAX,
                hist.wf(),
                forall|v: u64| hist.count_of(v) == records_with_reads(recs@, v, i as int),
                hist.weighted_total() == partial_reads(recs@, i as int),
                hist.total_count() == i,
            decreases m - i,
        {
            let v = recs[i].read_count as u64;
            proof {
                lemma_records_with_reads_bounds(recs@, v, i as int);
            }
            hist.add_counts(v, 1);
            i = i + 1;
        }
        proof {
            lemma_partial_reads_full(recs@, m as int);
            assert(recs@.subrange(0, m as int) =~= recs@);
        }
        out.push((groups[k].key.barcode, hist));
        k = k + 1;
    }
    out
}

/// Total reads carried by records of equivalence class `ec` over the first
/// `k` groups.
pub open spec fn ec_reads(groups: Seq<KeyedGroup>, ec: u32, k: int) -> int
    decreases k,
{
    if k <= 0 {
        0
    } else {
        ec_reads(groups, ec, k - 1) + ec_reads_in_records(
            groups[k - 1].records@,
            ec,
            groups[k - 1].records@.len() as int,
        )
    }
}

/// Total reads carried by the first `k` records of `ec`.
pub open spec fn ec_reads_in_records(recs: Seq<Record>, ec: u32, k: int) -> int
    decreases k,
{
    if k <= 0 {
        0
    } else {
        ec_reads_in_records(recs, ec, k - 1) + if recs[k - 1].equivalence_class == ec {
            recs[k - 1].read_count as int
        } else {
            0int
        }
    }
}

proof fn lemma_ec_reads_nonneg(groups: Seq<KeyedGroup>, ec: u32, k: int)
    requires
        0 <= k,
    ensures
        0 <= ec_reads(groups, ec, k),
    decreases k,
{
    if k > 0 {
        lemma_ec_reads_nonneg(groups, ec, k - 1);
        lemma_ec_reads_in_records_nonneg(
            groups[k - 1].records@,
            ec,
            groups[k - 1].records@.len() as int,
        );
    }
}

proof fn lemma_ec_reads_in_records_nonneg(recs: Seq<Record>, ec: u32, k: int)
    requires
        0 <= k,
    ensures
        0 <= ec_reads_in_records(recs, ec, k),
    decreases k,
{
    if k > 0 {
        lemma_ec_reads_in_records_nonneg(recs, ec, k - 1);
    }
}

proof fn lemma_ec_reads_monotone(groups: Seq<KeyedGroup>, ec: u32, k1: int, k2: int)
    requires
        0 <= k1 <= k2,
    ensures
        ec_reads(groups, ec, k1) <= ec_reads(groups, ec, k2),
    decreases k2 - k1,
{
    if k1 < k2 {
        lemma_ec_reads_monotone(groups, ec, k1, k2 - 1);
        lemma_ec_reads_in_records_nonneg(
            groups[k2 - 1].records@,
            ec,
            groups[k2 - 1].records@.len() as int,
        );
    }
}

proof fn lemma_ec_reads_in_records_monotone(recs: Seq<Record>, ec: u32, k1: int, k2: int)
    requires
        0 <= k1 <= k2,
    ensures
        ec_reads_in_records(recs, ec, k1) <= ec_reads_in_records(recs, ec, k2),
    decreases k2 - k1,
{
    if k1 < k2 {
        lemma_ec_reads_in_records_monotone(recs, ec, k1, k2 - 1);
    }
}

/// Sum, per equivalence class, the reads of every record of the stream.
/// Classes are bucket values of the returned counter, widened to `u64`.
pub fn reads_per_ec(groups: &Vec<KeyedGroup>) -> (r: CountHistogram)
    requires
        forall|ec: u32|
            ec_reads(groups@, ec, groups@.len() as int) <= u64::MAX,
    ensures
        r.wf(),
        forall|ec: u32|
            r.count_of(ec as u64) == ec_reads(groups@, ec, groups@.len() as int),
{
    let n = groups.len();
    let mut counter = CountHistogram::new();
    let mut k: usize = 0;
    while k < n
        invariant
            0 <= k <= n,
            n == groups@.len(),
            counter.wf(),
            forall|ec: u32| ec_reads(groups@, ec, groups@.len() as int) <= u64::MAX,
            forall|ec: u32| counter.count_of(ec as u64) == ec_reads(groups@, ec, k as int),
        decreases n - k,
    {
        let recs = &groups[k].records;
        let m = recs.len();
        let mut i: usize = 0;
        while i < m
            invariant
                0 <= i <= m,
                0 <= k < n,
                n == groups@.len(),
                m == recs@.len(),
                recs@ == groups@[k as int].records@,
                counter.wf(),
                forall|ec: u32| ec_reads(groups@, ec, groups@.len() as int) <= u64::MAX,
                forall|ec: u32|
                    counter.count_of(ec as u64) == ec_reads(groups@, ec, k as int)
                        + ec_reads_in_records(recs@, ec, i as int),
            decreases m - i,
        {
            let ec = recs[i].equivalence_class;
            let amount = recs[i].read_count as u64;
            proof {
                lemma_ec_reads_nonneg(groups@, ec, k as int);
                lemma_ec_reads_in_records_nonneg(recs@, ec, i as int);
                lemma_ec_reads_in_records_monotone(recs@, ec, i + 1, recs@.len() as int);
                lemma_ec_reads_monotone(groups@, ec, k + 1, groups@.len() as int);
                assert(ec_reads(groups@, ec, k + 1) == ec_reads(groups@, ec, k as int)
                    + ec_reads_in_records(recs@, ec, recs@.len() as int));
                assert(ec_reads_in_records(recs@, ec, i + 1) == ec_reads_in_records(
                    recs@,
                    ec,
                    i as int,
                ) + amount);
            }
            counter.add_counts(ec as u64, amount);
            proof {
                assert forall|ec2: u32|
                    #[trigger] counter.count_of(ec2 as u64) == ec_reads(groups@, ec2, k as int)
                        + ec_reads_in_records(recs@, ec2, i + 1) by {
                    if ec2 != ec {
                        assert(ec2 as u64 != ec as u64);
                    }
                }
            }
            i = i + 1;
        }
        proof {
            assert forall|ec: u32|
                #[trigger] counter.count_of(ec as u64) == ec_reads(groups@, ec, k + 1) by {
                assert(ec_reads_in_records(recs@, ec, recs@.len() as int)
                    == ec_reads_in_records(groups@[k as int].records@, ec, groups@[k as int].records@.len() as int));
            }
        }
        k = k + 1;
    }
    counter
}

} // verus!
