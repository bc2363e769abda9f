//! Per-key cross-sample abundance fingerprints. For every merged element two
//! fixed-order vectors are built, one slot per sample: the number of record
//! groups' entries (UMI abundance) and the summed read counts (read
//! abundance), zero for absent samples. Only histograms of the vectors are
//! kept: a key genuinely belonging to one sample shows near-zero slots
//! everywhere else, so elevated multi-slot vectors signal index hopping.

use vstd::prelude::*;
use crate::merger::ElementModel;
use crate::merger::KeyedStreamMerger;
use crate::merger::full_merge;
use crate::merger::initial_cursors;
use crate::merger::lemma_merge_model_entries;
use crate::merger::lemma_merge_model_len;
use crate::merger::lemma_merge_single_sample;
use crate::merger::samples_of;
use crate::merger::lemma_merge_totals;
use crate::merger::entries_units;
use crate::merger::entries_reads;
use crate::merger::merged_units;
use crate::merger::merged_reads;
use crate::merger::total_groups;
use crate::merger::total_stream_units;
use crate::merger::total_stream_reads;
use crate::records::lemma_seq_reads_bounds;
use crate::vec_histogram::key_weight;
use crate::records::MergedElement;
use crate::records::NamedStream;
use crate::records::Record;
use crate::records::group_reads;
use crate::records::groups_bounded;
use crate::records::seq_reads;
use crate::records::streams_sorted;
use crate::vec_histogram::VecKeyHistogram;

verus! {

/// The record group sample `i` contributed to an element, if any.
pub open spec fn entry_for(entries: Seq<(int, Seq<Record>)>, i: int) -> Option<Seq<Record>>
    decreases entries.len(),
{
    if entries.len() == 0 {
        None::<Seq<Record>>
    } else if entries.last().0 == i {
        Some(entries.last().1)
    } else {
        entry_for(entries.drop_last(), i)
    }
}

pub proof fn lemma_entry_for_props(entries: Seq<(int, Seq<Record>)>, i: int)
    ensures
        match entry_for(entries, i) {
            None => forall|p: int| 0 <= p < entries.len() ==> (#[trigger] entries[p]).0 != i,
            Some(r) => exists|p: int| 0 <= p < entries.len() && entries[p] == (i, r),
        },
    decreases entries.len(),
{
    if entries.len() > 0 {
        lemma_entry_for_props(entries.drop_last(), i);
        assert(forall|p: int| 0 <= p < entries.len() - 1 ==> entries.drop_last()[p] == entries[p]);
        match entry_for(entries, i) {
            None => {},
            Some(r) => {
                if entries.last().0 == i {
                    assert(entries[entries.len() - 1] == (i, r));
                } else {
                    let p = choose|p: int|
                        0 <= p < entries.len() - 1 && entries.drop_last()[p] == (i, r);
                    assert(entries[p] == (i, r));
                }
            },
        }
    }
}

/// UMI abundance of sample `i` at an element: the number of records of its
/// group, zero when absent.
pub open spec fn umi_slot(elem: ElementModel, i: int) -> int {
    match entry_for(elem.1, i) {
        None => 0,
        Some(r) => r.len() as int,
    }
}

/// Read abundance of sample `i` at an element: the summed read counts of its
/// group, zero when absent.
pub open spec fn read_slot(elem: ElementModel, i: int) -> int {
    match entry_for(elem.1, i) {
        None => 0,
        Some(r) => seq_reads(r),
    }
}

/// The element's UMI fingerprint over `n` samples.
pub open spec fn umi_fingerprint(elem: ElementModel, n: int) -> Seq<u64> {
    Seq::new(n as nat, |i: int| umi_slot(elem, i) as u64)
}

/// The element's read fingerprint over `n` samples.
pub open spec fn read_fingerprint(elem: ElementModel, n: int) -> Seq<u64> {
    Seq::new(n as nat, |i: int| read_slot(elem, i) as u64)
}

/// How many elements exhibit `key` as their UMI fingerprint.
pub open spec fn umi_fingerprint_count(elems: Seq<ElementModel>, n: int, key: Seq<u64>) -> int
    decreases elems.len(),
{
    if elems.len() == 0 {
        0
    } else {
        umi_fingerprint_count(elems.drop_last(), n, key) + if umi_fingerprint(elems.last(), n)
            == key {
            1int
        } else {
            0int
        }
    }
}

/// How many elements exhibit `key` as their read fingerprint.
pub open spec fn read_fingerprint_count(elems: Seq<ElementModel>, n: int, key: Seq<u64>) -> int
    decreases elems.len(),
{
    if elems.len() == 0 {
        0
    } else {
        read_fingerprint_count(elems.drop_last(), n, key) + if read_fingerprint(elems.last(), n)
            == key {
            1int
        } else {
            0int
        }
    }
}

proof fn lemma_fingerprint_count_le_len(elems: Seq<ElementModel>, n: int, key: Seq<u64>)
    ensures
        0 <= umi_fingerprint_count(elems, n, key) <= elems.len(),
        0 <= read_fingerprint_count(elems, n, key) <= elems.len(),
    decreases elems.len(),
{
    if elems.len() > 0 {
        lemma_fingerprint_count_le_len(elems.drop_last(), n, key);
    }
}

proof fn lemma_fingerprint_count_push(elems: Seq<ElementModel>, n: int, e: ElementModel)
    ensures
        forall|key: Seq<u64>|
            #[trigger] umi_fingerprint_count(elems.push(e), n, key) == umi_fingerprint_count(
                elems,
                n,
                key,
            ) + if umi_fingerprint(e, n) == key {
                1int
            } else {
                0int
            },
        forall|key: Seq<u64>|
            #[trigger] read_fingerprint_count(elems.push(e), n, key) == read_fingerprint_count(
                elems,
                n,
                key,
            ) + if read_fingerprint(e, n) == key {
                1int
            } else {
                0int
            },
{
    assert(elems.push(e).drop_last() =~= elems);
}

/// Sum of the element's UMI slots over samples `0..n`.
pub open spec fn umi_slot_sum(elem: ElementModel, n: int) -> int
    decreases n,
{
    if n <= 0 {
        0
    } else {
        umi_slot_sum(elem, n - 1) + umi_slot(elem, n - 1)
    }
}

/// Sum of the element's read slots over samples `0..n`.
pub open spec fn read_slot_sum(elem: ElementModel, n: int) -> int
    decreases n,
{
    if n <= 0 {
        0
    } else {
        read_slot_sum(elem, n - 1) + read_slot(elem, n - 1)
    }
}

proof fn lemma_fingerprint_weight(elem: ElementModel, n: int)
    requires
        0 <= n,
        forall|i: int| 0 <= i < n ==> #[trigger] umi_slot(elem, i) <= u64::MAX,
        forall|i: int| 0 <= i < n ==> 0 <= #[trigger] read_slot(elem, i) <= u64::MAX,
    ensures
        key_weight(umi_fingerprint(elem, n)) == umi_slot_sum(elem, n),
        key_weight(read_fingerprint(elem, n)) == read_slot_sum(elem, n),
    decreases n,
{
    if n > 0 {
        lemma_fingerprint_weight(elem, n - 1);
        assert(umi_fingerprint(elem, n).drop_last() =~= umi_fingerprint(elem, n - 1));
        assert(read_fingerprint(elem, n).drop_last() =~= read_fingerprint(elem, n - 1));
        assert(umi_fingerprint(elem, n).last() == umi_slot(elem, n - 1) as u64);
        assert(read_fingerprint(elem, n).last() == read_slot(elem, n - 1) as u64);
    } else {
        assert(umi_fingerprint(elem, 0) =~= Seq::<u64>::empty());
        assert(read_fingerprint(elem, 0) =~= Seq::<u64>::empty());
    }
}

proof fn lemma_slot_sum_congruent(e1: ElementModel, e2: ElementModel, m: int)
    requires
        0 <= m,
        forall|i: int| 0 <= i < m ==> #[trigger] umi_slot(e1, i) == umi_slot(e2, i),
        forall|i: int| 0 <= i < m ==> #[trigger] read_slot(e1, i) == read_slot(e2, i),
    ensures
        umi_slot_sum(e1, m) == umi_slot_sum(e2, m),
        read_slot_sum(e1, m) == read_slot_sum(e2, m),
    decreases m,
{
    if m > 0 {
        lemma_slot_sum_congruent(e1, e2, m - 1);
    }
}

/// Law: summed over the sample slots, an element's fingerprints recover
/// its contributions exactly: the UMI slots sum to the contributed record
/// count and the read slots to the contributed read total.
pub proof fn lemma_slot_sum_entries(elem: ElementModel, n: int)
    requires
        0 <= n,
        forall|p: int| 0 <= p < elem.1.len() ==> 0 <= (#[trigger] elem.1[p]).0 < n,
        forall|p: int, q: int| 0 <= p < q < elem.1.len() ==> (#[trigger] elem.1[p]).0 < (
        #[trigger] elem.1[q]).0,
    ensures
        umi_slot_sum(elem, n) == entries_units(elem.1),
        read_slot_sum(elem, n) == entries_reads(elem.1),
    decreases n,
{
    let es = elem.1;
    if n > 0 {
        if es.len() > 0 && es.last().0 == n - 1 {
            let elem2 = (elem.0, es.drop_last());
            assert(forall|p: int| 0 <= p < es.len() - 1 ==> es.drop_last()[p] == es[p]);
            assert forall|i: int|
                0 <= i < n - 1 implies #[trigger] umi_slot(elem, i) == umi_slot(elem2, i)
                && #[trigger] read_slot(elem, i) == read_slot(elem2, i) by {
                assert(entry_for(es, i) == entry_for(es.drop_last(), i));
            }
            lemma_slot_sum_congruent(elem, elem2, n - 1);
            assert forall|p: int, q: int|
                0 <= p < q < elem2.1.len() implies (#[trigger] elem2.1[p]).0 < (
            #[trigger] elem2.1[q]).0 by {
                assert(elem2.1[p] == es[p] && elem2.1[q] == es[q]);
            }
            assert forall|p: int| 0 <= p < elem2.1.len() implies 0 <= (#[trigger] elem2.1[p]).0
                < n - 1 by {
                assert(elem2.1[p] == es[p]);
                assert(es[p].0 < es[es.len() - 1].0);
            }
            lemma_slot_sum_entries(elem2, n - 1);
            assert(entry_for(es, n - 1) == Some(es.last().1));
            assert(umi_slot(elem, n - 1) == es.last().1.len());
            assert(read_slot(elem, n - 1) == seq_reads(es.last().1));
        } else {
            lemma_entry_for_props(es, n - 1);
            match entry_for(es, n - 1) {
                None => {},
                Some(r) => {
                    let p = choose|p: int| 0 <= p < es.len() && es[p] == ((n - 1) as int, r);
                    if p < es.len() - 1 {
                        assert(es[p].0 < es[es.len() - 1].0);
                        assert(es.last().0 <= n - 1);
                        assert(false);
                    } else {
                        assert(es.last().0 == n - 1);
                        assert(false);
                    }
                },
            }
            assert(umi_slot(elem, n - 1) == 0);
            assert(read_slot(elem, n - 1) == 0);
            assert forall|p: int| 0 <= p < es.len() implies 0 <= (#[trigger] es[p]).0 < n - 1
                by {
                if p < es.len() - 1 {
                    assert(es[p].0 < es[es.len() - 1].0);
                    assert(es[es.len() - 1].0 <= n - 1);
                    assert(es[es.len() - 1].0 != n - 1);
                } else {
                    assert(es[p].0 != n - 1);
                }
            }
            lemma_slot_sum_entries(elem, n - 1);
        }
    } else {
        if es.len() > 0 {
            assert(0 <= es[0].0 < 0);
            assert(false);
        }
        assert(entries_units(es) == 0);
        assert(entries_reads(es) == 0);
    }
}

proof fn lemma_merged_sums_push(elems: Seq<ElementModel>, e: ElementModel)
    ensures
        merged_units(elems.push(e)) == merged_units(elems) + entries_units(e.1),
        merged_reads(elems.push(e)) == merged_reads(elems) + entries_reads(e.1),
{
    assert(elems.push(e).drop_last() =~= elems);
}

/// Law: a sample absent from a merged element contributes zero to both of
/// the element's fingerprint slots.
pub proof fn lemma_absent_sample_zero_slot(elem: ElementModel, i: int)
    requires
        forall|p: int| 0 <= p < elem.1.len() ==> (#[trigger] elem.1[p]).0 != i,
    ensures
        umi_slot(elem, i) == 0,
        read_slot(elem, i) == 0,
{
    lemma_entry_for_props(elem.1, i);
    match entry_for(elem.1, i) {
        None => {},
        Some(r) => {
            let p = choose|p: int| 0 <= p < elem.1.len() && elem.1[p] == (i, r);
            assert(false);
        },
    }
}

proof fn lemma_seq_reads_at_least_len(recs: Seq<Record>)
    requires
        forall|t: int| 0 <= t < recs.len() ==> (#[trigger] recs[t]).read_count >= 1,
    ensures
        seq_reads(recs) >= recs.len(),
    decreases recs.len(),
{
    if recs.len() > 0 {
        assert(forall|t: int| 0 <= t < recs.len() - 1 ==> recs.drop_last()[t] == recs[t]);
        lemma_seq_reads_at_least_len(recs.drop_last());
    }
}

/// Law: for a single-sample input whose groups are nonempty and whose
/// records each carry at least one read, every merged element's sole
/// fingerprint slot is strictly positive in both measures: the all-zero
/// fingerprint never occurs. A record with a zero read count is the one
/// input left out: it can drag a read slot to zero.
pub proof fn lemma_single_sample_positive_slots(streams: Seq<NamedStream>)
    requires
        streams.len() == 1,
        forall|g: int|
            0 <= g < streams[0].groups@.len() ==> (#[trigger] streams[0].groups@[g]).records@.len()
                >= 1,
        forall|g: int, t: int|
            0 <= g < streams[0].groups@.len() && 0 <= t < streams[0].groups@[g].records@.len()
                ==> (#[trigger] streams[0].groups@[g].records@[t]).read_count >= 1,
    ensures
        forall|j: int|
            0 <= j < full_merge(streams).len() ==> #[trigger] umi_slot(full_merge(streams)[j], 0)
                >= 1 && read_slot(full_merge(streams)[j], 0) >= 1,
{
    let full = full_merge(streams);
    let zeros = initial_cursors(streams.len());
    lemma_merge_single_sample(streams, zeros);
    lemma_merge_model_entries(streams, zeros);
    assert forall|j: int|
        0 <= j < full.len() implies #[trigger] umi_slot(full[j], 0) >= 1 && read_slot(full[j], 0)
        >= 1 by {
        let es = full[j].1;
        assert(samples_of(full[j]) == seq![0u64]);
        assert(samples_of(full[j]).len() == es.len());
        assert(es.len() == 1);
        assert(samples_of(full[j])[0] == es[0].0 as u64);
        assert(es[0].0 == 0);
        assert(es.last() == es[0]);
        assert(entry_for(es, 0) == Some(es[0].1));
        let e = es[0];
        assert(0 <= e.0 < streams.len() && exists|c: int|
            0 <= c < streams[e.0].groups@.len() && e.1 == streams[e.0].groups@[c].records@);
        let c = choose|c: int|
            0 <= c < streams[e.0].groups@.len() && e.1 == streams[e.0].groups@[c].records@;
        assert(e.1.len() >= 1);
        assert forall|t: int| 0 <= t < e.1.len() implies (#[trigger] e.1[t]).read_count >= 1 by {
            assert(streams[0].groups@[c].records@[t].read_count >= 1);
        }
        lemma_seq_reads_at_least_len(e.1);
    }
}

/// Law: when only the first stream holds any groups, every fingerprint
/// vector of the merge is zero in every slot but the first.
pub proof fn lemma_single_active_sample_fingerprint(streams: Seq<NamedStream>)
    requires
        streams.len() >= 1,
        forall|i: int| 1 <= i < streams.len() ==> (#[trigger] streams[i]).groups@.len() == 0,
    ensures
        forall|j: int, s: int|
            0 <= j < full_merge(streams).len() && 1 <= s < streams.len()
                ==> #[trigger] umi_fingerprint(full_merge(streams)[j], streams.len() as int)[s]
                == 0 && #[trigger] read_fingerprint(full_merge(streams)[j], streams.len() as int)[s]
                == 0,
{
    let full = full_merge(streams);
    lemma_merge_model_entries(streams, initial_cursors(streams.len()));
    assert forall|j: int, s: int|
        0 <= j < full.len() && 1 <= s < streams.len() implies umi_fingerprint(
        full[j],
        streams.len() as int,
    )[s] == 0 && read_fingerprint(full[j], streams.len() as int)[s] == 0 by {
        assert forall|p: int| 0 <= p < full[j].1.len() implies (#[trigger] full[j].1[p]).0 != s
            by {
            let e = full[j].1[p];
            assert(0 <= e.0 < streams.len());
            if e.0 == s {
                let c = choose|c: int|
                    0 <= c < streams[e.0].groups@.len() && e.1
                        == streams[e.0].groups@[c].records@;
                assert(streams[s].groups@.len() == 0);
                assert(false);
            }
        }
        lemma_absent_sample_zero_slot(full[j], s);
    }
}

/// Build both fingerprints of one merged element over `n` sample slots.
fn build_fingerprints(elem: &MergedElement, n: usize) -> (r: (Vec<u64>, Vec<u64>))
    requires
        forall|p: int|
            0 <= p < elem@.1.len() ==> 0 <= (#[trigger] elem@.1[p]).0 < n && elem@.1[p].1.len()
                <= u32::MAX,
        forall|p: int, q: int|
            0 <= p < q < elem@.1.len() ==> elem@.1[p].0 < elem@.1[q].0,
    ensures
        r.0@ == umi_fingerprint(elem@, n as int),
        r.1@ == read_fingerprint(elem@, n as int),
{
    let ghost entries = elem@.1;
    let mut umi_fp: Vec<u64> = Vec::new();
    let mut read_fp: Vec<u64> = Vec::new();
    let mut ptr: usize = 0;
    let m = elem.entries.len();
    let mut i: usize = 0;
    while i < n
        invariant
            0 <= i <= n,
            0 <= ptr <= m,
            m == elem.entries.len(),
            entries == elem@.1,
            forall|p: int|
                0 <= p < entries.len() ==> 0 <= (#[trigger] entries[p]).0 < n
                    && entries[p].1.len() <= u32::MAX,
            forall|p: int, q: int| 0 <= p < q < entries.len() ==> entries[p].0 < entries[q].0,
            forall|p: int| 0 <= p < ptr ==> (#[trigger] entries[p]).0 < i,
            forall|p: int| ptr <= p < entries.len() ==> (#[trigger] entries[p]).0 >= i,
            umi_fp@.len() == i,
            read_fp@.len() == i,
            forall|j: int| 0 <= j < i ==> umi_fp@[j] == umi_slot(elem@, j) as u64,
            forall|j: int| 0 <= j < i ==> read_fp@[j] == read_slot(elem@, j) as u64,
        decreases n - i,
    {
        proof {
            lemma_entry_for_props(entries, i as int);
        }
        if ptr < m && elem.entries[ptr].sample == i {
            proof {
                assert(entries[ptr as int] == elem.entries@[ptr as int]@);
                assert(entries[ptr as int].0 == i as int);
                match entry_for(entries, i as int) {
                    None => {
                        assert(false);
                    },
                    Some(r) => {
                        let p = choose|p: int|
                            0 <= p < entries.len() && entries[p] == (i as int, r);
                        if p < ptr as int {
                            assert(false);
                        } else if p > ptr as int {
                            assert(entries[ptr as int].0 < entries[p].0);
                            assert(false);
                        }
                        assert(r == entries[ptr as int].1);
                    },
                }
            }
            let recs = &elem.entries[ptr].records;
            umi_fp.push(recs.len() as u64);
            read_fp.push(group_reads(recs));
            ptr = ptr + 1;
        } else {
            proof {
                if ptr < m {
                    assert(entries[ptr as int].0 != i as int);
                    assert forall|p: int| 0 <= p < entries.len() implies (
                    #[trigger] entries[p]).0 != i as int by {
                        if p >= ptr as int && p != ptr as int {
                            assert(entries[ptr as int].0 < entries[p].0);
                        }
                    }
                }
                match entry_for(entries, i as int) {
                    None => {},
                    Some(r) => {
                        assert(false);
                    },
                }
            }
            umi_fp.push(0);
            read_fp.push(0);
        }
        proof {
            assert forall|p: int| ptr <= p < entries.len() implies (#[trigger] entries[p]).0 >= i
                + 1 by {
                assert(entries[p].0 >= i as int && entries[p].0 != i as int);
            }
        }
        i = i + 1;
    }
    proof {
        assert(umi_fp@ =~= umi_fingerprint(elem@, n as int));
        assert(read_fp@ =~= read_fingerprint(elem@, n as int));
    }
    (umi_fp, read_fp)
}

/// The result of a fingerprint pass: the fixed sample order defining the
/// vector slots, and one histogram per abundance measure.
pub struct FingerprintSummary {
    /// Sample names in slot order.
    pub sample_names: Vec<String>,
    /// Histogram of UMI-abundance fingerprints.
    pub umi_histogram: VecKeyHistogram,
    /// Histogram of read-abundance fingerprints.
    pub read_histogram: VecKeyHistogram,
}

/// Histogram the per-key cross-sample abundance fingerprints of the merged
/// stream collection, in UMI and in read measure.
pub fn fingerprint(streams: Vec<NamedStream>) -> (r: FingerprintSummary)
    requires
        streams_sorted(streams@),
        groups_bounded(streams@),
        total_groups(streams@) <= u64::MAX,
    ensures
        r.umi_histogram.wf(),
        r.read_histogram.wf(),
        r.sample_names@ == streams@.map_values(|s: NamedStream| s.name),
        forall|key: Seq<u64>|
            r.umi_histogram.count_of(key) == umi_fingerprint_count(
                full_merge(streams@),
                streams@.len() as int,
                key,
            ),
        forall|key: Seq<u64>|
            r.read_histogram.count_of(key) == read_fingerprint_count(
                full_merge(streams@),
                streams@.len() as int,
                key,
            ),
        r.umi_histogram.total_count() == full_merge(streams@).len(),
        r.read_histogram.total_count() == full_merge(streams@).len(),
        r.umi_histogram.weighted_total() == total_stream_units(streams@),
        r.read_histogram.weighted_total() == total_stream_reads(streams@),
{
    let ghost streams0 = streams@;
    let n = streams.len();

    let mut names: Vec<String> = Vec::new();
    let mut i: usize = 0;
    while i < n
        invariant
            0 <= i <= n,
            n == streams.len(),
            streams@ == streams0,
            names@.len() == i,
            forall|j: int| 0 <= j < i ==> names@[j] == streams0[j].name,
        decreases n - i,
    {
        names.push(streams[i].name.clone());
        i = i + 1;
    }
    proof {
        assert(names@ =~= streams0.map_values(|s: NamedStream| s.name));
    }

    let mut merger = KeyedStreamMerger::new(streams);
    let ghost full = full_merge(streams0);
    let ghost mut done: Seq<ElementModel> = Seq::empty();
    let mut umi_hist = VecKeyHistogram::new();
    let mut read_hist = VecKeyHistogram::new();
    proof {
        lemma_merge_model_len(streams0, initial_cursors(streams0.len()));
        lemma_merge_model_entries(streams0, initial_cursors(streams0.len()));
        lemma_merge_totals(streams0, initial_cursors(streams0.len()));
        assert(done + merger.pending() =~= full);
    }
    loop
        invariant
            merger.wf(),
            merger.streams_view() == streams0,
            umi_hist.wf(),
            read_hist.wf(),
            n == streams0.len(),
            groups_bounded(streams0),
            full == full_merge(streams0),
            full.len() <= u64::MAX,
            full == done + merger.pending(),
            forall|j: int, p: int|
                0 <= j < full.len() && 0 <= p < full[j].1.len() ==> {
                    let e = #[trigger] full[j].1[p];
                    0 <= e.0 < streams0.len() && exists|c: int|
                        0 <= c < streams0[e.0].groups@.len() && e.1
                            == streams0[e.0].groups@[c].records@
                },
            forall|j: int, p: int, q: int|
                0 <= j < full.len() && 0 <= p < q < full[j].1.len() ==> (
                #[trigger] full[j].1[p]).0 < (#[trigger] full[j].1[q]).0,
            forall|key: Seq<u64>|
                umi_hist.count_of(key) == umi_fingerprint_count(done, n as int, key),
            forall|key: Seq<u64>|
                read_hist.count_of(key) == read_fingerprint_count(done, n as int, key),
            umi_hist.total_count() == done.len(),
            read_hist.total_count() == done.len(),
            umi_hist.weighted_total() == merged_units(done),
            read_hist.weighted_total() == merged_reads(done),
            merged_units(full) == total_stream_units(streams0),
            merged_reads(full) == total_stream_reads(streams0),
        ensures
            umi_hist.wf(),
            read_hist.wf(),
            forall|key: Seq<u64>|
                umi_hist.count_of(key) == umi_fingerprint_count(full, n as int, key),
            forall|key: Seq<u64>|
                read_hist.count_of(key) == read_fingerprint_count(full, n as int, key),
            umi_hist.total_count() == full.len(),
            read_hist.total_count() == full.len(),
            umi_hist.weighted_total() == total_stream_units(streams0),
            read_hist.weighted_total() == total_stream_reads(streams0),
        decreases merger.pending().len(),
    {
        let ghost pending0 = merger.pending();
        match merger.next() {
            None => {
                proof {
                    assert(done =~= full);
                }
                break;
            },
            Some(e) => {
                proof {
                    assert(e@ == full[done.len() as int]);
                    assert forall|p: int| 0 <= p < e@.1.len() implies 0 <= (
                    #[trigger] e@.1[p]).0 < n && e@.1[p].1.len() <= u32::MAX by {
                        let entry = full[done.len() as int].1[p];
                        assert(0 <= entry.0 < streams0.len());
                        let c = choose|c: int|
                            0 <= c < streams0[entry.0].groups@.len() && entry.1
                                == streams0[entry.0].groups@[c].records@;
                        assert(streams0[entry.0].groups@[c].records@.len() <= u32::MAX);
                    }
                    assert(forall|p: int, q: int|
                        0 <= p < q < e@.1.len() ==> e@.1[p].0 < e@.1[q].0);
                    assert forall|i: int|
                        0 <= i < n as int implies #[trigger] umi_slot(e@, i) <= u64::MAX by {
                        lemma_entry_for_props(e@.1, i);
                        match entry_for(e@.1, i) {
                            None => {},
                            Some(r) => {
                                let p = choose|p: int|
                                    0 <= p < e@.1.len() && e@.1[p] == (i, r);
                                assert(r.len() <= u32::MAX);
                            },
                        }
                    }
                    assert forall|i: int|
                        0 <= i < n as int implies 0 <= #[trigger] read_slot(e@, i) <= u64::MAX
                        by {
                        lemma_entry_for_props(e@.1, i);
                        match entry_for(e@.1, i) {
                            None => {},
                            Some(r) => {
                                let p = choose|p: int|
                                    0 <= p < e@.1.len() && e@.1[p] == (i, r);
                                assert(r.len() <= u32::MAX);
                                lemma_seq_reads_bounds(r);
                                assert(r.len() * (u32::MAX as int) <= (u32::MAX as int) * (
                                u32::MAX as int)) by (nonlinear_arith)
                                    requires r.len() <= u32::MAX as int;
                            },
                        }
                    }
                    lemma_fingerprint_weight(e@, n as int);
                    lemma_slot_sum_entries(e@, n as int);
                }
                let (umi_fp, read_fp) = build_fingerprints(&e, n);
                proof {
                    lemma_fingerprint_count_le_len(done, n as int, umi_fp@);
                    lemma_fingerprint_count_le_len(done, n as int, read_fp@);
                    assert(done.len() < full.len());
                }
                umi_hist.add_one(umi_fp);
                read_hist.add_one(read_fp);
                proof {
                    lemma_fingerprint_count_push(done, n as int, e@);
                    lemma_merged_sums_push(done, e@);
                    done = done.push(e@);
                    assert(done + merger.pending() =~= full);
                }
            },
        }
    }
    FingerprintSummary { sample_names: names, umi_histogram: umi_hist, read_histogram: read_hist }
}

} // verus!
