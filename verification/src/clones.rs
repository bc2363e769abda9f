//! Candidate clone reporting. For each merged element keyed by barcode
//! alone, the per-sample group sizes (distinct UMIs) are computed; whenever
//! some sample's size exceeds the threshold, one row is emitted with the
//! barcode and every sample's size, zero-filled for absent samples. Such
//! barcodes show implausibly large UMI diversity: barcode collisions or
//! heavy clonal expansion, worth manual inspection.

use vstd::prelude::*;
use crate::fingerprint::entry_for;
use crate::fingerprint::lemma_entry_for_props;
use crate::fingerprint::umi_fingerprint;
use crate::fingerprint::umi_slot;
use crate::merger::ElementModel;
use crate::merger::KeyedStreamMerger;
use crate::merger::full_merge;
use crate::merger::initial_cursors;
use crate::merger::lemma_merge_model_entries;
use crate::records::MergedElement;
use crate::records::NamedStream;
use crate::records::streams_sorted;

verus! {

/// One reported row: a barcode and each sample's group size at it.
pub struct CloneRow {
    /// The barcode whose UMI diversity crossed the threshold somewhere.
    pub barcode: u64,
    /// Group size per sample, in slot order, zero for absent samples.
    pub sizes: Vec<u64>,
}

impl View for CloneRow {
    type V = (u64, Seq<u64>);

    open spec fn view(&self) -> (u64, Seq<u64>) {
        (self.barcode, self.sizes@)
    }
}

/// Some sample's group at this element has more than `min_clonesize`
/// entries.
pub open spec fn exceeds_threshold(elem: ElementModel, min_clonesize: int) -> bool {
    exists|p: int| 0 <= p < elem.1.len() && (#[trigger] elem.1[p]).1.len() > min_clonesize
}

/// The rows a pass over `elems` reports: one per element over the
/// threshold, with the barcode and the element's UMI sizes.
pub open spec fn clone_rows(elems: Seq<ElementModel>, n: int, min_clonesize: int) -> Seq<
    (u64, Seq<u64>),
>
    decreases elems.len(),
{
    if elems.len() == 0 {
        Seq::empty()
    } else {
        clone_rows(elems.drop_last(), n, min_clonesize) + if exceeds_threshold(
            elems.last(),
            min_clonesize,
        ) {
            seq![(elems.last().0.barcode, umi_fingerprint(elems.last(), n))]
        } else {
            Seq::empty()
        }
    }
}

proof fn lemma_clone_rows_push(elems: Seq<ElementModel>, n: int, min_clonesize: int, e: ElementModel)
    ensures
        clone_rows(elems.push(e), n, min_clonesize) == clone_rows(elems, n, min_clonesize)
            + if exceeds_threshold(e, min_clonesize) {
            seq![(e.0.barcode, umi_fingerprint(e, n))]
        } else {
            Seq::<(u64, Seq<u64>)>::empty()
        },
{
    assert(elems.push(e).drop_last() =~= elems);
}

/// Whether some entry of the element holds more than `min_clonesize`
/// records.
fn check_threshold(elem: &MergedElement, min_clonesize: usize) -> (r: bool)
    ensures
        r == exceeds_threshold(elem@, min_clonesize as int),
{
    let m = elem.entries.len();
    let mut i: usize = 0;
    while i < m
        invariant
            0 <= i <= m,
            m == elem.entries.len(),
            forall|p: int| 0 <= p < i ==> (#[trigger] elem@.1[p]).1.len() <= min_clonesize,
        decreases m - i,
    {
        proof {
            assert(elem@.1[i as int] == elem.entries@[i as int]@);
        }
        if elem.entries[i].records.len() > min_clonesize {
            proof {
                assert(0 <= i < elem@.1.len() && elem@.1[i as int].1.len() > min_clonesize);
            }
            return true;
        }
        i = i + 1;
    }
    false
}

/// The element's per-sample group sizes over `n` slots, zero-filled.
fn build_sizes(elem: &MergedElement, n: usize) -> (r: Vec<u64>)
    requires
        forall|p: int| 0 <= p < elem@.1.len() ==> 0 <= (#[trigger] elem@.1[p]).0 < n,
        forall|p: int, q: int|
            0 <= p < q < elem@.1.len() ==> elem@.1[p].0 < elem@.1[q].0,
    ensures
        r@ == umi_fingerprint(elem@, n as int),
{
    let ghost entries = elem@.1;
    let mut sizes: Vec<u64> = Vec::new();
    let mut ptr: usize = 0;
    let m = elem.entries.len();
    let mut i: usize = 0;
    while i < n
        invariant
            0 <= i <= n,
            0 <= ptr <= m,
            m == elem.entries.len(),
            entries == elem@.1,
            forall|p: int| 0 <= p < entries.len() ==> 0 <= (#[trigger] entries[p]).0 < n,
            forall|p: int, q: int| 0 <= p < q < entries.len() ==> entries[p].0 < entries[q].0,
            forall|p: int| 0 <= p < ptr ==> (#[trigger] entries[p]).0 < i,
            forall|p: int| ptr <= p < entries.len() ==> (#[trigger] entries[p]).0 >= i,
            sizes@.len() == i,
            forall|j: int| 0 <= j < i ==> sizes@[j] == umi_slot(elem@, j) as u64,
        decreases n - i,
    {
        proof {
            lemma_entry_for_props(entries, i as int);
        }
        if ptr < m && elem.entries[ptr].sample == i {
            proof {
                assert(entries[ptr as int] == elem.entries@[ptr as int]@);
                assert(entries[ptr as int].0 == i as int);
                match entry_for(entries, i as int) {
                    None => {
                        assert(false);
                    },
                    Some(r) => {
                        let p = choose|p: int|
                            0 <= p < entries.len() && entries[p] == (i as int, r);
                        if p < ptr as int {
                            assert(false);
                        } else if p > ptr as int {
                            assert(entries[ptr as int].0 < entries[p].0);
                            assert(false);
                        }
                        assert(r == entries[ptr as int].1);
                    },
                }
            }
            let recs = &elem.entries[ptr].records;
            sizes.push(recs.len() as u64);
            ptr = ptr + 1;
        } else {
            proof {
                if ptr < m {
                    assert(entries[ptr as int].0 != i as int);
                    assert forall|p: int| 0 <= p < entries.len() implies (
                    #[trigger] entries[p]).0 != i as int by {
                        if p >= ptr as int && p != ptr as int {
                            assert(entries[ptr as int].0 < entries[p].0);
                        }
                    }
                }
                match entry_for(entries, i as int) {
                    None => {},
                    Some(r) => {
                        assert(false);
                    },
                }
            }
            sizes.push(0);
        }
        proof {
            assert forall|p: int| ptr <= p < entries.len() implies (#[trigger] entries[p]).0 >= i
                + 1 by {
                assert(entries[p].0 >= i as int && entries[p].0 != i as int);
            }
        }
        i = i + 1;
    }
    proof {
        assert(sizes@ =~= umi_fingerprint(elem@, n as int));
    }
    sizes
}

/// Report, for every barcode of the merged stream collection whose group
/// size in some sample exceeds `min_clonesize`, the barcode and each
/// sample's group size.
pub fn clone_sizes(streams: Vec<NamedStream>, min_clonesize: usize) -> (r: Vec<CloneRow>)
    requires
        streams_sorted(streams@),
    ensures
        r@.map_values(|row: CloneRow| row@) == clone_rows(
            full_merge(streams@),
            streams@.len() as int,
            min_clonesize as int,
        ),
{
    let ghost streams0 = streams@;
    let n = streams.len();
    let mut merger = KeyedStreamMerger::new(streams);
    let ghost full = full_merge(streams0);
    let ghost mut done: Seq<ElementModel> = Seq::empty();
    let mut rows: Vec<CloneRow> = Vec::new();
    proof {
        lemma_merge_model_entries(streams0, initial_cursors(streams0.len()));
        assert(done + merger.pending() =~= full);
    }
    loop
        invariant
            merger.wf(),
            merger.streams_view() == streams0,
            n == streams0.len(),
            full == full_merge(streams0),
            full == done + merger.pending(),
            forall|j: int, p: int|
                0 <= j < full.len() && 0 <= p < full[j].1.len() ==> 0 <= (
                #[trigger] full[j].1[p]).0 < streams0.len(),
            forall|j: int, p: int, q: int|
                0 <= j < full.len() && 0 <= p < q < full[j].1.len() ==> (
                #[trigger] full[j].1[p]).0 < (#[trigger] full[j].1[q]).0,
            rows@.map_values(|row: CloneRow| row@) == clone_rows(
                done,
                n as int,
                min_clonesize as int,
            ),
        ensures
            rows@.map_values(|row: CloneRow| row@) == clone_rows(
                full,
                n as int,
                min_clonesize as int,
            ),
        decreases merger.pending().len(),
    {
        match merger.next() {
            None => {
                proof {
                    assert(done =~= full);
                }
                break;
            },
            Some(e) => {
                proof {
                    assert(e@ == full[done.len() as int]);
                }
                let ghost rows0 = rows@.map_values(|row: CloneRow| row@);
                if check_threshold(&e, min_clonesize) {
                    let sizes = build_sizes(&e, n);
                    let row = CloneRow { barcode: e.key.barcode, sizes };
                    proof {
                        assert(row@ == (e@.0.barcode, umi_fingerprint(e@, n as int)));
                    }
                    rows.push(row);
                    proof {
                        assert(rows@.map_values(|row: CloneRow| row@) =~= rows0 + seq![
                            (e@.0.barcode, umi_fingerprint(e@, n as int)),
                        ]);
                    }
                }
                proof {
                    lemma_clone_rows_push(done, n as int, min_clonesize as int, e@);
                    done = done.push(e@);
                    assert(rows@.map_values(|row: CloneRow| row@) =~= clone_rows(
                        done,
                        n as int,
                        min_clonesize as int,
                    ));
                    assert(done + merger.pending() =~= full);
                }
            },
        }
    }
    rows
}

} // verus!
