//! Key sharing between samples: for each subset of samples that co-occurs at
//! a key, how many keys exhibited exactly that subset. One algorithm serves
//! both granularities (barcode, or barcode plus UMI): the producer of the
//! streams picks the grouping key.

use vstd::prelude::*;
use crate::merger::ElementModel;
use crate::merger::KeyedStreamMerger;
use crate::merger::full_merge;
use crate::merger::samples_of;
use crate::merger::lemma_merge_single_sample;
use crate::merger::initial_cursors;
use crate::merger::lemma_merge_model_len;
use crate::merger::cursors_valid;
use crate::merger::total_groups;
use crate::records::MergedElement;
use crate::records::MergedEntry;
use crate::records::NamedStream;
use crate::records::streams_sorted;
use crate::vec_histogram::VecKeyHistogram;

verus! {

/// How many of the elements exhibit exactly the subset `subset`.
pub open spec fn subset_count(elems: Seq<ElementModel>, subset: Seq<u64>) -> int
    decreases elems.len(),
{
    if elems.len() == 0 {
        0
    } else {
        subset_count(elems.drop_last(), subset) + if samples_of(elems.last()) == subset {
            1int
        } else {
            0int
        }
    }
}

/// No subset is exhibited more often than there are elements.
pub proof fn lemma_subset_count_le_len(elems: Seq<ElementModel>, subset: Seq<u64>)
    ensures
        0 <= subset_count(elems, subset) <= elems.len(),
    decreases elems.len(),
{
    if elems.len() > 0 {
        lemma_subset_count_le_len(elems.drop_last(), subset);
    }
}

proof fn lemma_subset_count_push(elems: Seq<ElementModel>, e: ElementModel)
    ensures
        forall|subset: Seq<u64>|
            #[trigger] subset_count(elems.push(e), subset) == subset_count(elems, subset)
                + if samples_of(e) == subset {
                1int
            } else {
                0int
            },
{
    assert(elems.push(e).drop_last() =~= elems);
}

proof fn lemma_subset_count_uniform(elems: Seq<ElementModel>, u: Seq<u64>)
    requires
        forall|j: int| 0 <= j < elems.len() ==> samples_of(#[trigger] elems[j]) == u,
    ensures
        subset_count(elems, u) == elems.len(),
        forall|s: Seq<u64>| s != u ==> subset_count(elems, s) == 0,
    decreases elems.len(),
{
    if elems.len() > 0 {
        assert(forall|j: int| 0 <= j < elems.len() - 1 ==> elems.drop_last()[j] == elems[j]);
        lemma_subset_count_uniform(elems.drop_last(), u);
        assert(samples_of(elems.last()) == u);
        assert forall|s: Seq<u64>| s != u implies subset_count(elems, s) == 0 by {
            assert(subset_count(elems.drop_last(), s) == 0);
            assert(subset_count(elems, s) == subset_count(elems.drop_last(), s)
                + if samples_of(elems.last()) == s { 1int } else { 0int });
        }
    }
}

/// Law: re-running the overlap count on the same inputs yields identical
/// counts for every subset; the result is a function of the streams alone,
/// with no hidden iteration-order nondeterminism.
pub proof fn lemma_overlap_idempotent(
    streams: Seq<NamedStream>,
    r1: VecKeyHistogram,
    r2: VecKeyHistogram,
)
    requires
        forall|s: Seq<u64>| r1.count_of(s) == subset_count(full_merge(streams), s),
        forall|s: Seq<u64>| r2.count_of(s) == subset_count(full_merge(streams), s),
    ensures
        forall|s: Seq<u64>| r1.count_of(s) == r2.count_of(s),
{
}

/// Law: a single-sample input attributes every key to the subset holding
/// only that sample, and to no other subset.
pub proof fn lemma_single_sample_overlap(streams: Seq<NamedStream>)
    requires
        streams.len() == 1,
    ensures
        subset_count(full_merge(streams), seq![0u64]) == full_merge(streams).len(),
        forall|s: Seq<u64>| s != seq![0u64] ==> subset_count(full_merge(streams), s) == 0,
{
    let zeros = initial_cursors(streams.len());
    assert(cursors_valid(streams, zeros));
    lemma_merge_single_sample(streams, zeros);
    lemma_subset_count_uniform(full_merge(streams), seq![0u64]);
}

/// The ascending sample indices of a merged element, widened to `u64`.
fn samples_key(elem: &MergedElement) -> (r: Vec<u64>)
    ensures
        r@ == samples_of(elem@),
{
    let mut key: Vec<u64> = Vec::new();
    let n = elem.entries.len();
    let mut i: usize = 0;
    while i < n
        invariant
            0 <= i <= n,
            n == elem.entries.len(),
            key@ =~= elem.entries@.subrange(0, i as int).map_values(
                |e: MergedEntry| e.sample as u64,
            ),
        decreases n - i,
    {
        key.push(elem.entries[i].sample as u64);
        proof {
            assert(elem.entries@.subrange(0, i + 1).drop_last() =~= elem.entries@.subrange(
                0,
                i as int,
            ));
            assert(key@ =~= elem.entries@.subrange(0, i + 1).map_values(
                |e: MergedEntry| e.sample as u64,
            ));
        }
        i = i + 1;
    }
    proof {
        assert(elem.entries@.subrange(0, n as int) =~= elem.entries@);
        assert(key@ =~= samples_of(elem@));
    }
    key
}

/// Count, for every subset of samples, how many keys of the merged stream
/// collection are present in exactly that subset of samples. Subsets are
/// keyed by the ascending sample indices of the input order.
pub fn overlap(streams: Vec<NamedStream>) -> (r: VecKeyHistogram)
    requires
        streams_sorted(streams@),
        total_groups(streams@) <= u64::MAX,
    ensures
        r.wf(),
        forall|subset: Seq<u64>| r.count_of(subset) == subset_count(full_merge(streams@), subset),
        r.total_count() == full_merge(streams@).len(),
{
    let ghost streams0 = streams@;
    let mut merger = KeyedStreamMerger::new(streams);
    let ghost full = full_merge(streams0);
    let ghost mut done: Seq<ElementModel> = Seq::empty();
    let mut hist = VecKeyHistogram::new();
    proof {
        lemma_merge_model_len(streams0, initial_cursors(streams0.len()));
        assert(done + merger.pending() =~= full);
    }
    loop
        invariant
            merger.wf(),
            merger.streams_view() == streams0,
            hist.wf(),
            full == full_merge(streams0),
            full.len() <= u64::MAX,
            full == done + merger.pending(),
            forall|subset: Seq<u64>| hist.count_of(subset) == subset_count(done, subset),
            hist.total_count() == done.len(),
        ensures
            hist.wf(),
            forall|subset: Seq<u64>| hist.count_of(subset) == subset_count(full, subset),
            hist.total_count() == full.len(),
        decreases merger.pending().len(),
    {
        let ghost pending0 = merger.pending();
        match merger.next() {
            None => {
                proof {
                    assert(done =~= full);
                }
                break;
            },
            Some(e) => {
                let key = samples_key(&e);
                proof {
                    lemma_subset_count_le_len(done, key@);
                    assert(done.len() < full.len());
                }
                hist.add_one(key);
                proof {
                    lemma_subset_count_push(done, e@);
                    assert(e@ == pending0[0]);
                    done = done.push(e@);
                    assert(done + merger.pending() =~= full);
                }
            },
        }
    }
    hist
}

} // verus!
