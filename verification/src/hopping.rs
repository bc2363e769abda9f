//! Index-hopping filter. For each merged element keyed by (barcode, umi):
//! a key observed in exactly one sample has that sample's record group
//! appended to the sample's "kept" partition; a key observed in two or more
//! samples has every present sample's group appended to that sample's
//! "removed" partition. Within one sample's partition, records keep the
//! ascending key order of the merge.

use vstd::prelude::*;
use crate::fingerprint::entry_for;
use crate::fingerprint::lemma_entry_for_props;
use crate::merger::ElementModel;
use crate::merger::KeyedStreamMerger;
use crate::merger::full_merge;
use crate::merger::initial_cursors;
use crate::merger::lemma_merge_model_entries;
use crate::merger::lemma_merge_single_sample;
use crate::merger::samples_of;
use crate::records::NamedStream;
use crate::records::Record;
use crate::records::copy_records;
use crate::records::streams_sorted;

verus! {

/// Records of sample `i` kept by the filter over `elems`: the concatenated
/// groups of the keys that sample `i` alone exhibited, in merge order.
pub open spec fn kept_for(elems: Seq<ElementModel>, i: int) -> Seq<Record>
    decreases elems.len(),
{
    if elems.len() == 0 {
        Seq::empty()
    } else {
        kept_for(elems.drop_last(), i) + if elems.last().1.len() == 1 && elems.last().1[0].0
            == i {
            elems.last().1[0].1
        } else {
            Seq::empty()
        }
    }
}

/// Records of sample `i` removed by the filter over `elems`: the
/// concatenated groups of the keys that two or more samples exhibited, in
/// merge order.
pub open spec fn removed_for(elems: Seq<ElementModel>, i: int) -> Seq<Record>
    decreases elems.len(),
{
    if elems.len() == 0 {
        Seq::empty()
    } else {
        removed_for(elems.drop_last(), i) + if elems.last().1.len() >= 2 {
            match entry_for(elems.last().1, i) {
                None => Seq::empty(),
                Some(r) => r,
            }
        } else {
            Seq::empty()
        }
    }
}

proof fn lemma_partition_push(elems: Seq<ElementModel>, e: ElementModel)
    ensures
        forall|i: int|
            #[trigger] kept_for(elems.push(e), i) == kept_for(elems, i) + if e.1.len() == 1
                && e.1[0].0 == i {
                e.1[0].1
            } else {
                Seq::<Record>::empty()
            },
        forall|i: int|
            #[trigger] removed_for(elems.push(e), i) == removed_for(elems, i) + if e.1.len()
                >= 2 {
                match entry_for(e.1, i) {
                    None => Seq::<Record>::empty(),
                    Some(r) => r,
                }
            } else {
                Seq::<Record>::empty()
            },
{
    assert(elems.push(e).drop_last() =~= elems);
}

/// The filter's output: one kept and one removed record partition per
/// sample, in slot order.
pub struct FilterPartition {
    /// Per sample, the records of keys seen in that sample alone.
    pub kept: Vec<Vec<Record>>,
    /// Per sample, the records of keys seen in two or more samples.
    pub removed: Vec<Vec<Record>>,
}

/// Append a copy of `src` to `dst`.
fn append_records(dst: &mut Vec<Record>, src: &Vec<Record>)
    ensures
        final(dst)@ == old(dst)@ + src@,
{
    let n = src.len();
    let mut i: usize = 0;
    while i < n
        invariant
            0 <= i <= n,
            n == src.len(),
            dst@ =~= old(dst)@ + src@.subrange(0, i as int),
        decreases n - i,
    {
        dst.push(src[i]);
        proof {
            assert(dst@ =~= old(dst)@ + src@.subrange(0, i + 1));
        }
        i = i + 1;
    }
    proof {
        assert(src@.subrange(0, n as int) =~= src@);
    }
}

/// Partition the merged stream collection keyed by (barcode, umi): each
/// key's record groups go to the sole present sample's kept partition, or,
/// when two or more samples share the key, to every present sample's
/// removed partition.
pub fn filter_hopping(streams: Vec<NamedStream>) -> (r: FilterPartition)
    requires
        streams_sorted(streams@),
    ensures
        r.kept@.len() == streams@.len(),
        r.removed@.len() == streams@.len(),
        forall|i: int|
            0 <= i < streams@.len() ==> (#[trigger] r.kept@[i])@ == kept_for(
                full_merge(streams@),
                i,
            ),
        forall|i: int|
            0 <= i < streams@.len() ==> (#[trigger] r.removed@[i])@ == removed_for(
                full_merge(streams@),
                i,
            ),
{
    let ghost streams0 = streams@;
    let n = streams.len();
    let mut merger = KeyedStreamMerger::new(streams);
    let ghost full = full_merge(streams0);
    let ghost mut done: Seq<ElementModel> = Seq::empty();

    let mut kept: Vec<Vec<Record>> = Vec::new();
    let mut removed: Vec<Vec<Record>> = Vec::new();
    let mut i: usize = 0;
    while i < n
        invariant
            0 <= i <= n,
            kept@.len() == i,
            removed@.len() == i,
            forall|j: int| 0 <= j < i ==> (#[trigger] kept@[j])@ =~= Seq::<Record>::empty(),
            forall|j: int| 0 <= j < i ==> (#[trigger] removed@[j])@ =~= Seq::<Record>::empty(),
        decreases n - i,
    {
        kept.push(Vec::new());
        removed.push(Vec::new());
        i = i + 1;
    }

    proof {
        lemma_merge_model_entries(streams0, initial_cursors(streams0.len()));
        assert(done + merger.pending() =~= full);
    }
    loop
        invariant
            merger.wf(),
            merger.streams_view() == streams0,
            n == streams0.len(),
            full == full_merge(streams0),
            full == done + merger.pending(),
            kept@.len() == n,
            removed@.len() == n,
            forall|j: int, p: int|
                0 <= j < full.len() && 0 <= p < full[j].1.len() ==> 0 <= (
                #[trigger] full[j].1[p]).0 < streams0.len(),
            forall|j: int, p: int, q: int|
                0 <= j < full.len() && 0 <= p < q < full[j].1.len() ==> (
                #[trigger] full[j].1[p]).0 < (#[trigger] full[j].1[q]).0,
            forall|s: int| 0 <= s < n ==> (#[trigger] kept@[s])@ == kept_for(done, s),
            forall|s: int| 0 <= s < n ==> (#[trigger] removed@[s])@ == removed_for(done, s),
        ensures
            kept@.len() == n,
            removed@.len() == n,
            forall|s: int| 0 <= s < n ==> (#[trigger] kept@[s])@ == kept_for(full, s),
            forall|s: int| 0 <= s < n ==> (#[trigger] removed@[s])@ == removed_for(full, s),
        decreases merger.pending().len(),
    {
        match merger.next() {
            None => {
                proof {
                    assert(done =~= full);
                }
                break;
            },
            Some(e) => {
                proof {
                    assert(e@ == full[done.len() as int]);
                    lemma_partition_push(done, e@);
                }
                let m = e.entries.len();
                if m == 1 {
                    let s = e.entries[0].sample;
                    proof {
                        assert(e@.1[0] == e.entries@[0]@);
                        assert(0 <= e@.1[0].0 < n);
                    }
                    let recs = copy_records(&e.entries[0].records);
                    let dst = &mut kept[s];
                    append_records(dst, &recs);
                    proof {
                        assert(kept@[s as int]@ == kept_for(done, s as int) + e@.1[0].1);
                        assert forall|t: int| 0 <= t < n implies (#[trigger] kept@[t])@
                            == kept_for(done.push(e@), t) by {
                            if t != s as int {
                                assert(kept_for(done.push(e@), t) == kept_for(done, t)
                                    + Seq::<Record>::empty());
                                assert(kept_for(done.push(e@), t) =~= kept_for(done, t));
                            } else {
                                assert(kept_for(done.push(e@), t) == kept_for(done, t)
                                    + e@.1[0].1);
                            }
                        }
                        assert forall|t: int| 0 <= t < n implies (#[trigger] removed@[t])@
                            == removed_for(done.push(e@), t) by {
                            assert(removed_for(done.push(e@), t) == removed_for(done, t)
                                + Seq::<Record>::empty());
                            assert(removed_for(done.push(e@), t) =~= removed_for(done, t));
                        }
                    }
                } else {
                    proof {
                        assert forall|t: int| 0 <= t < n implies (#[trigger] removed@[t])@
                            == removed_for(done, t) + partial_removed(e@, t, 0) by {
                            assert(removed_for(done, t) + partial_removed(e@, t, 0)
                                =~= removed_for(done, t));
                        }
                    }
                    let mut q: usize = 0;
                    while q < m
                        invariant
                            0 <= q <= m,
                            m == e.entries@.len(),
                            m >= 2,
                            n == streams0.len(),
                            kept@.len() == n,
                            removed@.len() == n,
                            forall|p: int| 0 <= p < m ==> e@.1[p] == e.entries@[p]@,
                            forall|p: int| 0 <= p < m ==> 0 <= (#[trigger] e@.1[p]).0 < n,
                            forall|p: int, pp: int|
                                0 <= p < pp < m ==> (#[trigger] e@.1[p]).0 < (
                                #[trigger] e@.1[pp]).0,
                            forall|s: int| 0 <= s < n ==> (#[trigger] kept@[s])@ == kept_for(
                                done,
                                s,
                            ),
                            forall|s: int|
                                0 <= s < n ==> (#[trigger] removed@[s])@ == removed_for(done, s)
                                    + partial_removed(e@, s, q as int),
                        decreases m - q,
                    {
                        let s = e.entries[q].sample;
                        proof {
                            assert(e@.1[q as int] == e.entries@[q as int]@);
                            assert(0 <= e@.1[q as int].0 < n);
                        }
                        let recs = copy_records(&e.entries[q].records);
                        let dst = &mut removed[s];
                        append_records(dst, &recs);
                        proof {
                            assert(e@.1[q as int].0 == s as int);
                            assert forall|t: int| 0 <= t < n implies (#[trigger] removed@[t])@
                                == removed_for(done, t) + partial_removed(e@, t, q + 1) by {
                                lemma_partial_removed_step(e@, t, q as int);
                                if t == s as int {
                                    assert(partial_removed(e@, t, q + 1) =~= partial_removed(
                                        e@,
                                        t,
                                        q as int,
                                    ) + e@.1[q as int].1);
                                } else {
                                    assert(partial_removed(e@, t, q + 1) =~= partial_removed(
                                        e@,
                                        t,
                                        q as int,
                                    ));
                                }
                            }
                        }
                        q = q + 1;
                    }
                    proof {
                        assert forall|t: int| 0 <= t < n implies (#[trigger] removed@[t])@
                            == removed_for(done.push(e@), t) by {
                            lemma_partial_removed_full(e@, t);
                            assert(removed_for(done.push(e@), t) == removed_for(done, t)
                                + match entry_for(e@.1, t) {
                                None => Seq::<Record>::empty(),
                                Some(r) => r,
                            });
                        }
                        assert forall|t: int| 0 <= t < n implies (#[trigger] kept@[t])@
                            == kept_for(done.push(e@), t) by {
                            assert(kept_for(done.push(e@), t) == kept_for(done, t)
                                + Seq::<Record>::empty());
                            assert(kept_for(done.push(e@), t) =~= kept_for(done, t));
                        }
                    }
                }
                proof {
                    done = done.push(e@);
                    assert(done + merger.pending() =~= full);
                }
            },
        }
    }
    FilterPartition { kept, removed }
}

/// Records of sample `i` among the first `q` entries of an element.
pub open spec fn partial_removed(elem: ElementModel, i: int, q: int) -> Seq<Record>
    decreases q,
{
    if q <= 0 {
        Seq::empty()
    } else {
        partial_removed(elem, i, q - 1) + if q - 1 < elem.1.len() && elem.1[q - 1].0 == i {
            elem.1[q - 1].1
        } else {
            Seq::empty()
        }
    }
}

proof fn lemma_partial_removed_step(elem: ElementModel, i: int, q: int)
    requires
        0 <= q,
    ensures
        partial_removed(elem, i, q + 1) == partial_removed(elem, i, q) + if q < elem.1.len()
            && elem.1[q].0 == i {
            elem.1[q].1
        } else {
            Seq::<Record>::empty()
        },
{
}

/// Once every entry is processed, the accumulated records of sample `i` are
/// exactly its group at the element, or nothing when absent.
proof fn lemma_partial_removed_full(elem: ElementModel, i: int)
    requires
        forall|p: int, q: int| 0 <= p < q < elem.1.len() ==> (#[trigger] elem.1[p]).0 < (
        #[trigger] elem.1[q]).0,
    ensures
        partial_removed(elem, i, elem.1.len() as int) == match entry_for(elem.1, i) {
            None => Seq::<Record>::empty(),
            Some(r) => r,
        },
{
    lemma_entry_for_props(elem.1, i);
    lemma_partial_removed_range(elem, i, elem.1.len() as int);
}

/// The accumulated records over the first `q` entries: empty when no entry
/// among them belongs to sample `i`, or that single entry's records.
proof fn lemma_partial_removed_range(elem: ElementModel, i: int, q: int)
    requires
        0 <= q <= elem.1.len(),
        forall|p: int, pp: int| 0 <= p < pp < elem.1.len() ==> (#[trigger] elem.1[p]).0 < (
        #[trigger] elem.1[pp]).0,
    ensures
        (forall|p: int| 0 <= p < q ==> (#[trigger] elem.1[p]).0 != i) ==> partial_removed(
            elem,
            i,
            q,
        ) == Seq::<Record>::empty(),
        forall|p: int|
            0 <= p < q && (#[trigger] elem.1[p]).0 == i ==> partial_removed(elem, i, q)
                == elem.1[p].1,
    decreases q,
{
    if q > 0 {
        lemma_partial_removed_range(elem, i, q - 1);
        if elem.1[q - 1].0 == i {
            assert(forall|p: int| 0 <= p < q - 1 ==> (#[trigger] elem.1[p]).0 < elem.1[q - 1].0);
            assert(partial_removed(elem, i, q - 1) =~= Seq::<Record>::empty());
            assert(partial_removed(elem, i, q) =~= elem.1[q - 1].1);
            assert forall|p: int| 0 <= p < q && (#[trigger] elem.1[p]).0 == i implies
                partial_removed(elem, i, q) == elem.1[p].1 by {
                if p < q - 1 {
                    assert(elem.1[p].0 < elem.1[q - 1].0);
                }
            }
        } else {
            assert(partial_removed(elem, i, q) == partial_removed(elem, i, q - 1)
                + Seq::<Record>::empty());
            assert(partial_removed(elem, i, q) =~= partial_removed(elem, i, q - 1));
            assert forall|p: int| 0 <= p < q && (#[trigger] elem.1[p]).0 == i implies
                partial_removed(elem, i, q) == elem.1[p].1 by {
                assert(p < q - 1);
            }
        }
    }
}

/// Law: with a single input sample, nothing is ever removed: every key is
/// seen in exactly one sample, so every removed partition stays empty.
pub proof fn lemma_single_sample_removes_nothing(streams: Seq<NamedStream>)
    requires
        streams.len() == 1,
    ensures
        forall|i: int| removed_for(full_merge(streams), i) == Seq::<Record>::empty(),
{
    let zeros = initial_cursors(streams.len());
    lemma_merge_single_sample(streams, zeros);
    lemma_removed_empty_when_single(full_merge(streams));
}

proof fn lemma_removed_empty_when_single(elems: Seq<ElementModel>)
    requires
        forall|j: int| 0 <= j < elems.len() ==> samples_of(#[trigger] elems[j]) == seq![0u64],
    ensures
        forall|i: int| removed_for(elems, i) == Seq::<Record>::empty(),
    decreases elems.len(),
{
    if elems.len() > 0 {
        assert(forall|j: int| 0 <= j < elems.len() - 1 ==> elems.drop_last()[j] == elems[j]);
        lemma_removed_empty_when_single(elems.drop_last());
        assert(samples_of(elems.last()) == seq![0u64]);
        assert(samples_of(elems.last()).len() == elems.last().1.len());
        assert forall|i: int| removed_for(elems, i) == Seq::<Record>::empty() by {
            assert(elems.last().1.len() == 1);
            assert(removed_for(elems, i) == removed_for(elems.drop_last(), i)
                + Seq::<Record>::empty());
            assert(removed_for(elems, i) =~= removed_for(elems.drop_last(), i));
        }
    }
}

} // verus!
