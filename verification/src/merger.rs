//! Synchronized k-way merge of named, individually sorted keyed streams.
//!
//! One lookahead cursor is kept per stream. Each step finds the minimum key
//! among the live cursors and emits one element holding every stream whose
//! cursor sits at that key, advancing exactly those cursors; streams whose
//! cursors are exhausted drop out of future comparisons. The merge is lazy,
//! single pass and not restartable; if an input stream violates the
//! sortedness precondition the result is unspecified rather than checked.

use vstd::prelude::*;
use crate::records::Key;
use crate::records::KeyedGroup;
use crate::records::MergedElement;
use crate::records::MergedEntry;
use crate::records::NamedStream;
use crate::records::Record;
use crate::records::copy_records;
use crate::records::groups_sorted;
use crate::records::key_less;
use crate::records::key_lt;
use crate::records::seq_reads;
use crate::records::streams_sorted;

verus! {

/// Spec image of one merged element: its key and, per contributing sample in
/// ascending index order, the sample's index and record group.
pub type ElementModel = (Key, Seq<(int, Seq<Record>)>);

/// Every cursor lies within its stream.
pub open spec fn cursors_valid(streams: Seq<NamedStream>, cursors: Seq<usize>) -> bool {
    &&& cursors.len() == streams.len()
    &&& forall|i: int| 0 <= i < streams.len() ==> #[trigger] cursors[i] <= streams[i].groups@.len()
}

/// Stream `i` still has unconsumed groups.
pub open spec fn live(streams: Seq<NamedStream>, cursors: Seq<usize>, i: int) -> bool {
    0 <= i < streams.len() && cursors[i] < streams[i].groups@.len()
}

/// The key stream `i`'s cursor currently points at.
pub open spec fn cursor_key(streams: Seq<NamedStream>, cursors: Seq<usize>, i: int) -> Key {
    streams[i].groups@[cursors[i] as int].key
}

/// The record group stream `i`'s cursor currently points at.
pub open spec fn records_at(streams: Seq<NamedStream>, cursors: Seq<usize>, i: int) -> Seq<
    Record,
> {
    streams[i].groups@[cursors[i] as int].records@
}

/// Minimum key among the live cursors of streams `0..n`, or `None` when all
/// are exhausted.
pub open spec fn min_live_key_upto(
    streams: Seq<NamedStream>,
    cursors: Seq<usize>,
    n: int,
) -> Option<Key>
    decreases n,
{
    if n <= 0 {
        None::<Key>
    } else {
        let rest = min_live_key_upto(streams, cursors, n - 1);
        if !live(streams, cursors, n - 1) {
            rest
        } else {
            let k = cursor_key(streams, cursors, n - 1);
            match rest {
                None => Some(k),
                Some(m) => if key_lt(k, m) {
                    Some(k)
                } else {
                    Some(m)
                },
            }
        }
    }
}

/// Minimum key among all live cursors.
pub open spec fn min_live_key(streams: Seq<NamedStream>, cursors: Seq<usize>) -> Option<Key> {
    min_live_key_upto(streams, cursors, streams.len() as int)
}

/// Contributions of streams `0..n` to the element at key `k`: the samples
/// whose cursor sits at `k`, with their groups, in ascending index order.
pub open spec fn entries_upto(
    streams: Seq<NamedStream>,
    cursors: Seq<usize>,
    k: Key,
    n: int,
) -> Seq<(int, Seq<Record>)>
    decreases n,
{
    if n <= 0 {
        Seq::empty()
    } else {
        entries_upto(streams, cursors, k, n - 1) + if live(streams, cursors, n - 1)
            && cursor_key(streams, cursors, n - 1) == k {
            seq![((n - 1) as int, records_at(streams, cursors, n - 1))]
        } else {
            Seq::empty()
        }
    }
}

/// The merged element produced at key `k` from the current cursors.
pub open spec fn element_model(
    streams: Seq<NamedStream>,
    cursors: Seq<usize>,
    k: Key,
) -> ElementModel {
    (k, entries_upto(streams, cursors, k, streams.len() as int))
}

/// Cursor state after emitting the element at key `k`: every cursor sitting
/// at `k` moves one group forward.
pub open spec fn advanced_cursors(
    streams: Seq<NamedStream>,
    cursors: Seq<usize>,
    k: Key,
) -> Seq<usize> {
    Seq::new(
        cursors.len(),
        |i: int|
            if live(streams, cursors, i) && cursor_key(streams, cursors, i) == k {
                (cursors[i] + 1) as usize
            } else {
                cursors[i]
            },
    )
}

/// Number of unconsumed groups over streams `0..n`.
pub open spec fn remaining_upto(streams: Seq<NamedStream>, cursors: Seq<usize>, n: int) -> int
    decreases n,
{
    if n <= 0 {
        0
    } else {
        remaining_upto(streams, cursors, n - 1) + streams[n - 1].groups@.len() - cursors[n - 1]
    }
}

/// Number of unconsumed groups over all streams.
pub open spec fn remaining(streams: Seq<NamedStream>, cursors: Seq<usize>) -> int {
    remaining_upto(streams, cursors, streams.len() as int)
}

/// The full merged sequence from the given cursor state: one element per
/// distinct remaining key, in merge order.
pub open spec fn merge_model(streams: Seq<NamedStream>, cursors: Seq<usize>) -> Seq<ElementModel>
    decreases remaining(streams, cursors),
    when cursors_valid(streams, cursors)
    via merge_model_decreases
{
    match min_live_key(streams, cursors) {
        None => Seq::empty(),
        Some(k) => seq![element_model(streams, cursors, k)] + merge_model(
            streams,
            advanced_cursors(streams, cursors, k),
        ),
    }
}

#[via_fn]
proof fn merge_model_decreases(streams: Seq<NamedStream>, cursors: Seq<usize>) {
    if cursors_valid(streams, cursors) {
        match min_live_key(streams, cursors) {
            None => {},
            Some(k) => {
                let n = streams.len() as int;
                lemma_min_live_key_props(streams, cursors);
                lemma_advanced_valid(streams, cursors, k);
                lemma_remaining_nonneg(streams, advanced_cursors(streams, cursors, k), n);
                lemma_remaining_advance(streams, cursors, k, n);
            },
        }
    }
}

/// What the minimum over streams `0..n` means: `None` exactly when no stream
/// is live, otherwise an attained lower bound of the live cursor keys.
pub proof fn lemma_min_live_key_upto_props(
    streams: Seq<NamedStream>,
    cursors: Seq<usize>,
    n: int,
)
    requires
        0 <= n <= streams.len(),
        cursors.len() == streams.len(),
    ensures
        match min_live_key_upto(streams, cursors, n) {
            None => forall|i: int| 0 <= i < n ==> !live(streams, cursors, i),
            Some(k) => (exists|i: int|
                0 <= i < n && live(streams, cursors, i) && cursor_key(streams, cursors, i) == k)
                && (forall|i: int|
                0 <= i < n && live(streams, cursors, i) ==> !key_lt(
                    cursor_key(streams, cursors, i),
                    k,
                )),
        },
    decreases n,
{
    if n > 0 {
        lemma_min_live_key_upto_props(streams, cursors, n - 1);
        match min_live_key_upto(streams, cursors, n) {
            None => {},
            Some(k) => {
                if live(streams, cursors, n - 1) && cursor_key(streams, cursors, n - 1) == k {
                    assert(0 <= n - 1 < n && live(streams, cursors, n - 1) && cursor_key(
                        streams,
                        cursors,
                        n - 1,
                    ) == k);
                } else {
                    let j = choose|i: int|
                        0 <= i < n - 1 && live(streams, cursors, i) && cursor_key(
                            streams,
                            cursors,
                            i,
                        ) == k;
                    assert(0 <= j < n && live(streams, cursors, j) && cursor_key(
                        streams,
                        cursors,
                        j,
                    ) == k);
                }
            },
        }
    }
}

/// The minimum over all streams, `None` exactly when the merge is done.
pub proof fn lemma_min_live_key_props(streams: Seq<NamedStream>, cursors: Seq<usize>)
    requires
        cursors.len() == streams.len(),
    ensures
        match min_live_key(streams, cursors) {
            None => forall|i: int| 0 <= i < streams.len() ==> !live(streams, cursors, i),
            Some(k) => (exists|i: int|
                0 <= i < streams.len() && live(streams, cursors, i) && cursor_key(
                    streams,
                    cursors,
                    i,
                ) == k) && (forall|i: int|
                0 <= i < streams.len() && live(streams, cursors, i) ==> !key_lt(
                    cursor_key(streams, cursors, i),
                    k,
                )),
        },
{
    lemma_min_live_key_upto_props(streams, cursors, streams.len() as int);
}

proof fn lemma_advanced_valid(streams: Seq<NamedStream>, cursors: Seq<usize>, k: Key)
    requires
        cursors_valid(streams, cursors),
    ensures
        cursors_valid(streams, advanced_cursors(streams, cursors, k)),
{
}

proof fn lemma_remaining_nonneg(streams: Seq<NamedStream>, cursors: Seq<usize>, n: int)
    requires
        cursors_valid(streams, cursors),
        n <= streams.len(),
    ensures
        remaining_upto(streams, cursors, n) >= 0,
    decreases n,
{
    if n > 0 {
        lemma_remaining_nonneg(streams, cursors, n - 1);
    }
}

/// Advancing at the emitted key never grows the remaining count, and
/// strictly shrinks it when some stream sits at that key.
proof fn lemma_remaining_advance(streams: Seq<NamedStream>, cursors: Seq<usize>, k: Key, n: int)
    requires
        cursors_valid(streams, cursors),
        0 <= n <= streams.len(),
    ensures
        remaining_upto(streams, advanced_cursors(streams, cursors, k), n) <= remaining_upto(
            streams,
            cursors,
            n,
        ),
        (exists|i: int|
            0 <= i < n && live(streams, cursors, i) && cursor_key(streams, cursors, i) == k)
            ==> remaining_upto(streams, advanced_cursors(streams, cursors, k), n) < remaining_upto(
            streams,
            cursors,
            n,
        ),
    decreases n,
{
    if n > 0 {
        lemma_remaining_advance(streams, cursors, k, n - 1);
        let adv = advanced_cursors(streams, cursors, k);
        if live(streams, cursors, n - 1) && cursor_key(streams, cursors, n - 1) == k {
            assert(streams[n - 1].groups.len() == streams[n - 1].groups@.len());
            assert(cursors[n - 1] + 1 <= usize::MAX);
            assert(adv[n - 1] == cursors[n - 1] + 1);
        } else {
            assert(adv[n - 1] == cursors[n - 1]);
            if exists|i: int|
                0 <= i < n && live(streams, cursors, i) && cursor_key(streams, cursors, i) == k {
                let j = choose|i: int|
                    0 <= i < n && live(streams, cursors, i) && cursor_key(streams, cursors, i)
                        == k;
                assert(0 <= j < n - 1 && live(streams, cursors, j) && cursor_key(
                    streams,
                    cursors,
                    j,
                ) == k);
            }
        }
    }
}

/// What the contributions to an element are: exactly the live streams whose
/// cursor key equals the element's key, in ascending sample order, each with
/// the group its cursor points at.
pub proof fn lemma_entries_upto_props(
    streams: Seq<NamedStream>,
    cursors: Seq<usize>,
    k: Key,
    n: int,
)
    requires
        0 <= n <= streams.len(),
        cursors.len() == streams.len(),
    ensures
        forall|p: int|
            0 <= p < entries_upto(streams, cursors, k, n).len() ==> {
                let e = #[trigger] entries_upto(streams, cursors, k, n)[p];
                0 <= e.0 < n && live(streams, cursors, e.0) && cursor_key(streams, cursors, e.0)
                    == k && e.1 == records_at(streams, cursors, e.0)
            },
        forall|p: int, q: int|
            0 <= p < q < entries_upto(streams, cursors, k, n).len() ==> entries_upto(
                streams,
                cursors,
                k,
                n,
            )[p].0 < entries_upto(streams, cursors, k, n)[q].0,
        forall|i: int|
            0 <= i < n && live(streams, cursors, i) && cursor_key(streams, cursors, i) == k
                ==> entries_upto(streams, cursors, k, n).contains(
                (i, records_at(streams, cursors, i)),
            ),
    decreases n,
{
    if n > 0 {
        lemma_entries_upto_props(streams, cursors, k, n - 1);
        let prev = entries_upto(streams, cursors, k, n - 1);
        let cur = entries_upto(streams, cursors, k, n);
        if live(streams, cursors, n - 1) && cursor_key(streams, cursors, n - 1) == k {
            assert(cur == prev + seq![((n - 1) as int, records_at(streams, cursors, n - 1))]);
            assert(cur[prev.len() as int] == ((n - 1) as int, records_at(streams, cursors, n - 1)));
            assert forall|i: int|
                0 <= i < n && live(streams, cursors, i) && cursor_key(streams, cursors, i) == k
                    implies cur.contains((i, records_at(streams, cursors, i))) by {
                if i < n - 1 {
                    let p = choose|p: int|
                        0 <= p < prev.len() && prev[p] == (i, records_at(streams, cursors, i));
                    assert(cur[p] == (i, records_at(streams, cursors, i)));
                } else {
                    assert(cur[prev.len() as int] == (i, records_at(streams, cursors, i)));
                }
            }
        } else {
            assert(cur =~= prev);
            assert forall|i: int|
                0 <= i < n && live(streams, cursors, i) && cursor_key(streams, cursors, i) == k
                    implies cur.contains((i, records_at(streams, cursors, i))) by {
                let p = choose|p: int|
                    0 <= p < prev.len() && prev[p] == (i, records_at(streams, cursors, i));
                assert(cur[p] == (i, records_at(streams, cursors, i)));
            }
        }
    }
}

/// Cursor state before any element has been produced.
pub open spec fn initial_cursors(n: nat) -> Seq<usize> {
    Seq::new(n, |i: int| 0usize)
}

/// The whole merged sequence of a stream collection, from the start.
pub open spec fn full_merge(streams: Seq<NamedStream>) -> Seq<ElementModel> {
    merge_model(streams, initial_cursors(streams.len()))
}

/// Total number of groups over all streams; every merge produces at most
/// this many elements.
pub open spec fn total_groups(streams: Seq<NamedStream>) -> int {
    remaining(streams, initial_cursors(streams.len()))
}

/// The merge never produces more elements than there are unconsumed groups.
pub proof fn lemma_merge_model_len(streams: Seq<NamedStream>, cursors: Seq<usize>)
    requires
        cursors_valid(streams, cursors),
    ensures
        merge_model(streams, cursors).len() <= remaining(streams, cursors),
    decreases remaining(streams, cursors),
{
    lemma_remaining_nonneg(streams, cursors, streams.len() as int);
    match min_live_key(streams, cursors) {
        None => {},
        Some(k) => {
            lemma_min_live_key_props(streams, cursors);
            lemma_advanced_valid(streams, cursors, k);
            lemma_remaining_advance(streams, cursors, k, streams.len() as int);
            lemma_remaining_nonneg(
                streams,
                advanced_cursors(streams, cursors, k),
                streams.len() as int,
            );
            lemma_merge_model_len(streams, advanced_cursors(streams, cursors, k));
        },
    }
}

/// A merged element lists sample `i` among its contributions.
pub open spec fn element_has_sample(elem: ElementModel, i: int) -> bool {
    exists|p: int| 0 <= p < elem.1.len() && (#[trigger] elem.1[p]).0 == i
}

/// Law: the samples present in a merged element are exactly the streams
/// whose cursor key equals the element's key.
pub proof fn lemma_element_samples(streams: Seq<NamedStream>, cursors: Seq<usize>, k: Key)
    requires
        cursors_valid(streams, cursors),
    ensures
        forall|i: int|
            0 <= i < streams.len() ==> (element_has_sample(element_model(streams, cursors, k), i)
                <==> (live(streams, cursors, i) && cursor_key(streams, cursors, i) == k)),
{
    let n = streams.len() as int;
    let elem = element_model(streams, cursors, k);
    let es = entries_upto(streams, cursors, k, n);
    lemma_entries_upto_props(streams, cursors, k, n);
    assert forall|i: int|
        0 <= i < streams.len() implies (element_has_sample(elem, i) <==> (live(streams, cursors, i)
        && cursor_key(streams, cursors, i) == k)) by {
        if live(streams, cursors, i) && cursor_key(streams, cursors, i) == k {
            assert(es.contains((i, records_at(streams, cursors, i))));
            let p = choose|p: int|
                0 <= p < es.len() && es[p] == (i, records_at(streams, cursors, i));
            assert(0 <= p < elem.1.len() && elem.1[p].0 == i);
            assert(element_has_sample(elem, i));
        }
        if element_has_sample(elem, i) {
            let p = choose|p: int| 0 <= p < elem.1.len() && elem.1[p].0 == i;
            assert(es[p].0 == i);
            assert(live(streams, cursors, i) && cursor_key(streams, cursors, i) == k);
        }
    }
}

/// Every live cursor key after advancing past the minimum key `k` is
/// strictly greater than `k`.
proof fn lemma_advanced_keys_greater(streams: Seq<NamedStream>, cursors: Seq<usize>, k: Key)
    requires
        cursors_valid(streams, cursors),
        streams_sorted(streams),
        min_live_key(streams, cursors) == Some(k),
    ensures
        forall|i: int|
            live(streams, advanced_cursors(streams, cursors, k), i) ==> key_lt(
                k,
                cursor_key(streams, advanced_cursors(streams, cursors, k), i),
            ),
{
    let adv = advanced_cursors(streams, cursors, k);
    lemma_min_live_key_props(streams, cursors);
    assert forall|i: int| live(streams, adv, i) implies key_lt(k, cursor_key(streams, adv, i)) by {
        assert(groups_sorted(streams[i].groups@));
        if live(streams, cursors, i) && cursor_key(streams, cursors, i) == k {
            assert(streams[i].groups.len() == streams[i].groups@.len());
            assert(adv[i] == cursors[i] + 1);
            assert(key_lt(
                streams[i].groups@[cursors[i] as int].key,
                streams[i].groups@[cursors[i] + 1].key,
            ));
        } else {
            assert(adv[i] == cursors[i]);
            assert(live(streams, cursors, i));
            assert(!key_lt(cursor_key(streams, cursors, i), k));
            assert(cursor_key(streams, cursors, i) != k);
        }
    }
}

/// Law: merged elements come in strictly ascending key order.
pub proof fn lemma_merge_keys_ascending(streams: Seq<NamedStream>, cursors: Seq<usize>)
    requires
        cursors_valid(streams, cursors),
        streams_sorted(streams),
    ensures
        forall|p: int, q: int|
            0 <= p < q < merge_model(streams, cursors).len() ==> key_lt(
                merge_model(streams, cursors)[p].0,
                merge_model(streams, cursors)[q].0,
            ),
        match min_live_key(streams, cursors) {
            None => merge_model(streams, cursors).len() == 0,
            Some(k) => forall|q: int|
                0 <= q < merge_model(streams, cursors).len() ==> !key_lt(
                    (#[trigger] merge_model(streams, cursors)[q]).0,
                    k,
                ),
        },
    decreases remaining(streams, cursors),
{
    lemma_remaining_nonneg(streams, cursors, streams.len() as int);
    match min_live_key(streams, cursors) {
        None => {},
        Some(k) => {
            let model = merge_model(streams, cursors);
            lemma_min_live_key_props(streams, cursors);
            lemma_advanced_valid(streams, cursors, k);
            lemma_remaining_advance(streams, cursors, k, streams.len() as int);
            let adv = advanced_cursors(streams, cursors, k);
            lemma_remaining_nonneg(streams, adv, streams.len() as int);
            lemma_merge_keys_ascending(streams, adv);
            lemma_advanced_keys_greater(streams, cursors, k);
            let tail = merge_model(streams, adv);
            assert(model == seq![element_model(streams, cursors, k)] + tail);
            assert(model[0].0 == k);
            match min_live_key(streams, adv) {
                None => {
                    assert(tail.len() == 0);
                },
                Some(m) => {
                    lemma_min_live_key_props(streams, adv);
                    let w = choose|i: int|
                        0 <= i < streams.len() && live(streams, adv, i) && cursor_key(
                            streams,
                            adv,
                            i,
                        ) == m;
                    assert(key_lt(k, m));
                    assert forall|q: int| 0 <= q < model.len() implies !key_lt(model[q].0, k) by {
                        if q > 0 {
                            assert(model[q] == tail[q - 1]);
                            assert(!key_lt(tail[q - 1].0, m));
                        }
                    }
                    assert forall|p: int, q: int| 0 <= p < q < model.len() implies key_lt(
                        model[p].0,
                        model[q].0,
                    ) by {
                        if p == 0 {
                            assert(model[q] == tail[q - 1]);
                            assert(!key_lt(tail[q - 1].0, m));
                            assert(key_lt(k, m));
                        } else {
                            assert(model[p] == tail[p - 1]);
                            assert(model[q] == tail[q - 1]);
                        }
                    }
                },
            }
        },
    }
}

/// The samples contributing to one merged element, as the ascending sequence
/// of their indices: the canonical image of a sample subset.
pub open spec fn samples_of(elem: ElementModel) -> Seq<u64> {
    elem.1.map_values(|e: (int, Seq<Record>)| e.0 as u64)
}

/// Law: with a single input stream, every merged element lists exactly
/// sample zero.
pub proof fn lemma_merge_single_sample(streams: Seq<NamedStream>, cursors: Seq<usize>)
    requires
        streams.len() == 1,
        cursors_valid(streams, cursors),
    ensures
        forall|j: int|
            0 <= j < merge_model(streams, cursors).len() ==> samples_of(
                #[trigger] merge_model(streams, cursors)[j],
            ) == seq![0u64],
    decreases remaining(streams, cursors),
{
    lemma_remaining_nonneg(streams, cursors, 1);
    match min_live_key(streams, cursors) {
        None => {},
        Some(k) => {
            lemma_min_live_key_props(streams, cursors);
            assert(live(streams, cursors, 0) && cursor_key(streams, cursors, 0) == k) by {
                let i = choose|i: int|
                    0 <= i < 1 && live(streams, cursors, i) && cursor_key(streams, cursors, i)
                        == k;
                assert(i == 0);
            }
            assert(entries_upto(streams, cursors, k, 0) =~= Seq::<(int, Seq<Record>)>::empty());
            assert(entries_upto(streams, cursors, k, 1) == entries_upto(streams, cursors, k, 0)
                + seq![(0int, records_at(streams, cursors, 0))]);
            assert(entries_upto(streams, cursors, k, 1) =~= seq![
                (0int, records_at(streams, cursors, 0)),
            ]);
            assert(samples_of(element_model(streams, cursors, k)) =~= seq![0u64]);
            let adv = advanced_cursors(streams, cursors, k);
            lemma_advanced_valid(streams, cursors, k);
            lemma_remaining_advance(streams, cursors, k, 1);
            lemma_remaining_nonneg(streams, adv, 1);
            lemma_merge_single_sample(streams, adv);
            let model = merge_model(streams, cursors);
            let tail = merge_model(streams, adv);
            assert(model == seq![element_model(streams, cursors, k)] + tail);
            assert forall|j: int| 0 <= j < model.len() implies samples_of(model[j]) == seq![0u64]
                by {
                if j > 0 {
                    assert(model[j] == tail[j - 1]);
                }
            }
        },
    }
}

/// Structure of every merged element: at least one contribution, ascending
/// sample indices in range, and each contribution is one of that stream's
/// own groups.
pub proof fn lemma_merge_model_entries(streams: Seq<NamedStream>, cursors: Seq<usize>)
    requires
        cursors_valid(streams, cursors),
    ensures
        forall|j: int|
            0 <= j < merge_model(streams, cursors).len() ==> (#[trigger] merge_model(
                streams,
                cursors,
            )[j]).1.len() >= 1,
        forall|j: int, p: int, q: int|
            0 <= j < merge_model(streams, cursors).len() && 0 <= p < q < merge_model(
                streams,
                cursors,
            )[j].1.len() ==> (#[trigger] merge_model(streams, cursors)[j].1[p]).0 < (
            #[trigger] merge_model(streams, cursors)[j].1[q]).0,
        forall|j: int, p: int|
            0 <= j < merge_model(streams, cursors).len() && 0 <= p < merge_model(
                streams,
                cursors,
            )[j].1.len() ==> {
                let e = #[trigger] merge_model(streams, cursors)[j].1[p];
                0 <= e.0 < streams.len() && exists|c: int|
                    0 <= c < streams[e.0].groups@.len() && e.1 == streams[e.0].groups@[c].records@
            },
    decreases remaining(streams, cursors),
{
    let n = streams.len() as int;
    lemma_remaining_nonneg(streams, cursors, n);
    match min_live_key(streams, cursors) {
        None => {},
        Some(k) => {
            let model = merge_model(streams, cursors);
            let head = element_model(streams, cursors, k);
            lemma_min_live_key_props(streams, cursors);
            lemma_entries_upto_props(streams, cursors, k, n);
            let w = choose|i: int|
                0 <= i < n && live(streams, cursors, i) && cursor_key(streams, cursors, i) == k;
            assert(entries_upto(streams, cursors, k, n).contains(
                (w, records_at(streams, cursors, w)),
            ));
            assert(head.1.len() >= 1);
            assert forall|p: int| 0 <= p < head.1.len() implies {
                let e = #[trigger] head.1[p];
                0 <= e.0 < streams.len() && exists|c: int|
                    0 <= c < streams[e.0].groups@.len() && e.1 == streams[e.0].groups@[c].records@
            } by {
                let e = head.1[p];
                assert(live(streams, cursors, e.0) && e.1 == records_at(streams, cursors, e.0));
                assert(0 <= cursors[e.0 as int] < streams[e.0].groups@.len() && e.1
                    == streams[e.0].groups@[cursors[e.0 as int] as int].records@);
            }
            let adv = advanced_cursors(streams, cursors, k);
            lemma_advanced_valid(streams, cursors, k);
            lemma_remaining_advance(streams, cursors, k, n);
            lemma_remaining_nonneg(streams, adv, n);
            lemma_merge_model_entries(streams, adv);
            let tail = merge_model(streams, adv);
            assert(model == seq![head] + tail);
            assert(forall|j: int| 0 < j < model.len() ==> model[j] == tail[j - 1]);
            assert forall|j: int| 0 <= j < model.len() implies (#[trigger] model[j]).1.len() >= 1
                by {
                if j > 0 {
                    assert(model[j] == tail[j - 1]);
                }
            }
            assert forall|j: int, p: int, q: int|
                0 <= j < model.len() && 0 <= p < q < model[j].1.len() implies (
            #[trigger] model[j].1[p]).0 < (#[trigger] model[j].1[q]).0 by {
                if j > 0 {
                    assert(model[j] == tail[j - 1]);
                    assert(tail[j - 1].1[p].0 < tail[j - 1].1[q].0);
                }
            }
            assert forall|j: int, p: int|
                0 <= j < model.len() && 0 <= p < model[j].1.len() implies {
                let e = #[trigger] model[j].1[p];
                0 <= e.0 < streams.len() && exists|c: int|
                    0 <= c < streams[e.0].groups@.len() && e.1 == streams[e.0].groups@[c].records@
            } by {
                if j > 0 {
                    assert(model[j] == tail[j - 1]);
                    let e = tail[j - 1].1[p];
                    assert(0 <= e.0 < streams.len() && exists|c: int|
                        0 <= c < streams[e.0].groups@.len() && e.1
                            == streams[e.0].groups@[c].records@);
                }
            }
        },
    }
}

/// Records of the unconsumed groups of one stream, from cursor `c` on.
pub open spec fn suffix_units(gs: Seq<KeyedGroup>, c: int) -> int
    decreases gs.len() - c,
{
    if c < 0 || c >= gs.len() {
        0
    } else {
        gs[c].records@.len() + suffix_units(gs, c + 1)
    }
}

/// Read total of the unconsumed groups of one stream, from cursor `c` on.
pub open spec fn suffix_reads(gs: Seq<KeyedGroup>, c: int) -> int
    decreases gs.len() - c,
{
    if c < 0 || c >= gs.len() {
        0
    } else {
        seq_reads(gs[c].records@) + suffix_reads(gs, c + 1)
    }
}

/// Unconsumed record count over streams `0..n`.
pub open spec fn remaining_units_upto(streams: Seq<NamedStream>, cursors: Seq<usize>, n: int) -> int
    decreases n,
{
    if n <= 0 {
        0
    } else {
        remaining_units_upto(streams, cursors, n - 1) + suffix_units(
            streams[n - 1].groups@,
            cursors[n - 1] as int,
        )
    }
}

/// Unconsumed read total over streams `0..n`.
pub open spec fn remaining_reads_upto(streams: Seq<NamedStream>, cursors: Seq<usize>, n: int) -> int
    decreases n,
{
    if n <= 0 {
        0
    } else {
        remaining_reads_upto(streams, cursors, n - 1) + suffix_reads(
            streams[n - 1].groups@,
            cursors[n - 1] as int,
        )
    }
}

/// Record count of every group of every stream.
pub open spec fn total_stream_units(streams: Seq<NamedStream>) -> int {
    remaining_units_upto(streams, initial_cursors(streams.len()), streams.len() as int)
}

/// Read total of every record of every stream.
pub open spec fn total_stream_reads(streams: Seq<NamedStream>) -> int {
    remaining_reads_upto(streams, initial_cursors(streams.len()), streams.len() as int)
}

/// Record count over an element's contributions.
pub open spec fn entries_units(entries: Seq<(int, Seq<Record>)>) -> int
    decreases entries.len(),
{
    if entries.len() == 0 {
        0
    } else {
        entries_units(entries.drop_last()) + entries.last().1.len()
    }
}

/// Read total over an element's contributions.
pub open spec fn entries_reads(entries: Seq<(int, Seq<Record>)>) -> int
    decreases entries.len(),
{
    if entries.len() == 0 {
        0
    } else {
        entries_reads(entries.drop_last()) + seq_reads(entries.last().1)
    }
}

/// Record count over a merged sequence's contributions.
pub open spec fn merged_units(elems: Seq<ElementModel>) -> int
    decreases elems.len(),
{
    if elems.len() == 0 {
        0
    } else {
        merged_units(elems.drop_last()) + entries_units(elems.last().1)
    }
}

/// Read total over a merged sequence's contributions.
pub open spec fn merged_reads(elems: Seq<ElementModel>) -> int
    decreases elems.len(),
{
    if elems.len() == 0 {
        0
    } else {
        merged_reads(elems.drop_last()) + entries_reads(elems.last().1)
    }
}

proof fn lemma_merged_sums_cons(h: ElementModel, t: Seq<ElementModel>)
    ensures
        merged_units(seq![h] + t) == entries_units(h.1) + merged_units(t),
        merged_reads(seq![h] + t) == entries_reads(h.1) + merged_reads(t),
    decreases t.len(),
{
    let c = seq![h] + t;
    if t.len() == 0 {
        assert(c.drop_last() =~= Seq::<ElementModel>::empty());
        assert(c.last() == h);
        assert(merged_units(Seq::<ElementModel>::empty()) == 0);
        assert(merged_reads(Seq::<ElementModel>::empty()) == 0);
        assert(merged_units(c) == merged_units(c.drop_last()) + entries_units(c.last().1));
        assert(merged_reads(c) == merged_reads(c.drop_last()) + entries_reads(c.last().1));
        assert(merged_units(t) == 0);
        assert(merged_reads(t) == 0);
    } else {
        lemma_merged_sums_cons(h, t.drop_last());
        assert(c.drop_last() =~= seq![h] + t.drop_last());
        assert(c.last() == t.last());
        assert(merged_units(c) == merged_units(c.drop_last()) + entries_units(c.last().1));
        assert(merged_reads(c) == merged_reads(c.drop_last()) + entries_reads(c.last().1));
        assert(merged_units(t) == merged_units(t.drop_last()) + entries_units(t.last().1));
        assert(merged_reads(t) == merged_reads(t.drop_last()) + entries_reads(t.last().1));
    }
}

proof fn lemma_remaining_sums_zero(streams: Seq<NamedStream>, cursors: Seq<usize>, n: int)
    requires
        0 <= n <= streams.len(),
        cursors.len() == streams.len(),
        forall|i: int| 0 <= i < streams.len() ==> !live(streams, cursors, i),
    ensures
        remaining_units_upto(streams, cursors, n) == 0,
        remaining_reads_upto(streams, cursors, n) == 0,
    decreases n,
{
    if n > 0 {
        lemma_remaining_sums_zero(streams, cursors, n - 1);
        assert(!live(streams, cursors, n - 1));
        assert(suffix_units(streams[n - 1].groups@, cursors[n - 1] as int) == 0);
        assert(suffix_reads(streams[n - 1].groups@, cursors[n - 1] as int) == 0);
    }
}

proof fn lemma_remaining_sums_advance(streams: Seq<NamedStream>, cursors: Seq<usize>, k: Key, n: int)
    requires
        cursors_valid(streams, cursors),
        0 <= n <= streams.len(),
    ensures
        remaining_units_upto(streams, advanced_cursors(streams, cursors, k), n)
            == remaining_units_upto(streams, cursors, n) - entries_units(
            entries_upto(streams, cursors, k, n),
        ),
        remaining_reads_upto(streams, advanced_cursors(streams, cursors, k), n)
            == remaining_reads_upto(streams, cursors, n) - entries_reads(
            entries_upto(streams, cursors, k, n),
        ),
    decreases n,
{
    if n > 0 {
        lemma_remaining_sums_advance(streams, cursors, k, n - 1);
        let adv = advanced_cursors(streams, cursors, k);
        let prev = entries_upto(streams, cursors, k, n - 1);
        let cur = entries_upto(streams, cursors, k, n);
        if live(streams, cursors, n - 1) && cursor_key(streams, cursors, n - 1) == k {
            assert(streams[n - 1].groups.len() == streams[n - 1].groups@.len());
            assert(adv[n - 1] == cursors[n - 1] + 1);
            assert(suffix_units(streams[n - 1].groups@, cursors[n - 1] as int)
                == streams[n - 1].groups@[cursors[n - 1] as int].records@.len() + suffix_units(
                streams[n - 1].groups@,
                cursors[n - 1] + 1,
            ));
            assert(suffix_reads(streams[n - 1].groups@, cursors[n - 1] as int) == seq_reads(
                streams[n - 1].groups@[cursors[n - 1] as int].records@,
            ) + suffix_reads(streams[n - 1].groups@, cursors[n - 1] + 1));
            assert(cur == prev + seq![((n - 1) as int, records_at(streams, cursors, n - 1))]);
            assert(cur =~= prev.push(((n - 1) as int, records_at(streams, cursors, n - 1))));
            assert(cur.drop_last() =~= prev);
            assert(entries_units(cur) == entries_units(prev) + records_at(
                streams,
                cursors,
                n - 1,
            ).len());
            assert(entries_reads(cur) == entries_reads(prev) + seq_reads(
                records_at(streams, cursors, n - 1),
            ));
        } else {
            assert(adv[n - 1] == cursors[n - 1]);
            assert(cur =~= prev);
        }
    }
}

/// Law: the merge conserves the streams' contents: summed over its
/// elements, the contributed record counts and read totals equal the
/// unconsumed record counts and read totals of the streams.
pub proof fn lemma_merge_totals(streams: Seq<NamedStream>, cursors: Seq<usize>)
    requires
        cursors_valid(streams, cursors),
    ensures
        merged_units(merge_model(streams, cursors)) == remaining_units_upto(
            streams,
            cursors,
            streams.len() as int,
        ),
        merged_reads(merge_model(streams, cursors)) == remaining_reads_upto(
            streams,
            cursors,
            streams.len() as int,
        ),
    decreases remaining(streams, cursors),
{
    let n = streams.len() as int;
    lemma_remaining_nonneg(streams, cursors, n);
    match min_live_key(streams, cursors) {
        None => {
            lemma_min_live_key_props(streams, cursors);
            lemma_remaining_sums_zero(streams, cursors, n);
        },
        Some(k) => {
            let head = element_model(streams, cursors, k);
            let adv = advanced_cursors(streams, cursors, k);
            lemma_min_live_key_props(streams, cursors);
            lemma_advanced_valid(streams, cursors, k);
            lemma_remaining_advance(streams, cursors, k, n);
            lemma_remaining_nonneg(streams, adv, n);
            lemma_merge_totals(streams, adv);
            lemma_remaining_sums_advance(streams, cursors, k, n);
            lemma_merged_sums_cons(head, merge_model(streams, adv));
        },
    }
}

/// The record group an element attributes to sample `i`, if any.
pub open spec fn sample_records_in(entries: Seq<(int, Seq<Record>)>, i: int) -> Option<
    Seq<Record>,
>
    decreases entries.len(),
{
    if entries.len() == 0 {
        None::<Seq<Record>>
    } else if entries.last().0 == i {
        Some(entries.last().1)
    } else {
        sample_records_in(entries.drop_last(), i)
    }
}

proof fn lemma_sample_records_entries(
    streams: Seq<NamedStream>,
    cursors: Seq<usize>,
    k: Key,
    n: int,
    i: int,
)
    requires
        0 <= n <= streams.len(),
        cursors.len() == streams.len(),
    ensures
        sample_records_in(entries_upto(streams, cursors, k, n), i) == if 0 <= i < n && live(
            streams,
            cursors,
            i,
        ) && cursor_key(streams, cursors, i) == k {
            Some(records_at(streams, cursors, i))
        } else {
            None::<Seq<Record>>
        },
    decreases n,
{
    if n > 0 {
        lemma_sample_records_entries(streams, cursors, k, n - 1, i);
        let prev = entries_upto(streams, cursors, k, n - 1);
        let cur = entries_upto(streams, cursors, k, n);
        if live(streams, cursors, n - 1) && cursor_key(streams, cursors, n - 1) == k {
            assert(cur == prev + seq![((n - 1) as int, records_at(streams, cursors, n - 1))]);
            assert(cur.last() == ((n - 1) as int, records_at(streams, cursors, n - 1)));
            if i == n - 1 {
            } else {
                assert(cur.drop_last() =~= prev);
            }
        } else {
            assert(cur =~= prev);
        }
    }
}

/// The (key, records) pairs a merged sequence attributes to sample `i`, in
/// order.
pub open spec fn stream_projection(model: Seq<ElementModel>, i: int) -> Seq<(Key, Seq<Record>)>
    decreases model.len(),
{
    if model.len() == 0 {
        Seq::empty()
    } else {
        (match sample_records_in(model.first().1, i) {
            None => Seq::<(Key, Seq<Record>)>::empty(),
            Some(r) => seq![(model.first().0, r)],
        }) + stream_projection(model.drop_first(), i)
    }
}

/// Law: the merge consumes every stream exactly. The elements attributing
/// records to sample `i` hold, in order, exactly stream `i`'s unconsumed
/// groups, each under its own key.
pub proof fn lemma_merge_projection(streams: Seq<NamedStream>, cursors: Seq<usize>, i: int)
    requires
        cursors_valid(streams, cursors),
        0 <= i < streams.len(),
    ensures
        stream_projection(merge_model(streams, cursors), i) == Seq::new(
            (streams[i].groups@.len() - cursors[i]) as nat,
            |t: int| (streams[i].groups@[cursors[i] + t].key, streams[i].groups@[cursors[i] + t].records@),
        ),
    decreases remaining(streams, cursors),
{
    let n = streams.len() as int;
    let li = streams[i].groups@.len() as int;
    let ci = cursors[i] as int;
    lemma_remaining_nonneg(streams, cursors, n);
    match min_live_key(streams, cursors) {
        None => {
            lemma_min_live_key_props(streams, cursors);
            assert(!live(streams, cursors, i));
            assert(ci == li);
            assert(stream_projection(merge_model(streams, cursors), i) =~= Seq::new(
                (li - ci) as nat,
                |t: int| (streams[i].groups@[ci + t].key, streams[i].groups@[ci + t].records@),
            ));
        },
        Some(k) => {
            let model = merge_model(streams, cursors);
            let head = element_model(streams, cursors, k);
            let adv = advanced_cursors(streams, cursors, k);
            lemma_min_live_key_props(streams, cursors);
            lemma_advanced_valid(streams, cursors, k);
            lemma_remaining_advance(streams, cursors, k, n);
            lemma_remaining_nonneg(streams, adv, n);
            lemma_merge_projection(streams, adv, i);
            lemma_sample_records_entries(streams, cursors, k, n, i);
            let tail = merge_model(streams, adv);
            assert(model == seq![head] + tail);
            assert(model.first() == head);
            assert(model.drop_first() =~= tail);
            let target = Seq::new(
                (li - ci) as nat,
                |t: int| (streams[i].groups@[ci + t].key, streams[i].groups@[ci + t].records@),
            );
            if live(streams, cursors, i) && cursor_key(streams, cursors, i) == k {
                assert(streams[i].groups.len() == streams[i].groups@.len());
                assert(adv[i] == cursors[i] + 1);
                let shifted = Seq::new(
                    (li - ci - 1) as nat,
                    |t: int| (streams[i].groups@[ci + 1 + t].key, streams[i].groups@[ci + 1 + t].records@),
                );
                assert(stream_projection(tail, i) == shifted);
                assert(sample_records_in(head.1, i) == Some(records_at(streams, cursors, i)));
                assert(stream_projection(model, i) == seq![(k, records_at(streams, cursors, i))]
                    + shifted);
                assert forall|t: int| 0 <= t < target.len() implies (seq![
                    (k, records_at(streams, cursors, i)),
                ] + shifted)[t] == target[t] by {
                    if t == 0 {
                        assert(target[0] == (
                            streams[i].groups@[ci].key,
                            streams[i].groups@[ci].records@,
                        ));
                    } else {
                        assert(shifted[t - 1] == (
                            streams[i].groups@[ci + t].key,
                            streams[i].groups@[ci + t].records@,
                        ));
                    }
                }
                assert(stream_projection(model, i) =~= target);
            } else {
                assert(adv[i] == cursors[i]);
                assert(stream_projection(tail, i) == target);
                assert(sample_records_in(head.1, i) is None);
                assert(stream_projection(model, i) =~= stream_projection(tail, i));
            }
        },
    }
}

/// The merger: owns the streams and one cursor per stream.
pub struct KeyedStreamMerger {
    streams: Vec<NamedStream>,
    cursors: Vec<usize>,
}

impl KeyedStreamMerger {
    /// Internal invariant: cursors in range, streams sorted.
    pub closed spec fn wf(self) -> bool {
        &&& cursors_valid(self.streams@, self.cursors@)
        &&& streams_sorted(self.streams@)
    }

    /// The streams the merger was built from.
    pub closed spec fn streams_view(self) -> Seq<NamedStream> {
        self.streams@
    }

    /// The current cursor positions.
    pub closed spec fn cursors_view(self) -> Seq<usize> {
        self.cursors@
    }

    /// The elements the merge has yet to produce.
    pub open spec fn pending(self) -> Seq<ElementModel> {
        merge_model(self.streams_view(), self.cursors_view())
    }

    /// Number of input streams.
    pub fn num_samples(&self) -> (r: usize)
        ensures
            r == self.streams_view().len(),
    {
        self.streams.len()
    }

    /// Start a merge over the given sorted streams, with every cursor at the
    /// first group.
    pub fn new(streams: Vec<NamedStream>) -> (r: KeyedStreamMerger)
        requires
            streams_sorted(streams@),
        ensures
            r.wf(),
            r.streams_view() == streams@,
            r.cursors_view() =~= Seq::new(streams@.len(), |i: int| 0usize),
    {
        let n = streams.len();
        let mut cursors: Vec<usize> = Vec::new();
        let mut i: usize = 0;
        while i < n
            invariant
                0 <= i <= n,
                cursors@.len() == i,
                forall|j: int| 0 <= j < i ==> cursors@[j] == 0usize,
            decreases n - i,
        {
            cursors.push(0);
            i = i + 1;
        }
        KeyedStreamMerger { streams, cursors }
    }

    /// Produce the next merged element, or `None` when every stream is
    /// exhausted. The element is the head of the pending sequence; the
    /// samples it lists are exactly the streams whose cursor sat at its key,
    /// and exactly those cursors advance.
    pub fn next(&mut self) -> (r: Option<MergedElement>)
        requires
            old(self).wf(),
        ensures
            final(self).wf(),
            final(self).streams_view() == old(self).streams_view(),
            match r {
                None => {
                    &&& old(self).pending() == Seq::<ElementModel>::empty()
                    &&& final(self).pending() == Seq::<ElementModel>::empty()
                    &&& final(self).cursors_view() == old(self).cursors_view()
                },
                Some(e) => {
                    &&& old(self).pending().len() > 0
                    &&& e@ == old(self).pending()[0]
                    &&& final(self).pending() == old(self).pending().drop_first()
                    &&& e.entries@.len() >= 1
                    &&& final(self).cursors_view() == advanced_cursors(
                        old(self).streams_view(),
                        old(self).cursors_view(),
                        e.key,
                    )
                },
            },
    {
        let ghost streams0 = self.streams@;
        let ghost cursors0 = self.cursors@;
        let n = self.streams.len();

        // Find the minimum key among the live cursors.
        let mut best: Option<Key> = None;
        let mut i: usize = 0;
        while i < n
            invariant
                0 <= i <= n,
                n == self.streams@.len(),
                self.streams@ == streams0,
                self.cursors@ == cursors0,
                cursors_valid(streams0, cursors0),
                best == min_live_key_upto(streams0, cursors0, i as int),
            decreases n - i,
        {
            if self.cursors[i] < self.streams[i].groups.len() {
                let k = self.streams[i].groups[self.cursors[i]].key;
                best = match best {
                    None => Some(k),
                    Some(m) => if key_less(k, m) {
                        Some(k)
                    } else {
                        Some(m)
                    },
                };
            }
            i = i + 1;
        }

        let k = match best {
            None => {
                proof {
                    lemma_min_live_key_props(streams0, cursors0);
                }
                return None;
            },
            Some(k) => k,
        };

        // Collect every stream sitting at the minimum key and advance it.
        let ghost adv = advanced_cursors(streams0, cursors0, k);
        let mut entries: Vec<MergedEntry> = Vec::new();
        let mut j: usize = 0;
        while j < n
            invariant
                0 <= j <= n,
                n == self.streams@.len(),
                self.streams@ == streams0,
                cursors_valid(streams0, cursors0),
                self.cursors@.len() == cursors0.len(),
                adv == advanced_cursors(streams0, cursors0, k),
                forall|p: int| 0 <= p < j ==> self.cursors@[p] == adv[p],
                forall|p: int| j <= p < n ==> self.cursors@[p] == cursors0[p],
                entries@.map_values(|e: MergedEntry| e@) =~= entries_upto(
                    streams0,
                    cursors0,
                    k,
                    j as int,
                ),
            decreases n - j,
        {
            let ghost prev = entries@.map_values(|e: MergedEntry| e@);
            if self.cursors[j] < self.streams[j].groups.len()
                && self.streams[j].groups[self.cursors[j]].key == k {
                let recs = copy_records(&self.streams[j].groups[self.cursors[j]].records);
                entries.push(MergedEntry { sample: j, records: recs });
                let cj = self.cursors[j];
                self.cursors.set(j, cj + 1);
                proof {
                    assert(live(streams0, cursors0, j as int) && cursor_key(
                        streams0,
                        cursors0,
                        j as int,
                    ) == k);
                    assert(entries@.map_values(|e: MergedEntry| e@) =~= prev + seq![
                        (j as int, records_at(streams0, cursors0, j as int)),
                    ]);
                }
            } else {
                proof {
                    assert(!(live(streams0, cursors0, j as int) && cursor_key(
                        streams0,
                        cursors0,
                        j as int,
                    ) == k));
                    assert(entries@.map_values(|e: MergedEntry| e@) =~= prev);
                }
            }
            j = j + 1;
        }

        let element = MergedElement { key: k, entries };
        proof {
            assert(self.cursors@ =~= adv);
            lemma_min_live_key_props(streams0, cursors0);
            lemma_advanced_valid(streams0, cursors0, k);
            assert(element@ == element_model(streams0, cursors0, k));
            assert(merge_model(streams0, cursors0) == seq![element_model(streams0, cursors0, k)]
                + merge_model(streams0, adv));
            assert(merge_model(streams0, cursors0).drop_first() =~= merge_model(streams0, adv));
            let w = choose|i: int|
                0 <= i < streams0.len() && live(streams0, cursors0, i) && cursor_key(
                    streams0,
                    cursors0,
                    i,
                ) == k;
            lemma_entries_upto_props(streams0, cursors0, k, streams0.len() as int);
            assert(entries_upto(streams0, cursors0, k, streams0.len() as int).contains(
                (w, records_at(streams0, cursors0, w)),
            ));
            assert(element.entries@.len() >= 1);
        }
        Some(element)
    }
}

} // verus!
