//! Per-barcode consistency classification of a single sample's stream
//! grouped by (barcode, umi). Every group is resolved against the gene
//! mapper; a table keeps, per barcode, how many of its groups were purely
//! assigned, multimapped or inconsistent, zero-filled for categories a
//! barcode never hits. The exact candidate sets of multimapped groups and
//! the equivalence-class sets of inconsistent groups are counted under
//! canonical set keys, to audit which genes are frequently confused.

use vstd::prelude::*;
use bustools::consistent_genes::Ec2GeneMapper;
use crate::assignment::inconsistent_arm;
use crate::assignment::multi_arm;
use crate::canonical::canonical_ids;
use crate::canonical::lemma_canonical_unique;
use crate::canonical::strictly_ascending;
use crate::records::KeyedGroup;
use crate::records::Record;
use crate::resolver::ResolvedClass;
use crate::resolver::candidate_intersection;
use crate::resolver::gene_names;
use crate::resolver::gene_names_of;
use crate::resolver::gene_sets_of;
use crate::resolver::outcome_matches;
use crate::resolver::resolve_gene_groups;
use crate::vec_histogram::VecKeyHistogram;

verus! {

/// One row of the per-barcode table.
#[derive(Clone, Copy, PartialEq, Eq, Structural, Debug)]
pub struct BarcodeTally {
    /// The barcode the row tallies.
    pub barcode: u64,
    /// Groups of this barcode that resolved to a single gene.
    pub pure: u64,
    /// Groups of this barcode that were multimapped.
    pub multimapped: u64,
    /// Groups of this barcode that were inconsistent.
    pub inconsistent: u64,
}

/// Which category a group fell into.
pub enum TallyKind {
    /// A single assignment.
    Pure,
    /// Several candidates remained.
    Multimapped,
    /// No candidate was shared.
    Inconsistent,
}

/// The barcodes of the rows, in order.
pub open spec fn row_barcodes(s: Seq<BarcodeTally>) -> Seq<u64> {
    s.map_values(|t: BarcodeTally| t.barcode)
}

/// Row barcodes are pairwise distinct.
pub open spec fn rows_unique(s: Seq<BarcodeTally>) -> bool {
    forall|i: int, j: int| 0 <= i < j < s.len() ==> s[i].barcode != s[j].barcode
}

/// Pure count recorded for `cb` over the rows (zero when absent).
pub open spec fn pure_in(s: Seq<BarcodeTally>, cb: u64) -> int
    decreases s.len(),
{
    if s.len() == 0 {
        0
    } else {
        pure_in(s.drop_last(), cb) + if s.last().barcode == cb {
            s.last().pure as int
        } else {
            0int
        }
    }
}

/// Multimapped count recorded for `cb` over the rows.
pub open spec fn multi_in(s: Seq<BarcodeTally>, cb: u64) -> int
    decreases s.len(),
{
    if s.len() == 0 {
        0
    } else {
        multi_in(s.drop_last(), cb) + if s.last().barcode == cb {
            s.last().multimapped as int
        } else {
            0int
        }
    }
}

/// Inconsistent count recorded for `cb` over the rows.
pub open spec fn incons_in(s: Seq<BarcodeTally>, cb: u64) -> int
    decreases s.len(),
{
    if s.len() == 0 {
        0
    } else {
        incons_in(s.drop_last(), cb) + if s.last().barcode == cb {
            s.last().inconsistent as int
        } else {
            0int
        }
    }
}

proof fn lemma_tally_update(s: Seq<BarcodeTally>, i: int, row2: BarcodeTally, cb: u64)
    requires
        0 <= i < s.len(),
        rows_unique(s),
        s[i].barcode == cb,
        row2.barcode == cb,
    ensures
        pure_in(s.update(i, row2), cb) == pure_in(s, cb) - s[i].pure + row2.pure,
        multi_in(s.update(i, row2), cb) == multi_in(s, cb) - s[i].multimapped + row2.multimapped,
        incons_in(s.update(i, row2), cb) == incons_in(s, cb) - s[i].inconsistent
            + row2.inconsistent,
        forall|w: u64| w != cb ==> pure_in(s.update(i, row2), w) == pure_in(s, w),
        forall|w: u64| w != cb ==> multi_in(s.update(i, row2), w) == multi_in(s, w),
        forall|w: u64| w != cb ==> incons_in(s.update(i, row2), w) == incons_in(s, w),
        row_barcodes(s.update(i, row2)) == row_barcodes(s),
    decreases s.len(),
{
    let t = s.update(i, row2);
    assert(row_barcodes(t) =~= row_barcodes(s));
    if i == s.len() - 1 {
        assert(t.drop_last() =~= s.drop_last());
        assert(t.last() == row2);
        assert(s.last() == s[i]);
        assert forall|w: u64| w != cb implies pure_in(t, w) == pure_in(s, w) && multi_in(t, w)
            == multi_in(s, w) && incons_in(t, w) == incons_in(s, w) by {
            assert(pure_in(t, w) == pure_in(t.drop_last(), w));
            assert(pure_in(s, w) == pure_in(s.drop_last(), w));
            assert(multi_in(t, w) == multi_in(t.drop_last(), w));
            assert(multi_in(s, w) == multi_in(s.drop_last(), w));
            assert(incons_in(t, w) == incons_in(t.drop_last(), w));
            assert(incons_in(s, w) == incons_in(s.drop_last(), w));
        }
    } else {
        assert(forall|k: int| 0 <= k < s.len() - 1 ==> s.drop_last()[k] == s[k]);
        assert(s.drop_last()[i].barcode == cb);
        lemma_tally_update(s.drop_last(), i, row2, cb);
        assert(t.drop_last() =~= s.drop_last().update(i, row2));
        assert(t.last() == s.last());
        assert(s.last().barcode != cb) by {
            assert(s[i].barcode == cb && i < s.len() - 1);
        }
        assert forall|w: u64| w != cb implies pure_in(t, w) == pure_in(s, w) && multi_in(t, w)
            == multi_in(s, w) && incons_in(t, w) == incons_in(s, w) by {
            assert(pure_in(t.drop_last(), w) == pure_in(s.drop_last(), w));
            assert(multi_in(t.drop_last(), w) == multi_in(s.drop_last(), w));
            assert(incons_in(t.drop_last(), w) == incons_in(s.drop_last(), w));
            assert(pure_in(t, w) == pure_in(t.drop_last(), w) + if t.last().barcode == w {
                t.last().pure as int
            } else {
                0int
            });
            assert(pure_in(s, w) == pure_in(s.drop_last(), w) + if s.last().barcode == w {
                s.last().pure as int
            } else {
                0int
            });
            assert(multi_in(t, w) == multi_in(t.drop_last(), w) + if t.last().barcode == w {
                t.last().multimapped as int
            } else {
                0int
            });
            assert(multi_in(s, w) == multi_in(s.drop_last(), w) + if s.last().barcode == w {
                s.last().multimapped as int
            } else {
                0int
            });
            assert(incons_in(t, w) == incons_in(t.drop_last(), w) + if t.last().barcode == w {
                t.last().inconsistent as int
            } else {
                0int
            });
            assert(incons_in(s, w) == incons_in(s.drop_last(), w) + if s.last().barcode == w {
                s.last().inconsistent as int
            } else {
                0int
            });
        }
        assert(pure_in(t, cb) == pure_in(t.drop_last(), cb));
        assert(pure_in(s, cb) == pure_in(s.drop_last(), cb));
        assert(multi_in(t, cb) == multi_in(t.drop_last(), cb));
        assert(multi_in(s, cb) == multi_in(s.drop_last(), cb));
        assert(incons_in(t, cb) == incons_in(t.drop_last(), cb));
        assert(incons_in(s, cb) == incons_in(s.drop_last(), cb));
    }
}

proof fn lemma_tally_push(s: Seq<BarcodeTally>, row: BarcodeTally)
    ensures
        forall|w: u64|
            #[trigger] pure_in(s.push(row), w) == pure_in(s, w) + if row.barcode == w {
                row.pure as int
            } else {
                0int
            },
        forall|w: u64|
            #[trigger] multi_in(s.push(row), w) == multi_in(s, w) + if row.barcode == w {
                row.multimapped as int
            } else {
                0int
            },
        forall|w: u64|
            #[trigger] incons_in(s.push(row), w) == incons_in(s, w) + if row.barcode == w {
                row.inconsistent as int
            } else {
                0int
            },
        row_barcodes(s.push(row)) == row_barcodes(s).push(row.barcode),
{
    assert(s.push(row).drop_last() =~= s);
    assert(row_barcodes(s.push(row)) =~= row_barcodes(s).push(row.barcode));
}

proof fn lemma_tally_absent_zero(s: Seq<BarcodeTally>, cb: u64)
    requires
        forall|i: int| 0 <= i < s.len() ==> (#[trigger] s[i]).barcode != cb,
    ensures
        pure_in(s, cb) == 0,
        multi_in(s, cb) == 0,
        incons_in(s, cb) == 0,
    decreases s.len(),
{
    if s.len() > 0 {
        assert(forall|i: int| 0 <= i < s.len() - 1 ==> s.drop_last()[i] == s[i]);
        lemma_tally_absent_zero(s.drop_last(), cb);
    }
}

proof fn lemma_tally_nonneg(s: Seq<BarcodeTally>, cb: u64)
    ensures
        pure_in(s, cb) >= 0,
        multi_in(s, cb) >= 0,
        incons_in(s, cb) >= 0,
    decreases s.len(),
{
    if s.len() > 0 {
        lemma_tally_nonneg(s.drop_last(), cb);
    }
}

proof fn lemma_tally_row_le(s: Seq<BarcodeTally>, i: int)
    requires
        rows_unique(s),
        0 <= i < s.len(),
    ensures
        s[i].pure <= pure_in(s, s[i].barcode),
        s[i].multimapped <= multi_in(s, s[i].barcode),
        s[i].inconsistent <= incons_in(s, s[i].barcode),
    decreases s.len(),
{
    if i == s.len() - 1 {
        lemma_tally_nonneg(s.drop_last(), s[i].barcode);
    } else {
        assert(forall|k: int| 0 <= k < s.len() - 1 ==> s.drop_last()[k] == s[k]);
        lemma_tally_row_le(s.drop_last(), i);
        lemma_tally_nonneg(s, s[i].barcode);
    }
}

/// Record one more group of barcode `cb` in the given category, creating
/// the barcode's zero-filled row on first sight.
fn tally_group(table: &mut Vec<BarcodeTally>, cb: u64, kind: TallyKind)
    requires
        rows_unique(old(table)@),
        pure_in(old(table)@, cb) < u64::MAX,
        multi_in(old(table)@, cb) < u64::MAX,
        incons_in(old(table)@, cb) < u64::MAX,
    ensures
        rows_unique(final(table)@),
        row_barcodes(final(table)@) == if row_barcodes(old(table)@).contains(cb) {
            row_barcodes(old(table)@)
        } else {
            row_barcodes(old(table)@).push(cb)
        },
        pure_in(final(table)@, cb) == pure_in(old(table)@, cb) + if kind is Pure {
            1int
        } else {
            0int
        },
        multi_in(final(table)@, cb) == multi_in(old(table)@, cb) + if kind is Multimapped {
            1int
        } else {
            0int
        },
        incons_in(final(table)@, cb) == incons_in(old(table)@, cb) + if kind is Inconsistent {
            1int
        } else {
            0int
        },
        forall|w: u64| w != cb ==> pure_in(final(table)@, w) == pure_in(old(table)@, w),
        forall|w: u64| w != cb ==> multi_in(final(table)@, w) == multi_in(old(table)@, w),
        forall|w: u64| w != cb ==> incons_in(final(table)@, w) == incons_in(old(table)@, w),
{
    let ghost s0 = table@;
    let m = table.len();
    let mut i: usize = 0;
    while i < m
        invariant
            0 <= i <= m,
            m == table.len(),
            table@ == s0,
            s0 == old(table)@,
            rows_unique(s0),
            pure_in(s0, cb) < u64::MAX,
            multi_in(s0, cb) < u64::MAX,
            incons_in(s0, cb) < u64::MAX,
            forall|k: int| 0 <= k < i ==> s0[k].barcode != cb,
        decreases m - i,
    {
        if table[i].barcode == cb {
            proof {
                lemma_tally_row_le(s0, i as int);
            }
            let row = table[i];
            let row2 = match kind {
                TallyKind::Pure => BarcodeTally { pure: row.pure + 1, ..row },
                TallyKind::Multimapped => BarcodeTally {
                    multimapped: row.multimapped + 1,
                    ..row
                },
                TallyKind::Inconsistent => BarcodeTally {
                    inconsistent: row.inconsistent + 1,
                    ..row
                },
            };
            table.set(i, row2);
            proof {
                lemma_tally_update(s0, i as int, row2, cb);
                assert(row_barcodes(s0).contains(cb)) by {
                    assert(row_barcodes(s0)[i as int] == cb);
                }
            }
            return;
        }
        i = i + 1;
    }
    proof {
        lemma_tally_absent_zero(s0, cb);
        assert(!row_barcodes(s0).contains(cb)) by {
            if row_barcodes(s0).contains(cb) {
                let p = choose|p: int|
                    0 <= p < row_barcodes(s0).len() && row_barcodes(s0)[p] == cb;
                assert(s0[p].barcode == cb);
            }
        }
    }
    let row = match kind {
        TallyKind::Pure => BarcodeTally { barcode: cb, pure: 1, multimapped: 0, inconsistent: 0 },
        TallyKind::Multimapped => BarcodeTally {
            barcode: cb,
            pure: 0,
            multimapped: 1,
            inconsistent: 0,
        },
        TallyKind::Inconsistent => BarcodeTally {
            barcode: cb,
            pure: 0,
            multimapped: 0,
            inconsistent: 1,
        },
    };
    table.push(row);
    proof {
        lemma_tally_push(s0, row);
        assert forall|p: int, q: int|
            0 <= p < q < table@.len() implies table@[p].barcode != table@[q].barcode by {
            if q == table@.len() - 1 {
                assert(table@[p] == s0[p]);
            }
        }
    }
}

/// The distinct barcodes of the first `k` groups, in first-seen order.
pub open spec fn distinct_barcodes(groups: Seq<KeyedGroup>, k: int) -> Seq<u64>
    decreases k,
{
    if k <= 0 {
        Seq::empty()
    } else {
        let p = distinct_barcodes(groups, k - 1);
        if p.contains(groups[k - 1].key.barcode) {
            p
        } else {
            p.push(groups[k - 1].key.barcode)
        }
    }
}

/// Over the first `k` groups, how many of barcode `cb` resolved to a single
/// gene.
pub open spec fn barcode_pure_count(
    groups: Seq<KeyedGroup>,
    sets: Map<u32, Set<u32>>,
    cb: u64,
    k: int,
) -> int
    decreases k,
{
    if k <= 0 {
        0
    } else {
        barcode_pure_count(groups, sets, cb, k - 1) + if groups[k - 1].key.barcode == cb
            && candidate_intersection(groups[k - 1].records@, sets).len() == 1 {
            1int
        } else {
            0int
        }
    }
}

/// Over the first `k` groups, how many of barcode `cb` were multimapped.
pub open spec fn barcode_multi_count(
    groups: Seq<KeyedGroup>,
    sets: Map<u32, Set<u32>>,
    cb: u64,
    k: int,
) -> int
    decreases k,
{
    if k <= 0 {
        0
    } else {
        barcode_multi_count(groups, sets, cb, k - 1) + if groups[k - 1].key.barcode == cb
            && multi_arm(
            candidate_intersection(groups[k - 1].records@, sets),
            groups[k - 1].records@.len() as int,
        ) {
            1int
        } else {
            0int
        }
    }
}

/// Over the first `k` groups, how many of barcode `cb` were inconsistent.
pub open spec fn barcode_incons_count(
    groups: Seq<KeyedGroup>,
    sets: Map<u32, Set<u32>>,
    cb: u64,
    k: int,
) -> int
    decreases k,
{
    if k <= 0 {
        0
    } else {
        barcode_incons_count(groups, sets, cb, k - 1) + if groups[k - 1].key.barcode == cb
            && inconsistent_arm(
            candidate_intersection(groups[k - 1].records@, sets),
            groups[k - 1].records@.len() as int,
        ) {
            1int
        } else {
            0int
        }
    }
}

proof fn lemma_barcode_counts_bounds(
    groups: Seq<KeyedGroup>,
    sets: Map<u32, Set<u32>>,
    cb: u64,
    k: int,
)
    requires
        0 <= k,
    ensures
        0 <= barcode_pure_count(groups, sets, cb, k) <= k,
        0 <= barcode_multi_count(groups, sets, cb, k) <= k,
        0 <= barcode_incons_count(groups, sets, cb, k) <= k,
    decreases k,
{
    if k > 0 {
        lemma_barcode_counts_bounds(groups, sets, cb, k - 1);
    }
}

/// How many of the first `k` groups were multimapped.
pub open spec fn multi_group_count(groups: Seq<KeyedGroup>, sets: Map<u32, Set<u32>>, k: int) -> int
    decreases k,
{
    if k <= 0 {
        0
    } else {
        multi_group_count(groups, sets, k - 1) + if multi_arm(
            candidate_intersection(groups[k - 1].records@, sets),
            groups[k - 1].records@.len() as int,
        ) {
            1int
        } else {
            0int
        }
    }
}

/// How many of the first `k` groups were inconsistent.
pub open spec fn incons_group_count(
    groups: Seq<KeyedGroup>,
    sets: Map<u32, Set<u32>>,
    k: int,
) -> int
    decreases k,
{
    if k <= 0 {
        0
    } else {
        incons_group_count(groups, sets, k - 1) + if inconsistent_arm(
            candidate_intersection(groups[k - 1].records@, sets),
            groups[k - 1].records@.len() as int,
        ) {
            1int
        } else {
            0int
        }
    }
}

/// `key` is the canonical image of the candidate set `g`.
pub open spec fn canon_of_candidates(key: Seq<u64>, g: Set<u32>) -> bool {
    &&& strictly_ascending(key)
    &&& forall|v: u64|
        #[trigger] key.contains(v) <==> exists|x: u32| g.contains(x) && x as u64 == v
}

/// `key` is the canonical image of the equivalence classes of `recs`.
pub open spec fn canon_of_group_ecs(key: Seq<u64>, recs: Seq<Record>) -> bool {
    &&& strictly_ascending(key)
    &&& forall|v: u64|
        #[trigger] key.contains(v) <==> exists|i: int|
            0 <= i < recs.len() && recs[i].equivalence_class as u64 == v
}

/// Over the first `k` groups, how many were multimapped with exactly the
/// candidate set `key` canonicalizes.
pub open spec fn multi_set_count(
    groups: Seq<KeyedGroup>,
    sets: Map<u32, Set<u32>>,
    key: Seq<u64>,
    k: int,
) -> int
    decreases k,
{
    if k <= 0 {
        0
    } else {
        multi_set_count(groups, sets, key, k - 1) + if multi_arm(
            candidate_intersection(groups[k - 1].records@, sets),
            groups[k - 1].records@.len() as int,
        ) && canon_of_candidates(key, candidate_intersection(groups[k - 1].records@, sets)) {
            1int
        } else {
            0int
        }
    }
}

/// Over the first `k` groups, how many were inconsistent with exactly the
/// equivalence-class set `key` canonicalizes.
pub open spec fn incons_set_count(
    groups: Seq<KeyedGroup>,
    sets: Map<u32, Set<u32>>,
    key: Seq<u64>,
    k: int,
) -> int
    decreases k,
{
    if k <= 0 {
        0
    } else {
        incons_set_count(groups, sets, key, k - 1) + if inconsistent_arm(
            candidate_intersection(groups[k - 1].records@, sets),
            groups[k - 1].records@.len() as int,
        ) && canon_of_group_ecs(key, groups[k - 1].records@) {
            1int
        } else {
            0int
        }
    }
}

proof fn lemma_set_counts_bounds(
    groups: Seq<KeyedGroup>,
    sets: Map<u32, Set<u32>>,
    key: Seq<u64>,
    k: int,
)
    requires
        0 <= k,
    ensures
        0 <= multi_set_count(groups, sets, key, k) <= k,
        0 <= incons_set_count(groups, sets, key, k) <= k,
    decreases k,
{
    if k > 0 {
        lemma_set_counts_bounds(groups, sets, key, k - 1);
    }
}

/// The equivalence classes of a group's records, in record order.
fn collect_ecs(records: &Vec<Record>) -> (r: Vec<u32>)
    ensures
        r@.len() == records@.len(),
        forall|i: int| 0 <= i < r@.len() ==> r@[i] == (#[trigger] records@[i]).equivalence_class,
{
    let n = records.len();
    let mut out: Vec<u32> = Vec::new();
    let mut i: usize = 0;
    while i < n
        invariant
            0 <= i <= n,
            n == records@.len(),
            out@.len() == i,
            forall|j: int| 0 <= j < i ==> out@[j] == (#[trigger] records@[j]).equivalence_class,
        decreases n - i,
    {
        out.push(records[i].equivalence_class);
        i = i + 1;
    }
    out
}

/// The result of one consistency pass.
pub struct ConsistencyReport {
    /// One row per barcode observed, in first-seen order, zero-filled.
    pub table: Vec<BarcodeTally>,
    /// Count per exact candidate set of the multimapped groups, keyed by the
    /// canonical ascending id vector.
    pub multimapped_sets: VecKeyHistogram,
    /// Count per exact equivalence-class set of the inconsistent groups,
    /// keyed the same way.
    pub inconsistent_sets: VecKeyHistogram,
    /// The mapper's gene names, in gene-id order.
    pub gene_names: Vec<String>,
    /// The multimapped candidate sets under gene names instead of ids.
    pub multimapped_names: Vec<(Vec<String>, u64)>,
}

/// The name-labeled image of set-keyed counts: every key whose ids all
/// index the name list is kept, in order, with each id replaced by its
/// name; other keys are left out. The mapper assigns ids as indices into
/// its own name list, so for any mapper-produced input nothing is dropped;
/// the drop arm only fixes the behavior for arbitrary keys.
pub open spec fn set_labels_view(
    s: Seq<(Seq<u64>, u64)>,
    names: Seq<Seq<char>>,
) -> Seq<(Seq<Seq<char>>, u64)>
    decreases s.len(),
{
    if s.len() == 0 {
        Seq::empty()
    } else {
        set_labels_view(s.drop_last(), names) + if forall|i: int|
            0 <= i < s.last().0.len() ==> (#[trigger] s.last().0[i]) < names.len() {
            seq![(s.last().0.map_values(|v: u64| names[v as int]), s.last().1)]
        } else {
            Seq::empty()
        }
    }
}

/// Label each id of each set key with its name; keys holding an id beyond
/// the name list are left out.
pub fn label_set_counts(hist: &VecKeyHistogram, names: &Vec<String>) -> (r: Vec<
    (Vec<String>, u64),
>)
    ensures
        r@.map_values(|e: (Vec<String>, u64)| (e.0@.map_values(|s: String| s@), e.1))
            == set_labels_view(hist.bucket_seq(), names@.map_values(|s: String| s@)),
{
    let ghost namesv = names@.map_values(|s: String| s@);
    let entries = hist.entries();
    let ghost bs = hist.bucket_seq();
    let mut out: Vec<(Vec<String>, u64)> = Vec::new();
    let m = entries.len();
    proof {
        assert(bs.len() == m);
    }
    let mut t: usize = 0;
    while t < m
        invariant
            0 <= t <= m,
            m == entries@.len(),
            bs.len() == m,
            entries@.map_values(|b: (Vec<u64>, u64)| (b.0@, b.1)) == bs,
            namesv == names@.map_values(|s: String| s@),
            namesv.len() == names@.len(),
            out@.map_values(|e: (Vec<String>, u64)| (e.0@.map_values(|s: String| s@), e.1))
                =~= set_labels_view(bs.subrange(0, t as int), namesv),
        decreases m - t,
    {
        let ghost prefix = bs.subrange(0, t as int);
        let ghost prev = out@.map_values(
            |e: (Vec<String>, u64)| (e.0@.map_values(|s: String| s@), e.1),
        );
        proof {
            assert(bs.subrange(0, t + 1).drop_last() =~= prefix);
            assert(bs.subrange(0, t + 1).last() == bs[t as int]);
            assert(bs[t as int] == (entries@[t as int].0@, entries@[t as int].1));
        }
        let key = &entries[t].0;
        let kn = key.len();
        let mut ok = true;
        let mut i: usize = 0;
        while i < kn
            invariant
                0 <= i <= kn,
                kn == key@.len(),
                namesv.len() == names@.len(),
                ok <==> (forall|j: int| 0 <= j < i ==> (#[trigger] key@[j]) < namesv.len()),
            decreases kn - i,
        {
            if key[i] >= names.len() as u64 {
                ok = false;
            }
            i = i + 1;
        }
        if ok {
            let mut labels: Vec<String> = Vec::new();
            let mut j: usize = 0;
            while j < kn
                invariant
                    0 <= j <= kn,
                    kn == key@.len(),
                    namesv.len() == names@.len(),
                    namesv == names@.map_values(|s: String| s@),
                    forall|q: int| 0 <= q < kn ==> (#[trigger] key@[q]) < namesv.len(),
                    labels@.len() == j,
                    forall|q: int|
                        0 <= q < j ==> (#[trigger] labels@[q])@ == namesv[key@[q] as int],
                decreases kn - j,
            {
                proof {
                    assert(names.len() == names@.len());
                    assert(key@[j as int] < namesv.len());
                }
                labels.push(names[key[j] as usize].clone());
                proof {
                    assert(labels@[j as int]@ == namesv[key@[j as int] as int]);
                }
                j = j + 1;
            }
            out.push((labels, entries[t].1));
            proof {
                assert(labels@.map_values(|s: String| s@) =~= key@.map_values(
                    |v: u64| namesv[v as int],
                ));
                assert(out@.map_values(
                    |e: (Vec<String>, u64)| (e.0@.map_values(|s: String| s@), e.1),
                ) =~= prev + seq![
                    (bs[t as int].0.map_values(|v: u64| namesv[v as int]), bs[t as int].1),
                ]);
                assert(set_labels_view(bs.subrange(0, t + 1), namesv) =~= prev + seq![
                    (bs[t as int].0.map_values(|v: u64| namesv[v as int]), bs[t as int].1),
                ]);
            }
        } else {
            proof {
                let bad = choose|j: int| 0 <= j < key@.len() && !(key@[j] < namesv.len());
                assert(!(forall|i: int|
                    0 <= i < bs[t as int].0.len() ==> (#[trigger] bs[t as int].0[i])
                        < namesv.len()));
                assert(set_labels_view(bs.subrange(0, t + 1), namesv) =~= prev);
            }
        }
        t = t + 1;
    }
    proof {
        assert(bs.subrange(0, m as int) =~= bs);
    }
    out
}

/// Classify every (barcode, umi) group of a single sample against the gene
/// mapper: tally outcomes per barcode, and count the exact candidate sets
/// of multimapped groups and the exact equivalence-class sets of
/// inconsistent groups under canonical keys.
pub fn consistency_classify(groups: &Vec<KeyedGroup>, mapper: &Ec2GeneMapper) -> (r:
    ConsistencyReport)
    requires
        forall|j: int| 0 <= j < groups@.len() ==> (#[trigger] groups@[j]).records@.len() >= 1,
        forall|j: int, i: int|
            0 <= j < groups@.len() && 0 <= i < groups@[j].records@.len() ==> gene_sets_of(
                *mapper,
            ).dom().contains((#[trigger] groups@[j].records@[i]).equivalence_class),
    ensures
        rows_unique(r.table@),
        row_barcodes(r.table@) == distinct_barcodes(groups@, groups@.len() as int),
        forall|cb: u64|
            pure_in(r.table@, cb) == barcode_pure_count(
                groups@,
                gene_sets_of(*mapper),
                cb,
                groups@.len() as int,
            ),
        forall|cb: u64|
            multi_in(r.table@, cb) == barcode_multi_count(
                groups@,
                gene_sets_of(*mapper),
                cb,
                groups@.len() as int,
            ),
        forall|cb: u64|
            incons_in(r.table@, cb) == barcode_incons_count(
                groups@,
                gene_sets_of(*mapper),
                cb,
                groups@.len() as int,
            ),
        r.multimapped_sets.wf(),
        r.inconsistent_sets.wf(),
        forall|key: Seq<u64>|
            r.multimapped_sets.count_of(key) == multi_set_count(
                groups@,
                gene_sets_of(*mapper),
                key,
                groups@.len() as int,
            ),
        forall|key: Seq<u64>|
            r.inconsistent_sets.count_of(key) == incons_set_count(
                groups@,
                gene_sets_of(*mapper),
                key,
                groups@.len() as int,
            ),
        r.multimapped_sets.total_count() == multi_group_count(
            groups@,
            gene_sets_of(*mapper),
            groups@.len() as int,
        ),
        r.inconsistent_sets.total_count() == incons_group_count(
            groups@,
            gene_sets_of(*mapper),
            groups@.len() as int,
        ),
        r.gene_names@.map_values(|s: String| s@) == gene_names_of(*mapper),
        r.multimapped_names@.map_values(
            |e: (Vec<String>, u64)| (e.0@.map_values(|s: String| s@), e.1),
        ) == set_labels_view(r.multimapped_sets.bucket_seq(), gene_names_of(*mapper)),
{
    let ghost sets = gene_sets_of(*mapper);
    let outs = resolve_gene_groups(groups, mapper);
    let n = groups.len();
    let mut table: Vec<BarcodeTally> = Vec::new();
    let mut multi_sets = VecKeyHistogram::new();
    let mut incons_sets = VecKeyHistogram::new();
    let mut k: usize = 0;
    while k < n
        invariant
            0 <= k <= n,
            n == groups@.len() == outs@.len(),
            forall|j: int|
                0 <= j < groups@.len() ==> outcome_matches(
                    #[trigger] outs@[j],
                    candidate_intersection(groups@[j].records@, sets),
                    groups@[j].records@.len() as int,
                ),
            rows_unique(table@),
            multi_sets.wf(),
            incons_sets.wf(),
            row_barcodes(table@) == distinct_barcodes(groups@, k as int),
            forall|cb: u64| pure_in(table@, cb) == barcode_pure_count(groups@, sets, cb, k as int),
            forall|cb: u64|
                multi_in(table@, cb) == barcode_multi_count(groups@, sets, cb, k as int),
            forall|cb: u64|
                incons_in(table@, cb) == barcode_incons_count(groups@, sets, cb, k as int),
            forall|key: Seq<u64>|
                multi_sets.count_of(key) == multi_set_count(groups@, sets, key, k as int),
            forall|key: Seq<u64>|
                incons_sets.count_of(key) == incons_set_count(groups@, sets, key, k as int),
            multi_sets.total_count() == multi_group_count(groups@, sets, k as int),
            incons_sets.total_count() == incons_group_count(groups@, sets, k as int),
        decreases n - k,
    {
        let cb = groups[k].key.barcode;
        let ghost g = candidate_intersection(groups@[k as int].records@, sets);
        let ghost nrecs = groups@[k as int].records@.len() as int;
        proof {
            assert(outcome_matches(outs@[k as int], g, nrecs));
            lemma_barcode_counts_bounds(groups@, sets, cb, k as int);
        }
        match &outs[k] {
            ResolvedClass::Single(_) => {
                proof {
                    assert(g.len() == 1) by {
                        let id = outs@[k as int]->Single_0;
                        assert(g == Set::empty().insert(id));
                    }
                    assert(!multi_arm(g, nrecs));
                    assert(!inconsistent_arm(g, nrecs)) by {
                        let id = outs@[k as int]->Single_0;
                        assert(g == Set::empty().insert(id));
                        assert(g.contains(id));
                    }
                }
                tally_group(&mut table, cb, TallyKind::Pure);
            },
            ResolvedClass::Multi(ids) => {
                proof {
                    assert(multi_arm(g, nrecs)) by {
                        if g.len() == 1 {
                            assert(outs@[k as int] is Single);
                        }
                        if nrecs >= 2 && g.is_empty() {
                            assert(outs@[k as int] is Inconsistent);
                        }
                    }
                    assert(!inconsistent_arm(g, nrecs));
                    assert(ids@.to_set() == g);
                }
                tally_group(&mut table, cb, TallyKind::Multimapped);
                let ck = canonical_ids(ids);
                proof {
                    assert(canon_of_candidates(ck@, g)) by {
                        assert forall|v: u64|
                            #[trigger] ck@.contains(v) <==> exists|x: u32|
                                g.contains(x) && x as u64 == v by {
                            if ck@.contains(v) {
                                let i = choose|i: int|
                                    0 <= i < ids@.len() && ids@[i] as u64 == v;
                                assert(ids@.contains(ids@[i]));
                                assert(g.contains(ids@[i]));
                            }
                            if exists|x: u32| g.contains(x) && x as u64 == v {
                                let x = choose|x: u32| g.contains(x) && x as u64 == v;
                                assert(ids@.contains(x));
                                let i = choose|i: int| 0 <= i < ids@.len() && ids@[i] == x;
                                assert(0 <= i < ids@.len() && ids@[i] as u64 == v);
                            }
                        }
                    }
                    lemma_set_counts_bounds(groups@, sets, ck@, k as int);
                }
                multi_sets.add_one(ck);
                proof {
                    assert forall|key: Seq<u64>|
                        multi_sets.count_of(key) == multi_set_count(groups@, sets, key, k + 1)
                        by {
                        if key == ck@ {
                        } else {
                            assert(!canon_of_candidates(key, g)) by {
                                if canon_of_candidates(key, g) {
                                    assert forall|v: u64| key.contains(v) <==> ck@.contains(v)
                                        by {}
                                    lemma_canonical_unique(key, ck@);
                                }
                            }
                        }
                    }
                    assert(forall|key: Seq<u64>|
                        incons_sets.count_of(key) == incons_set_count(
                            groups@,
                            sets,
                            key,
                            k + 1,
                        ));
                }
            },
            ResolvedClass::Inconsistent => {
                proof {
                    assert(inconsistent_arm(g, nrecs));
                    assert(!multi_arm(g, nrecs));
                    assert(g.len() != 1) by {
                        if g.len() == 1 {
                            assert(outs@[k as int] is Single);
                        }
                    }
                }
                tally_group(&mut table, cb, TallyKind::Inconsistent);
                let ecs = collect_ecs(&groups[k].records);
                let ck = canonical_ids(&ecs);
                proof {
                    assert(canon_of_group_ecs(ck@, groups@[k as int].records@)) by {
                        assert forall|v: u64|
                            #[trigger] ck@.contains(v) <==> exists|i: int|
                                0 <= i < groups@[k as int].records@.len()
                                    && groups@[k as int].records@[i].equivalence_class as u64
                                    == v by {
                            if ck@.contains(v) {
                                let i = choose|i: int|
                                    0 <= i < ecs@.len() && ecs@[i] as u64 == v;
                                assert(groups@[k as int].records@[i].equivalence_class as u64
                                    == v);
                            }
                            if exists|i: int|
                                0 <= i < groups@[k as int].records@.len()
                                    && groups@[k as int].records@[i].equivalence_class as u64
                                    == v {
                                let i = choose|i: int|
                                    0 <= i < groups@[k as int].records@.len()
                                        && groups@[k as int].records@[i].equivalence_class as u64
                                        == v;
                                assert(ecs@[i] as u64 == v);
                            }
                        }
                    }
                    lemma_set_counts_bounds(groups@, sets, ck@, k as int);
                }
                incons_sets.add_one(ck);
                proof {
                    assert forall|key: Seq<u64>|
                        incons_sets.count_of(key) == incons_set_count(groups@, sets, key, k + 1)
                        by {
                        if key == ck@ {
                        } else {
                            assert(!canon_of_group_ecs(key, groups@[k as int].records@)) by {
                                if canon_of_group_ecs(key, groups@[k as int].records@) {
                                    assert forall|v: u64| key.contains(v) <==> ck@.contains(v)
                                        by {}
                                    lemma_canonical_unique(key, ck@);
                                }
                            }
                        }
                    }
                    assert(forall|key: Seq<u64>|
                        multi_sets.count_of(key) == multi_set_count(groups@, sets, key, k + 1));
                }
            },
        }
        k = k + 1;
    }
    let names = gene_names(mapper);
    let labeled = label_set_counts(&multi_sets, &names);
    ConsistencyReport {
        table,
        multimapped_sets: multi_sets,
        inconsistent_sets: incons_sets,
        gene_names: names,
        multimapped_names: labeled,
    }
}

} // verus!
