//! Assignment histograms for a single sample's stream grouped by
//! (barcode, umi). Every group is resolved against the external mapper;
//! groups resolving to a single id feed that id's reads-per-group
//! histogram, while the multimapped and the inconsistent populations each
//! feed one global histogram. At the end of the pass the per-id histograms
//! are labeled with the mapper's ordered name list.

use vstd::prelude::*;
use bustools::consistent_genes::Ec2GeneMapper;
use bustools::consistent_transcripts::Ec2TranscriptMapper;
use crate::histogram::CountHistogram;
use crate::histogram::count_total_in;
use crate::histogram::lemma_count_nonneg;
use crate::histogram::weighted_in;
use crate::frequency::total_reads;
use crate::records::KeyedGroup;
use crate::records::group_reads;
use crate::records::seq_reads;
use crate::resolver::ResolvedClass;
use crate::resolver::candidate_intersection;
use crate::resolver::gene_names_of;
use crate::resolver::gene_sets_of;
use crate::resolver::outcome_matches;
use crate::resolver::resolve_gene_groups;
use crate::resolver::resolve_transcript_groups;
use crate::resolver::gene_names;
use crate::resolver::transcript_names;
use crate::resolver::transcript_names_of;
use crate::resolver::transcript_sets_of;

verus! {

/// The group resolved to exactly `id`: its candidate intersection is the
/// singleton of `id`.
pub open spec fn single_arm(g: Set<u32>, id: u32) -> bool {
    g.len() == 1 && g.contains(id)
}

/// The group is multimapped: several candidates remain, or the sole record
/// of the group carries an ambiguous equivalence class.
pub open spec fn multi_arm(g: Set<u32>, nrecs: int) -> bool {
    g.len() != 1 && !(nrecs >= 2 && g.is_empty())
}

/// The group is inconsistent: several records share no candidate.
pub open spec fn inconsistent_arm(g: Set<u32>, nrecs: int) -> bool {
    nrecs >= 2 && g.is_empty()
}

/// Over the first `k` groups, how many resolved to `id` with `v` total
/// reads.
pub open spec fn resolved_single_count(
    groups: Seq<KeyedGroup>,
    sets: Map<u32, Set<u32>>,
    id: u32,
    v: u64,
    k: int,
) -> int
    decreases k,
{
    if k <= 0 {
        0
    } else {
        resolved_single_count(groups, sets, id, v, k - 1) + if single_arm(
            candidate_intersection(groups[k - 1].records@, sets),
            id,
        ) && seq_reads(groups[k - 1].records@) == v {
            1int
        } else {
            0int
        }
    }
}

/// Over the first `k` groups, how many were multimapped with `v` total
/// reads.
pub open spec fn resolved_multi_count(
    groups: Seq<KeyedGroup>,
    sets: Map<u32, Set<u32>>,
    v: u64,
    k: int,
) -> int
    decreases k,
{
    if k <= 0 {
        0
    } else {
        resolved_multi_count(groups, sets, v, k - 1) + if multi_arm(
            candidate_intersection(groups[k - 1].records@, sets),
            groups[k - 1].records@.len() as int,
        ) && seq_reads(groups[k - 1].records@) == v {
            1int
        } else {
            0int
        }
    }
}

/// Over the first `k` groups, how many were inconsistent with `v` total
/// reads.
pub open spec fn resolved_inconsistent_count(
    groups: Seq<KeyedGroup>,
    sets: Map<u32, Set<u32>>,
    v: u64,
    k: int,
) -> int
    decreases k,
{
    if k <= 0 {
        0
    } else {
        resolved_inconsistent_count(groups, sets, v, k - 1) + if inconsistent_arm(
            candidate_intersection(groups[k - 1].records@, sets),
            groups[k - 1].records@.len() as int,
        ) && seq_reads(groups[k - 1].records@) == v {
            1int
        } else {
            0int
        }
    }
}

/// Bucket ids are pairwise distinct.
pub open spec fn ids_unique(s: Seq<(u32, CountHistogram)>) -> bool {
    forall|i: int, j: int| 0 <= i < j < s.len() ==> s[i].0 != s[j].0
}

/// Sum of all bucket counts over all per-id histograms of `s`.
pub open spec fn id_total_in(s: Seq<(u32, CountHistogram)>) -> int
    decreases s.len(),
{
    if s.len() == 0 {
        0
    } else {
        id_total_in(s.drop_last()) + count_total_in(s.last().1.bucket_seq())
    }
}

/// Sum of all weighted totals over all per-id histograms of `s`.
pub open spec fn id_weighted_in(s: Seq<(u32, CountHistogram)>) -> int
    decreases s.len(),
{
    if s.len() == 0 {
        0
    } else {
        id_weighted_in(s.drop_last()) + weighted_in(s.last().1.bucket_seq())
    }
}

proof fn lemma_id_totals_update(s: Seq<(u32, CountHistogram)>, i: int, p2: (u32, CountHistogram))
    requires
        0 <= i < s.len(),
    ensures
        id_total_in(s.update(i, p2)) == id_total_in(s) - count_total_in(s[i].1.bucket_seq())
            + count_total_in(p2.1.bucket_seq()),
        id_weighted_in(s.update(i, p2)) == id_weighted_in(s) - weighted_in(s[i].1.bucket_seq())
            + weighted_in(p2.1.bucket_seq()),
    decreases s.len(),
{
    let t = s.update(i, p2);
    if i == s.len() - 1 {
        assert(t.drop_last() =~= s.drop_last());
        assert(t.last() == p2);
        assert(s.last() == s[i]);
    } else {
        assert(forall|k: int| 0 <= k < s.len() - 1 ==> s.drop_last()[k] == s[k]);
        lemma_id_totals_update(s.drop_last(), i, p2);
        assert(t.drop_last() =~= s.drop_last().update(i, p2));
        assert(t.last() == s.last());
    }
}

proof fn lemma_id_totals_push(s: Seq<(u32, CountHistogram)>, p: (u32, CountHistogram))
    ensures
        id_total_in(s.push(p)) == id_total_in(s) + count_total_in(p.1.bucket_seq()),
        id_weighted_in(s.push(p)) == id_weighted_in(s) + weighted_in(p.1.bucket_seq()),
{
    assert(s.push(p).drop_last() =~= s);
}

/// Count recorded under id `id` at value `value` over the buckets of `s`.
pub open spec fn id_count_in(s: Seq<(u32, CountHistogram)>, id: u32, value: u64) -> int
    decreases s.len(),
{
    if s.len() == 0 {
        0
    } else {
        id_count_in(s.drop_last(), id, value) + if s.last().0 == id {
            s.last().1.count_of(value)
        } else {
            0int
        }
    }
}

proof fn lemma_id_count_update(
    s: Seq<(u32, CountHistogram)>,
    i: int,
    h2: CountHistogram,
    id: u32,
    value: u64,
)
    requires
        0 <= i < s.len(),
        ids_unique(s),
        s[i].0 == id,
        h2.count_of(value) == s[i].1.count_of(value) + 1,
        forall|w: u64| w != value ==> h2.count_of(w) == s[i].1.count_of(w),
    ensures
        id_count_in(s.update(i, (id, h2)), id, value) == id_count_in(s, id, value) + 1,
        forall|w: u64|
            w != value ==> id_count_in(s.update(i, (id, h2)), id, w) == id_count_in(s, id, w),
        forall|id2: u32, w: u64|
            id2 != id ==> id_count_in(s.update(i, (id, h2)), id2, w) == id_count_in(s, id2, w),
    decreases s.len(),
{
    let t = s.update(i, (id, h2));
    if i == s.len() - 1 {
        assert(t.drop_last() =~= s.drop_last());
        assert(t.last() == (id, h2));
        assert(s.last() == s[i]);
        assert forall|id2: u32, w: u64|
            id2 != id || w != value implies id_count_in(t, id2, w) == id_count_in(s, id2, w) by {
            assert(id_count_in(t, id2, w) == id_count_in(t.drop_last(), id2, w) + if t.last().0
                == id2 {
                t.last().1.count_of(w)
            } else {
                0int
            });
            assert(id_count_in(s, id2, w) == id_count_in(s.drop_last(), id2, w) + if s.last().0
                == id2 {
                s.last().1.count_of(w)
            } else {
                0int
            });
        }
    } else {
        assert(forall|k: int| 0 <= k < s.len() - 1 ==> s.drop_last()[k] == s[k]);
        assert(s.drop_last()[i].0 == id);
        lemma_id_count_update(s.drop_last(), i, h2, id, value);
        assert(t.drop_last() =~= s.drop_last().update(i, (id, h2)));
        assert(t.last() == s.last());
        assert(s.last().0 != id) by {
            assert(s[i].0 == id && i < s.len() - 1);
        }
        assert forall|id2: u32, w: u64|
            id2 != id || w != value implies id_count_in(t, id2, w) == id_count_in(s, id2, w) by {
            assert(id_count_in(t.drop_last(), id2, w) == id_count_in(s.drop_last(), id2, w));
            assert(id_count_in(t, id2, w) == id_count_in(t.drop_last(), id2, w) + if t.last().0
                == id2 {
                t.last().1.count_of(w)
            } else {
                0int
            });
            assert(id_count_in(s, id2, w) == id_count_in(s.drop_last(), id2, w) + if s.last().0
                == id2 {
                s.last().1.count_of(w)
            } else {
                0int
            });
        }
        assert(id_count_in(t, id, value) == id_count_in(t.drop_last(), id, value));
        assert(id_count_in(s, id, value) == id_count_in(s.drop_last(), id, value));
    }
}

proof fn lemma_id_count_push(s: Seq<(u32, CountHistogram)>, p: (u32, CountHistogram))
    ensures
        forall|id: u32, w: u64|
            #[trigger] id_count_in(s.push(p), id, w) == id_count_in(s, id, w) + if p.0 == id {
                p.1.count_of(w)
            } else {
                0int
            },
{
    assert(s.push(p).drop_last() =~= s);
}

proof fn lemma_id_absent_zero(s: Seq<(u32, CountHistogram)>, id: u32)
    requires
        forall|i: int| 0 <= i < s.len() ==> (#[trigger] s[i]).0 != id,
    ensures
        forall|w: u64| id_count_in(s, id, w) == 0,
    decreases s.len(),
{
    if s.len() > 0 {
        assert(forall|i: int| 0 <= i < s.len() - 1 ==> s.drop_last()[i] == s[i]);
        lemma_id_absent_zero(s.drop_last(), id);
        assert forall|w: u64| id_count_in(s, id, w) == 0 by {
            assert(id_count_in(s, id, w) == id_count_in(s.drop_last(), id, w));
        }
    }
}

proof fn lemma_id_count_nonneg(s: Seq<(u32, CountHistogram)>, id: u32, w: u64)
    ensures
        id_count_in(s, id, w) >= 0,
    decreases s.len(),
{
    if s.len() > 0 {
        lemma_id_count_nonneg(s.drop_last(), id, w);
        if s.last().0 == id {
            lemma_count_nonneg(s.last().1.bucket_seq(), w);
        }
    }
}

proof fn lemma_id_count_below_total(s: Seq<(u32, CountHistogram)>, i: int, w: u64)
    requires
        ids_unique(s),
        0 <= i < s.len(),
    ensures
        s[i].1.count_of(w) <= id_count_in(s, s[i].0, w),
    decreases s.len(),
{
    if i == s.len() - 1 {
        lemma_id_count_nonneg(s.drop_last(), s[i].0, w);
    } else {
        assert(forall|k: int| 0 <= k < s.len() - 1 ==> s.drop_last()[k] == s[k]);
        lemma_id_count_below_total(s.drop_last(), i, w);
    }
}

/// One reads-per-group histogram per id.
pub struct IdHistograms {
    buckets: Vec<(u32, CountHistogram)>,
}

impl IdHistograms {
    /// Internal invariant: one bucket per id, each histogram well formed.
    pub closed spec fn wf(self) -> bool {
        &&& ids_unique(self.buckets@)
        &&& forall|i: int| 0 <= i < self.buckets@.len() ==> (#[trigger] self.buckets@[i]).1.wf()
    }

    /// The buckets as (id, histogram) pairs, in first-insertion order.
    pub closed spec fn bucket_seq(self) -> Seq<(u32, CountHistogram)> {
        self.buckets@
    }

    /// Count recorded under `id` at `value` (zero when absent).
    pub open spec fn count_of(self, id: u32, value: u64) -> int {
        id_count_in(self.bucket_seq(), id, value)
    }

    /// Sum of all bucket counts over all ids: how many groups were recorded.
    pub open spec fn total_count(self) -> int {
        id_total_in(self.bucket_seq())
    }

    /// Sum of all weighted totals over all ids: the raw read total of the
    /// recorded groups.
    pub open spec fn weighted_total(self) -> int {
        id_weighted_in(self.bucket_seq())
    }

    /// An empty collection.
    pub fn new() -> (r: IdHistograms)
        ensures
            r.wf(),
            forall|id: u32, v: u64| r.count_of(id, v) == 0,
            r.total_count() == 0,
            r.weighted_total() == 0,
            r.bucket_seq() =~= Seq::<(u32, CountHistogram)>::empty(),
    {
        IdHistograms { buckets: Vec::new() }
    }

    /// Record one more group under `id` at `value`.
    pub fn add_one(&mut self, id: u32, value: u64)
        requires
            old(self).wf(),
            old(self).count_of(id, value) < u64::MAX,
        ensures
            final(self).wf(),
            final(self).count_of(id, value) == old(self).count_of(id, value) + 1,
            forall|id2: u32, w: u64|
                id2 != id || w != value ==> final(self).count_of(id2, w) == old(self).count_of(
                    id2,
                    w,
                ),
            final(self).total_count() == old(self).total_count() + 1,
            final(self).weighted_total() == old(self).weighted_total() + value,
    {
        let ghost s0 = self.buckets@;
        let m = self.buckets.len();
        let mut i: usize = 0;
        while i < m
            invariant
                0 <= i <= m,
                m == self.buckets.len(),
                self.buckets@ == s0,
                s0 == old(self).buckets@,
                ids_unique(s0),
                forall|t: int| 0 <= t < s0.len() ==> (#[trigger] s0[t]).1.wf(),
                id_count_in(s0, id, value) < u64::MAX,
                forall|k: int| 0 <= k < i ==> s0[k].0 != id,
            decreases m - i,
        {
            if self.buckets[i].0 == id {
                proof {
                    lemma_id_count_below_total(s0, i as int, value);
                    lemma_count_nonneg(s0[i as int].1.bucket_seq(), value);
                }
                let b = &mut self.buckets[i];
                b.1.add_counts(value, 1);
                proof {
                    lemma_id_count_update(s0, i as int, self.buckets@[i as int].1, id, value);
                    lemma_id_totals_update(s0, i as int, (id, self.buckets@[i as int].1));
                    assert(self.buckets@ =~= s0.update(
                        i as int,
                        (id, self.buckets@[i as int].1),
                    ));
                }
                return;
            }
            i = i + 1;
        }
        proof {
            lemma_id_absent_zero(s0, id);
        }
        let mut h = CountHistogram::new();
        h.add_counts(value, 1);
        self.buckets.push((id, h));
        proof {
            lemma_id_count_push(s0, (id, h));
            lemma_id_totals_push(s0, (id, h));
        }
    }

    /// Read the count recorded under `id` at `value`.
    pub fn get(&self, id: u32, value: u64) -> (r: u64)
        requires
            self.wf(),
        ensures
            r == self.count_of(id, value),
    {
        let ghost s = self.buckets@;
        let m = self.buckets.len();
        let mut i: usize = 0;
        while i < m
            invariant
                0 <= i <= m,
                m == self.buckets.len(),
                s == self.buckets@,
                ids_unique(s),
                forall|t: int| 0 <= t < s.len() ==> (#[trigger] s[t]).1.wf(),
                forall|k: int| 0 <= k < i ==> s[k].0 != id,
            decreases m - i,
        {
            if self.buckets[i].0 == id {
                proof {
                    lemma_id_count_split(s, i as int, value);
                }
                return self.buckets[i].1.get(value);
            }
            i = i + 1;
        }
        proof {
            lemma_id_absent_zero(s, id);
        }
        0
    }

    /// Number of distinct ids.
    pub fn num_ids(&self) -> (r: usize)
        ensures
            r == self.bucket_seq().len(),
    {
        self.buckets.len()
    }

    /// The buckets as (id, histogram) pairs in first-insertion order.
    pub fn entries(&self) -> (r: &Vec<(u32, CountHistogram)>)
        ensures
            r@ == self.bucket_seq(),
    {
        &self.buckets
    }
}

proof fn lemma_id_count_split(s: Seq<(u32, CountHistogram)>, i: int, value: u64)
    requires
        ids_unique(s),
        0 <= i < s.len(),
    ensures
        id_count_in(s, s[i].0, value) == s[i].1.count_of(value),
    decreases s.len(),
{
    if i == s.len() - 1 {
        assert(forall|k: int| 0 <= k < s.len() - 1 ==> s.drop_last()[k] == s[k]);
        assert(forall|k: int| 0 <= k < s.drop_last().len() ==> (#[trigger] s.drop_last()[k]).0
            != s[i].0);
        lemma_id_absent_zero(s.drop_last(), s[i].0);
        assert(s.last() == s[i]);
        assert(id_count_in(s, s[i].0, value) == id_count_in(s.drop_last(), s[i].0, value)
            + s[i].1.count_of(value));
    } else {
        assert(forall|k: int| 0 <= k < s.len() - 1 ==> s.drop_last()[k] == s[k]);
        lemma_id_count_split(s.drop_last(), i, value);
        assert(s.last().0 != s[i].0);
    }
}

/// The histograms one pass accumulates before labeling.
pub struct AssignmentHistograms {
    /// Reads-per-group histogram of each singly assigned id.
    pub per_id: IdHistograms,
    /// Reads-per-group histogram of the multimapped population.
    pub multimapped: CountHistogram,
    /// Reads-per-group histogram of the inconsistent population.
    pub inconsistent: CountHistogram,
}

/// Over the first `k` outcomes, how many are a single assignment to `id`
/// whose group has `v` total reads.
pub open spec fn outcome_single_count(
    groups: Seq<KeyedGroup>,
    outs: Seq<ResolvedClass>,
    id: u32,
    v: u64,
    k: int,
) -> int
    decreases k,
{
    if k <= 0 {
        0
    } else {
        outcome_single_count(groups, outs, id, v, k - 1) + if (match outs[k - 1] {
            ResolvedClass::Single(i) => i == id,
            _ => false,
        }) && seq_reads(groups[k - 1].records@) == v {
            1int
        } else {
            0int
        }
    }
}

/// Over the first `k` outcomes, how many are multimapped with `v` total
/// reads.
pub open spec fn outcome_multi_count(
    groups: Seq<KeyedGroup>,
    outs: Seq<ResolvedClass>,
    v: u64,
    k: int,
) -> int
    decreases k,
{
    if k <= 0 {
        0
    } else {
        outcome_multi_count(groups, outs, v, k - 1) + if outs[k - 1] is Multi && seq_reads(
            groups[k - 1].records@,
        ) == v {
            1int
        } else {
            0int
        }
    }
}

/// Over the first `k` outcomes, how many are inconsistent with `v` total
/// reads.
pub open spec fn outcome_inconsistent_count(
    groups: Seq<KeyedGroup>,
    outs: Seq<ResolvedClass>,
    v: u64,
    k: int,
) -> int
    decreases k,
{
    if k <= 0 {
        0
    } else {
        outcome_inconsistent_count(groups, outs, v, k - 1) + if outs[k - 1] is Inconsistent
            && seq_reads(groups[k - 1].records@) == v {
            1int
        } else {
            0int
        }
    }
}

proof fn lemma_outcome_counts_bounds(
    groups: Seq<KeyedGroup>,
    outs: Seq<ResolvedClass>,
    id: u32,
    v: u64,
    k: int,
)
    requires
        0 <= k,
    ensures
        0 <= outcome_single_count(groups, outs, id, v, k) <= k,
        0 <= outcome_multi_count(groups, outs, v, k) <= k,
        0 <= outcome_inconsistent_count(groups, outs, v, k) <= k,
    decreases k,
{
    if k > 0 {
        lemma_outcome_counts_bounds(groups, outs, id, v, k - 1);
    }
}

/// Tally one resolution outcome per group into the three histograms. The
/// outcomes are taken as arguments, so the tally is exact for every value
/// the resolver may hand back.
pub fn assignment_histograms_from_outcomes(
    groups: &Vec<KeyedGroup>,
    outcomes: &Vec<ResolvedClass>,
) -> (r: AssignmentHistograms)
    requires
        groups@.len() == outcomes@.len(),
        forall|j: int| 0 <= j < groups@.len() ==> (#[trigger] groups@[j]).records@.len() <= u32::MAX,
    ensures
        r.per_id.wf(),
        r.multimapped.wf(),
        r.inconsistent.wf(),
        forall|id: u32, v: u64|
            r.per_id.count_of(id, v) == outcome_single_count(
                groups@,
                outcomes@,
                id,
                v,
                groups@.len() as int,
            ),
        forall|v: u64|
            r.multimapped.count_of(v) == outcome_multi_count(
                groups@,
                outcomes@,
                v,
                groups@.len() as int,
            ),
        forall|v: u64|
            r.inconsistent.count_of(v) == outcome_inconsistent_count(
                groups@,
                outcomes@,
                v,
                groups@.len() as int,
            ),
        r.per_id.total_count() + r.multimapped.total_count() + r.inconsistent.total_count()
            == groups@.len(),
        r.per_id.weighted_total() + r.multimapped.weighted_total()
            + r.inconsistent.weighted_total() == total_reads(groups@, groups@.len() as int),
{
    let n = groups.len();
    let mut per_id = IdHistograms::new();
    let mut multimapped = CountHistogram::new();
    let mut inconsistent = CountHistogram::new();
    let mut k: usize = 0;
    while k < n
        invariant
            0 <= k <= n,
            n == groups@.len() == outcomes@.len(),
            per_id.wf(),
            multimapped.wf(),
            inconsistent.wf(),
            forall|j: int|
                0 <= j < groups@.len() ==> (#[trigger] groups@[j]).records@.len() <= u32::MAX,
            forall|id: u32, v: u64|
                per_id.count_of(id, v) == outcome_single_count(groups@, outcomes@, id, v, k as int),
            forall|v: u64|
                multimapped.count_of(v) == outcome_multi_count(groups@, outcomes@, v, k as int),
            forall|v: u64|
                inconsistent.count_of(v) == outcome_inconsistent_count(
                    groups@,
                    outcomes@,
                    v,
                    k as int,
                ),
            per_id.total_count() + multimapped.total_count() + inconsistent.total_count()
                == k,
            per_id.weighted_total() + multimapped.weighted_total()
                + inconsistent.weighted_total() == total_reads(groups@, k as int),
        decreases n - k,
    {
        let reads = group_reads(&groups[k].records);
        proof {
            lemma_outcome_counts_bounds(groups@, outcomes@, 0u32, reads, k as int);
        }
        match &outcomes[k] {
            ResolvedClass::Single(id) => {
                proof {
                    lemma_outcome_counts_bounds(groups@, outcomes@, *id, reads, k as int);
                }
                per_id.add_one(*id, reads);
            },
            ResolvedClass::Multi(_) => {
                multimapped.add_counts(reads, 1);
            },
            ResolvedClass::Inconsistent => {
                inconsistent.add_counts(reads, 1);
            },
        }
        k = k + 1;
    }
    AssignmentHistograms { per_id, multimapped, inconsistent }
}

/// When every outcome matches its group's candidate intersection, the
/// outcome-based tallies equal the intersection-based ones.
proof fn lemma_outcome_resolved_bridge(
    groups: Seq<KeyedGroup>,
    outs: Seq<ResolvedClass>,
    sets: Map<u32, Set<u32>>,
    k: int,
)
    requires
        0 <= k <= groups.len(),
        outs.len() == groups.len(),
        forall|j: int|
            0 <= j < groups.len() ==> outcome_matches(
                #[trigger] outs[j],
                candidate_intersection(groups[j].records@, sets),
                groups[j].records@.len() as int,
            ),
    ensures
        forall|id: u32, v: u64|
            outcome_single_count(groups, outs, id, v, k) == resolved_single_count(
                groups,
                sets,
                id,
                v,
                k,
            ),
        forall|v: u64|
            outcome_multi_count(groups, outs, v, k) == resolved_multi_count(groups, sets, v, k),
        forall|v: u64|
            outcome_inconsistent_count(groups, outs, v, k) == resolved_inconsistent_count(
                groups,
                sets,
                v,
                k,
            ),
    decreases k,
{
    if k > 0 {
        lemma_outcome_resolved_bridge(groups, outs, sets, k - 1);
        let g = candidate_intersection(groups[k - 1].records@, sets);
        let nrecs = groups[k - 1].records@.len() as int;
        assert(outcome_matches(outs[k - 1], g, nrecs));
        assert forall|id: u32| (match outs[k - 1] {
            ResolvedClass::Single(i) => i == id,
            _ => false,
        }) == single_arm(g, id) by {
            match outs[k - 1] {
                ResolvedClass::Single(i) => {
                    assert(g == Set::empty().insert(i));
                    assert(g.contains(i));
                    assert(g.len() == 1);
                    if single_arm(g, id) {
                        assert(g.contains(id));
                        assert(id == i);
                    }
                },
                ResolvedClass::Multi(_) => {
                    if single_arm(g, id) {
                        assert(g.len() == 1);
                        assert(outs[k - 1] is Single);
                        assert(false);
                    }
                },
                ResolvedClass::Inconsistent => {
                    if single_arm(g, id) {
                        assert(g.is_empty() && g.contains(id));
                        assert(false);
                    }
                },
            }
        }
        assert((outs[k - 1] is Multi) == multi_arm(g, nrecs)) by {
            match outs[k - 1] {
                ResolvedClass::Single(i) => {
                    assert(g == Set::empty().insert(i));
                    assert(g.len() == 1);
                },
                ResolvedClass::Multi(_) => {
                    if g.len() == 1 {
                        assert(outs[k - 1] is Single);
                        assert(false);
                    }
                    if nrecs >= 2 && g.is_empty() {
                        assert(outs[k - 1] is Inconsistent);
                        assert(false);
                    }
                },
                ResolvedClass::Inconsistent => {
                    assert(nrecs >= 2 && g.is_empty());
                },
            }
        }
        assert((outs[k - 1] is Inconsistent) == inconsistent_arm(g, nrecs)) by {
            match outs[k - 1] {
                ResolvedClass::Single(i) => {
                    assert(g == Set::empty().insert(i));
                    assert(g.contains(i));
                    if g.is_empty() {
                        assert(false);
                    }
                },
                ResolvedClass::Multi(_) => {
                    if inconsistent_arm(g, nrecs) {
                        assert(outs[k - 1] is Inconsistent);
                        assert(false);
                    }
                },
                ResolvedClass::Inconsistent => {},
            }
        }
        assert forall|id: u32, v: u64|
            outcome_single_count(groups, outs, id, v, k) == resolved_single_count(
                groups,
                sets,
                id,
                v,
                k,
            ) by {
            assert(outcome_single_count(groups, outs, id, v, k) == outcome_single_count(
                groups,
                outs,
                id,
                v,
                k - 1,
            ) + if (match outs[k - 1] {
                ResolvedClass::Single(i) => i == id,
                _ => false,
            }) && seq_reads(groups[k - 1].records@) == v {
                1int
            } else {
                0int
            });
            assert(resolved_single_count(groups, sets, id, v, k) == resolved_single_count(
                groups,
                sets,
                id,
                v,
                k - 1,
            ) + if single_arm(g, id) && seq_reads(groups[k - 1].records@) == v {
                1int
            } else {
                0int
            });
        }
        assert forall|v: u64|
            outcome_multi_count(groups, outs, v, k) == resolved_multi_count(groups, sets, v, k)
            by {
            assert(outcome_multi_count(groups, outs, v, k) == outcome_multi_count(
                groups,
                outs,
                v,
                k - 1,
            ) + if outs[k - 1] is Multi && seq_reads(groups[k - 1].records@) == v {
                1int
            } else {
                0int
            });
            assert(resolved_multi_count(groups, sets, v, k) == resolved_multi_count(
                groups,
                sets,
                v,
                k - 1,
            ) + if multi_arm(g, nrecs) && seq_reads(groups[k - 1].records@) == v {
                1int
            } else {
                0int
            });
        }
        assert forall|v: u64|
            outcome_inconsistent_count(groups, outs, v, k) == resolved_inconsistent_count(
                groups,
                sets,
                v,
                k,
            ) by {
            assert(outcome_inconsistent_count(groups, outs, v, k) == outcome_inconsistent_count(
                groups,
                outs,
                v,
                k - 1,
            ) + if outs[k - 1] is Inconsistent && seq_reads(groups[k - 1].records@) == v {
                1int
            } else {
                0int
            });
            assert(resolved_inconsistent_count(groups, sets, v, k) == resolved_inconsistent_count(
                groups,
                sets,
                v,
                k - 1,
            ) + if inconsistent_arm(g, nrecs) && seq_reads(groups[k - 1].records@) == v {
                1int
            } else {
                0int
            });
        }
    }
}

/// The labeled image of per-id histograms: each bucket whose id indexes the
/// name list is kept, in order, under that name; ids beyond the list are
/// left out. The mapper assigns ids as indices into its own name list, so
/// for any mapper-produced input nothing is dropped; the drop arm only
/// fixes the behavior for arbitrary bucket ids.
pub open spec fn labeled_view(s: Seq<(u32, CountHistogram)>, names: Seq<Seq<char>>) -> Seq<
    (Seq<char>, Seq<(u64, u64)>),
>
    decreases s.len(),
{
    if s.len() == 0 {
        Seq::empty()
    } else {
        labeled_view(s.drop_last(), names) + if (s.last().0 as int) < names.len() {
            seq![(names[s.last().0 as int], s.last().1.bucket_seq())]
        } else {
            Seq::empty()
        }
    }
}

/// Label each per-id histogram with its name from the ordered name list;
/// a bucket whose id lies beyond the list is left out.
pub fn label_histograms(per: &IdHistograms, names: &Vec<String>) -> (r: Vec<
    (String, CountHistogram),
>)
    requires
        per.wf(),
    ensures
        r@.map_values(|e: (String, CountHistogram)| (e.0@, e.1.bucket_seq())) == labeled_view(
            per.bucket_seq(),
            names@.map_values(|s: String| s@),
        ),
        forall|t: int| 0 <= t < r@.len() ==> (#[trigger] r@[t]).1.wf(),
{
    let ghost namesv = names@.map_values(|s: String| s@);
    let mut out: Vec<(String, CountHistogram)> = Vec::new();
    let m = per.buckets.len();
    let mut i: usize = 0;
    while i < m
        invariant
            0 <= i <= m,
            m == per.buckets.len(),
            per.wf(),
            namesv == names@.map_values(|s: String| s@),
            out@.map_values(|e: (String, CountHistogram)| (e.0@, e.1.bucket_seq()))
                =~= labeled_view(per.buckets@.subrange(0, i as int), namesv),
            forall|t: int| 0 <= t < out@.len() ==> (#[trigger] out@[t]).1.wf(),
        decreases m - i,
    {
        let ghost prefix = per.buckets@.subrange(0, i as int);
        let ghost prev = out@.map_values(|e: (String, CountHistogram)| (e.0@, e.1.bucket_seq()));
        let id = per.buckets[i].0;
        proof {
            assert(per.buckets@.subrange(0, i + 1).drop_last() =~= prefix);
            assert(per.buckets@.subrange(0, i + 1).last() == per.buckets@[i as int]);
        }
        if (id as usize) < names.len() {
            let h = per.buckets[i].1.duplicate();
            out.push((names[id as usize].clone(), h));
            proof {
                assert(per.buckets@[i as int].1.wf());
                assert(namesv[id as int] == names@[id as int]@);
                assert(out@.map_values(|e: (String, CountHistogram)| (e.0@, e.1.bucket_seq()))
                    =~= prev + seq![(namesv[id as int], per.buckets@[i as int].1.bucket_seq())]);
            }
        } else {
            proof {
                assert(labeled_view(per.buckets@.subrange(0, i + 1), namesv) =~= prev);
            }
        }
        i = i + 1;
    }
    proof {
        assert(per.buckets@.subrange(0, m as int) =~= per.buckets@);
    }
    out
}

/// One assignment pass's results: the ordered name list, the per-id
/// histograms, their labeled image, and the two global histograms.
pub struct AssignmentReport {
    /// Names in id order, as the mapper assigns them.
    pub names: Vec<String>,
    /// Reads-per-group histogram per singly assigned id.
    pub per_id: IdHistograms,
    /// The per-id histograms under their names.
    pub labeled: Vec<(String, CountHistogram)>,
    /// Histogram of the multimapped population.
    pub multimapped: CountHistogram,
    /// Histogram of the inconsistent population.
    pub inconsistent: CountHistogram,
}

/// Resolve a single sample's (barcode, umi) groups against the gene mapper
/// and histogram the outcomes: per-gene reads-per-group histograms, one
/// histogram each for the multimapped and the inconsistent populations, and
/// the labeled image of the per-gene histograms.
pub fn assignment_histograms_gene(groups: &Vec<KeyedGroup>, mapper: &Ec2GeneMapper) -> (r:
    AssignmentReport)
    requires
        forall|j: int| 0 <= j < groups@.len() ==> (#[trigger] groups@[j]).records@.len() >= 1,
        forall|j: int| 0 <= j < groups@.len() ==> (#[trigger] groups@[j]).records@.len() <= u32::MAX,
        forall|j: int, i: int|
            0 <= j < groups@.len() && 0 <= i < groups@[j].records@.len() ==> gene_sets_of(
                *mapper,
            ).dom().contains((#[trigger] groups@[j].records@[i]).equivalence_class),
    ensures
        r.per_id.wf(),
        r.multimapped.wf(),
        r.inconsistent.wf(),
        r.names@.map_values(|s: String| s@) == gene_names_of(*mapper),
        forall|id: u32, v: u64|
            r.per_id.count_of(id, v) == resolved_single_count(
                groups@,
                gene_sets_of(*mapper),
                id,
                v,
                groups@.len() as int,
            ),
        forall|v: u64|
            r.multimapped.count_of(v) == resolved_multi_count(
                groups@,
                gene_sets_of(*mapper),
                v,
                groups@.len() as int,
            ),
        forall|v: u64|
            r.inconsistent.count_of(v) == resolved_inconsistent_count(
                groups@,
                gene_sets_of(*mapper),
                v,
                groups@.len() as int,
            ),
        r.per_id.total_count() + r.multimapped.total_count() + r.inconsistent.total_count()
            == groups@.len(),
        r.per_id.weighted_total() + r.multimapped.weighted_total()
            + r.inconsistent.weighted_total() == total_reads(groups@, groups@.len() as int),
        r.labeled@.map_values(|e: (String, CountHistogram)| (e.0@, e.1.bucket_seq()))
            == labeled_view(r.per_id.bucket_seq(), gene_names_of(*mapper)),
        forall|t: int| 0 <= t < r.labeled@.len() ==> (#[trigger] r.labeled@[t]).1.wf(),
{
    let outs = resolve_gene_groups(groups, mapper);
    let h = assignment_histograms_from_outcomes(groups, &outs);
    proof {
        lemma_outcome_resolved_bridge(
            groups@,
            outs@,
            gene_sets_of(*mapper),
            groups@.len() as int,
        );
    }
    let names = gene_names(mapper);
    let labeled = label_histograms(&h.per_id, &names);
    AssignmentReport {
        names,
        per_id: h.per_id,
        labeled,
        multimapped: h.multimapped,
        inconsistent: h.inconsistent,
    }
}

/// Resolve a single sample's (barcode, umi) groups against the transcript
/// mapper and histogram the outcomes, as the gene pass does.
pub fn assignment_histograms_transcript(
    groups: &Vec<KeyedGroup>,
    mapper: &Ec2TranscriptMapper,
) -> (r: AssignmentReport)
    requires
        forall|j: int| 0 <= j < groups@.len() ==> (#[trigger] groups@[j]).records@.len() >= 1,
        forall|j: int| 0 <= j < groups@.len() ==> (#[trigger] groups@[j]).records@.len() <= u32::MAX,
        forall|j: int, i: int|
            0 <= j < groups@.len() && 0 <= i < groups@[j].records@.len() ==> transcript_sets_of(
                *mapper,
            ).dom().contains((#[trigger] groups@[j].records@[i]).equivalence_class),
    ensures
        r.per_id.wf(),
        r.multimapped.wf(),
        r.inconsistent.wf(),
        r.names@.map_values(|s: String| s@) == transcript_names_of(*mapper),
        forall|id: u32, v: u64|
            r.per_id.count_of(id, v) == resolved_single_count(
                groups@,
                transcript_sets_of(*mapper),
                id,
                v,
                groups@.len() as int,
            ),
        forall|v: u64|
            r.multimapped.count_of(v) == resolved_multi_count(
                groups@,
                transcript_sets_of(*mapper),
                v,
                groups@.len() as int,
            ),
        forall|v: u64|
            r.inconsistent.count_of(v) == resolved_inconsistent_count(
                groups@,
                transcript_sets_of(*mapper),
                v,
                groups@.len() as int,
            ),
        r.per_id.total_count() + r.multimapped.total_count() + r.inconsistent.total_count()
            == groups@.len(),
        r.per_id.weighted_total() + r.multimapped.weighted_total()
            + r.inconsistent.weighted_total() == total_reads(groups@, groups@.len() as int),
        r.labeled@.map_values(|e: (String, CountHistogram)| (e.0@, e.1.bucket_seq()))
            == labeled_view(r.per_id.bucket_seq(), transcript_names_of(*mapper)),
        forall|t: int| 0 <= t < r.labeled@.len() ==> (#[trigger] r.labeled@[t]).1.wf(),
{
    let outs = resolve_transcript_groups(groups, mapper);
    let h = assignment_histograms_from_outcomes(groups, &outs);
    proof {
        lemma_outcome_resolved_bridge(
            groups@,
            outs@,
            transcript_sets_of(*mapper),
            groups@.len() as int,
        );
    }
    let names = transcript_names(mapper);
    let labeled = label_histograms(&h.per_id, &names);
    AssignmentReport {
        names,
        per_id: h.per_id,
        labeled,
        multimapped: h.multimapped,
        inconsistent: h.inconsistent,
    }
}

/// Over the first `k` groups, how many resolved to a single id (any id)
/// with `v` total reads.
pub open spec fn resolved_any_single_count(
    groups: Seq<KeyedGroup>,
    sets: Map<u32, Set<u32>>,
    v: u64,
    k: int,
) -> int
    decreases k,
{
    if k <= 0 {
        0
    } else {
        resolved_any_single_count(groups, sets, v, k - 1) + if candidate_intersection(
            groups[k - 1].records@,
            sets,
        ).len() == 1 && seq_reads(groups[k - 1].records@) == v {
            1int
        } else {
            0int
        }
    }
}

proof fn lemma_any_single_count_bounds(
    groups: Seq<KeyedGroup>,
    sets: Map<u32, Set<u32>>,
    v: u64,
    k: int,
)
    requires
        0 <= k,
    ensures
        0 <= resolved_any_single_count(groups, sets, v, k) <= k,
    decreases k,
{
    if k > 0 {
        lemma_any_single_count_bounds(groups, sets, v, k - 1);
    }
}

/// The gene-collapsed frequency of frequency: histogram the total reads of
/// every group that resolves to a single gene, skipping the multimapped
/// and the inconsistent groups.
pub fn gene_collapsed_read_histogram(groups: &Vec<KeyedGroup>, mapper: &Ec2GeneMapper) -> (r:
    CountHistogram)
    requires
        forall|j: int| 0 <= j < groups@.len() ==> (#[trigger] groups@[j]).records@.len() >= 1,
        forall|j: int| 0 <= j < groups@.len() ==> (#[trigger] groups@[j]).records@.len() <= u32::MAX,
        forall|j: int, i: int|
            0 <= j < groups@.len() && 0 <= i < groups@[j].records@.len() ==> gene_sets_of(
                *mapper,
            ).dom().contains((#[trigger] groups@[j].records@[i]).equivalence_class),
    ensures
        r.wf(),
        forall|v: u64|
            r.count_of(v) == resolved_any_single_count(
                groups@,
                gene_sets_of(*mapper),
                v,
                groups@.len() as int,
            ),
{
    let ghost sets = gene_sets_of(*mapper);
    let outs = resolve_gene_groups(groups, mapper);
    let n = groups.len();
    let mut hist = CountHistogram::new();
    let mut k: usize = 0;
    while k < n
        invariant
            0 <= k <= n,
            n == groups@.len() == outs@.len(),
            hist.wf(),
            forall|j: int|
                0 <= j < groups@.len() ==> (#[trigger] groups@[j]).records@.len() <= u32::MAX,
            forall|j: int|
                0 <= j < groups@.len() ==> outcome_matches(
                    #[trigger] outs@[j],
                    candidate_intersection(groups@[j].records@, sets),
                    groups@[j].records@.len() as int,
                ),
            forall|v: u64| hist.count_of(v) == resolved_any_single_count(groups@, sets, v, k as int),
        decreases n - k,
    {
        let ghost g = candidate_intersection(groups@[k as int].records@, sets);
        let ghost nrecs = groups@[k as int].records@.len() as int;
        proof {
            assert(outcome_matches(outs@[k as int], g, nrecs));
        }
        match &outs[k] {
            ResolvedClass::Single(_) => {
                let reads = group_reads(&groups[k].records);
                proof {
                    assert(g.len() == 1) by {
                        let id = outs@[k as int]->Single_0;
                        assert(g == Set::empty().insert(id));
                    }
                    lemma_any_single_count_bounds(groups@, sets, reads, k as int);
                }
                hist.add_counts(reads, 1);
            },
            ResolvedClass::Multi(_) => {
                proof {
                    assert(g.len() != 1) by {
                        if g.len() == 1 {
                            assert(outs@[k as int] is Single);
                        }
                    }
                }
            },
            ResolvedClass::Inconsistent => {
                proof {
                    assert(g.is_empty());
                    assert(g.len() != 1) by {
                        if g.len() == 1 {
                            assert(outs@[k as int] is Single);
                        }
                    }
                }
            },
        }
        k = k + 1;
    }
    hist
}

} // verus!
