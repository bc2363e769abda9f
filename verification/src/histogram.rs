//! Count-of-counts histogram: maps an observed integer value to the number
//! of groups that had exactly that value. A lossless re-expression of the
//! raw multiset of observations as frequency of frequency: the sum of
//! bucket value times bucket count equals the sum of the raw observations.

use vstd::prelude::*;

verus! {

/// Occurrences of `value` among the buckets of `s` (zero when absent).
pub open spec fn count_in(s: Seq<(u64, u64)>, value: u64) -> int
    decreases s.len(),
{
    if s.len() == 0 {
        0
    } else {
        count_in(s.drop_last(), value) + if s.last().0 == value {
            s.last().1 as int
        } else {
            0int
        }
    }
}

/// Whether `s` holds a bucket for `value` (its count may be zero).
pub open spec fn bucket_present(s: Seq<(u64, u64)>, value: u64) -> bool {
    exists|i: int| 0 <= i < s.len() && s[i].0 == value
}

/// Sum over the buckets of `s` of bucket value times bucket count.
pub open spec fn weighted_in(s: Seq<(u64, u64)>) -> int
    decreases s.len(),
{
    if s.len() == 0 {
        0
    } else {
        weighted_in(s.drop_last()) + s.last().0 * s.last().1
    }
}

/// Sum of the bucket counts of `s`: how many observations were recorded.
pub open spec fn count_total_in(s: Seq<(u64, u64)>) -> int
    decreases s.len(),
{
    if s.len() == 0 {
        0
    } else {
        count_total_in(s.drop_last()) + s.last().1
    }
}

/// Bucket values are pairwise distinct.
pub open spec fn buckets_unique(s: Seq<(u64, u64)>) -> bool {
    forall|i: int, j: int| 0 <= i < j < s.len() ==> s[i].0 != s[j].0
}

proof fn lemma_count_in_update(s: Seq<(u64, u64)>, i: int, c: u64, value: u64)
    requires
        0 <= i < s.len(),
        buckets_unique(s),
        s[i].0 == value,
    ensures
        count_in(s.update(i, (value, c)), value) == count_in(s, value) - s[i].1 + c,
        forall|w: u64| w != value ==> count_in(s.update(i, (value, c)), w) == count_in(s, w),
        weighted_in(s.update(i, (value, c))) == weighted_in(s) - s[i].0 * s[i].1 + value * c,
        count_total_in(s.update(i, (value, c))) == count_total_in(s) - s[i].1 + c,
    decreases s.len(),
{
    let t = s.update(i, (value, c));
    if i == s.len() - 1 {
        assert(t.drop_last() =~= s.drop_last());
        assert(t.last() == (value, c));
        assert(s.last() == s[i]);
        assert forall|w: u64| w != value implies count_in(t, w) == count_in(s, w) by {
            assert(count_in(t, w) == count_in(t.drop_last(), w));
            assert(count_in(s, w) == count_in(s.drop_last(), w));
        }
    } else {
        assert(forall|k: int| 0 <= k < s.len() - 1 ==> s.drop_last()[k] == s[k]);
        assert(s.drop_last()[i].0 == value);
        lemma_count_in_update(s.drop_last(), i, c, value);
        assert(t.drop_last() =~= s.drop_last().update(i, (value, c)));
        assert(t.last() == s.last());
        assert(s.last().0 != value) by {
            assert(s[i].0 == value && i < s.len() - 1);
        }
        assert(count_in(t, value) == count_in(t.drop_last(), value));
        assert(count_in(s, value) == count_in(s.drop_last(), value));
        assert forall|w: u64| w != value implies count_in(t, w) == count_in(s, w) by {
            assert(count_in(t.drop_last(), w) == count_in(s.drop_last(), w));
            assert(count_in(t, w) == count_in(t.drop_last(), w)
                + if t.last().0 == w { t.last().1 as int } else { 0int });
            assert(count_in(s, w) == count_in(s.drop_last(), w)
                + if s.last().0 == w { s.last().1 as int } else { 0int });
        }
    }
}

proof fn lemma_count_in_push(s: Seq<(u64, u64)>, p: (u64, u64))
    ensures
        count_in(s.push(p), p.0) == count_in(s, p.0) + p.1,
        forall|w: u64| w != p.0 ==> count_in(s.push(p), w) == count_in(s, w),
        weighted_in(s.push(p)) == weighted_in(s) + p.0 * p.1,
        count_total_in(s.push(p)) == count_total_in(s) + p.1,
{
    assert(s.push(p).drop_last() =~= s);
}

proof fn lemma_absent_count_zero(s: Seq<(u64, u64)>, value: u64)
    requires
        !bucket_present(s, value),
    ensures
        count_in(s, value) == 0,
    decreases s.len(),
{
    if s.len() > 0 {
        assert(forall|i: int| 0 <= i < s.len() - 1 ==> s.drop_last()[i] == s[i]);
        lemma_absent_count_zero(s.drop_last(), value);
    }
}

/// A frequency-of-frequency histogram over `u64` observations.
///
/// Buckets only grow during an aggregation pass; there is no deletion.
pub struct CountHistogram {
    buckets: Vec<(u64, u64)>,
}

impl CountHistogram {
    /// Internal invariant: one bucket per value.
    pub closed spec fn wf(self) -> bool {
        buckets_unique(self.buckets@)
    }

    /// The buckets as a sequence of (value, count) pairs.
    pub closed spec fn bucket_seq(self) -> Seq<(u64, u64)> {
        self.buckets@
    }

    /// Number of groups recorded with exactly `value` (zero when no bucket).
    pub open spec fn count_of(self, value: u64) -> int {
        count_in(self.bucket_seq(), value)
    }

    /// Whether a bucket exists for `value` (it may hold count zero).
    pub open spec fn has_bucket(self, value: u64) -> bool {
        bucket_present(self.bucket_seq(), value)
    }

    /// Sum of value times count over all buckets: the total of the raw
    /// observations the histogram re-encodes.
    pub open spec fn weighted_total(self) -> int {
        weighted_in(self.bucket_seq())
    }

    /// Sum of the counts over all buckets: how many observations were
    /// recorded.
    pub open spec fn total_count(self) -> int {
        count_total_in(self.bucket_seq())
    }

    /// An empty histogram.
    pub fn new() -> (r: CountHistogram)
        ensures
            r.wf(),
            forall|v: u64| r.count_of(v) == 0,
            forall|v: u64| !r.has_bucket(v),
            r.weighted_total() == 0,
            r.total_count() == 0,
            r.bucket_seq() =~= Seq::<(u64, u64)>::empty(),
    {
        CountHistogram { buckets: Vec::new() }
    }

    /// Increment the bucket for `value` by `n`, inserting a fresh bucket at
    /// zero first when absent. This is the histogram's only mutation, and it
    /// preserves the lossless-re-encoding total.
    pub fn add_counts(&mut self, value: u64, n: u64)
        requires
            old(self).wf(),
            old(self).count_of(value) + n <= u64::MAX,
        ensures
            final(self).wf(),
            final(self).count_of(value) == old(self).count_of(value) + n,
            forall|w: u64| w != value ==> final(self).count_of(w) == old(self).count_of(w),
            forall|w: u64| final(self).has_bucket(w) == (old(self).has_bucket(w) || w == value),
            final(self).weighted_total() == old(self).weighted_total() + value * n,
            final(self).total_count() == old(self).total_count() + n,
    {
        let ghost s0 = self.buckets@;
        let m = self.buckets.len();
        let mut i: usize = 0;
        while i < m
            invariant
                0 <= i <= m,
                m == self.buckets.len(),
                self.buckets@ == s0,
                s0 == old(self).buckets@,
                buckets_unique(s0),
                count_in(s0, value) + n <= u64::MAX,
                forall|k: int| 0 <= k < i ==> s0[k].0 != value,
            decreases m - i,
        {
            if self.buckets[i].0 == value {
                proof {
                    lemma_count_below_total(s0, i as int);
                    lemma_count_nonneg(s0, value);
                }
                let c = self.buckets[i].1;
                let c2 = c + n;
                self.buckets.set(i, (value, c2));
                proof {
                    let t = s0.update(i as int, (value, c2));
                    lemma_count_in_update(s0, i as int, c2, value);
                    assert(count_in(t, value) == count_in(s0, value) + n);
                    assert(value * c2 == value * c + value * n) by (nonlinear_arith)
                        requires c2 == c + n;
                    assert forall|w: u64| bucket_present(t, w)
                        == (bucket_present(s0, w) || w == value) by {
                        if bucket_present(s0, w) {
                            let k = choose|k: int| 0 <= k < s0.len() && s0[k].0 == w;
                            assert(t[k].0 == w);
                        }
                        if bucket_present(t, w) {
                            let k = choose|k: int| 0 <= k < t.len() && t[k].0 == w;
                            if k != i {
                                assert(s0[k].0 == w);
                            }
                        }
                        if w == value {
                            assert(t[i as int].0 == w);
                        }
                    }
                }
                return;
            }
            i = i + 1;
        }
        proof {
            lemma_absent_count_zero(s0, value);
            lemma_count_in_push(s0, (value, n));
            let t = s0.push((value, n));
            assert forall|w: u64| bucket_present(t, w)
                == (bucket_present(s0, w) || w == value) by {
                if bucket_present(s0, w) {
                    let k = choose|k: int| 0 <= k < s0.len() && s0[k].0 == w;
                    assert(t[k].0 == w);
                }
                if bucket_present(t, w) {
                    let k = choose|k: int| 0 <= k < t.len() && t[k].0 == w;
                    if k < s0.len() {
                        assert(s0[k].0 == w);
                    }
                }
                if w == value {
                    assert(t[s0.len() as int].0 == w);
                }
            }
        }
        self.buckets.push((value, n));
    }

    /// Read the count recorded for `value` (zero when no bucket exists).
    pub fn get(&self, value: u64) -> (r: u64)
        requires
            self.wf(),
        ensures
            r == self.count_of(value),
    {
        let m = self.buckets.len();
        let mut i: usize = 0;
        while i < m
            invariant
                0 <= i <= m,
                m == self.buckets.len(),
                self.wf(),
                forall|k: int| 0 <= k < i ==> self.buckets@[k].0 != value,
            decreases m - i,
        {
            if self.buckets[i].0 == value {
                proof {
                    lemma_count_split(self.buckets@, i as int, value);
                    lemma_absent_count_zero(self.buckets@.subrange(0, i as int), value);
                }
                return self.buckets[i].1;
            }
            i = i + 1;
        }
        proof {
            lemma_absent_count_zero(self.buckets@, value);
        }
        0
    }

    /// An independent histogram with the same buckets.
    pub fn duplicate(&self) -> (r: CountHistogram)
        ensures
            r.bucket_seq() == self.bucket_seq(),
            r.wf() == self.wf(),
    {
        let mut buckets: Vec<(u64, u64)> = Vec::new();
        let m = self.buckets.len();
        let mut i: usize = 0;
        while i < m
            invariant
                0 <= i <= m,
                m == self.buckets.len(),
                buckets@ =~= self.buckets@.subrange(0, i as int),
            decreases m - i,
        {
            buckets.push(self.buckets[i]);
            i = i + 1;
        }
        proof {
            assert(self.buckets@.subrange(0, m as int) =~= self.buckets@);
        }
        CountHistogram { buckets }
    }

    /// Number of distinct bucket values.
    pub fn num_buckets(&self) -> (r: usize)
        ensures
            r == self.bucket_seq().len(),
    {
        self.buckets.len()
    }

    /// The buckets as (value, count) pairs, one per distinct value, in
    /// first-insertion order.
    pub fn entries(&self) -> (r: &Vec<(u64, u64)>)
        ensures
            r@ == self.bucket_seq(),
    {
        &self.buckets
    }
}

proof fn lemma_count_below_total(s: Seq<(u64, u64)>, i: int)
    requires
        buckets_unique(s),
        0 <= i < s.len(),
    ensures
        s[i].1 <= count_in(s, s[i].0),
    decreases s.len(),
{
    if i == s.len() - 1 {
        lemma_count_nonneg(s.drop_last(), s[i].0);
    } else {
        assert(forall|k: int| 0 <= k < s.len() - 1 ==> s.drop_last()[k] == s[k]);
        lemma_count_below_total(s.drop_last(), i);
    }
}

/// A recorded count is never negative.
pub proof fn lemma_count_nonneg(s: Seq<(u64, u64)>, value: u64)
    ensures
        count_in(s, value) >= 0,
    decreases s.len(),
{
    if s.len() > 0 {
        lemma_count_nonneg(s.drop_last(), value);
    }
}

proof fn lemma_count_split(s: Seq<(u64, u64)>, i: int, value: u64)
    requires
        buckets_unique(s),
        0 <= i < s.len(),
        s[i].0 == value,
    ensures
        count_in(s, value) == count_in(s.subrange(0, i), value) + s[i].1,
    decreases s.len(),
{
    if i == s.len() - 1 {
        assert(s.drop_last() =~= s.subrange(0, i));
    } else {
        assert(forall|k: int| 0 <= k < s.len() - 1 ==> s.drop_last()[k] == s[k]);
        lemma_count_split(s.drop_last(), i, value);
        assert(s.drop_last().subrange(0, i) =~= s.subrange(0, i));
        assert(s.last().0 != value);
    }
}

} // verus!
