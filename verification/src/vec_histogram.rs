//! Histogram keyed by integer vectors: counts how many merged elements
//! exhibited a given sample subset or a given abundance fingerprint. Keys
//! are canonical vectors (a fixed-length fingerprint, or a strictly
//! ascending subset), so one logical key never occupies two buckets.

use vstd::prelude::*;

verus! {

/// Occurrences of `key` among the buckets of `s` (zero when absent).
pub open spec fn key_count_in(s: Seq<(Seq<u64>, u64)>, key: Seq<u64>) -> int
    decreases s.len(),
{
    if s.len() == 0 {
        0
    } else {
        key_count_in(s.drop_last(), key) + if s.last().0 == key {
            s.last().1 as int
        } else {
            0int
        }
    }
}

/// Whether `s` holds a bucket for `key`.
pub open spec fn key_present(s: Seq<(Seq<u64>, u64)>, key: Seq<u64>) -> bool {
    exists|i: int| 0 <= i < s.len() && s[i].0 == key
}

/// Sum of the bucket counts of `s`: how many elements were recorded.
pub open spec fn key_total_in(s: Seq<(Seq<u64>, u64)>) -> int
    decreases s.len(),
{
    if s.len() == 0 {
        0
    } else {
        key_total_in(s.drop_last()) + s.last().1
    }
}

/// Sum of a key vector's entries.
pub open spec fn key_weight(key: Seq<u64>) -> int
    decreases key.len(),
{
    if key.len() == 0 {
        0
    } else {
        key_weight(key.drop_last()) + key.last()
    }
}

/// Sum over the buckets of `s` of count times the key's entry sum.
pub open spec fn key_weighted_in(s: Seq<(Seq<u64>, u64)>) -> int
    decreases s.len(),
{
    if s.len() == 0 {
        0
    } else {
        key_weighted_in(s.drop_last()) + s.last().1 * key_weight(s.last().0)
    }
}

/// Bucket keys are pairwise distinct.
pub open spec fn keys_unique(s: Seq<(Seq<u64>, u64)>) -> bool {
    forall|i: int, j: int| 0 <= i < j < s.len() ==> s[i].0 != s[j].0
}

proof fn lemma_key_count_update(s: Seq<(Seq<u64>, u64)>, i: int, c: u64, key: Seq<u64>)
    requires
        0 <= i < s.len(),
        keys_unique(s),
        s[i].0 == key,
    ensures
        key_count_in(s.update(i, (key, c)), key) == key_count_in(s, key) - s[i].1 + c,
        forall|w: Seq<u64>| w != key ==> key_count_in(s.update(i, (key, c)), w)
            == key_count_in(s, w),
        key_total_in(s.update(i, (key, c))) == key_total_in(s) - s[i].1 + c,
        key_weighted_in(s.update(i, (key, c))) == key_weighted_in(s) - s[i].1 * key_weight(
            s[i].0,
        ) + c * key_weight(key),
    decreases s.len(),
{
    let t = s.update(i, (key, c));
    if i == s.len() - 1 {
        assert(t.drop_last() =~= s.drop_last());
        assert(t.last() == (key, c));
        assert(s.last() == s[i]);
        assert forall|w: Seq<u64>| w != key implies key_count_in(t, w) == key_count_in(s, w) by {
            assert(key_count_in(t, w) == key_count_in(t.drop_last(), w));
            assert(key_count_in(s, w) == key_count_in(s.drop_last(), w));
        }
    } else {
        assert(forall|k: int| 0 <= k < s.len() - 1 ==> s.drop_last()[k] == s[k]);
        assert(s.drop_last()[i].0 == key);
        lemma_key_count_update(s.drop_last(), i, c, key);
        assert(t.drop_last() =~= s.drop_last().update(i, (key, c)));
        assert(t.last() == s.last());
        assert(s.last().0 != key) by {
            assert(s[i].0 == key && i < s.len() - 1);
        }
        assert(key_count_in(t, key) == key_count_in(t.drop_last(), key));
        assert(key_count_in(s, key) == key_count_in(s.drop_last(), key));
        assert forall|w: Seq<u64>| w != key implies key_count_in(t, w) == key_count_in(s, w) by {
            assert(key_count_in(t.drop_last(), w) == key_count_in(s.drop_last(), w));
            assert(key_count_in(t, w) == key_count_in(t.drop_last(), w)
                + if t.last().0 == w { t.last().1 as int } else { 0int });
            assert(key_count_in(s, w) == key_count_in(s.drop_last(), w)
                + if s.last().0 == w { s.last().1 as int } else { 0int });
        }
    }
}

proof fn lemma_key_count_push(s: Seq<(Seq<u64>, u64)>, p: (Seq<u64>, u64))
    ensures
        key_count_in(s.push(p), p.0) == key_count_in(s, p.0) + p.1,
        forall|w: Seq<u64>| w != p.0 ==> key_count_in(s.push(p), w) == key_count_in(s, w),
        key_total_in(s.push(p)) == key_total_in(s) + p.1,
        key_weighted_in(s.push(p)) == key_weighted_in(s) + p.1 * key_weight(p.0),
{
    assert(s.push(p).drop_last() =~= s);
}

proof fn lemma_key_absent_zero(s: Seq<(Seq<u64>, u64)>, key: Seq<u64>)
    requires
        !key_present(s, key),
    ensures
        key_count_in(s, key) == 0,
    decreases s.len(),
{
    if s.len() > 0 {
        assert(forall|i: int| 0 <= i < s.len() - 1 ==> s.drop_last()[i] == s[i]);
        lemma_key_absent_zero(s.drop_last(), key);
    }
}

proof fn lemma_key_count_nonneg(s: Seq<(Seq<u64>, u64)>, key: Seq<u64>)
    ensures
        key_count_in(s, key) >= 0,
    decreases s.len(),
{
    if s.len() > 0 {
        lemma_key_count_nonneg(s.drop_last(), key);
    }
}

proof fn lemma_key_count_below_total(s: Seq<(Seq<u64>, u64)>, i: int)
    requires
        keys_unique(s),
        0 <= i < s.len(),
    ensures
        s[i].1 <= key_count_in(s, s[i].0),
    decreases s.len(),
{
    if i == s.len() - 1 {
        lemma_key_count_nonneg(s.drop_last(), s[i].0);
    } else {
        assert(forall|k: int| 0 <= k < s.len() - 1 ==> s.drop_last()[k] == s[k]);
        lemma_key_count_below_total(s.drop_last(), i);
    }
}

proof fn lemma_key_count_split(s: Seq<(Seq<u64>, u64)>, i: int, key: Seq<u64>)
    requires
        keys_unique(s),
        0 <= i < s.len(),
        s[i].0 == key,
    ensures
        key_count_in(s, key) == key_count_in(s.subrange(0, i), key) + s[i].1,
    decreases s.len(),
{
    if i == s.len() - 1 {
        assert(s.drop_last() =~= s.subrange(0, i));
    } else {
        assert(forall|k: int| 0 <= k < s.len() - 1 ==> s.drop_last()[k] == s[k]);
        lemma_key_count_split(s.drop_last(), i, key);
        assert(s.drop_last().subrange(0, i) =~= s.subrange(0, i));
        assert(s.last().0 != key);
    }
}

/// Compare two integer vectors element by element.
pub fn keys_equal(a: &Vec<u64>, b: &Vec<u64>) -> (r: bool)
    ensures
        r == (a@ == b@),
{
    if a.len() != b.len() {
        proof {
            assert(a@ != b@);
        }
        return false;
    }
    let n = a.len();
    let mut i: usize = 0;
    while i < n
        invariant
            0 <= i <= n,
            n == a.len() == b.len(),
            forall|j: int| 0 <= j < i ==> a@[j] == b@[j],
        decreases n - i,
    {
        if a[i] != b[i] {
            return false;
        }
        i = i + 1;
    }
    proof {
        assert(a@ =~= b@);
    }
    true
}

/// A histogram keyed by integer vectors.
pub struct VecKeyHistogram {
    buckets: Vec<(Vec<u64>, u64)>,
}

impl VecKeyHistogram {
    /// Internal invariant: one bucket per key.
    pub closed spec fn wf(self) -> bool {
        keys_unique(self.bucket_seq())
    }

    /// The buckets as (key, count) pairs.
    pub closed spec fn bucket_seq(self) -> Seq<(Seq<u64>, u64)> {
        self.buckets@.map_values(|b: (Vec<u64>, u64)| (b.0@, b.1))
    }

    /// Number of elements recorded under `key` (zero when no bucket).
    pub open spec fn count_of(self, key: Seq<u64>) -> int {
        key_count_in(self.bucket_seq(), key)
    }

    /// Whether a bucket exists for `key`.
    pub open spec fn has_key(self, key: Seq<u64>) -> bool {
        key_present(self.bucket_seq(), key)
    }

    /// Sum of the counts over all buckets: how many elements were recorded.
    pub open spec fn total_count(self) -> int {
        key_total_in(self.bucket_seq())
    }

    /// Sum over all buckets of count times the key's entry sum: the raw
    /// total of the recorded vectors' entries.
    pub open spec fn weighted_total(self) -> int {
        key_weighted_in(self.bucket_seq())
    }

    /// An empty histogram.
    pub fn new() -> (r: VecKeyHistogram)
        ensures
            r.wf(),
            forall|w: Seq<u64>| r.count_of(w) == 0,
            forall|w: Seq<u64>| !r.has_key(w),
            r.total_count() == 0,
            r.weighted_total() == 0,
            r.bucket_seq() =~= Seq::<(Seq<u64>, u64)>::empty(),
    {
        VecKeyHistogram { buckets: Vec::new() }
    }

    /// Record one more element under `key`.
    pub fn add_one(&mut self, key: Vec<u64>)
        requires
            old(self).wf(),
            old(self).count_of(key@) < u64::MAX,
        ensures
            final(self).wf(),
            final(self).count_of(key@) == old(self).count_of(key@) + 1,
            forall|w: Seq<u64>| w != key@ ==> final(self).count_of(w) == old(self).count_of(w),
            forall|w: Seq<u64>| final(self).has_key(w) == (old(self).has_key(w) || w == key@),
            final(self).total_count() == old(self).total_count() + 1,
            final(self).weighted_total() == old(self).weighted_total() + key_weight(key@),
    {
        let ghost s0 = self.bucket_seq();
        let m = self.buckets.len();
        let mut i: usize = 0;
        while i < m
            invariant
                0 <= i <= m,
                m == self.buckets.len(),
                self.bucket_seq() == s0,
                s0 == old(self).bucket_seq(),
                s0.len() == m,
                keys_unique(s0),
                key_count_in(s0, key@) < u64::MAX,
                forall|k: int| 0 <= k < i ==> s0[k].0 != key@,
            decreases m - i,
        {
            proof {
                assert(s0[i as int] == (self.buckets@[i as int].0@, self.buckets@[i as int].1));
            }
            if keys_equal(&self.buckets[i].0, &key) {
                proof {
                    lemma_key_count_below_total(s0, i as int);
                    lemma_key_count_nonneg(s0, key@);
                }
                let c = self.buckets[i].1;
                let c2 = c + 1;
                let ghost bold = self.buckets@[i as int];
                self.buckets.set(i, (key, c2));
                proof {
                    let t = self.bucket_seq();
                    assert(t =~= s0.update(i as int, (key@, c2)));
                    lemma_key_count_update(s0, i as int, c2, key@);
                    assert(s0[i as int].0 == key@);
                    assert(c2 * key_weight(key@) == c * key_weight(key@) + key_weight(key@))
                        by (nonlinear_arith)
                        requires c2 == c + 1;
                    assert forall|w: Seq<u64>| key_present(t, w)
                        == (key_present(s0, w) || w == key@) by {
                        if key_present(s0, w) {
                            let k = choose|k: int| 0 <= k < s0.len() && s0[k].0 == w;
                            assert(t[k].0 == w);
                        }
                        if key_present(t, w) {
                            let k = choose|k: int| 0 <= k < t.len() && t[k].0 == w;
                            if k != i {
                                assert(s0[k].0 == w);
                            }
                        }
                        if w == key@ {
                            assert(t[i as int].0 == w);
                        }
                    }
                }
                return;
            }
            i = i + 1;
        }
        proof {
            lemma_key_absent_zero(s0, key@);
            lemma_key_count_push(s0, (key@, 1u64));
        }
        self.buckets.push((key, 1));
        proof {
            let t = self.bucket_seq();
            assert(t =~= s0.push((key@, 1u64)));
            assert forall|w: Seq<u64>| key_present(t, w)
                == (key_present(s0, w) || w == key@) by {
                if key_present(s0, w) {
                    let k = choose|k: int| 0 <= k < s0.len() && s0[k].0 == w;
                    assert(t[k].0 == w);
                }
                if key_present(t, w) {
                    let k = choose|k: int| 0 <= k < t.len() && t[k].0 == w;
                    if k < s0.len() {
                        assert(s0[k].0 == w);
                    }
                }
                if w == key@ {
                    assert(t[s0.len() as int].0 == w);
                }
            }
        }
    }

    /// Read the count recorded under `key` (zero when no bucket exists).
    pub fn get(&self, key: &Vec<u64>) -> (r: u64)
        requires
            self.wf(),
        ensures
            r == self.count_of(key@),
    {
        let ghost s = self.bucket_seq();
        let m = self.buckets.len();
        let mut i: usize = 0;
        while i < m
            invariant
                0 <= i <= m,
                m == self.buckets.len(),
                s == self.bucket_seq(),
                s.len() == m,
                keys_unique(s),
                forall|k: int| 0 <= k < i ==> s[k].0 != key@,
            decreases m - i,
        {
            proof {
                assert(s[i as int] == (self.buckets@[i as int].0@, self.buckets@[i as int].1));
            }
            if keys_equal(&self.buckets[i].0, key) {
                proof {
                    lemma_key_count_split(s, i as int, key@);
                    lemma_key_absent_zero(s.subrange(0, i as int), key@);
                }
                return self.buckets[i].1;
            }
            i = i + 1;
        }
        proof {
            lemma_key_absent_zero(s, key@);
        }
        0
    }

    /// Number of distinct keys.
    pub fn num_keys(&self) -> (r: usize)
        ensures
            r == self.bucket_seq().len(),
    {
        self.buckets.len()
    }

    /// The buckets as (key, count) pairs in first-insertion order.
    pub fn entries(&self) -> (r: &Vec<(Vec<u64>, u64)>)
        ensures
            r@.map_values(|b: (Vec<u64>, u64)| (b.0@, b.1)) == self.bucket_seq(),
    {
        &self.buckets
    }
}

} // verus!
