//! Canonical set keys. Subsets of gene ids or of equivalence classes are
//! used as counter keys, so one logical set must always produce the same
//! key vector: the strictly ascending sequence of its elements, widened to
//! `u64`.

use vstd::prelude::*;

verus! {

/// The elements of `s` are strictly ascending (so also distinct).
pub open spec fn strictly_ascending(s: Seq<u64>) -> bool {
    forall|i: int, j: int| 0 <= i < j < s.len() ==> s[i] < s[j]
}

/// `key` is the canonical image of the id list `xs`: ascending, holding
/// exactly the widened elements of `xs`.
pub open spec fn canonical_of(key: Seq<u64>, xs: Seq<u32>) -> bool {
    &&& strictly_ascending(key)
    &&& forall|v: u64|
        #[trigger] key.contains(v) <==> exists|i: int| 0 <= i < xs.len() && xs[i] as u64 == v
}

/// Law: a set has exactly one canonical image: two ascending vectors with
/// the same members are equal.
pub proof fn lemma_canonical_unique(a: Seq<u64>, b: Seq<u64>)
    requires
        strictly_ascending(a),
        strictly_ascending(b),
        forall|v: u64| a.contains(v) <==> b.contains(v),
    ensures
        a == b,
    decreases a.len(),
{
    if a.len() == 0 {
        if b.len() > 0 {
            assert(b.contains(b.last()));
            assert(a.contains(b.last()));
            assert(false);
        }
        assert(a =~= b);
    } else {
        if b.len() == 0 {
            assert(a.contains(a.last()));
            assert(b.contains(a.last()));
            assert(false);
        }
        assert(a.contains(a.last()));
        assert(b.contains(b.last()));
        assert(a.last() == b.last()) by {
            assert(b.contains(a.last()));
            let i = choose|i: int| 0 <= i < b.len() && b[i] == a.last();
            assert(b[i] <= b.last()) by {
                if i < b.len() - 1 {
                    assert(b[i] < b[b.len() - 1]);
                }
            }
            assert(a.contains(b.last()));
            let j = choose|j: int| 0 <= j < a.len() && a[j] == b.last();
            assert(a[j] <= a.last()) by {
                if j < a.len() - 1 {
                    assert(a[j] < a[a.len() - 1]);
                }
            }
        }
        assert(forall|i: int| 0 <= i < a.len() - 1 ==> a.drop_last()[i] == a[i]);
        assert(forall|i: int| 0 <= i < b.len() - 1 ==> b.drop_last()[i] == b[i]);
        assert forall|v: u64| a.drop_last().contains(v) <==> b.drop_last().contains(v) by {
            if a.drop_last().contains(v) {
                let i = choose|i: int| 0 <= i < a.len() - 1 && a.drop_last()[i] == v;
                assert(a[i] == v && a[i] < a.last());
                assert(b.contains(v));
                let j = choose|j: int| 0 <= j < b.len() && b[j] == v;
                assert(j < b.len() - 1) by {
                    if j == b.len() - 1 {
                        assert(v == b.last() == a.last());
                        assert(false);
                    }
                }
                assert(b.drop_last()[j] == v);
            }
            if b.drop_last().contains(v) {
                let i = choose|i: int| 0 <= i < b.len() - 1 && b.drop_last()[i] == v;
                assert(b[i] == v && b[i] < b.last());
                assert(a.contains(v));
                let j = choose|j: int| 0 <= j < a.len() && a[j] == v;
                assert(j < a.len() - 1) by {
                    if j == a.len() - 1 {
                        assert(v == a.last() == b.last());
                        assert(false);
                    }
                }
                assert(a.drop_last()[j] == v);
            }
        }
        lemma_canonical_unique(a.drop_last(), b.drop_last());
        assert(a =~= a.drop_last().push(a.last()));
        assert(b =~= b.drop_last().push(b.last()));
    }
}

/// The canonical key of an id list: its distinct elements in ascending
/// order, widened to `u64`.
pub fn canonical_ids(xs: &Vec<u32>) -> (r: Vec<u64>)
    ensures
        canonical_of(r@, xs@),
{
    let n = xs.len();
    let mut out: Vec<u64> = Vec::new();
    let mut k: usize = 0;
    while k < n
        invariant
            0 <= k <= n,
            n == xs.len(),
            strictly_ascending(out@),
            forall|v: u64|
                #[trigger] out@.contains(v) <==> exists|i: int| 0 <= i < k && xs@[i] as u64 == v,
        decreases n - k,
    {
        let ghost out0 = out@;
        let v = xs[k] as u64;
        let m = out.len();
        let mut idx: usize = 0;
        while idx < m && out[idx] < v
            invariant
                0 <= idx <= m,
                m == out.len(),
                out@ == out0,
                strictly_ascending(out@),
                forall|p: int| 0 <= p < idx ==> out@[p] < v,
            decreases m - idx,
        {
            idx = idx + 1;
        }
        if idx == out.len() || out[idx] != v {
            out.insert(idx, v);
            proof {
                let t = out0.insert(idx as int, v);
                out0.insert_ensures(idx as int, v);
                assert(out@ == t);
                assert forall|p: int, q: int| 0 <= p < q < t.len() implies t[p] < t[q] by {
                    if q < idx {
                        assert(t[p] == out0[p] && t[q] == out0[q]);
                    } else if p > idx {
                        assert(t[p] == out0[p - 1] && t[q] == out0[q - 1]);
                    } else if p < idx && q == idx {
                        assert(t[p] == out0[p] && t[q] == v);
                    } else if p == idx && q > idx {
                        assert(t[p] == v && t[q] == out0[q - 1]);
                        assert(out0[q - 1] >= v && out0[q - 1] != v);
                    } else if p < idx && q > idx {
                        assert(t[p] == out0[p] && t[q] == out0[q - 1]);
                        assert(out0[p] < v && out0[q - 1] >= v && out0[q - 1] != v);
                    }
                }
                assert forall|w: u64|
                    #[trigger] t.contains(w) <==> (out0.contains(w) || w == v) by {
                    if t.contains(w) {
                        let p = choose|p: int| 0 <= p < t.len() && t[p] == w;
                        if p < idx {
                            assert(out0[p] == w);
                        } else if p > idx {
                            assert(out0[p - 1] == w);
                        }
                    }
                    if out0.contains(w) {
                        let p = choose|p: int| 0 <= p < out0.len() && out0[p] == w;
                        if p < idx {
                            assert(t[p] == w);
                        } else {
                            assert(t[p + 1] == w);
                        }
                    }
                    if w == v {
                        assert(t[idx as int] == w);
                    }
                }
            }
        } else {
            proof {
                assert(out@.contains(v)) by {
                    assert(out@[idx as int] == v);
                }
            }
        }
        proof {
            assert forall|w: u64|
                #[trigger] out@.contains(w) <==> exists|i: int|
                    0 <= i < k + 1 && xs@[i] as u64 == w by {
                if out@.contains(w) {
                    if w != v {
                        assert(out0.contains(w));
                        let i = choose|i: int| 0 <= i < k && xs@[i] as u64 == w;
                        assert(0 <= i < k + 1 && xs@[i] as u64 == w);
                    } else {
                        assert(xs@[k as int] as u64 == w);
                    }
                }
                if exists|i: int| 0 <= i < k + 1 && xs@[i] as u64 == w {
                    let i = choose|i: int| 0 <= i < k + 1 && xs@[i] as u64 == w;
                    if i < k {
                        assert(out0.contains(w));
                    } else {
                        assert(w == v);
                    }
                }
            }
        }
        k = k + 1;
    }
    out
}

} // verus!
