//! Strictly increasing sequences of frame indices.

use vstd::prelude::*;

verus! {

/// Every element is smaller than the one after it (so there are no duplicates).
pub open spec fn strictly_increasing(s: Seq<usize>) -> bool {
    forall|i: int, j: int| 0 <= i < j < s.len() ==> s[i] < s[j]
}

/// `a` and `b` hold the same elements, regardless of order or repetition.
pub open spec fn same_elements(a: Seq<usize>, b: Seq<usize>) -> bool {
    forall|x: usize| a.contains(x) <==> b.contains(x)
}

/// Two strictly increasing sequences that hold the same elements are equal.
pub proof fn lemma_increasing_unique(a: Seq<usize>, b: Seq<usize>)
    requires
        strictly_increasing(a),
        strictly_increasing(b),
        same_elements(a, b),
    ensures
        a == b,
{
    lemma_increasing_prefix_equal(a, b, 0);
    if a.len() > b.len() {
        assert(b.contains(a[b.len() as int]));
        let j = choose|j: int| 0 <= j < b.len() && b[j] == a[b.len() as int];
        assert(a[j] == b[j]);
    } else if b.len() > a.len() {
        assert(a.contains(b[a.len() as int]));
        let j = choose|j: int| 0 <= j < a.len() && a[j] == b[a.len() as int];
        assert(a[j] == b[j]);
    }
    assert(a =~= b);
}

proof fn lemma_increasing_prefix_equal(a: Seq<usize>, b: Seq<usize>, n: int)
    requires
        strictly_increasing(a),
        strictly_increasing(b),
        same_elements(a, b),
        0 <= n,
        forall|k: int| 0 <= k < n && k < a.len() && k < b.len() ==> a[k] == b[k],
    ensures
        forall|k: int| 0 <= k < a.len() && k < b.len() ==> a[k] == b[k],
    decreases a.len() - n,
{
    if n < a.len() && n < b.len() {
        assert(b.contains(a[n]));
        assert(a.contains(b[n]));
        let p = choose|p: int| 0 <= p < b.len() && b[p] == a[n];
        let q = choose|q: int| 0 <= q < a.len() && a[q] == b[n];
        if p < n {
            assert(a[p] == b[p]);
        }
        if q < n {
            assert(a[q] == b[q]);
        }
        lemma_increasing_prefix_equal(a, b, n + 1);
    }
}

/// Adds `x` to a strictly increasing vector, keeping it strictly increasing.
/// A value larger than every element is appended.
pub fn insert_sorted(v: &mut Vec<usize>, x: usize)
    requires
        strictly_increasing(old(v)@),
    ensures
        strictly_increasing(final(v)@),
        forall|y: usize| final(v)@.contains(y) <==> (old(v)@.contains(y) || y == x),
        (old(v)@.len() == 0 || old(v)@.last() < x) ==> final(v)@ == old(v)@.push(x),
{
    let n = v.len();
    if n == 0 || v[n - 1] < x {
        v.push(x);
        proof {
            assert forall|y: usize| v@.contains(y) <==> (old(v)@.contains(y) || y == x) by {
                if old(v)@.contains(y) {
                    let k = choose|k: int| 0 <= k < old(v)@.len() && old(v)@[k] == y;
                    assert(v@[k] == y);
                }
                if y == x {
                    assert(v@[n as int] == x);
                }
            }
        }
        return;
    }
    // Find the first position holding a value not below `x`.
    let mut p: usize = 0;
    while v[p] < x
        invariant
            p < n,
            n == v.len(),
            v[n - 1] >= x,
            forall|k: int| 0 <= k < p ==> v[k] < x,
        decreases n - p,
    {
        p = p + 1;
    }
    if v[p] == x {
        return;
    }
    let ghost before = v@;
    v.insert(p, x);
    proof {
        before.insert_ensures(p as int, x);
        assert forall|y: usize| v@.contains(y) <==> (before.contains(y) || y == x) by {
            if before.contains(y) {
                let k = choose|k: int| 0 <= k < before.len() && before[k] == y;
                if k < p {
                    assert(v@[k] == y);
                } else {
                    assert(v@[k + 1] == y);
                }
            }
            if y == x {
                assert(v@[p as int] == x);
            }
            if v@.contains(y) {
                let k = choose|k: int| 0 <= k < v@.len() && v@[k] == y;
                if k < p {
                    assert(before[k] == y);
                } else if k > p {
                    assert(before[k - 1] == y);
                }
            }
        }
        assert forall|i: int, j: int| 0 <= i < j < v@.len() implies v@[i] < v@[j] by {
            if j < p {
            } else if j == p {
            } else if i < p {
                assert(v@[j] == before[j - 1]);
            } else if i == p {
                assert(v@[j] == before[j - 1]);
                assert(before[p as int] > x);
                assert(before[p as int] <= before[j - 1]);
            } else {
                assert(v@[j] == before[j - 1]);
                assert(v@[i] == before[i - 1]);
            }
        }
    }
}

/// Sorts the values ascending and removes duplicates. A vector that is
/// already strictly increasing comes back unchanged.
pub fn normalize(v: &Vec<usize>) -> (r: Vec<usize>)
    ensures
        strictly_increasing(r@),
        same_elements(r@, v@),
        strictly_increasing(v@) ==> r@ == v@,
{
    let mut r: Vec<usize> = Vec::new();
    let mut i: usize = 0;
    while i < v.len()
        invariant
            i <= v.len(),
            strictly_increasing(r@),
            same_elements(r@, v@.take(i as int)),
            strictly_increasing(v@) ==> r@ == v@.take(i as int),
        decreases v.len() - i,
    {
        let ghost prev = r@;
        let ghost t0 = v@.take(i as int);
        let ghost t1 = v@.take(i + 1);
        insert_sorted(&mut r, v[i]);
        proof {
            assert(t1 == t0.push(v@[i as int]));
            assert forall|y: usize| r@.contains(y) <==> t1.contains(y) by {
                if t0.contains(y) {
                    let k = choose|k: int| 0 <= k < t0.len() && t0[k] == y;
                    assert(t1[k] == y);
                }
                if t1.contains(y) {
                    let k = choose|k: int| 0 <= k < t1.len() && t1[k] == y;
                    if k < i {
                        assert(t0[k] == y);
                    }
                }
                if y == v@[i as int] {
                    assert(t1[i as int] == y);
                }
            }
            if strictly_increasing(v@) && i > 0 {
                assert(prev.last() == v@[i - 1]);
            }
        }
        i = i + 1;
    }
    assert(v@.take(v.len() as int) == v@);
    r
}

} // verus!
