//! Sorting of distinct numbers.

use vstd::prelude::*;

verus! {

/// Whether each number is smaller than those after it.
pub open spec fn increasing(s: Seq<u128>) -> bool {
    forall|i: int, j: int| 0 <= i < j < s.len() ==> s[i] < s[j]
}

/// Whether `a` and `b` hold the same numbers.
pub open spec fn same_members(a: Seq<u128>, b: Seq<u128>) -> bool {
    &&& forall|i: int| 0 <= i < a.len() ==> b.contains(#[trigger] a[i])
    &&& forall|i: int| 0 <= i < b.len() ==> a.contains(#[trigger] b[i])
}

fn merge(a: &Vec<u128>, b: &Vec<u128>) -> (r: Vec<u128>)
    requires
        increasing(a@),
        increasing(b@),
        forall|i: int, j: int| 0 <= i < a@.len() && 0 <= j < b@.len() ==> a@[i] != b@[j],
    ensures
        increasing(r@),
        r@.len() == a@.len() + b@.len(),
        same_members(r@, a@ + b@),
{
    let mut r: Vec<u128> = Vec::new();
    let mut i: usize = 0;
    let mut j: usize = 0;
    while i < a.len() || j < b.len()
        invariant
            increasing(a@),
            increasing(b@),
            forall|i: int, j: int| 0 <= i < a@.len() && 0 <= j < b@.len() ==> a@[i] != b@[j],
            i <= a@.len(),
            j <= b@.len(),
            r@.len() == i + j,
            increasing(r@),
            forall|k: int, n: int| 0 <= k < r@.len() && i <= n < a@.len() ==> r@[k] < a@[n],
            forall|k: int, n: int| 0 <= k < r@.len() && j <= n < b@.len() ==> r@[k] < b@[n],
            forall|k: int| 0 <= k < i ==> r@.contains(#[trigger] a@[k]),
            forall|k: int| 0 <= k < j ==> r@.contains(#[trigger] b@[k]),
            forall|k: int| 0 <= k < r@.len() ==> (a@ + b@).contains(#[trigger] r@[k]),
        decreases a@.len() - i + b@.len() - j,
    {
        let ghost before = r@;
        let take_a = i < a.len() && (j >= b.len() || a[i] < b[j]);
        if take_a {
            r.push(a[i]);
            assert((a@ + b@)[i as int] == a@[i as int]);
            i += 1;
        } else {
            r.push(b[j]);
            assert((a@ + b@)[a@.len() + j] == b@[j as int]);
            j += 1;
        }
        proof {
            assert(r@[before.len() as int] == r@.last());
            assert forall|k: int| 0 <= k < before.len() implies r@.contains(
                #[trigger] before[k],
            ) by {
                assert(r@[k] == before[k]);
            }
            assert forall|k: int| 0 <= k < i implies r@.contains(#[trigger] a@[k]) by {
                if before.contains(a@[k]) {
                    let n = choose|n: int| 0 <= n < before.len() && before[n] == a@[k];
                    assert(r@[n] == a@[k]);
                }
            }
            assert forall|k: int| 0 <= k < j implies r@.contains(#[trigger] b@[k]) by {
                if before.contains(b@[k]) {
                    let n = choose|n: int| 0 <= n < before.len() && before[n] == b@[k];
                    assert(r@[n] == b@[k]);
                }
            }
            assert forall|k: int| 0 <= k < r@.len() implies (a@ + b@).contains(
                #[trigger] r@[k],
            ) by {
                if k < before.len() {
                    assert(r@[k] == before[k]);
                }
            }
        }
    }
    assert forall|k: int| 0 <= k < (a@ + b@).len() implies r@.contains(#[trigger] (a@ + b@)[k]) by {
        if k < a@.len() {
            assert((a@ + b@)[k] == a@[k]);
        } else {
            assert((a@ + b@)[k] == b@[k - a@.len()]);
        }
    }
    r
}

/// Sorts distinct numbers in ascending order.
pub fn sort_distinct(keys: &[u128]) -> (r: Vec<u128>)
    requires
        keys@.no_duplicates(),
    ensures
        increasing(r@),
        r@.len() == keys@.len(),
        same_members(r@, keys@),
    decreases keys@.len(),
{
    if keys.len() <= 1 {
        let r = vstd::slice::slice_to_vec(keys);
        assert(forall|i: int| 0 <= i < keys@.len() ==> r@[i] == keys@[i]);
        return r;
    }
    let mid = keys.len() / 2;
    let low = vstd::slice::slice_subrange(keys, 0, mid);
    let high = vstd::slice::slice_subrange(keys, mid, keys.len());
    assert(low@.no_duplicates());
    assert(high@.no_duplicates());
    let a = sort_distinct(low);
    let b = sort_distinct(high);
    proof {
        assert forall|i: int, j: int| 0 <= i < a@.len() && 0 <= j < b@.len() implies a@[i]
            != b@[j] by {
            assert(low@.contains(a@[i]));
            assert(high@.contains(b@[j]));
            let p = choose|p: int| 0 <= p < low@.len() && low@[p] == a@[i];
            let q = choose|q: int| 0 <= q < high@.len() && high@[q] == b@[j];
            assert(keys@[p] != keys@[mid + q]);
        }
    }
    let r = merge(&a, &b);
    proof {
        let both = a@ + b@;
        assert forall|i: int| 0 <= i < r@.len() implies keys@.contains(#[trigger] r@[i]) by {
            assert(both.contains(r@[i]));
            let n = choose|n: int| 0 <= n < both.len() && both[n] == r@[i];
            if n < a@.len() {
                assert(low@.contains(a@[n]));
                let p = choose|p: int| 0 <= p < low@.len() && low@[p] == a@[n];
                assert(keys@[p] == r@[i]);
            } else {
                assert(high@.contains(b@[n - a@.len()]));
                let q = choose|q: int| 0 <= q < high@.len() && high@[q] == b@[n - a@.len()];
                assert(keys@[mid + q] == r@[i]);
            }
        }
        assert forall|i: int| 0 <= i < keys@.len() implies r@.contains(#[trigger] keys@[i]) by {
            if i < mid {
                assert(a@.contains(low@[i]));
                let n = choose|n: int| 0 <= n < a@.len() && a@[n] == low@[i];
                assert(both[n] == keys@[i]);
            } else {
                assert(b@.contains(high@[i - mid]));
                let n = choose|n: int| 0 <= n < b@.len() && b@[n] == high@[i - mid];
                assert(both[a@.len() + n] == keys@[i]);
            }
        }
    }
    r
}

} // verus!
