use vstd::prelude::*;

verus! {

broadcast use vstd::seq_lib::group_to_multiset_ensures;

/// `s` is in non-decreasing order.
pub open spec fn sorted(s: Seq<i32>) -> bool {
    forall|p: int, q: int| 0 <= p <= q < s.len() ==> s[p] <= s[q]
}

/// `s` is non-decreasing on the index range `[lo, hi]`.
pub open spec fn sorted_between(s: Seq<i32>, lo: int, hi: int) -> bool {
    forall|p: int, q: int| lo <= p <= q <= hi ==> s[p] <= s[q]
}

/// `s` with the elements at `i` and `j` exchanged.
pub open spec fn swapped(s: Seq<i32>, i: int, j: int) -> Seq<i32> {
    s.update(i, s[j]).update(j, s[i])
}

pub proof fn lemma_swap_multiset(s: Seq<i32>, i: int, j: int)
    requires
        0 <= i < s.len(),
        0 <= j < s.len(),
    ensures
        swapped(s, i, j).to_multiset() == s.to_multiset(),
{
    broadcast use vstd::seq_lib::to_multiset_update;
    let t = s.update(i, s[j]);
    assert(t.to_multiset() == s.to_multiset().remove(s[i]).insert(s[j]));
    assert(t.update(j, s[i]).to_multiset() == t.to_multiset().remove(t[j]).insert(s[i]));
    if i == j {
        assert(swapped(s, i, j) =~= s);
    } else {
        assert(t[j] == s[j]);
    }
}

/// `after` equals `before` outside `[low, high]`, and holds the same values inside it.
pub open spec fn permuted_within(before: Seq<i32>, after: Seq<i32>, low: int, high: int) -> bool {
    &&& after.len() == before.len()
    &&& forall|k: int| 0 <= k < after.len() && (k < low || k > high) ==> after[k] == before[k]
    &&& after.subrange(low, high + 1).to_multiset() == before.subrange(low, high + 1).to_multiset()
}

pub proof fn lemma_swap_within(a: Seq<i32>, lo: int, hi: int, i: int, j: int)
    requires
        0 <= lo <= i <= hi,
        lo <= j <= hi,
        hi < a.len(),
    ensures
        swapped(a, i, j).subrange(lo, hi + 1).to_multiset() == a.subrange(lo, hi + 1).to_multiset(),
{
    let r = a.subrange(lo, hi + 1);
    assert(swapped(a, i, j).subrange(lo, hi + 1) =~= swapped(r, i - lo, j - lo));
    lemma_swap_multiset(r, i - lo, j - lo);
}

/// A value found in `[low, high]` of `after` is found in `[low, high]` of `before`.
pub proof fn lemma_permuted_within_source(before: Seq<i32>, after: Seq<i32>, low: int, high: int, k: int)
    requires
        0 <= low <= k <= high < before.len(),
        permuted_within(before, after, low, high),
    ensures
        exists|k0: int| low <= k0 <= high && before[k0] == after[k],
{
    let ra = after.subrange(low, high + 1);
    let rb = before.subrange(low, high + 1);
    assert(ra[k - low] == after[k]);
    assert(ra.contains(after[k]));
    assert(ra.to_multiset().count(after[k]) > 0);
    assert(rb.contains(after[k]));
    let t = choose|t: int| 0 <= t < rb.len() && rb[t] == after[k];
    assert(before[low + t] == after[k]);
}

/// Exchanges the elements at `i` and `j`.
pub fn swap_at(a: &mut Vec<i32>, i: usize, j: usize)
    requires
        i < old(a)@.len(),
        j < old(a)@.len(),
    ensures
        final(a)@ == swapped(old(a)@, i as int, j as int),
        final(a)@.to_multiset() == old(a)@.to_multiset(),
{
    proof {
        lemma_swap_multiset(a@, i as int, j as int);
    }
    let t = a[i];
    let u = a[j];
    a.set(i, u);
    a.set(j, t);
}

} // verus!
