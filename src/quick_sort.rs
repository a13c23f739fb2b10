use vstd::prelude::*;

use crate::seq_util::{lemma_permuted_within_source, lemma_swap_within, permuted_within, sorted, swap_at};

verus! {

broadcast use vstd::seq_lib::group_to_multiset_ensures;

/// `after` is `before` with the range `[low, high]` partitioned around the element
/// that stood at `high`, which now stands at `pivot`.
pub open spec fn partitioned(before: Seq<i32>, after: Seq<i32>, low: int, high: int, pivot: int) -> bool {
    &&& after.len() == before.len()
    &&& after.to_multiset() == before.to_multiset()
    &&& low <= pivot <= high
    &&& after[pivot] == before[high]
    &&& permuted_within(before, after, low, high)
    &&& forall|k: int| 0 <= k < after.len() && (k < low || k > high) ==> after[k] == before[k]
    &&& forall|k: int| low <= k < pivot ==> after[k] < after[pivot]
    &&& forall|k: int| pivot < k <= high ==> after[k] >= after[pivot]
}

/// Step budget of the pending ranges: two steps per element.
pub open spec fn ranges_cost(st: Seq<(i32, i32)>) -> int
    decreases st.len(),
{
    if st.len() == 0 {
        0
    } else {
        ranges_cost(st.drop_last()) + 2 * (st.last().1 - st.last().0 + 1)
    }
}

/// Step budget of one side of a partition, which is scheduled only when it holds
/// more than one element.
pub open spec fn side_cost(l: int, h: int) -> int {
    if h > l {
        2 * (h - l + 1)
    } else {
        0
    }
}

proof fn lemma_ranges_cost_push(st: Seq<(i32, i32)>, r: (i32, i32))
    ensures
        ranges_cost(st.push(r)) == ranges_cost(st) + 2 * (r.1 - r.0 + 1),
{
    assert(st.push(r).drop_last() =~= st);
}

proof fn lemma_ranges_cost_positive(st: Seq<(i32, i32)>, n: int)
    requires
        forall|k: int| 0 <= k < st.len() ==> range_in(#[trigger] st[k], n),
    ensures
        ranges_cost(st) >= 2 * st.len(),
    decreases st.len(),
{
    if st.len() > 0 {
        assert(range_in(st[st.len() - 1], n));
        assert forall|k: int| 0 <= k < st.drop_last().len() implies range_in(#[trigger] st.drop_last()[k], n) by {
            assert(range_in(st[k], n));
        }
        lemma_ranges_cost_positive(st.drop_last(), n);
    }
}

/// From a fresh start over `n >= 1` elements, the quicksort step budget is `2 * n`.
pub proof fn lemma_quick_step_budget(n: i32)
    requires
        n >= 1,
    ensures
        ranges_cost(seq![(0i32, (n - 1) as i32)]) == 2 * n,
{
    lemma_ranges_cost_push(Seq::empty(), (0i32, (n - 1) as i32));
    assert(Seq::<(i32, i32)>::empty().push((0i32, (n - 1) as i32)) =~= seq![(0i32, (n - 1) as i32)]);
}

/// The index range `(low, high)` lies within an array of length `n`.
pub open spec fn range_in(r: (i32, i32), n: int) -> bool {
    0 <= r.0 <= r.1 < n
}

/// Position `x` lies in the inclusive range `r`.
pub open spec fn covers(r: (int, int), x: int) -> bool {
    r.0 <= x <= r.1
}

/// Some range of `blocks` holds both `x` and `y`.
pub open spec fn in_same(blocks: Seq<(int, int)>, x: int, y: int) -> bool {
    exists|b: int| 0 <= b < blocks.len() && #[trigger] covers(blocks[b], x) && covers(blocks[b], y)
}

/// No position lies in two ranges of `blocks`.
pub open spec fn disjoint(blocks: Seq<(int, int)>) -> bool {
    forall|b: int, c: int, x: int|
        0 <= b < blocks.len() && 0 <= c < blocks.len() && b != c && #[trigger] covers(blocks[b], x)
            ==> !#[trigger] covers(blocks[c], x)
}

/// Any two positions that no range of `blocks` holds together are in order.
pub open spec fn ordered_across(a: Seq<i32>, blocks: Seq<(int, int)>) -> bool {
    forall|x: int, y: int| 0 <= x < y < a.len() && !in_same(blocks, x, y) ==> #[trigger] a[x] <= #[trigger] a[y]
}

proof fn lemma_partition_keeps_order(
    a: Seq<i32>,
    a2: Seq<i32>,
    st: Seq<(int, int)>,
    l: int,
    h: int,
    p: int,
)
    requires
        0 <= l <= h < a.len(),
        disjoint(st.push((l, h))),
        ordered_across(a, st.push((l, h))),
        partitioned(a, a2, l, h, p),
    ensures
        disjoint(st.push((l, p - 1)).push((p + 1, h))),
        ordered_across(a2, st.push((l, p - 1)).push((p + 1, h))),
{
    let b0 = st.push((l, h));
    let b1 = st.push((l, p - 1)).push((p + 1, h));
    let m = st.len() as int;
    assert forall|b: int, c: int, x: int|
        0 <= b < b1.len() && 0 <= c < b1.len() && b != c && #[trigger] covers(b1[b], x)
            implies !#[trigger] covers(b1[c], x) by {
        if b < m && c < m {
            assert(b0[b] == b1[b] && b0[c] == b1[c]);
        } else if b < m {
            assert(b0[b] == b1[b]);
            if covers(b1[c], x) {
                assert(covers(b0[m], x));
            }
        } else if c < m {
            assert(b0[c] == b1[c]);
            assert(covers(b0[m], x));
        }
    }
    assert forall|x: int, y: int| 0 <= x < y < a2.len() && !in_same(b1, x, y) implies #[trigger] a2[x]
        <= #[trigger] a2[y] by {
        let in_x = l <= x <= h;
        let in_y = l <= y <= h;
        if !in_x && !in_y {
            if in_same(b0, x, y) {
                let b = choose|b: int| 0 <= b < b0.len() && #[trigger] covers(b0[b], x) && covers(b0[b], y);
                if b < m {
                    assert(b1[b] == b0[b]);
                    assert(covers(b1[b], x) && covers(b1[b], y));
                }
            }
        } else if in_x && !in_y {
            lemma_permuted_within_source(a, a2, l, h, x);
            let x0 = choose|x0: int| l <= x0 <= h && a[x0] == a2[x];
            if in_same(b0, x0, y) {
                let b = choose|b: int| 0 <= b < b0.len() && #[trigger] covers(b0[b], x0) && covers(b0[b], y);
                if b < m {
                    assert(covers(b0[m], x0));
                }
            }
            assert(a[x0] <= a[y]);
        } else if !in_x && in_y {
            lemma_permuted_within_source(a, a2, l, h, y);
            let y0 = choose|y0: int| l <= y0 <= h && a[y0] == a2[y];
            if in_same(b0, x, y0) {
                let b = choose|b: int| 0 <= b < b0.len() && #[trigger] covers(b0[b], x) && covers(b0[b], y0);
                if b < m {
                    assert(covers(b0[m], y0));
                }
            }
            assert(a[x] <= a[y0]);
        } else {
            if x < p && y < p {
                assert(covers(b1[m], x) && covers(b1[m], y));
            } else if x > p {
                assert(covers(b1[m + 1], x) && covers(b1[m + 1], y));
            }
        }
    }
}

proof fn lemma_schedule_keeps_order(a: Seq<i32>, st: Seq<(int, int)>, l: int, h: int, p: int)
    requires
        l <= p <= h,
        disjoint(st.push((l, p - 1)).push((p + 1, h))),
        ordered_across(a, st.push((l, p - 1)).push((p + 1, h))),
    ensures
        ({
            let s1 = if p - 1 > l { st.push((l, p - 1)) } else { st };
            let s2 = if p + 1 < h { s1.push((p + 1, h)) } else { s1 };
            disjoint(s2) && ordered_across(a, s2)
        }),
{
    let b1 = st.push((l, p - 1)).push((p + 1, h));
    let m = st.len() as int;
    let s1 = if p - 1 > l { st.push((l, p - 1)) } else { st };
    let s2 = if p + 1 < h { s1.push((p + 1, h)) } else { s1 };
    // each range of `s2` is a range of `b1`
    let idx = |b: int| if b < m { b } else if b == m && p - 1 > l { m } else { m + 1 };
    assert forall|b: int| 0 <= b < s2.len() implies s2[b] == b1[idx(b)] && 0 <= idx(b) < b1.len() by {}
    assert forall|b: int, c: int, x: int|
        0 <= b < s2.len() && 0 <= c < s2.len() && b != c && #[trigger] covers(s2[b], x)
            implies !#[trigger] covers(s2[c], x) by {
        assert(s2[b] == b1[idx(b)] && s2[c] == b1[idx(c)]);
        assert(covers(b1[idx(b)], x));
    }
    assert forall|x: int, y: int| 0 <= x < y < a.len() && !in_same(s2, x, y) implies #[trigger] a[x]
        <= #[trigger] a[y] by {
        if in_same(b1, x, y) {
            let b = choose|b: int| 0 <= b < b1.len() && #[trigger] covers(b1[b], x) && covers(b1[b], y);
            if b < m {
                assert(s2[b] == b1[b]);
                assert(covers(s2[b], x) && covers(s2[b], y));
            } else if b == m {
                assert(p - 1 > l);
                assert(s2[m] == b1[m]);
                assert(covers(s2[m], x) && covers(s2[m], y));
            } else {
                assert(p + 1 < h);
                let c = s2.len() - 1;
                assert(s2[c] == b1[b]);
                assert(covers(s2[c], x) && covers(s2[c], y));
            }
        }
    }
}

/// A quicksort whose recursion is an explicit stack of pending ranges; one `step`
/// either partitions a range or schedules its two sides.
pub struct QuickSort {
    array: Vec<i32>,
    stack: Vec<(i32, i32)>,
    current_partition: Option<(i32, i32)>,
    pivot_index: Option<i32>,
}

impl QuickSort {
    pub closed spec fn array_view(&self) -> Seq<i32> {
        self.array@
    }

    pub closed spec fn pending(&self) -> Seq<(i32, i32)> {
        self.stack@
    }

    pub closed spec fn in_progress(&self) -> Option<(i32, i32)> {
        self.current_partition
    }

    pub closed spec fn pivot(&self) -> Option<i32> {
        self.pivot_index
    }

    /// The ranges still to be sorted: those on the stack, then the two sides of a
    /// partition whose sides are not scheduled yet.
    pub open spec fn blocks(&self) -> Seq<(int, int)> {
        let st = self.pending().map_values(|r: (i32, i32)| (r.0 as int, r.1 as int));
        if self.in_progress() is Some && self.pivot() is Some {
            let (l, h) = self.in_progress().unwrap();
            let p = self.pivot().unwrap() as int;
            st.push((l as int, p - 1)).push((p + 1, h as int))
        } else {
            st
        }
    }

    /// An upper bound on the steps left until `is_complete` holds.
    pub open spec fn steps_bound(&self) -> int {
        ranges_cost(self.pending()) + if self.in_progress() is Some && self.pivot() is Some {
            let (l, h) = self.in_progress().unwrap();
            let p = self.pivot().unwrap() as int;
            1 + side_cost(l as int, p - 1) + side_cost(p + 1, h as int)
        } else {
            0
        }
    }

    /// The step budget is positive exactly while work is pending.
    pub proof fn lemma_budget_counts_pending(&self)
        requires
            self.wf(),
        ensures
            self.steps_bound() >= 0,
            self.steps_bound() == 0 <==> (self.pending().len() == 0 && self.in_progress() is None),
    {
        lemma_ranges_cost_positive(self.pending(), self.array_view().len() as int);
    }

    /// The pending ranges do not overlap, and every two positions outside a common
    /// pending range are already in order.
    pub open spec fn sort_inv(&self) -> bool {
        disjoint(self.blocks()) && ordered_across(self.array_view(), self.blocks())
    }

    pub open spec fn wf(&self) -> bool {
        let n = self.array_view().len() as int;
        &&& n <= i32::MAX
        &&& forall|k: int| 0 <= k < self.pending().len() ==> range_in(#[trigger] self.pending()[k], n)
        &&& self.in_progress().is_some() == self.pivot().is_some()
        &&& self.in_progress().is_some() ==> {
            let (l, h) = self.in_progress().unwrap();
            let p = self.pivot().unwrap();
            range_in((l, h), n) && l <= p <= h
        }
    }

    pub fn new() -> (r: QuickSort)
        ensures
            r.wf(),
            r.array_view() == Seq::<i32>::empty(),
            r.pending() == Seq::<(i32, i32)>::empty(),
            r.in_progress() is None,
    {
        QuickSort { array: Vec::new(), stack: Vec::new(), current_partition: None, pivot_index: None }
    }

    /// Replaces the working array and clears all pending work.
    pub fn set_array(&mut self, array: Vec<i32>)
        requires
            array@.len() <= i32::MAX,
        ensures
            final(self).wf(),
            final(self).array_view() == array@,
            final(self).pending() == Seq::<(i32, i32)>::empty(),
            final(self).in_progress() is None,
    {
        self.array = array;
        self.reset();
    }

    pub fn get_array(&self) -> (r: Vec<i32>)
        ensures
            r@ == self.array_view(),
    {
        self.array.clone()
    }

    /// Clears all pending work; the array keeps its current order.
    pub fn reset(&mut self)
        requires
            old(self).array_view().len() <= i32::MAX,
        ensures
            final(self).wf(),
            final(self).array_view() == old(self).array_view(),
            final(self).pending() == Seq::<(i32, i32)>::empty(),
            final(self).in_progress() is None,
    {
        self.stack.clear();
        self.current_partition = None;
        self.pivot_index = None;
    }

    /// Schedules the whole array, unless it is empty.
    pub fn start_sort(&mut self)
        requires
            old(self).wf(),
        ensures
            final(self).wf(),
            final(self).array_view() == old(self).array_view(),
            final(self).in_progress() == old(self).in_progress(),
            final(self).pivot() == old(self).pivot(),
            final(self).pending() == if old(self).array_view().len() == 0 {
                old(self).pending()
            } else {
                old(self).pending().push((0i32, (old(self).array_view().len() - 1) as i32))
            },
            old(self).pending().len() == 0 && old(self).in_progress() is None ==> final(self).sort_inv(),
    {
        if !self.array.is_empty() {
            self.stack.push((0, (self.array.len() - 1) as i32));
            proof {
                let n = self.array@.len() as int;
                assert forall|k: int| 0 <= k < self.stack@.len() implies range_in(
                    #[trigger] self.stack@[k],
                    n,
                ) by {
                    if k < old(self).stack@.len() {
                        assert(range_in(old(self).pending()[k], n));
                        assert(old(self).stack@[k] == self.stack@[k]);
                    }
                }
                if old(self).stack@.len() == 0 && old(self).current_partition is None {
                    let bl = self.blocks();
                    assert(bl.len() == 1);
                    assert(bl[0] == (0int, n - 1));
                    assert forall|x: int, y: int| 0 <= x < y < n implies in_same(bl, x, y) by {
                        assert(covers(bl[0], x) && covers(bl[0], y));
                    }
                }
            }
        } else {
            proof {
                if old(self).stack@.len() == 0 && old(self).current_partition is None {
                    assert(self.blocks() =~= Seq::<(int, int)>::empty());
                }
            }
        }
    }

    /// How one `step` relates the state before it (`self`) to the state after it
    /// (`next`) and to its result `r`.
    pub open spec fn step_spec(&self, next: &Self, r: Option<(Vec<i32>, i32, i32, i32)>) -> bool {
        &&& self.sort_inv() ==> next.sort_inv()
        &&& (self.pending().len() > 0 || self.in_progress() is Some) ==> next.steps_bound() <= self.steps_bound() - 1
        &&& next.array_view().to_multiset() == self.array_view().to_multiset()
        &&& next.array_view().len() == self.array_view().len()
        &&& self.in_progress() is None && self.pending().len() == 0 ==> {
            &&& r is None
            &&& next.array_view() == self.array_view()
            &&& next.pending() == self.pending()
            &&& next.pivot() is None
        }
        &&& self.in_progress() is None && self.pending().len() > 0 ==> {
            let (l, h) = self.pending().last();
            let p = next.pivot().unwrap();
            &&& next.pending() == self.pending().drop_last()
            &&& next.in_progress() == Some((l, h))
            &&& next.pivot() is Some
            &&& partitioned(self.array_view(), next.array_view(), l as int, h as int, p as int)
            &&& r is Some
            &&& r.unwrap().0@ == next.array_view()
            &&& r.unwrap().1 == l && r.unwrap().2 == h && r.unwrap().3 == p
        }
        &&& self.in_progress() is Some ==> {
            let (l, h) = self.in_progress().unwrap();
            let p = self.pivot().unwrap();
            let s1 = if p - 1 > l { self.pending().push((l, (p - 1) as i32)) } else { self.pending() };
            let s2 = if p + 1 < h { s1.push(((p + 1) as i32, h)) } else { s1 };
            &&& next.pending() == s2
            &&& next.in_progress() is None
            &&& next.pivot() is None
            &&& next.array_view() == self.array_view()
            &&& r is Some
            &&& r.unwrap().0@ == next.array_view()
            &&& r.unwrap().1 == l && r.unwrap().2 == h && r.unwrap().3 == p
        }
    }

    /// Partitions the pending range at the top of the stack and reports
    /// `(array, low, high, pivot)`; on the call after that, schedules the two sides
    /// of the pivot that hold more than one element and reports the same snapshot
    /// again. Returns `None` once nothing is left to do.
    pub fn step(&mut self) -> (r: Option<(Vec<i32>, i32, i32, i32)>)
        requires
            old(self).wf(),
        ensures
            final(self).wf(),
            old(self).step_spec(final(self), r),
    {
        if self.current_partition.is_none() {
            match self.stack.pop() {
                Some((low, high)) => {
                    proof {
                        assert(range_in(old(self).pending().last(), self.array@.len() as int));
                    }
                    let ghost a0 = self.array@;
                    proof {
                        assert(self.stack@ =~= old(self).stack@.drop_last());
                        lemma_ranges_cost_push(self.stack@, (low, high));
                        assert(old(self).stack@ =~= self.stack@.push((low, high)));
                    }
                    let pivot = self.partition(low, high);
                    self.current_partition = Some((low, high));
                    self.pivot_index = Some(pivot);
                    proof {
                        let f = |r: (i32, i32)| (r.0 as int, r.1 as int);
                        let st = self.stack@.map_values(f);
                        assert(old(self).blocks() =~= st.push((low as int, high as int)));
                        assert(self.blocks() =~= st.push((low as int, pivot - 1)).push((pivot + 1, high as int)));
                        if old(self).sort_inv() {
                            lemma_partition_keeps_order(a0, self.array@, st, low as int, high as int, pivot as int);
                        }
                    }
                    return Some((self.array.clone(), low, high, pivot));
                },
                None => {
                    return None;
                },
            }
        }
        let (low, high) = self.current_partition.unwrap();
        let pivot = self.pivot_index.unwrap();
        let ghost st0 = self.stack@.map_values(|r: (i32, i32)| (r.0 as int, r.1 as int));
        let ghost raw0 = self.stack@;
        proof {
            let s1 = if pivot - 1 > low { raw0.push((low, (pivot - 1) as i32)) } else { raw0 };
            let s2 = if pivot + 1 < high { s1.push(((pivot + 1) as i32, high)) } else { s1 };
            lemma_ranges_cost_push(raw0, (low, (pivot - 1) as i32));
            lemma_ranges_cost_push(s1, ((pivot + 1) as i32, high));
            assert(ranges_cost(s2) == ranges_cost(raw0) + side_cost(low as int, pivot - 1) + side_cost(pivot + 1, high as int));
        }
        proof {
            if old(self).sort_inv() {
                lemma_schedule_keeps_order(self.array@, st0, low as int, high as int, pivot as int);
            }
        }
        if pivot - 1 > low {
            self.stack.push((low, pivot - 1));
        }
        if pivot + 1 < high {
            self.stack.push((pivot + 1, high));
        }
        self.current_partition = None;
        self.pivot_index = None;
        proof {
            let n = self.array@.len() as int;
            let m = old(self).stack@.len() as int;
            assert forall|k: int| 0 <= k < self.stack@.len() implies range_in(
                #[trigger] self.stack@[k],
                n,
            ) by {
                if k < m {
                    assert(range_in(old(self).pending()[k], n));
                    assert(old(self).stack@[k] == self.stack@[k]);
                }
            }
            let s1 = if pivot - 1 > low { st0.push((low as int, pivot - 1)) } else { st0 };
            let s2 = if pivot + 1 < high { s1.push((pivot + 1, high as int)) } else { s1 };
            assert(self.blocks() =~= s2);
        }
        Some((self.array.clone(), low, high, pivot))
    }

    /// Lomuto partition of `[low, high]` around the element at `high`.
    fn partition(&mut self, low: i32, high: i32) -> (p: i32)
        requires
            range_in((low, high), old(self).array_view().len() as int),
            old(self).array_view().len() <= i32::MAX,
        ensures
            partitioned(old(self).array_view(), final(self).array_view(), low as int, high as int, p as int),
            final(self).pending() == old(self).pending(),
            final(self).in_progress() == old(self).in_progress(),
            final(self).pivot() == old(self).pivot(),
    {
        let ghost a0 = self.array@;
        let pivot = self.array[high as usize];
        let mut i: i32 = low - 1;
        let mut j: i32 = low;
        while j < high
            invariant
                0 <= low <= j <= high,
                low - 1 <= i < j,
                self.array@.len() == a0.len(),
                self.array@.to_multiset() == a0.to_multiset(),
                high < a0.len(),
                a0.len() <= i32::MAX,
                self.array@[high as int] == pivot,
                pivot == a0[high as int],
                forall|k: int| 0 <= k < a0.len() && (k < low || k > high) ==> self.array@[k] == a0[k],
                forall|k: int| low <= k <= i ==> self.array@[k] < pivot,
                forall|k: int| i < k < j ==> self.array@[k] >= pivot,
                self.array@.subrange(low as int, high + 1).to_multiset() == a0.subrange(low as int, high + 1).to_multiset(),
                self.stack@ == old(self).stack@,
                self.current_partition == old(self).current_partition,
                self.pivot_index == old(self).pivot_index,
            decreases high - j,
        {
            if self.array[j as usize] < pivot {
                i = i + 1;
                proof {
                    lemma_swap_within(self.array@, low as int, high as int, i as int, j as int);
                }
                swap_at(&mut self.array, i as usize, j as usize);
            }
            j = j + 1;
        }
        i = i + 1;
        proof {
            lemma_swap_within(self.array@, low as int, high as int, i as int, high as int);
        }
        swap_at(&mut self.array, i as usize, high as usize);
        i
    }

    /// Once nothing is pending, the ordering invariant means the array is sorted.
    pub proof fn lemma_complete_sorted(&self)
        requires
            self.sort_inv(),
            self.pending().len() == 0,
            self.in_progress() is None,
        ensures
            sorted(self.array_view()),
    {
        let a = self.array_view();
        assert forall|x: int, y: int| 0 <= x <= y < a.len() implies a[x] <= a[y] by {
            if x < y {
                assert(!in_same(self.blocks(), x, y));
            }
        }
    }

    pub fn is_complete(&self) -> (r: bool)
        ensures
            r == (self.pending().len() == 0 && self.in_progress() is None),
    {
        self.stack.len() == 0 && self.current_partition.is_none()
    }
}

/// `run[i + 1]` and `results[i]` are what the `i`-th of a series of `step` calls left
/// and returned, starting from `run[0]`.
pub open spec fn quick_run(run: Seq<QuickSort>, results: Seq<Option<(Vec<i32>, i32, i32, i32)>>) -> bool {
    &&& run.len() == results.len() + 1
    &&& forall|i: int| 0 <= i < run.len() ==> #[trigger] run[i].wf()
    &&& forall|i: int| 0 <= i < results.len() ==> #[trigger] run[i].step_spec(&run[i + 1], results[i])
}

proof fn lemma_quick_run_prefix(run: Seq<QuickSort>, results: Seq<Option<(Vec<i32>, i32, i32, i32)>>, k: int)
    requires
        quick_run(run, results),
        run[0].sort_inv(),
        forall|i: int| 0 <= i < results.len() ==> (#[trigger] run[i].pending()).len() > 0 || run[i].in_progress() is Some,
        0 <= k < run.len(),
    ensures
        run[k].array_view().to_multiset() == run[0].array_view().to_multiset(),
        run[k].array_view().len() == run[0].array_view().len(),
        run[k].sort_inv(),
        run[k].steps_bound() <= run[0].steps_bound() - k,
    decreases k,
{
    if k > 0 {
        lemma_quick_run_prefix(run, results, k - 1);
        let j = k - 1;
        assert(run[j].step_spec(&run[j + 1], results[j]));
        assert(run[k - 1].pending().len() > 0 || run[k - 1].in_progress() is Some);
    }
}

/// Driving a quicksort with `n >= 1` elements from a fresh `start_sort`, calling
/// `step` while it is not complete, keeps the same values, leaves them sorted once
/// complete, and makes at most `2 * n` calls.
pub proof fn lemma_quick_run(run: Seq<QuickSort>, results: Seq<Option<(Vec<i32>, i32, i32, i32)>>)
    requires
        quick_run(run, results),
        run[0].sort_inv(),
        run[0].array_view().len() >= 1,
        run[0].pending() == seq![(0i32, (run[0].array_view().len() - 1) as i32)],
        run[0].in_progress() is None,
        forall|i: int| 0 <= i < results.len() ==> (#[trigger] run[i].pending()).len() > 0 || run[i].in_progress() is Some,
    ensures
        run.last().array_view().to_multiset() == run[0].array_view().to_multiset(),
        run.last().array_view().len() == run[0].array_view().len(),
        run.last().pending().len() == 0 && run.last().in_progress() is None ==> sorted(run.last().array_view()),
        results.len() <= 2 * run[0].array_view().len(),
{
    let m = run.len() - 1;
    let n = run[0].array_view().len() as int;
    lemma_quick_run_prefix(run, results, m);
    assert(run[m].wf());
    run[m].lemma_budget_counts_pending();
    lemma_quick_step_budget(n as i32);
    if run.last().pending().len() == 0 && run.last().in_progress() is None {
        run[m].lemma_complete_sorted();
    }
}

} // verus!
