use vstd::prelude::*;

use crate::seq_util::{sorted, swap_at, swapped};

verus! {

/// Number of `step` calls a bubble sort over `n` elements still needs, from pass `i`
/// and inner position `j`, until it reports completion.
pub open spec fn bubble_steps_left(n: int, i: int, j: int) -> int
    decreases n - i, n - j,
{
    if i + 1 >= n || i < 0 || j < 0 {
        1
    } else if j >= n - i - 1 {
        1 + bubble_steps_left(n, i + 1, 0)
    } else {
        1 + bubble_steps_left(n, i, j + 1)
    }
}

proof fn lemma_pass_steps(n: int, i: int, j: int)
    requires
        0 <= i,
        i + 1 < n,
        0 <= j <= n - i - 1,
    ensures
        bubble_steps_left(n, i, j) == (n - i - 1 - j) + 1 + bubble_steps_left(n, i + 1, 0),
    decreases n - i - 1 - j,
{
    if j < n - i - 1 {
        lemma_pass_steps(n, i, j + 1);
    }
}

proof fn lemma_steps_from_pass(n: int, i: int)
    requires
        0 <= i <= n - 1,
    ensures
        2 * bubble_steps_left(n, i, 0) == (n - i) * (n - i + 1),
    decreases n - i,
{
    if i + 1 < n {
        lemma_pass_steps(n, i, 0);
        lemma_steps_from_pass(n, i + 1);
        assert((n - i) * (n - i + 1) == (n - i - 1) * (n - i) + 2 * (n - i)) by (nonlinear_arith);
    }
}

/// From a fresh start, a bubble sort over `n >= 1` elements reports completion after
/// at most `n * (n - 1) / 2 + n` calls of `step`.
pub proof fn lemma_bubble_step_bound(n: int)
    requires
        n >= 1,
    ensures
        bubble_steps_left(n, 0, 0) <= n * (n - 1) / 2 + n,
{
    lemma_steps_from_pass(n, 0);
    assert(n * (n + 1) == n * (n - 1) + 2 * n) by (nonlinear_arith);
    assert(n * (n - 1) / 2 + n == (n * (n - 1) + 2 * n) / 2);
}

/// Bubble-sort progress: the last `i` slots hold the largest elements in order, and
/// slot `j` holds the largest element of the unsorted prefix up to `j`.
pub open spec fn bubble_progress(a: Seq<i32>, i: int, j: int) -> bool {
    let b = a.len() - i;
    &&& forall|p: int, q: int| b <= p <= q < a.len() ==> a[p] <= a[q]
    &&& forall|p: int, q: int| 0 <= p < b && b <= q < a.len() ==> a[p] <= a[q]
    &&& j < a.len() ==> forall|p: int| 0 <= p <= j ==> a[p] <= a[j]
}

/// A bubble sort that performs one compare-and-swap of neighbours per `step`.
pub struct BubbleSort {
    array: Vec<i32>,
    outer_i: usize,
    inner_j: usize,
    sorted: bool,
}

impl BubbleSort {
    pub closed spec fn array_view(&self) -> Seq<i32> {
        self.array@
    }

    pub closed spec fn outer(&self) -> int {
        self.outer_i as int
    }

    pub closed spec fn inner(&self) -> int {
        self.inner_j as int
    }

    pub closed spec fn done(&self) -> bool {
        self.sorted
    }

    /// Steps still needed before `is_complete` holds.
    pub open spec fn steps_left(&self) -> int {
        if self.done() {
            0
        } else {
            bubble_steps_left(self.array_view().len() as int, self.outer(), self.inner())
        }
    }

    pub open spec fn wf(&self) -> bool {
        let n = self.array_view().len();
        &&& (self.outer() == 0 && self.inner() == 0) || (self.outer() < n && self.outer()
            + self.inner() < n)
        &&& self.done() ==> self.outer() + 1 >= n
        &&& bubble_progress(self.array_view(), self.outer(), self.inner())
    }

    pub fn new() -> (r: BubbleSort)
        ensures
            r.wf(),
            r.array_view() == Seq::<i32>::empty(),
            r.outer() == 0,
            r.inner() == 0,
            !r.done(),
    {
        BubbleSort { array: Vec::new(), outer_i: 0, inner_j: 0, sorted: false }
    }

    /// Replaces the working array and rewinds the cursor.
    pub fn set_array(&mut self, array: Vec<i32>)
        ensures
            final(self).wf(),
            final(self).array_view() == array@,
            final(self).outer() == 0,
            final(self).inner() == 0,
            !final(self).done(),
    {
        self.array = array;
        self.reset();
    }

    pub fn get_array(&self) -> (r: Vec<i32>)
        ensures
            r@ == self.array_view(),
    {
        self.array.clone()
    }

    /// Rewinds the cursor; the array keeps its current order.
    pub fn reset(&mut self)
        ensures
            final(self).wf(),
            final(self).array_view() == old(self).array_view(),
            final(self).outer() == 0,
            final(self).inner() == 0,
            !final(self).done(),
    {
        self.outer_i = 0;
        self.inner_j = 0;
        self.sorted = false;
    }

    /// How one `step` relates the state before it (`self`) to the state after it
    /// (`next`) and to its result `r`.
    pub open spec fn step_spec(&self, next: &Self, r: Option<Vec<i32>>) -> bool {
        &&& next.array_view().to_multiset() == self.array_view().to_multiset()
        &&& next.array_view().len() == self.array_view().len()
        &&& next.done() ==> sorted(next.array_view())
        &&& self.done() ==> {
            &&& r is None
            &&& next.array_view() == self.array_view()
            &&& next.outer() == 0 && next.inner() == 0
            &&& !next.done()
        }
        &&& !self.done() ==> {
            &&& r is Some && r.unwrap()@ == next.array_view()
            &&& next.steps_left() == self.steps_left() - 1
        }
        &&& !self.done() && self.outer() + 1 >= self.array_view().len() ==> {
            &&& next.done()
            &&& next.array_view() == self.array_view()
        }
        &&& !self.done() && self.outer() + 1 < self.array_view().len()
            && self.inner() >= self.array_view().len() - self.outer()
            - 1 ==> {
            &&& !next.done()
            &&& next.array_view() == self.array_view()
            &&& next.outer() == self.outer() + 1
            &&& next.inner() == 0
        }
        &&& !self.done() && self.outer() + 1 < self.array_view().len()
            && self.inner() < self.array_view().len() - self.outer() - 1
            ==> {
            let a = self.array_view();
            let j = self.inner();
            &&& !next.done()
            &&& next.array_view() == (if a[j] > a[j + 1] {
                swapped(a, j, j + 1)
            } else {
                a
            })
            &&& next.outer() == self.outer()
            &&& next.inner() == j + 1
        }
    }

    /// One unit of work. After completion one more call rewinds the cursor and
    /// returns `None`; every other call returns the array as it stands afterwards.
    pub fn step(&mut self) -> (r: Option<Vec<i32>>)
        requires
            old(self).wf(),
        ensures
            final(self).wf(),
            old(self).step_spec(final(self), r),
    {
        let n = self.array.len();
        if self.sorted {
            self.reset();
            return None;
        }
        if self.outer_i + 1 >= n {
            self.sorted = true;
            proof {
                let a = self.array@;
                assert forall|p: int, q: int| 0 <= p <= q < a.len() implies a[p] <= a[q] by {
                    if p < a.len() - self.outer_i {
                        assert(p == 0);
                        if q > 0 {
                        } else {
                            assert(p == q);
                        }
                    }
                }
            }
            return Some(self.array.clone());
        }
        if self.inner_j >= n - self.outer_i - 1 {
            proof {
                let a = self.array@;
                let b = n - self.outer_i;
                assert(self.inner_j == b - 1);
            }
            self.outer_i = self.outer_i + 1;
            self.inner_j = 0;
            return Some(self.array.clone());
        }
        let j = self.inner_j;
        let ghost a0 = self.array@;
        if self.array[j] > self.array[j + 1] {
            swap_at(&mut self.array, j, j + 1);
        }
        proof {
            let a = self.array@;
            let b = n - self.outer_i;
            assert forall|p: int| 0 <= p <= j + 1 implies #[trigger] a[p] <= a[j + 1] by {
                if p < j {
                    assert(a0[p] <= a0[j as int]);
                }
            }
            assert forall|p: int, q: int| b <= p <= q < a.len() implies a[p] <= a[q] by {
                assert(a0[p] <= a0[q]);
            }
            assert forall|p: int, q: int| 0 <= p < b && b <= q < a.len() implies a[p]
                <= a[q] by {
                if p == j || p == j + 1 {
                    assert(a0[j as int] <= a0[q]);
                    assert(a0[j + 1] <= a0[q]);
                } else {
                    assert(a0[p] <= a0[q]);
                }
            }
        }
        self.inner_j = j + 1;
        Some(self.array.clone())
    }

    pub fn is_complete(&self) -> (r: bool)
        ensures
            r == self.done(),
    {
        self.sorted
    }
}

/// `run[i + 1]` and `results[i]` are what the `i`-th of a series of `step` calls left
/// and returned, starting from `run[0]`.
pub open spec fn bubble_run(run: Seq<BubbleSort>, results: Seq<Option<Vec<i32>>>) -> bool {
    &&& run.len() == results.len() + 1
    &&& forall|i: int| 0 <= i < run.len() ==> #[trigger] run[i].wf()
    &&& forall|i: int| 0 <= i < results.len() ==> #[trigger] run[i].step_spec(&run[i + 1], results[i])
}

proof fn lemma_steps_left_nonneg(n: int, i: int, j: int)
    ensures
        bubble_steps_left(n, i, j) >= 1,
    decreases n - i, n - j,
{
    if !(i + 1 >= n || i < 0 || j < 0) {
        if j >= n - i - 1 {
            lemma_steps_left_nonneg(n, i + 1, 0);
        } else {
            lemma_steps_left_nonneg(n, i, j + 1);
        }
    }
}

proof fn lemma_bubble_run_prefix(run: Seq<BubbleSort>, results: Seq<Option<Vec<i32>>>, k: int)
    requires
        bubble_run(run, results),
        forall|i: int| 0 <= i < results.len() ==> !(#[trigger] run[i].done()),
        0 <= k < run.len(),
    ensures
        run[k].array_view().to_multiset() == run[0].array_view().to_multiset(),
        run[k].array_view().len() == run[0].array_view().len(),
        run[k].steps_left() == run[0].steps_left() - k,
    decreases k,
{
    if k > 0 {
        lemma_bubble_run_prefix(run, results, k - 1);
        let j = k - 1;
        assert(run[j].step_spec(&run[j + 1], results[j]));
        assert(!run[k - 1].done());
    }
}

/// Driving a bubble sort with `n >= 1` elements from a fresh cursor, calling `step`
/// while it is not complete, keeps the same values, leaves them sorted once complete,
/// and makes at most `n * (n - 1) / 2 + n` calls.
pub proof fn lemma_bubble_run(run: Seq<BubbleSort>, results: Seq<Option<Vec<i32>>>)
    requires
        bubble_run(run, results),
        run[0].outer() == 0,
        run[0].inner() == 0,
        !run[0].done(),
        run[0].array_view().len() >= 1,
        forall|i: int| 0 <= i < results.len() ==> !(#[trigger] run[i].done()),
    ensures
        run.last().array_view().to_multiset() == run[0].array_view().to_multiset(),
        run.last().array_view().len() == run[0].array_view().len(),
        run.last().done() ==> sorted(run.last().array_view()),
        results.len() <= run[0].array_view().len() * (run[0].array_view().len() - 1) / 2 + run[0].array_view().len(),
{
    let m = run.len() - 1;
    let n = run[0].array_view().len() as int;
    lemma_bubble_run_prefix(run, results, m);
    assert(run[m].wf());
    if m > 0 {
        let j = m - 1;
        assert(run[j].step_spec(&run[j + 1], results[j]));
    }
    if !run[m].done() {
        lemma_steps_left_nonneg(n, run[m].outer(), run[m].inner());
    }
    lemma_bubble_step_bound(n);
}

} // verus!
