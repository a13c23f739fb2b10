use vstd::prelude::*;

use crate::seq_util::sorted;

verus! {

/// The probe position for the bounds `[left, right]`.
pub open spec fn probe(left: int, right: int) -> int {
    left + (right - left) / 2
}

/// A binary search over an ascending array, one probe per `step`.
pub struct BinarySearch {
    array: Vec<i32>,
    target: i32,
    left: usize,
    right: usize,
    initialized: bool,
}

impl BinarySearch {
    pub closed spec fn array_view(&self) -> Seq<i32> {
        self.array@
    }

    pub closed spec fn target_value(&self) -> i32 {
        self.target
    }

    pub closed spec fn lo(&self) -> int {
        self.left as int
    }

    pub closed spec fn hi(&self) -> int {
        self.right as int
    }

    pub closed spec fn armed(&self) -> bool {
        self.initialized
    }

    /// Positions still inside the search bounds.
    pub open spec fn width(&self) -> int {
        self.hi() - self.lo() + 1
    }

    /// What `found` reports.
    pub open spec fn found_spec(&self) -> bool {
        &&& !self.armed()
        &&& self.array_view().len() > 0
        &&& self.lo() <= self.hi()
        &&& self.array_view()[probe(self.lo(), self.hi())] == self.target_value()
    }

    pub open spec fn wf(&self) -> bool {
        let a = self.array_view();
        &&& self.lo() <= a.len()
        &&& self.hi() < a.len() || self.hi() == 0
        &&& self.armed() ==> self.lo() <= self.hi() + 1
        &&& self.armed() && sorted(a) ==> forall|p: int|
            0 <= p < a.len() && a[p] == self.target_value() ==> self.lo() <= p <= self.hi()
    }

    pub fn new() -> (r: BinarySearch)
        ensures
            r.wf(),
            r.array_view() == Seq::<i32>::empty(),
            !r.armed(),
    {
        BinarySearch { array: Vec::new(), target: 0, left: 0, right: 0, initialized: false }
    }

    /// Replaces the working array and disarms the search.
    pub fn set_array(&mut self, array: Vec<i32>)
        ensures
            final(self).wf(),
            final(self).array_view() == array@,
            final(self).target_value() == old(self).target_value(),
            final(self).lo() == 0 && final(self).hi() == 0,
            !final(self).armed(),
    {
        self.array = array;
        self.reset();
    }

    pub fn get_array(&self) -> (r: Vec<i32>)
        ensures
            r@ == self.array_view(),
    {
        self.array.clone()
    }

    /// Disarms the search; the array is kept.
    pub fn reset(&mut self)
        ensures
            final(self).wf(),
            final(self).array_view() == old(self).array_view(),
            final(self).target_value() == old(self).target_value(),
            final(self).lo() == 0 && final(self).hi() == 0,
            !final(self).armed(),
    {
        self.left = 0;
        self.right = 0;
        self.initialized = false;
    }

    /// Arms the search for `target` over the whole array.
    pub fn start_search(&mut self, target: i32)
        ensures
            final(self).wf(),
            final(self).array_view() == old(self).array_view(),
            final(self).target_value() == target,
            final(self).lo() == 0,
            final(self).hi() == if old(self).array_view().len() == 0 {
                0
            } else {
                old(self).array_view().len() - 1
            },
            final(self).armed(),
    {
        self.target = target;
        self.left = 0;
        self.right = if self.array.len() == 0 {
            0
        } else {
            self.array.len() - 1
        };
        self.initialized = true;
    }

    /// How one `step` relates the state before it (`self`) to the state after it
    /// (`next`) and to its result `r`.
    pub open spec fn step_spec(&self, next: &Self, r: Option<(Vec<i32>, usize, usize, usize)>) -> bool {
        &&& next.array_view() == self.array_view()
        &&& next.target_value() == self.target_value()
        &&& ({
            let a = self.array_view();
            let t = self.target_value();
            let (lo, hi) = (self.lo(), self.hi());
            let m = probe(lo, hi);
            if !self.armed() || lo > hi || a.len() == 0 {
                &&& r is None
                &&& !next.armed()
                &&& next.lo() == lo && next.hi() == hi
            } else {
                &&& r is Some
                &&& r.unwrap().0@ == a
                &&& r.unwrap().1 == next.lo() && r.unwrap().2 == next.hi()
                &&& r.unwrap().3 == m
                &&& a[m] == t ==> !next.armed() && next.lo() == lo
                    && next.hi() == hi
                &&& a[m] < t ==> next.armed() && next.lo() == m + 1
                    && next.hi() == hi
                &&& a[m] > t && m > 0 ==> next.armed() && next.lo() == lo
                    && next.hi() == m - 1
                &&& a[m] > t && m == 0 ==> !next.armed() && next.lo() == 0
                    && next.hi() == 0
            }
        })
        &&& self.armed() && next.armed() ==> 0 <= next.width() < self.width()
        &&& self.armed() && !next.armed() && sorted(self.array_view()) ==> (
        next.found_spec() <==> self.array_view().contains(
            self.target_value(),
        ))
    }

    /// One probe. Returns `(array, left, right, mid)` with the bounds as they stand
    /// after the probe, or `None` when the search is not armed or has run out of
    /// positions. A probe at position 0 that finds a larger value ends the search.
    pub fn step(&mut self) -> (r: Option<(Vec<i32>, usize, usize, usize)>)
        requires
            old(self).wf(),
        ensures
            final(self).wf(),
            old(self).step_spec(final(self), r),
    {
        if !self.initialized || self.left > self.right || self.array.len() == 0 {
            self.initialized = false;
            proof {
                let a = self.array@;
                if old(self).initialized && sorted(a) && a.len() > 0 {
                    assert(!a.contains(self.target)) by {
                        if a.contains(self.target) {
                            let p = choose|p: int| 0 <= p < a.len() && a[p] == self.target;
                        }
                    }
                }
            }
            return None;
        }
        let mid = self.left + (self.right - self.left) / 2;
        let v = self.array[mid];
        if v == self.target {
            self.initialized = false;
            return Some((self.array.clone(), self.left, self.right, mid));
        } else if v < self.target {
            proof {
                let a = self.array@;
                if sorted(a) {
                    assert forall|p: int| 0 <= p < a.len() && a[p] == self.target implies mid
                        + 1 <= p by {
                        if p <= mid {
                            assert(a[p] <= a[mid as int]);
                        }
                    }
                }
            }
            self.left = mid + 1;
        } else if mid > 0 {
            proof {
                let a = self.array@;
                if sorted(a) {
                    assert forall|p: int| 0 <= p < a.len() && a[p] == self.target implies p
                        <= mid - 1 by {
                        if p >= mid {
                            assert(a[mid as int] <= a[p]);
                        }
                    }
                }
            }
            self.right = mid - 1;
        } else {
            proof {
                let a = self.array@;
                if sorted(a) {
                    assert(!a.contains(self.target)) by {
                        if a.contains(self.target) {
                            let p = choose|p: int| 0 <= p < a.len() && a[p] == self.target;
                            assert(a[0] <= a[p]);
                        }
                    }
                }
            }
            self.left = 0;
            self.right = 0;
            self.initialized = false;
        }
        Some((self.array.clone(), self.left, self.right, mid))
    }

    pub fn is_complete(&self) -> (r: bool)
        ensures
            r == !self.armed(),
    {
        !self.initialized
    }

    /// Whether the search has ended on a probe that holds the target.
    pub fn found(&self) -> (r: bool)
        requires
            self.wf(),
        ensures
            r == self.found_spec(),
    {
        if !self.initialized && self.array.len() > 0 && self.left <= self.right {
            let mid = self.left + (self.right - self.left) / 2;
            return self.array[mid] == self.target;
        }
        false
    }
}

/// On a sorted array that holds the target at exactly one index `i`, each step of an
/// armed search either keeps it armed over fewer positions, or ends it with a match
/// reported at `i`.
pub proof fn lemma_binary_search_unique(s: BinarySearch, next: BinarySearch, r: Option<(Vec<i32>, usize, usize, usize)>, i: int)
    requires
        s.wf(),
        s.armed(),
        sorted(s.array_view()),
        0 <= i < s.array_view().len(),
        s.array_view()[i] == s.target_value(),
        forall|j: int| 0 <= j < s.array_view().len() && s.array_view()[j] == s.target_value() ==> j == i,
        s.step_spec(&next, r),
    ensures
        (next.armed() && 0 <= next.width() < s.width()) || (!next.armed() && next.found_spec() && r is Some
            && r.unwrap().3 == i),
{
    assert(s.array_view().contains(s.target_value()));
}

/// When the target is absent, an armed search never reports a match, and each step
/// either ends it or leaves fewer positions.
pub proof fn lemma_binary_search_absent(s: BinarySearch, next: BinarySearch, r: Option<(Vec<i32>, usize, usize, usize)>)
    requires
        s.wf(),
        s.armed(),
        !s.array_view().contains(s.target_value()),
        s.step_spec(&next, r),
    ensures
        !next.found_spec(),
        next.armed() ==> 0 <= next.width() < s.width(),
{
    if next.found_spec() {
        let a = next.array_view();
        assert(a[probe(next.lo(), next.hi())] == next.target_value());
    }
}

/// `run[i + 1]` and `results[i]` are what the `i`-th of a series of `step` calls left
/// and returned, starting from `run[0]`.
pub open spec fn binary_run(run: Seq<BinarySearch>, results: Seq<Option<(Vec<i32>, usize, usize, usize)>>) -> bool {
    &&& run.len() == results.len() + 1
    &&& forall|i: int| 0 <= i < run.len() ==> #[trigger] run[i].wf()
    &&& forall|i: int| 0 <= i < results.len() ==> #[trigger] run[i].step_spec(&run[i + 1], results[i])
}

proof fn lemma_binary_run_prefix(run: Seq<BinarySearch>, results: Seq<Option<(Vec<i32>, usize, usize, usize)>>, k: int)
    requires
        binary_run(run, results),
        forall|i: int| 0 <= i < results.len() ==> #[trigger] run[i].armed(),
        0 <= k < run.len(),
    ensures
        run[k].array_view() == run[0].array_view(),
        run[k].target_value() == run[0].target_value(),
        k < results.len() ==> 0 <= run[k].width() <= run[0].width() - k,
    decreases k,
{
    if k > 0 {
        lemma_binary_run_prefix(run, results, k - 1);
        let j = k - 1;
        assert(run[j].step_spec(&run[j + 1], results[j]));
        assert(run[j].armed());
        if k < results.len() {
            assert(run[k].armed());
        }
    }
    if k < results.len() {
        assert(run[k].armed() && run[k].wf());
    }
}

/// An armed binary search over a sorted array that holds the target, with `step`
/// called while it is armed, makes at most `width + 1` calls, and once it is complete
/// the last call reported a position holding the target and `found` holds.
pub proof fn lemma_binary_run(run: Seq<BinarySearch>, results: Seq<Option<(Vec<i32>, usize, usize, usize)>>)
    requires
        binary_run(run, results),
        forall|i: int| 0 <= i < results.len() ==> #[trigger] run[i].armed(),
        run[0].armed(),
        sorted(run[0].array_view()),
        run[0].array_view().contains(run[0].target_value()),
    ensures
        results.len() <= run[0].width() + 1,
        results.len() > 0 && !run.last().armed() ==> {
            &&& run.last().found_spec()
            &&& results.last() is Some
            &&& 0 <= results.last().unwrap().3 < run[0].array_view().len()
            &&& run[0].array_view()[results.last().unwrap().3 as int] == run[0].target_value()
        },
{
    let m = run.len() - 1;
    assert(run[0].wf());
    if m > 0 {
        let j = m - 1;
        lemma_binary_run_prefix(run, results, j);
        lemma_binary_run_prefix(run, results, m);
        assert(run[j].step_spec(&run[j + 1], results[j]));
        assert(run[j].armed() && run[j].wf());
    }
}

/// When the target sits at exactly one index `i` of a sorted array, a completed run
/// reports `i`.
pub proof fn lemma_binary_run_unique(run: Seq<BinarySearch>, results: Seq<Option<(Vec<i32>, usize, usize, usize)>>, i: int)
    requires
        binary_run(run, results),
        forall|k: int| 0 <= k < results.len() ==> #[trigger] run[k].armed(),
        run[0].armed(),
        sorted(run[0].array_view()),
        0 <= i < run[0].array_view().len(),
        run[0].array_view()[i] == run[0].target_value(),
        forall|j: int| 0 <= j < run[0].array_view().len() && run[0].array_view()[j] == run[0].target_value() ==> j == i,
        results.len() > 0,
        !run.last().armed(),
    ensures
        run.last().found_spec(),
        results.last() is Some && results.last().unwrap().3 == i,
{
    assert(run[0].array_view().contains(run[0].target_value()));
    lemma_binary_run(run, results);
}

} // verus!
