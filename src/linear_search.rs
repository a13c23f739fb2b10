use vstd::prelude::*;

verus! {

/// A linear scan for a target, one position per `step`.
pub struct LinearSearch {
    array: Vec<i32>,
    target: i32,
    index: usize,
    initialized: bool,
}

impl LinearSearch {
    pub closed spec fn array_view(&self) -> Seq<i32> {
        self.array@
    }

    pub closed spec fn target_value(&self) -> i32 {
        self.target
    }

    pub closed spec fn position(&self) -> int {
        self.index as int
    }

    pub closed spec fn armed(&self) -> bool {
        self.initialized
    }

    /// What `found` reports.
    pub open spec fn found_spec(&self) -> bool {
        !self.armed() && self.position() < self.array_view().len() && self.array_view()[self.position()]
            == self.target_value()
    }

    /// Every position before the cursor has been checked and does not hold the target.
    pub open spec fn wf(&self) -> bool {
        &&& self.position() <= self.array_view().len()
        &&& forall|k: int| 0 <= k < self.position() ==> self.array_view()[k] != self.target_value()
    }

    pub fn new() -> (r: LinearSearch)
        ensures
            r.wf(),
            r.array_view() == Seq::<i32>::empty(),
            r.position() == 0,
            !r.armed(),
    {
        LinearSearch { array: Vec::new(), target: 0, index: 0, initialized: false }
    }

    /// Replaces the working array and disarms the search.
    pub fn set_array(&mut self, array: Vec<i32>)
        ensures
            final(self).wf(),
            final(self).array_view() == array@,
            final(self).target_value() == old(self).target_value(),
            final(self).position() == 0,
            !final(self).armed(),
    {
        self.array = array;
        self.reset();
    }

    pub fn get_array(&self) -> (r: Vec<i32>)
        ensures
            r@ == self.array_view(),
    {
        self.array.clone()
    }

    /// Disarms the search and rewinds the cursor; the array is kept.
    pub fn reset(&mut self)
        ensures
            final(self).wf(),
            final(self).array_view() == old(self).array_view(),
            final(self).target_value() == old(self).target_value(),
            final(self).position() == 0,
            !final(self).armed(),
    {
        self.index = 0;
        self.initialized = false;
    }

    /// Arms the search for `target` from the first position.
    pub fn start_search(&mut self, target: i32)
        ensures
            final(self).wf(),
            final(self).array_view() == old(self).array_view(),
            final(self).target_value() == target,
            final(self).position() == 0,
            final(self).armed(),
    {
        self.target = target;
        self.index = 0;
        self.initialized = true;
    }

    /// How one `step` relates the state before it (`self`) to the state after it
    /// (`next`) and to its result `r`.
    pub open spec fn step_spec(&self, next: &Self, r: Option<(Vec<i32>, usize)>) -> bool {
        &&& next.array_view() == self.array_view()
        &&& next.target_value() == self.target_value()
        &&& ({
            let a = self.array_view();
            let i = self.position();
            if !self.armed() || i >= a.len() {
                &&& r is None
                &&& !next.armed()
                &&& next.position() == i
            } else if a[i] == self.target_value() {
                &&& r is Some && r.unwrap().0@ == a && r.unwrap().1 == i
                &&& !next.armed()
                &&& next.position() == i
            } else {
                &&& r is Some && r.unwrap().0@ == a && r.unwrap().1 == i + 1
                &&& next.armed()
                &&& next.position() == i + 1
            }
        })
        &&& self.armed() && !next.armed() ==> (next.found_spec()
            <==> self.array_view().contains(self.target_value()))
    }

    /// Checks one position. Returns `(array, index)`: the matching index on a match,
    /// else the next index to check; `None` when not armed or past the end.
    pub fn step(&mut self) -> (r: Option<(Vec<i32>, usize)>)
        requires
            old(self).wf(),
        ensures
            final(self).wf(),
            old(self).step_spec(final(self), r),
    {
        if !self.initialized || self.index >= self.array.len() {
            self.initialized = false;
            proof {
                let a = self.array@;
                if old(self).initialized {
                    assert(!a.contains(self.target)) by {
                        if a.contains(self.target) {
                            let p = choose|p: int| 0 <= p < a.len() && a[p] == self.target;
                        }
                    }
                }
            }
            return None;
        }
        if self.array[self.index] == self.target {
            self.initialized = false;
            return Some((self.array.clone(), self.index));
        }
        self.index = self.index + 1;
        Some((self.array.clone(), self.index))
    }

    pub fn is_complete(&self) -> (r: bool)
        ensures
            r == !self.armed(),
    {
        !self.initialized
    }

    /// Whether the search has ended on a position that holds the target.
    pub fn found(&self) -> (r: bool)
        ensures
            r == self.found_spec(),
    {
        if !self.initialized && self.index < self.array.len() {
            return self.array[self.index] == self.target;
        }
        false
    }
}

/// When the target is in the array, its first index being `i`, each step of an armed
/// search either moves one position on while staying at or before `i`, or ends it with
/// a match reported at `i`.
pub proof fn lemma_linear_search_first(s: LinearSearch, next: LinearSearch, r: Option<(Vec<i32>, usize)>, i: int)
    requires
        s.wf(),
        s.armed(),
        0 <= i < s.array_view().len(),
        s.array_view()[i] == s.target_value(),
        forall|j: int| 0 <= j < i ==> s.array_view()[j] != s.target_value(),
        s.step_spec(&next, r),
    ensures
        (next.armed() && next.position() == s.position() + 1 && next.position() <= i) || (!next.armed()
            && next.found_spec() && r is Some && r.unwrap().1 == i),
{
    assert(s.array_view().contains(s.target_value()));
}

/// When the target is absent, an armed search never reports a match, and each step
/// either ends it or moves one position on.
pub proof fn lemma_linear_search_absent(s: LinearSearch, next: LinearSearch, r: Option<(Vec<i32>, usize)>)
    requires
        s.wf(),
        s.armed(),
        !s.array_view().contains(s.target_value()),
        s.step_spec(&next, r),
    ensures
        !next.found_spec(),
        next.armed() ==> next.position() == s.position() + 1 <= s.array_view().len(),
{
    if next.found_spec() {
        assert(next.array_view()[next.position()] == next.target_value());
    }
}

/// `run[i + 1]` and `results[i]` are what the `i`-th of a series of `step` calls left
/// and returned, starting from `run[0]`.
pub open spec fn linear_run(run: Seq<LinearSearch>, results: Seq<Option<(Vec<i32>, usize)>>) -> bool {
    &&& run.len() == results.len() + 1
    &&& forall|i: int| 0 <= i < run.len() ==> #[trigger] run[i].wf()
    &&& forall|i: int| 0 <= i < results.len() ==> #[trigger] run[i].step_spec(&run[i + 1], results[i])
}

proof fn lemma_linear_run_prefix(run: Seq<LinearSearch>, results: Seq<Option<(Vec<i32>, usize)>>, k: int)
    requires
        linear_run(run, results),
        forall|i: int| 0 <= i < results.len() ==> #[trigger] run[i].armed(),
        0 <= k < run.len(),
    ensures
        run[k].array_view() == run[0].array_view(),
        run[k].target_value() == run[0].target_value(),
        k < results.len() ==> run[k].position() == run[0].position() + k,
    decreases k,
{
    if k > 0 {
        lemma_linear_run_prefix(run, results, k - 1);
        let j = k - 1;
        assert(run[j].step_spec(&run[j + 1], results[j]));
        assert(run[j].armed());
        if k < results.len() {
            assert(run[k].armed());
        }
    }
}

/// An armed linear search from the first position, with `step` called while it is
/// armed, makes at most `len + 1` calls; when the target is in the array a completed
/// run has `found` and reported the first index `i` holding it.
pub proof fn lemma_linear_run(run: Seq<LinearSearch>, results: Seq<Option<(Vec<i32>, usize)>>, i: int)
    requires
        linear_run(run, results),
        forall|k: int| 0 <= k < results.len() ==> #[trigger] run[k].armed(),
        run[0].position() == 0,
        0 <= i < run[0].array_view().len(),
        run[0].array_view()[i] == run[0].target_value(),
        forall|j: int| 0 <= j < i ==> run[0].array_view()[j] != run[0].target_value(),
    ensures
        results.len() <= run[0].array_view().len() + 1,
        results.len() > 0 && !run.last().armed() ==> run.last().found_spec() && results.last() is Some
            && results.last().unwrap().1 == i,
{
    let m = run.len() - 1;
    if m > 0 {
        let j = m - 1;
        lemma_linear_run_prefix(run, results, j);
        assert(run[j].wf());
        assert(run[j].step_spec(&run[j + 1], results[j]));
        assert(run[j].armed());
        lemma_linear_search_first(run[j], run[j + 1], results[j], i);
    }
}

} // verus!
