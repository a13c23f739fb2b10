use vstd::prelude::*;

use crate::seq_util::{permuted_within, sorted, sorted_between};

verus! {

broadcast use vstd::seq_lib::group_to_multiset_ensures;

/// A unit of pending merge-sort work on the inclusive index range it names.
#[derive(Clone, Copy, Debug)]
pub enum MergeTask {
    /// Split `[low, high]` into halves and sort them.
    Split { low: usize, high: usize },
    /// Merge the sorted halves `[low, mid]` and `[mid + 1, high]`.
    Merge { low: usize, mid: usize, high: usize },
}

/// Steps a task takes until it and everything it schedules are done.
pub open spec fn task_cost(t: MergeTask) -> int {
    match t {
        MergeTask::Split { low, high } => 3 * (high - low + 1) - 2,
        MergeTask::Merge { .. } => 1,
    }
}

/// Steps until a stack of tasks is empty.
pub open spec fn stack_cost(st: Seq<MergeTask>) -> int
    decreases st.len(),
{
    if st.len() == 0 {
        0
    } else {
        stack_cost(st.drop_last()) + task_cost(st.last())
    }
}

proof fn lemma_stack_cost_push(st: Seq<MergeTask>, t: MergeTask)
    ensures
        stack_cost(st.push(t)) == stack_cost(st) + task_cost(t),
{
    assert(st.push(t).drop_last() =~= st);
}

proof fn lemma_stack_cost_positive(st: Seq<MergeTask>, n: int)
    requires
        forall|k: int| 0 <= k < st.len() ==> task_ok(#[trigger] st[k], n),
    ensures
        stack_cost(st) >= st.len(),
    decreases st.len(),
{
    if st.len() > 0 {
        assert(task_ok(st[st.len() - 1], n));
        assert forall|k: int| 0 <= k < st.drop_last().len() implies task_ok(#[trigger] st.drop_last()[k], n) by {
            assert(task_ok(st[k], n));
        }
        lemma_stack_cost_positive(st.drop_last(), n);
    }
}

/// From a fresh start over `n >= 1` elements, merge sort reports completion after
/// exactly `3 * n - 2` calls of `step`.
pub proof fn lemma_merge_step_count(n: usize)
    requires
        n >= 1,
    ensures
        stack_cost(seq![MergeTask::Split { low: 0, high: (n - 1) as usize }]) == 3 * n - 2,
{
    lemma_stack_cost_push(Seq::empty(), MergeTask::Split { low: 0, high: (n - 1) as usize });
    assert(Seq::<MergeTask>::empty().push(MergeTask::Split { low: 0, high: (n - 1) as usize }) =~= seq![
        MergeTask::Split { low: 0, high: (n - 1) as usize },
    ]);
}

/// The stable two-pointer merge of `x` and `y`: repeatedly take the smaller head,
/// the head of `x` when the two are equal.
#[verifier::opaque]
pub open spec fn merged(x: Seq<i32>, y: Seq<i32>) -> Seq<i32>
    decreases x.len() + y.len(),
{
    if x.len() == 0 {
        y
    } else if y.len() == 0 {
        x
    } else if x[0] <= y[0] {
        seq![x[0]] + merged(x.drop_first(), y)
    } else {
        seq![y[0]] + merged(x, y.drop_first())
    }
}

proof fn lemma_merged_take_left(x: Seq<i32>, y: Seq<i32>)
    requires
        x.len() > 0,
        y.len() == 0 || x[0] <= y[0],
    ensures
        merged(x, y) == seq![x[0]] + merged(x.drop_first(), y),
{
    reveal_with_fuel(merged, 2);
    if y.len() == 0 {
        assert(x =~= seq![x[0]] + x.drop_first());
    }
}

proof fn lemma_merged_take_right(x: Seq<i32>, y: Seq<i32>)
    requires
        y.len() > 0,
        x.len() == 0 || x[0] > y[0],
    ensures
        merged(x, y) == seq![y[0]] + merged(x, y.drop_first()),
{
    reveal_with_fuel(merged, 2);
    if x.len() == 0 {
        assert(y =~= seq![y[0]] + y.drop_first());
        assert(merged(x, y.drop_first()) == y.drop_first());
    }
}

proof fn lemma_merge_advance(
    before: Seq<i32>,
    after: Seq<i32>,
    low: int,
    k: int,
    rest: Seq<i32>,
    rest2: Seq<i32>,
    v: i32,
    whole: Seq<i32>,
)
    requires
        0 <= low <= k < after.len(),
        before.len() == after.len(),
        before.subrange(low, k) + rest == whole,
        rest == seq![v] + rest2,
        after[k] == v,
        forall|t: int| low <= t < k ==> after[t] == before[t],
    ensures
        after.subrange(low, k + 1) + rest2 == whole,
{
    assert(after.subrange(low, k + 1) + rest2 =~= before.subrange(low, k) + (seq![v] + rest2));
}

proof fn lemma_merged_empty()
    ensures
        merged(Seq::<i32>::empty(), Seq::<i32>::empty()) == Seq::<i32>::empty(),
{
    reveal(merged);
}

/// The midpoint at which `[low, high]` is split.
pub open spec fn midpoint(low: int, high: int) -> int {
    low + (high - low) / 2
}

pub open spec fn task_ok(t: MergeTask, n: int) -> bool {
    match t {
        MergeTask::Split { low, high } => low <= high < n,
        MergeTask::Merge { low, mid, high } => low <= mid < high < n,
    }
}

/// The inclusive index range a task works on.
pub open spec fn span(t: MergeTask) -> (int, int) {
    match t {
        MergeTask::Split { low, high } => (low as int, high as int),
        MergeTask::Merge { low, high, .. } => (low as int, high as int),
    }
}

/// The left half of a merge task.
pub open spec fn left_of(t: MergeTask) -> (int, int) {
    match t {
        MergeTask::Merge { low, mid, .. } => (low as int, mid as int),
        MergeTask::Split { low, high } => (low as int, high as int),
    }
}

/// The right half of a merge task.
pub open spec fn right_of(t: MergeTask) -> (int, int) {
    match t {
        MergeTask::Merge { mid, high, .. } => (mid + 1, high as int),
        MergeTask::Split { low, high } => (low as int, high as int),
    }
}

/// Range `r` lies inside range `o`.
pub open spec fn within(r: (int, int), o: (int, int)) -> bool {
    o.0 <= r.0 && r.1 <= o.1
}

pub open spec fn holds(r: (int, int), x: int) -> bool {
    r.0 <= x <= r.1
}

/// No task above index `t` works on position `x`.
pub open spec fn open_at(st: Seq<MergeTask>, t: int, x: int) -> bool {
    forall|u: int| t < u < st.len() ==> !#[trigger] holds(span(st[u]), x)
}

/// Within `r`, positions that no task above index `t` works on are in order.
pub open spec fn settled(a: Seq<i32>, st: Seq<MergeTask>, t: int, r: (int, int)) -> bool {
    forall|x: int, y: int|
        r.0 <= x < y <= r.1 && open_at(st, t, x) && open_at(st, t, y) ==> #[trigger] a[x] <= #[trigger] a[y]
}

/// The stack has the shape of a recursive merge sort over `[0, n)`: each task is a half
/// of the merge task `par` names below it (or the whole array, for `-1`), and whatever
/// lies above a merge task lies inside one of its halves.
pub open spec fn nested(st: Seq<MergeTask>, par: Seq<int>, n: int) -> bool {
    &&& par.len() == st.len()
    &&& forall|u: int| 0 <= u < st.len() ==> -1 <= #[trigger] par[u] < u
    &&& forall|u: int| 0 <= u < st.len() && #[trigger] par[u] == -1 ==> span(st[u]) == (0int, n - 1)
    &&& forall|u: int|
        0 <= u < st.len() && #[trigger] par[u] >= 0 ==> st[par[u]] is Merge && (span(st[u]) == left_of(st[par[u]])
            || span(st[u]) == right_of(st[par[u]]))
    &&& forall|t: int, u: int|
        0 <= t < u < st.len() && #[trigger] st[t] is Merge ==> within(span(#[trigger] st[u]), left_of(st[t]))
            || within(span(st[u]), right_of(st[t]))
}

/// The merge-sort ordering invariant.
pub open spec fn merge_inv(a: Seq<i32>, st: Seq<MergeTask>, par: Seq<int>) -> bool {
    let n = a.len() as int;
    &&& nested(st, par, n)
    &&& forall|t: int|
        0 <= t < st.len() && #[trigger] st[t] is Merge ==> settled(a, st, t, left_of(st[t])) && settled(
            a,
            st,
            t,
            right_of(st[t]),
        )
    &&& settled(a, st, -1, (0int, n - 1))
}

/// The range `hf` watched from index `t`: a half of the merge task at `t`, or the whole
/// array when `t` is `-1`.
pub open spec fn watched(st: Seq<MergeTask>, n: int, t: int, hf: (int, int)) -> bool {
    &&& -1 <= t < st.len()
    &&& t == -1 ==> hf == (0int, n - 1)
    &&& t >= 0 ==> st[t] is Merge && (hf == left_of(st[t]) || hf == right_of(st[t]))
}

/// A top task that is a proper part of a watched range stays covered, after it is
/// popped, by the merge task it belongs to.
proof fn lemma_top_still_covered(st: Seq<MergeTask>, par: Seq<int>, n: int, t: int, hf: (int, int), x: int)
    requires
        st.len() > 0,
        nested(st, par, n),
        forall|k: int| 0 <= k < st.len() ==> task_ok(#[trigger] st[k], n),
        t < st.len() - 1,
        watched(st, n, t, hf),
        within(span(st.last()), hf),
        span(st.last()) != hf,
        holds(span(st.last()), x),
    ensures
        !open_at(st.drop_last(), t, x),
{
    let m = st.len() - 1;
    let top = span(st[m]);
    let p = par[m];
    assert(-1 <= par[m] < m);
    assert(task_ok(st[m], n));
    if t >= 0 {
        assert(task_ok(st[t], n));
    }
    if p == -1 {
        assert(top == (0int, n - 1));
        assert(false);
    }
    assert(st[p] is Merge);
    assert(task_ok(st[p], n));
    if p < t {
        assert(within(span(st[t]), left_of(st[p])) || within(span(st[t]), right_of(st[p])));
        assert(false);
    } else if p == t {
        assert(false);
    }
    let st2 = st.drop_last();
    assert(st2[p] == st[p]);
    assert(holds(span(st2[p]), x));
}

proof fn lemma_pop_settled(a: Seq<i32>, a2: Seq<i32>, st: Seq<MergeTask>, par: Seq<int>, t: int, hf: (int, int))
    requires
        st.len() > 0,
        nested(st, par, a.len() as int),
        forall|k: int| 0 <= k < st.len() ==> task_ok(#[trigger] st[k], a.len() as int),
        t < st.len() - 1,
        watched(st, a.len() as int, t, hf),
        settled(a, st, t, hf),
        a2.len() == a.len(),
        forall|k: int| 0 <= k < a.len() && !holds(span(st.last()), k) ==> a2[k] == a[k],
        sorted_between(a2, span(st.last()).0, span(st.last()).1),
    ensures
        settled(a2, st.drop_last(), t, hf),
{
    let m = st.len() - 1;
    let st2 = st.drop_last();
    let top = span(st[m]);
    let n = a.len() as int;
    assert(task_ok(st[m], n));
    assert forall|x: int| open_at(st2, t, x) && !holds(top, x) implies open_at(st, t, x) by {
        assert forall|u: int| t < u < st.len() implies !#[trigger] holds(span(st[u]), x) by {
            if u < m {
                assert(st2[u] == st[u]);
            }
        }
    }
    if t >= 0 {
        assert(within(top, left_of(st[t])) || within(top, right_of(st[t])));
        assert(task_ok(st[t], n));
    }
    assert forall|x: int, y: int|
        hf.0 <= x < y <= hf.1 && open_at(st2, t, x) && open_at(st2, t, y) implies #[trigger] a2[x]
        <= #[trigger] a2[y] by {
        if !holds(top, x) && !holds(top, y) {
            assert(open_at(st, t, x) && open_at(st, t, y));
            assert(a[x] <= a[y]);
        } else {
            let z = if holds(top, x) { x } else { y };
            assert(within(top, hf));
            if top != hf {
                lemma_top_still_covered(st, par, n, t, hf, z);
            }
        }
    }
}

/// Popping the top task after its range was put in order keeps the invariant.
proof fn lemma_pop_keeps_inv(a: Seq<i32>, a2: Seq<i32>, st: Seq<MergeTask>, par: Seq<int>)
    requires
        st.len() > 0,
        merge_inv(a, st, par),
        forall|k: int| 0 <= k < st.len() ==> task_ok(#[trigger] st[k], a.len() as int),
        a2.len() == a.len(),
        forall|k: int| 0 <= k < a.len() && !holds(span(st.last()), k) ==> a2[k] == a[k],
        sorted_between(a2, span(st.last()).0, span(st.last()).1),
    ensures
        merge_inv(a2, st.drop_last(), par.drop_last()),
{
    let st2 = st.drop_last();
    let par2 = par.drop_last();
    let n = a.len() as int;
    lemma_pop_settled(a, a2, st, par, -1, (0int, n - 1));
    assert forall|t: int| 0 <= t < st2.len() && #[trigger] st2[t] is Merge implies settled(a2, st2, t, left_of(st2[t]))
        && settled(a2, st2, t, right_of(st2[t])) by {
        assert(st2[t] == st[t]);
        lemma_pop_settled(a, a2, st, par, t, left_of(st[t]));
        lemma_pop_settled(a, a2, st, par, t, right_of(st[t]));
    }
    assert(nested(st2, par2, n)) by {
        assert forall|u: int| 0 <= u < st2.len() && #[trigger] par2[u] >= 0 implies st2[par2[u]] is Merge && (span(
            st2[u],
        ) == left_of(st2[par2[u]]) || span(st2[u]) == right_of(st2[par2[u]])) by {
            assert(par2[u] == par[u] && st2[u] == st[u]);
            assert(st2[par[u]] == st[par[u]]);
        }
        assert forall|t: int, u: int|
            0 <= t < u < st2.len() && #[trigger] st2[t] is Merge implies within(span(#[trigger] st2[u]), left_of(st2[t]))
                || within(span(st2[u]), right_of(st2[t])) by {
            assert(st2[u] == st[u] && st2[t] == st[t]);
        }
    }
}

/// Replacing a split task on top by a merge task and its two halves keeps the invariant.
proof fn lemma_split_keeps_inv(a: Seq<i32>, st: Seq<MergeTask>, par: Seq<int>, l: usize, mid: usize, h: usize)
    requires
        st.len() > 0,
        merge_inv(a, st, par),
        forall|k: int| 0 <= k < st.len() ==> task_ok(#[trigger] st[k], a.len() as int),
        st.last() == (MergeTask::Split { low: l, high: h }),
        l <= mid < h,
    ensures
        ({
            let m = st.len() - 1;
            let st2 = st.drop_last().push(MergeTask::Merge { low: l, mid, high: h }).push(
                MergeTask::Split { low: (mid + 1) as usize, high: h },
            ).push(MergeTask::Split { low: l, high: mid });
            let par2 = par.drop_last().push(par[m]).push(m).push(m);
            merge_inv(a, st2, par2)
        }),
{
    let m = st.len() - 1;
    let n = a.len() as int;
    let mt = MergeTask::Merge { low: l, mid, high: h };
    let sr = MergeTask::Split { low: (mid + 1) as usize, high: h };
    let sl = MergeTask::Split { low: l, high: mid };
    let st2 = st.drop_last().push(mt).push(sr).push(sl);
    let par2 = par.drop_last().push(par[m]).push(m).push(m);
    assert(st2[m] == mt && st2[m + 1] == sr && st2[m + 2] == sl);
    assert forall|t: int, x: int| -1 <= t < m && open_at(st2, t, x) implies open_at(st, t, x) by {
        assert forall|u: int| t < u < st.len() implies !#[trigger] holds(span(st[u]), x) by {
            if u < m {
                assert(st2[u] == st[u]);
            } else if holds(span(st[u]), x) {
                assert(holds(span(st2[m]), x));
            }
        }
    }
    assert forall|t: int, hf: (int, int)| -1 <= t < m && settled(a, st, t, hf) implies settled(a, st2, t, hf) by {
        assert forall|x: int, y: int|
            hf.0 <= x < y <= hf.1 && open_at(st2, t, x) && open_at(st2, t, y) implies #[trigger] a[x]
            <= #[trigger] a[y] by {
            assert(open_at(st, t, x) && open_at(st, t, y));
        }
    }
    assert forall|t: int| 0 <= t < st2.len() && #[trigger] st2[t] is Merge implies settled(a, st2, t, left_of(st2[t]))
        && settled(a, st2, t, right_of(st2[t])) by {
        if t < m {
            assert(st2[t] == st[t]);
            assert(st[t] is Merge);
        } else {
            assert(t == m);
            assert forall|x: int| holds(left_of(mt), x) implies !open_at(st2, m, x) by {
                assert(holds(span(st2[m + 2]), x));
            }
            assert forall|x: int| holds(right_of(mt), x) implies !open_at(st2, m, x) by {
                assert(holds(span(st2[m + 1]), x));
            }
        }
    }
    assert(nested(st2, par2, n)) by {
        assert forall|u: int| 0 <= u < st2.len() && #[trigger] par2[u] == -1 implies span(st2[u]) == (0int, n - 1) by {
            if u < m {
                assert(par2[u] == par[u] && st2[u] == st[u]);
            }
        }
        assert forall|u: int| 0 <= u < st2.len() && #[trigger] par2[u] >= 0 implies st2[par2[u]] is Merge && (span(
            st2[u],
        ) == left_of(st2[par2[u]]) || span(st2[u]) == right_of(st2[par2[u]])) by {
            if u < m {
                assert(par2[u] == par[u] && st2[u] == st[u]);
                assert(par[u] < u);
                assert(st2[par[u]] == st[par[u]]);
            } else if u == m {
                assert(par[m] < m);
                assert(st2[par[m]] == st[par[m]]);
            }
        }
        assert forall|u: int| 0 <= u < st2.len() implies -1 <= #[trigger] par2[u] < u by {
            if u < m {
                assert(par2[u] == par[u]);
            }
        }
        assert forall|t: int, u: int|
            0 <= t < u < st2.len() && #[trigger] st2[t] is Merge implies within(span(#[trigger] st2[u]), left_of(st2[t]))
                || within(span(st2[u]), right_of(st2[t])) by {
            if t < m {
                assert(st2[t] == st[t]);
                assert(within(span(st[m]), left_of(st[t])) || within(span(st[m]), right_of(st[t])));
                if u < m {
                    assert(st2[u] == st[u]);
                }
            }
        }
    }
}

proof fn lemma_permuted_within_multiset(before: Seq<i32>, after: Seq<i32>, low: int, high: int)
    requires
        0 <= low <= high < before.len(),
        permuted_within(before, after, low, high),
    ensures
        after.to_multiset() == before.to_multiset(),
{
    broadcast use vstd::seq_lib::lemma_multiset_commutative;
    let n = before.len() as int;
    assert(before =~= before.subrange(0, low) + before.subrange(low, high + 1) + before.subrange(high + 1, n));
    assert(after =~= after.subrange(0, low) + after.subrange(low, high + 1) + after.subrange(high + 1, n));
    assert(after.subrange(0, low) =~= before.subrange(0, low));
    assert(after.subrange(high + 1, n) =~= before.subrange(high + 1, n));
}

/// A merge sort whose recursion is an explicit stack of tagged split and merge tasks;
/// one `step` performs one task.
pub struct MergeSort {
    array: Vec<i32>,
    temp_array: Vec<i32>,
    stack: Vec<MergeTask>,
    parents: Ghost<Seq<int>>,
}

impl MergeSort {
    pub closed spec fn array_view(&self) -> Seq<i32> {
        self.array@
    }

    pub closed spec fn pending(&self) -> Seq<MergeTask> {
        self.stack@
    }

    pub open spec fn wf(&self) -> bool {
        &&& self.buffer_len() == self.array_view().len()
        &&& self.parent_links().len() == self.pending().len()
        &&& forall|k: int| 0 <= k < self.pending().len() ==> task_ok(#[trigger] self.pending()[k], self.array_view().len() as int)
    }

    /// For each pending task, the index of the merge task it is a half of, or `-1`
    /// for the whole array.
    pub closed spec fn parent_links(&self) -> Seq<int> {
        self.parents@
    }

    /// The ordering invariant of a merge sort started from an idle engine.
    pub open spec fn sort_inv(&self) -> bool {
        merge_inv(self.array_view(), self.pending(), self.parent_links())
    }

    pub closed spec fn buffer_len(&self) -> nat {
        self.temp_array@.len()
    }

    pub fn new() -> (r: MergeSort)
        ensures
            r.wf(),
            r.array_view() == Seq::<i32>::empty(),
            r.pending() == Seq::<MergeTask>::empty(),
    {
        MergeSort { array: Vec::new(), temp_array: Vec::new(), stack: Vec::new(), parents: Ghost(Seq::empty()) }
    }

    /// Replaces the working array, sizes the side buffer to it and clears pending work.
    pub fn set_array(&mut self, array: Vec<i32>)
        ensures
            final(self).wf(),
            final(self).array_view() == array@,
            final(self).pending() == Seq::<MergeTask>::empty(),
    {
        self.temp_array = vec![0; array.len()];
        self.array = array;
        self.reset();
    }

    pub fn get_array(&self) -> (r: Vec<i32>)
        ensures
            r@ == self.array_view(),
    {
        self.array.clone()
    }

    /// Clears pending work; the array keeps its current order.
    pub fn reset(&mut self)
        ensures
            final(self).array_view() == old(self).array_view(),
            final(self).buffer_len() == old(self).buffer_len(),
            final(self).pending() == Seq::<MergeTask>::empty(),
            final(self).parent_links() == Seq::<int>::empty(),
    {
        self.stack.clear();
        self.parents = Ghost(Seq::empty());
    }

    /// Schedules the whole array, unless it is empty.
    pub fn start_sort(&mut self)
        requires
            old(self).wf(),
        ensures
            final(self).wf(),
            final(self).array_view() == old(self).array_view(),
            final(self).pending() == if old(self).array_view().len() == 0 {
                old(self).pending()
            } else {
                old(self).pending().push(
                    MergeTask::Split { low: 0, high: (old(self).array_view().len() - 1) as usize },
                )
            },
            old(self).pending().len() == 0 ==> final(self).sort_inv(),
    {
        if self.array.len() > 0 {
            self.stack.push(MergeTask::Split { low: 0, high: self.array.len() - 1 });
            self.parents = Ghost(self.parents@.push(-1));
            proof {
                if old(self).stack@.len() == 0 {
                    let st = self.stack@;
                    let par = self.parents@;
                    assert(st.len() == 1 && par.len() == 1 && par[0] == -1);
                    assert forall|x: int| 0 <= x < self.array@.len() implies !#[trigger] open_at(st, -1, x) by {
                        assert(holds(span(st[0]), x));
                    }
                }
                let n = self.array@.len() as int;
                assert forall|k: int| 0 <= k < self.stack@.len() implies task_ok(
                    #[trigger] self.stack@[k],
                    n,
                ) by {
                    if k < old(self).stack@.len() {
                        assert(task_ok(old(self).pending()[k], n));
                        assert(old(self).stack@[k] == self.stack@[k]);
                    }
                }
            }
        } else {
            proof {
                if old(self).stack@.len() == 0 {
                    assert(self.parents@.len() == 0);
                }
            }
        }
    }
    /// How one `step` relates the state before it (`self`) to the state after it
    /// (`next`) and to its result `r`.
    pub open spec fn step_spec(&self, next: &Self, r: Option<(Vec<i32>, usize, usize, usize)>) -> bool {
        &&& self.sort_inv() ==> next.sort_inv()
        &&& self.pending().len() > 0 ==> stack_cost(next.pending()) == stack_cost(self.pending()) - 1
        &&& next.array_view().to_multiset() == self.array_view().to_multiset()
        &&& next.array_view().len() == self.array_view().len()
        &&& self.pending().len() == 0 ==> {
            &&& r is None
            &&& next.array_view() == self.array_view()
            &&& next.pending() == self.pending()
        }
        &&& self.pending().len() > 0 ==> {
            let rest = self.pending().drop_last();
            &&& r is Some
            &&& r.unwrap().0@ == next.array_view()
            &&& match self.pending().last() {
                MergeTask::Split { low, high } => {
                    let mid = midpoint(low as int, high as int) as usize;
                    &&& next.array_view() == self.array_view()
                    &&& low < high ==> {
                        &&& next.pending() == rest.push(
                            MergeTask::Merge { low, mid, high },
                        ).push(MergeTask::Split { low: (mid + 1) as usize, high }).push(
                            MergeTask::Split { low, high: mid },
                        )
                        &&& r.unwrap().1 == low && r.unwrap().2 == mid && r.unwrap().3 == high
                    }
                    &&& low >= high ==> {
                        &&& next.pending() == rest
                        &&& r.unwrap().1 == low && r.unwrap().2 == low && r.unwrap().3 == high
                    }
                },
                MergeTask::Merge { low, mid, high } => {
                    let a = self.array_view();
                    &&& next.pending() == rest
                    &&& permuted_within(a, next.array_view(), low as int, high as int)
                    &&& next.array_view().subrange(low as int, high + 1) == merged(
                        a.subrange(low as int, mid + 1),
                        a.subrange(mid + 1, high + 1),
                    )
                    &&& sorted_between(a, low as int, mid as int) && sorted_between(
                        a,
                        mid + 1,
                        high as int,
                    ) ==> sorted_between(next.array_view(), low as int, high as int)
                    &&& r.unwrap().1 == low && r.unwrap().2 == mid && r.unwrap().3 == high
                },
            }
        }
    }

    /// Performs the task on top of the stack and reports `(array, low, mid, high)`
    /// for it; returns `None` when nothing is pending.
    pub fn step(&mut self) -> (r: Option<(Vec<i32>, usize, usize, usize)>)
        requires
            old(self).wf(),
        ensures
            final(self).wf(),
            old(self).step_spec(final(self), r),
    {
        let ghost n = self.array@.len() as int;
        let ghost st0 = self.stack@;
        let ghost par0 = self.parents@;
        let ghost a0 = self.array@;
        proof {
            if st0.len() > 0 {
                assert forall|k: int| 0 <= k < st0.len() implies task_ok(#[trigger] st0[k], n) by {
                    assert(task_ok(old(self).pending()[k], n));
                }
            }
        }
        match self.stack.pop() {
            None => None,
            Some(task) => {
                proof {
                    assert(self.stack@ =~= st0.drop_last());
                    assert(task == st0.last());
                    assert(stack_cost(st0) == stack_cost(st0.drop_last()) + task_cost(task));
                    assert(task_ok(old(self).pending()[old(self).pending().len() - 1], n));
                    assert forall|k: int| 0 <= k < self.stack@.len() implies task_ok(
                        #[trigger] self.stack@[k],
                        n,
                    ) by {
                        assert(task_ok(old(self).pending()[k], n));
                    }
                }
                match task {
                    MergeTask::Split { low, high } => {
                        if low < high {
                            let mid = low + (high - low) / 2;
                            self.stack.push(MergeTask::Merge { low, mid, high });
                            self.stack.push(MergeTask::Split { low: mid + 1, high });
                            self.stack.push(MergeTask::Split { low, high: mid });
                            let ghost m = st0.len() - 1;
                            proof {
                                let s0 = st0.drop_last();
                                let s1 = s0.push(MergeTask::Merge { low, mid, high });
                                let s2 = s1.push(MergeTask::Split { low: (mid + 1) as usize, high });
                                lemma_stack_cost_push(s0, MergeTask::Merge { low, mid, high });
                                lemma_stack_cost_push(s1, MergeTask::Split { low: (mid + 1) as usize, high });
                                lemma_stack_cost_push(s2, MergeTask::Split { low, high: mid });
                                assert(self.stack@ =~= s2.push(MergeTask::Split { low, high: mid }));
                            }
                            self.parents = Ghost(par0.drop_last().push(par0[m]).push(m).push(m));
                            proof {
                                if old(self).sort_inv() {
                                    assert(st0.last() == (MergeTask::Split { low, high }));
                                    lemma_split_keeps_inv(a0, st0, par0, low, mid, high);
                                    assert(self.stack@ =~= st0.drop_last().push(MergeTask::Merge { low, mid, high }).push(
                                        MergeTask::Split { low: (mid + 1) as usize, high },
                                    ).push(MergeTask::Split { low, high: mid }));
                                }
                                let st = self.stack@;
                                let m = old(self).stack@.len() - 1;
                                assert forall|k: int| 0 <= k < st.len() implies task_ok(
                                    #[trigger] st[k],
                                    n,
                                ) by {
                                    if k < m {
                                        assert(task_ok(old(self).pending()[k], n));
                                        assert(old(self).stack@[k] == st[k]);
                                    }
                                }
                            }
                            Some((self.array.clone(), low, mid, high))
                        } else {
                            self.parents = Ghost(par0.drop_last());
                            proof {
                                if old(self).sort_inv() {
                                    lemma_pop_keeps_inv(a0, a0, st0, par0);
                                    assert(self.stack@ == st0.drop_last());
                                    assert(self.parents@ == par0.drop_last());
                                    assert(self.array@ == a0);
                                }
                            }
                            Some((self.array.clone(), low, low, high))
                        }
                    },
                    MergeTask::Merge { low, mid, high } => {
                        proof {
                            if old(self).sort_inv() {
                                let m = st0.len() - 1;
                                assert(st0[m] is Merge);
                                assert(settled(a0, st0, m, left_of(st0[m])));
                                assert(settled(a0, st0, m, right_of(st0[m])));
                                assert forall|x: int| #[trigger] open_at(st0, m, x) by {}
                                assert(sorted_between(a0, low as int, mid as int));
                                assert(sorted_between(a0, mid + 1, high as int));
                            }
                        }
                        self.parents = Ghost(par0.drop_last());
                        self.merge(low, mid, high);
                        proof {
                            lemma_permuted_within_multiset(a0, self.array@, low as int, high as int);
                            if old(self).sort_inv() {
                                lemma_pop_keeps_inv(a0, self.array@, st0, par0);
                                assert(self.stack@ == st0.drop_last());
                                assert(self.parents@ == par0.drop_last());
                            }
                        }
                        Some((self.array.clone(), low, mid, high))
                    },
                }
            },
        }
    }

    /// Stable merge of the sorted runs `[low, mid]` and `[mid + 1, high]` through the
    /// side buffer.
    fn merge(&mut self, low: usize, mid: usize, high: usize)
        requires
            old(self).wf(),
            low <= mid < high < old(self).array_view().len(),
        ensures
            final(self).wf(),
            final(self).array_view().subrange(low as int, high + 1) == merged(
                old(self).array_view().subrange(low as int, mid + 1),
                old(self).array_view().subrange(mid + 1, high + 1),
            ),
            final(self).parent_links() == old(self).parent_links(),
            final(self).pending() == old(self).pending(),
            permuted_within(old(self).array_view(), final(self).array_view(), low as int, high as int),
            sorted_between(old(self).array_view(), low as int, mid as int) && sorted_between(
                old(self).array_view(),
                mid + 1,
                high as int,
            ) ==> sorted_between(final(self).array_view(), low as int, high as int),
    {
        broadcast use vstd::seq_lib::lemma_multiset_commutative;
        let ghost a0 = self.array@;
        let ghost hs = sorted_between(a0, low as int, mid as int) && sorted_between(a0, mid + 1, high as int);
        let len = self.array.len();
        let mut c: usize = low;
        while c <= high
            invariant
                low <= c <= high + 1,
                a0.len() == len,
                high < a0.len(),
                self.array@ == a0,
                self.temp_array@.len() == a0.len(),
                forall|t: int| low <= t < c ==> self.temp_array@[t] == a0[t],
                self.stack@ == old(self).stack@,
                self.parents == old(self).parents,
            decreases high + 1 - c,
        {
            let v = self.array[c];
            self.temp_array.set(c, v);
            c = c + 1;
        }
        let ghost tmp = self.temp_array@;
        assert(tmp.subrange(low as int, high + 1) =~= a0.subrange(low as int, high + 1));
        let mut i: usize = low;
        let mut j: usize = mid + 1;
        let mut k: usize = low;
        while k <= high
            invariant
                low <= i <= mid + 1,
                mid + 1 <= j <= high + 1,
                k == i + j - mid - 1,
                mid < high < a0.len(),
                a0.len() == len,
                tmp.len() == a0.len(),
                hs == (sorted_between(a0, low as int, mid as int) && sorted_between(a0, mid + 1, high as int)),
                self.temp_array@ == tmp,
                self.array@.len() == a0.len(),
                forall|t: int| low <= t <= high ==> tmp[t] == a0[t],
                forall|t: int| 0 <= t < a0.len() && (t < low || t > high) ==> self.array@[t] == a0[t],
                self.array@.subrange(low as int, k as int).to_multiset() == tmp.subrange(
                    low as int,
                    i as int,
                ).to_multiset().add(tmp.subrange(mid + 1, j as int).to_multiset()),
                hs ==> sorted_between(self.array@, low as int, k - 1),
                hs && k > low && i <= mid ==> self.array@[k - 1] <= tmp[i as int],
                hs && k > low && j <= high ==> self.array@[k - 1] <= tmp[j as int],
                self.array@.subrange(low as int, k as int) + merged(tmp.subrange(i as int, mid + 1), tmp.subrange(j as int, high + 1))
                    == merged(tmp.subrange(low as int, mid + 1), tmp.subrange(mid + 1, high + 1)),
                self.stack@ == old(self).stack@,
                self.parents == old(self).parents,
            decreases high + 1 - k,
        {
            let ghost before = self.array@;
            let ghost xs = tmp.subrange(i as int, mid + 1);
            let ghost ys = tmp.subrange(j as int, high + 1);
            let take_left = i <= mid && (j > high || self.temp_array[i] <= self.temp_array[j]);
            if take_left {
                let v = self.temp_array[i];
                self.array.set(k, v);
                proof {
                    assert(tmp.subrange(low as int, i + 1) =~= tmp.subrange(low as int, i as int).push(v));
                    if hs && i < mid {
                        assert(a0[i as int] <= a0[i + 1]);
                    }
                    lemma_merged_take_left(xs, ys);
                    assert(xs.drop_first() =~= tmp.subrange(i + 1, mid + 1));
                }
                i = i + 1;
            } else {
                let v = self.temp_array[j];
                self.array.set(k, v);
                proof {
                    assert(tmp.subrange(mid + 1, j + 1) =~= tmp.subrange(mid + 1, j as int).push(v));
                    if hs && j < high {
                        assert(a0[j as int] <= a0[j + 1]);
                    }
                    lemma_merged_take_right(xs, ys);
                    assert(ys.drop_first() =~= tmp.subrange(j + 1, high + 1));
                }
                j = j + 1;
            }
            proof {
                assert(self.array@.subrange(low as int, k + 1) =~= before.subrange(low as int, k as int).push(
                    self.array@[k as int],
                ));
                lemma_merge_advance(
                    before,
                    self.array@,
                    low as int,
                    k as int,
                    merged(xs, ys),
                    merged(tmp.subrange(i as int, mid + 1), tmp.subrange(j as int, high + 1)),
                    self.array@[k as int],
                    merged(tmp.subrange(low as int, mid + 1), tmp.subrange(mid + 1, high + 1)),
                );
            }
            k = k + 1;
        }
        proof {
            assert(tmp.subrange(low as int, high + 1) =~= tmp.subrange(low as int, mid + 1) + tmp.subrange(
                mid + 1,
                high + 1,
            ));
            assert(self.stack@ == old(self).stack@);
            assert(self.temp_array@.len() == self.array@.len());
            lemma_merged_empty();
            assert(tmp.subrange(mid + 1, mid + 1) =~= Seq::<i32>::empty());
            assert(tmp.subrange(high + 1, high + 1) =~= Seq::<i32>::empty());
            assert(self.array@.subrange(low as int, high + 1) + Seq::<i32>::empty() =~= self.array@.subrange(low as int, high + 1));
            assert(tmp.subrange(low as int, mid + 1) =~= a0.subrange(low as int, mid + 1));
            assert(tmp.subrange(mid + 1, high + 1) =~= a0.subrange(mid + 1, high + 1));
            assert forall|t: int| 0 <= t < self.pending().len() implies task_ok(
                #[trigger] self.pending()[t],
                self.array_view().len() as int,
            ) by {
                assert(task_ok(old(self).pending()[t], a0.len() as int));
            }
        }
    }

    /// The remaining step count is positive exactly while tasks are pending.
    pub proof fn lemma_cost_counts_pending(&self)
        requires
            self.wf(),
        ensures
            stack_cost(self.pending()) >= self.pending().len(),
            self.pending().len() == 0 ==> stack_cost(self.pending()) == 0,
    {
        lemma_stack_cost_positive(self.pending(), self.array_view().len() as int);
    }

    /// Once nothing is pending, the ordering invariant means the array is sorted.
    pub proof fn lemma_complete_sorted(&self)
        requires
            self.sort_inv(),
            self.pending().len() == 0,
        ensures
            sorted(self.array_view()),
    {
        let a = self.array_view();
        assert forall|x: int, y: int| 0 <= x <= y < a.len() implies a[x] <= a[y] by {
            if x < y {
                assert(open_at(self.pending(), -1, x) && open_at(self.pending(), -1, y));
            }
        }
    }

    pub fn is_complete(&self) -> (r: bool)
        ensures
            r == (self.pending().len() == 0),
    {
        self.stack.len() == 0
    }
}

/// `run[i + 1]` and `results[i]` are what the `i`-th of a series of `step` calls left
/// and returned, starting from `run[0]`.
pub open spec fn merge_run(run: Seq<MergeSort>, results: Seq<Option<(Vec<i32>, usize, usize, usize)>>) -> bool {
    &&& run.len() == results.len() + 1
    &&& forall|i: int| 0 <= i < run.len() ==> #[trigger] run[i].wf()
    &&& forall|i: int| 0 <= i < results.len() ==> #[trigger] run[i].step_spec(&run[i + 1], results[i])
}

proof fn lemma_merge_run_prefix(run: Seq<MergeSort>, results: Seq<Option<(Vec<i32>, usize, usize, usize)>>, k: int)
    requires
        merge_run(run, results),
        run[0].sort_inv(),
        forall|i: int| 0 <= i < results.len() ==> (#[trigger] run[i].pending()).len() > 0,
        0 <= k < run.len(),
    ensures
        run[k].array_view().to_multiset() == run[0].array_view().to_multiset(),
        run[k].array_view().len() == run[0].array_view().len(),
        run[k].sort_inv(),
        stack_cost(run[k].pending()) == stack_cost(run[0].pending()) - k,
    decreases k,
{
    if k > 0 {
        lemma_merge_run_prefix(run, results, k - 1);
        let j = k - 1;
        assert(run[j].step_spec(&run[j + 1], results[j]));
        assert(run[j].pending().len() > 0);
    }
}

/// Driving a merge sort with `n >= 1` elements from a fresh `start_sort`, calling
/// `step` while it is not complete, keeps the same values, leaves them sorted once
/// complete, and makes at most `3 * n - 2` calls, exactly that many when it completes.
pub proof fn lemma_merge_run(run: Seq<MergeSort>, results: Seq<Option<(Vec<i32>, usize, usize, usize)>>)
    requires
        merge_run(run, results),
        run[0].sort_inv(),
        1 <= run[0].array_view().len() <= usize::MAX,
        run[0].pending() == seq![MergeTask::Split { low: 0, high: (run[0].array_view().len() - 1) as usize }],
        forall|i: int| 0 <= i < results.len() ==> (#[trigger] run[i].pending()).len() > 0,
    ensures
        run.last().array_view().to_multiset() == run[0].array_view().to_multiset(),
        run.last().array_view().len() == run[0].array_view().len(),
        run.last().pending().len() == 0 ==> sorted(run.last().array_view()),
        results.len() <= 3 * run[0].array_view().len() - 2,
        run.last().pending().len() == 0 ==> results.len() == 3 * run[0].array_view().len() - 2,
{
    let m = run.len() - 1;
    let n = run[0].array_view().len();
    lemma_merge_run_prefix(run, results, m);
    assert(run[m].wf());
    run[m].lemma_cost_counts_pending();
    lemma_merge_step_count(n as usize);
    if run.last().pending().len() == 0 {
        run[m].lemma_complete_sorted();
    }
}

} // verus!
