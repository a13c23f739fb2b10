use vstd::prelude::*;

use crate::bfs::BFS;
use crate::binary_search::BinarySearch;
use crate::bubble_sort::BubbleSort;
use crate::dfs::DFS;
use crate::linear_search::LinearSearch;
use crate::merge_sort::MergeSort;
use crate::quick_sort::QuickSort;

verus! {

/// Which array engine a runner operation touches.
pub enum Engine {
    Bubble,
    Quick,
    Merge,
    Binary,
    Linear,
}

/// Holds one shared array and an engine of each array algorithm configured with it.
pub struct AlgorithmRunner {
    bubble_sort: BubbleSort,
    quick_sort: QuickSort,
    merge_sort: MergeSort,
    binary_search: BinarySearch,
    linear_search: LinearSearch,
    current_array: Vec<i32>,
    is_running: bool,
}

impl AlgorithmRunner {
    pub closed spec fn bubble(&self) -> BubbleSort {
        self.bubble_sort
    }

    pub closed spec fn quick(&self) -> QuickSort {
        self.quick_sort
    }

    pub closed spec fn merge(&self) -> MergeSort {
        self.merge_sort
    }

    pub closed spec fn binary(&self) -> BinarySearch {
        self.binary_search
    }

    pub closed spec fn linear(&self) -> LinearSearch {
        self.linear_search
    }

    pub closed spec fn array_view(&self) -> Seq<i32> {
        self.current_array@
    }

    pub closed spec fn running(&self) -> bool {
        self.is_running
    }

    pub open spec fn wf(&self) -> bool {
        &&& self.array_view().len() <= i32::MAX
        &&& self.bubble().wf()
        &&& self.quick().wf()
        &&& self.merge().wf()
        &&& self.binary().wf()
        &&& self.linear().wf()
    }

    /// `next` equals `self` but for the engine `e`.
    pub open spec fn others_same(&self, next: &Self, e: Engine) -> bool {
        &&& next.array_view() == self.array_view()
        &&& next.running() == self.running()
        &&& !(e is Bubble) ==> next.bubble() == self.bubble()
        &&& !(e is Quick) ==> next.quick() == self.quick()
        &&& !(e is Merge) ==> next.merge() == self.merge()
        &&& !(e is Binary) ==> next.binary() == self.binary()
        &&& !(e is Linear) ==> next.linear() == self.linear()
    }

    pub fn new() -> (r: AlgorithmRunner)
        ensures
            r.wf(),
            r.array_view() == Seq::<i32>::empty(),
            !r.running(),
    {
        AlgorithmRunner {
            bubble_sort: BubbleSort::new(),
            quick_sort: QuickSort::new(),
            merge_sort: MergeSort::new(),
            binary_search: BinarySearch::new(),
            linear_search: LinearSearch::new(),
            current_array: Vec::new(),
            is_running: false,
        }
    }

    pub fn get_array(&self) -> (r: Vec<i32>)
        ensures
            r@ == self.array_view(),
    {
        self.current_array.clone()
    }

    /// Makes `array` the shared array and hands a copy to every engine.
    pub fn set_array(&mut self, array: Vec<i32>)
        requires
            array@.len() <= i32::MAX,
        ensures
            final(self).wf(),
            final(self).array_view() == array@,
            final(self).running() == old(self).running(),
            final(self).bubble().array_view() == array@,
            final(self).quick().array_view() == array@,
            final(self).merge().array_view() == array@,
            final(self).binary().array_view() == array@,
            final(self).linear().array_view() == array@,
            !final(self).bubble().done() && final(self).bubble().steps_left()
                == crate::bubble_sort::bubble_steps_left(array@.len() as int, 0, 0),
            final(self).quick().pending().len() == 0 && final(self).quick().in_progress() is None,
            final(self).merge().pending().len() == 0,
            !final(self).binary().armed(),
            !final(self).linear().armed(),
    {
        self.current_array = array;
        self.update_all_algorithms();
    }

    pub fn set_running(&mut self, running: bool)
        ensures
            final(self).running() == running,
            final(self).array_view() == old(self).array_view(),
            final(self).bubble() == old(self).bubble(),
            final(self).quick() == old(self).quick(),
            final(self).merge() == old(self).merge(),
            final(self).binary() == old(self).binary(),
            final(self).linear() == old(self).linear(),
    {
        self.is_running = running;
    }

    pub fn is_running(&self) -> (r: bool)
        ensures
            r == self.running(),
    {
        self.is_running
    }

    fn update_all_algorithms(&mut self)
        requires
            old(self).array_view().len() <= i32::MAX,
        ensures
            final(self).wf(),
            final(self).array_view() == old(self).array_view(),
            final(self).running() == old(self).running(),
            final(self).bubble().array_view() == old(self).array_view(),
            final(self).quick().array_view() == old(self).array_view(),
            final(self).merge().array_view() == old(self).array_view(),
            final(self).binary().array_view() == old(self).array_view(),
            final(self).linear().array_view() == old(self).array_view(),
            !final(self).bubble().done() && final(self).bubble().outer() == 0
                && final(self).bubble().inner() == 0,
            final(self).quick().pending().len() == 0 && final(self).quick().in_progress() is None,
            final(self).merge().pending().len() == 0,
            !final(self).binary().armed(),
            !final(self).linear().armed(),
    {
        self.bubble_sort.set_array(self.current_array.clone());
        self.quick_sort.set_array(self.current_array.clone());
        self.merge_sort.set_array(self.current_array.clone());
        self.binary_search.set_array(self.current_array.clone());
        self.linear_search.set_array(self.current_array.clone());
    }

    pub fn bubble_sort_step(&mut self) -> (r: Option<Vec<i32>>)
        requires
            old(self).wf(),
        ensures
            final(self).wf(),
            old(self).others_same(final(self), Engine::Bubble),
            old(self).bubble().step_spec(&final(self).bubble(), r),
    {
        self.bubble_sort.step()
    }

    pub fn bubble_sort_reset(&mut self)
        requires
            old(self).wf(),
        ensures
            final(self).wf(),
            old(self).others_same(final(self), Engine::Bubble),
            final(self).bubble().array_view() == old(self).bubble().array_view(),
            final(self).bubble().outer() == 0 && final(self).bubble().inner() == 0,
            !final(self).bubble().done(),
    {
        self.bubble_sort.reset();
    }

    pub fn quick_sort_start(&mut self)
        requires
            old(self).wf(),
        ensures
            final(self).wf(),
            old(self).others_same(final(self), Engine::Quick),
            final(self).quick().array_view() == old(self).quick().array_view(),
            final(self).quick().in_progress() == old(self).quick().in_progress(),
            final(self).quick().pending() == if old(self).quick().array_view().len() == 0 {
                old(self).quick().pending()
            } else {
                old(self).quick().pending().push(
                    (0i32, (old(self).quick().array_view().len() - 1) as i32),
                )
            },
            old(self).quick().pending().len() == 0 && old(self).quick().in_progress() is None
                ==> final(self).quick().sort_inv(),
    {
        self.quick_sort.start_sort();
    }

    pub fn quick_sort_step(&mut self) -> (r: Option<(Vec<i32>, i32, i32, i32)>)
        requires
            old(self).wf(),
        ensures
            final(self).wf(),
            old(self).others_same(final(self), Engine::Quick),
            old(self).quick().step_spec(&final(self).quick(), r),
    {
        self.quick_sort.step()
    }

    pub fn quick_sort_reset(&mut self)
        requires
            old(self).wf(),
        ensures
            final(self).wf(),
            old(self).others_same(final(self), Engine::Quick),
            final(self).quick().array_view() == old(self).quick().array_view(),
            final(self).quick().pending().len() == 0,
            final(self).quick().in_progress() is None,
    {
        self.quick_sort.reset();
    }

    pub fn merge_sort_start(&mut self)
        requires
            old(self).wf(),
        ensures
            final(self).wf(),
            old(self).others_same(final(self), Engine::Merge),
            final(self).merge().array_view() == old(self).merge().array_view(),
            final(self).merge().pending() == if old(self).merge().array_view().len() == 0 {
                old(self).merge().pending()
            } else {
                old(self).merge().pending().push(
                    crate::merge_sort::MergeTask::Split {
                        low: 0,
                        high: (old(self).merge().array_view().len() - 1) as usize,
                    },
                )
            },
            old(self).merge().pending().len() == 0 ==> final(self).merge().sort_inv(),
    {
        self.merge_sort.start_sort();
    }

    pub fn merge_sort_step(&mut self) -> (r: Option<(Vec<i32>, usize, usize, usize)>)
        requires
            old(self).wf(),
        ensures
            final(self).wf(),
            old(self).others_same(final(self), Engine::Merge),
            old(self).merge().step_spec(&final(self).merge(), r),
    {
        self.merge_sort.step()
    }

    pub fn merge_sort_reset(&mut self)
        requires
            old(self).wf(),
        ensures
            final(self).wf(),
            old(self).others_same(final(self), Engine::Merge),
            final(self).merge().array_view() == old(self).merge().array_view(),
            final(self).merge().pending().len() == 0,
    {
        self.merge_sort.reset();
    }

    pub fn binary_search_start(&mut self, target: i32)
        requires
            old(self).wf(),
        ensures
            final(self).wf(),
            old(self).others_same(final(self), Engine::Binary),
            final(self).binary().array_view() == old(self).binary().array_view(),
            final(self).binary().target_value() == target,
            final(self).binary().armed(),
            final(self).binary().lo() == 0,
            final(self).binary().hi() == if old(self).binary().array_view().len() == 0 {
                0
            } else {
                old(self).binary().array_view().len() - 1
            },
    {
        self.binary_search.start_search(target);
    }

    pub fn binary_search_step(&mut self) -> (r: Option<(Vec<i32>, usize, usize, usize)>)
        requires
            old(self).wf(),
        ensures
            final(self).wf(),
            old(self).others_same(final(self), Engine::Binary),
            old(self).binary().step_spec(&final(self).binary(), r),
    {
        self.binary_search.step()
    }

    pub fn binary_search_reset(&mut self)
        requires
            old(self).wf(),
        ensures
            final(self).wf(),
            old(self).others_same(final(self), Engine::Binary),
            final(self).binary().array_view() == old(self).binary().array_view(),
            final(self).binary().target_value() == old(self).binary().target_value(),
            final(self).binary().lo() == 0 && final(self).binary().hi() == 0,
            !final(self).binary().armed(),
    {
        self.binary_search.reset();
    }

    pub fn linear_search_start(&mut self, target: i32)
        requires
            old(self).wf(),
        ensures
            final(self).wf(),
            old(self).others_same(final(self), Engine::Linear),
            final(self).linear().array_view() == old(self).linear().array_view(),
            final(self).linear().target_value() == target,
            final(self).linear().position() == 0,
            final(self).linear().armed(),
    {
        self.linear_search.start_search(target);
    }

    pub fn linear_search_step(&mut self) -> (r: Option<(Vec<i32>, usize)>)
        requires
            old(self).wf(),
        ensures
            final(self).wf(),
            old(self).others_same(final(self), Engine::Linear),
            old(self).linear().step_spec(&final(self).linear(), r),
    {
        self.linear_search.step()
    }

    pub fn linear_search_reset(&mut self)
        requires
            old(self).wf(),
        ensures
            final(self).wf(),
            old(self).others_same(final(self), Engine::Linear),
            final(self).linear().array_view() == old(self).linear().array_view(),
            final(self).linear().target_value() == old(self).linear().target_value(),
            final(self).linear().position() == 0,
            !final(self).linear().armed(),
    {
        self.linear_search.reset();
    }
}

/// Holds a breadth-first and a depth-first engine over the same graph.
pub struct GraphSearcher {
    bfs: BFS,
    dfs: DFS,
}

impl GraphSearcher {
    pub closed spec fn bfs_view(&self) -> BFS {
        self.bfs
    }

    pub closed spec fn dfs_view(&self) -> DFS {
        self.dfs
    }

    pub open spec fn wf(&self) -> bool {
        &&& self.bfs_view().wf()
        &&& self.dfs_view().wf()
        &&& forall|n: Seq<char>| #[trigger] self.bfs_view().graph_view().neighbors(n)
            == self.dfs_view().graph_view().neighbors(n)
    }

    pub fn new() -> (r: GraphSearcher)
        ensures
            r.wf(),
            forall|n: Seq<char>| r.bfs_view().graph_view().neighbors(n) == Seq::<Seq<char>>::empty(),
            !r.bfs_view().armed(),
            !r.dfs_view().armed(),
    {
        GraphSearcher { bfs: BFS::new(), dfs: DFS::new() }
    }

    /// Adds the edge `from -> to` to the graph of both engines.
    pub fn add_edge(&mut self, from: String, to: String)
        requires
            old(self).wf(),
        ensures
            final(self).wf(),
            forall|n: Seq<char>| #[trigger]
                final(self).bfs_view().graph_view().neighbors(n) == if n == from@ {
                    old(self).bfs_view().graph_view().neighbors(n).push(to@)
                } else {
                    old(self).bfs_view().graph_view().neighbors(n)
                },
            final(self).bfs_view().armed() == old(self).bfs_view().armed(),
            final(self).dfs_view().armed() == old(self).dfs_view().armed(),
    {
        self.bfs.add_edge(from.clone(), to.clone());
        self.dfs.add_edge(from, to);
    }

    pub fn bfs_start(&mut self, start: String)
        requires
            old(self).wf(),
        ensures
            final(self).wf(),
            final(self).dfs_view() == old(self).dfs_view(),
            final(self).bfs_view().graph_view() == old(self).bfs_view().graph_view(),
            final(self).bfs_view().visited_set() == Set::<Seq<char>>::empty().insert(start@),
            final(self).bfs_view().frontier() == seq![start@],
            final(self).bfs_view().current() is None,
            final(self).bfs_view().armed(),
            final(self).bfs_view().start_node() == start@,
            final(self).bfs_view().reach_inv(),
            final(self).bfs_view().closure_inv(),
            final(self).bfs_view().expanded_set() == Set::<Seq<char>>::empty(),
    {
        self.bfs.start_search(start);
    }

    pub fn bfs_step(&mut self, target: String) -> (r: Option<(String, bool)>)
        requires
            old(self).wf(),
        ensures
            final(self).wf(),
            final(self).dfs_view() == old(self).dfs_view(),
            old(self).bfs_view().step_spec(&final(self).bfs_view(), r, target@),
    {
        self.bfs.step(target)
    }

    pub fn dfs_start(&mut self, start: String)
        requires
            old(self).wf(),
        ensures
            final(self).wf(),
            final(self).bfs_view() == old(self).bfs_view(),
            final(self).dfs_view().graph_view() == old(self).dfs_view().graph_view(),
            final(self).dfs_view().visited_set() == Set::<Seq<char>>::empty(),
            final(self).dfs_view().frontier() == seq![start@],
            final(self).dfs_view().current() is None,
            final(self).dfs_view().armed(),
            final(self).dfs_view().start_node() == start@,
            final(self).dfs_view().reach_inv(),
            final(self).dfs_view().closure_inv(),
    {
        self.dfs.start_search(start);
    }

    pub fn dfs_step(&mut self, target: String) -> (r: Option<(String, bool)>)
        requires
            old(self).wf(),
        ensures
            final(self).wf(),
            final(self).bfs_view() == old(self).bfs_view(),
            old(self).dfs_view().step_spec(&final(self).dfs_view(), r, target@),
    {
        self.dfs.step(target)
    }

    /// Clears the traversal state of both engines; the graph is kept.
    pub fn reset(&mut self)
        requires
            old(self).wf(),
        ensures
            final(self).wf(),
            final(self).bfs_view().graph_view() == old(self).bfs_view().graph_view(),
            final(self).dfs_view().graph_view() == old(self).dfs_view().graph_view(),
            !final(self).bfs_view().armed(),
            !final(self).dfs_view().armed(),
            final(self).bfs_view().frontier().len() == 0,
            final(self).dfs_view().frontier().len() == 0,
    {
        self.bfs.reset();
        self.dfs.reset();
    }
}

} // verus!
