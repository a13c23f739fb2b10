use vstd::prelude::*;

pub mod seq_util;
pub mod bubble_sort;
pub mod quick_sort;
pub mod merge_sort;
pub mod binary_search;
pub mod linear_search;
pub mod graph;
pub mod bfs;
pub mod dfs;
pub mod runner;
pub mod utils;

pub use bubble_sort::BubbleSort;
pub use quick_sort::QuickSort;
pub use merge_sort::{MergeSort, MergeTask};
pub use binary_search::BinarySearch;
pub use linear_search::LinearSearch;
pub use graph::Graph;
pub use bfs::BFS;
pub use dfs::DFS;
pub use runner::{AlgorithmRunner, Engine, GraphSearcher};
pub use utils::values_from_seed;

verus! {

/// Sum of two integers; the sum must fit in an `i32`.
pub fn add(a: i32, b: i32) -> (r: i32)
    requires
        i32::MIN <= a + b <= i32::MAX,
    ensures
        r == a + b,
{
    a + b
}

} // verus!
