//! The algorithms: searches and sorts.

pub mod binary_search;
pub mod breadth_first_search;
pub mod depth_first_search;
pub mod dijkstra_search;
pub mod insertion_sort;
pub mod merge_sort;
pub mod quick_sort;
pub mod selection_sort;
pub mod slices;

pub use binary_search::binary_search;
pub use binary_search::binary_search_for_tree;
pub use breadth_first_search::breadth_first_search;
pub use depth_first_search::depth_first_search;
pub use dijkstra_search::dijkstra_search;
pub use insertion_sort::insertion_sort;
pub use merge_sort::merge_sort;
pub use quick_sort::quick_sort;
pub use selection_sort::selection_sort;
pub use selection_sort::selection_sort_by_key;

use vstd::prelude::*;

verus! {

/// The direction of a sort.
#[derive(Clone, Copy, Debug)]
pub enum Order {
    Desc,
    Asc,
}

} // verus!
