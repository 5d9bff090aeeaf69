//! Classic algorithms and data structures with machine-checked contracts:
//! sorting, searching in slices, trees and graphs, and a search tree that
//! keeps itself in balance by rotation.

pub mod algorithms;
pub mod data_structures;
pub mod order;

pub use algorithms::binary_search;
pub use algorithms::binary_search_for_tree;
pub use algorithms::breadth_first_search;
pub use algorithms::depth_first_search;
pub use algorithms::dijkstra_search;
pub use algorithms::quick_sort;
pub use algorithms::selection_sort;
pub use algorithms::selection_sort_by_key;

pub use data_structures::binary_search_tree;
pub use data_structures::graph;
pub use data_structures::tree;
pub use data_structures::weighted_graph;
pub use data_structures::Queue;
