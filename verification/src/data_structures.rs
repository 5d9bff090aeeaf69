//! The data structures: a balanced search tree with its model and laws, a
//! queue, a tree, a graph and a weighted graph.

pub mod binary_search_tree;
pub mod graph;
pub mod queue;
pub mod search_tree_climb;
pub mod search_tree_laws;
pub mod search_tree_model;
pub mod tree;
pub mod weighted_graph;

pub use queue::Queue;
