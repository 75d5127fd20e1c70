//! Directed graphs and the average length of their shortest paths.
//!
//! - [`graph`]: the adjacency-list container and its mathematical model, a
//!   map from each node with outgoing edges to the sequence of its successors.
//! - [`paths`]: hop counts along edges, and the breadth-first search that
//!   finds the distance from one node to every node it reaches.
//! - [`stats`]: the sum and the number of the distances over all ordered
//!   pairs of distinct nodes, from which the average follows.
//! - [`sums`]: sums of weights over finite sets, which the totals are stated in.
//! - [`edgelist`]: the text format that graphs are read from.
//! - [`random`]: graphs made of randomly drawn edges.
//!
//! Every executable function states what it returns over these models, and
//! the statements are proved. The calls into the `rand` crate are the only
//! part that is believed instead: see [`random`].

pub mod edgelist;
pub mod graph;
pub mod paths;
pub mod random;
pub mod stats;
pub mod sums;
