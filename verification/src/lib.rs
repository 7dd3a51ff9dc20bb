//! Shortest word-ladder search over a dictionary of equal-length words.
//!
//! A word ladder connects a start word to an end word through dictionary
//! words, each differing from the previous one in exactly one character
//! position.  The crate builds the word-adjacency graph, runs a
//! level-synchronized breadth-first search that assigns every reachable word
//! its distance from the start, and reconstructs one shortest ladder from the
//! level assignments.  Every function is specified against a mathematical
//! model of Hamming-distance-1 adjacency and breadth-first frontiers, and the
//! returned ladder is proved to be exactly one step longer than the true
//! shortest-path distance.

pub mod adjacency;
pub mod bfs;
pub mod graph;
pub mod ladder;
pub mod neighborhood;
pub mod search;
