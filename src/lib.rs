//! Shortest word ladders between fixed-length words.
pub mod word;
pub mod graph;
pub mod walk;
pub mod search;
