//! A word-search puzzle builder: candidate words are filtered from a raw
//! newline-delimited resource, placed at random positions and directions on a
//! square grid, and the remaining cells are filled with random letters.
mod rng;
pub mod grid;
pub mod words;
