//! A growing block DAG with incremental blue-set classification under a
//! bounded-anticone consensus rule.
//!
//! Blocks live in an arena (`Vec<Block>`) and refer to each other by index;
//! a block's parents always have smaller indices than the block itself, so
//! the graph is acyclic by construction.  The `anticone` module computes the
//! set of blocks causally unrelated to a target, and the `calcblue` module
//! maintains the classification of every block as blue (accepted) or red
//! (excluded), demoting blue blocks whose anticone has collected too many
//! blue members.

pub mod anticone;
pub mod block;
pub mod calcblue;
pub mod dag;
