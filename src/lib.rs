//! A next-fit free-list heap allocator over a word-addressed heap.
//!
//! Blocks carry a one-word inline header (size, color, tag); free blocks are
//! threaded, in address order, through their first payload word.
use vstd::prelude::*;

pub mod colors;
pub mod free_list;
pub mod globals;
pub mod laws;
pub mod list;
pub mod header;
pub mod pool;
pub mod utils;
pub mod value;
pub mod word;
