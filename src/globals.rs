//! The allocator's global registers and the free list's sentinel.
use vstd::prelude::*;

use crate::colors::CAML_BLUE;
use crate::header::{encode, Header};
use crate::value::Value;
use crate::word::Wsize;

verus! {

/// Word index of the sentinel's link word: the list's head.
pub const HEAD: usize = 2;

/// Number of heap words that the sentinel occupies, at the start of the heap.
pub const SENTINEL_WORDS: usize = 4;

/// The anchor of the free list: a zero-size blue header followed by the head link,
/// padded on both sides. Its link word is the head's `next` field.
#[derive(Debug, Clone, Copy)]
pub struct SentinelType {
    pub filler1: Value,
    pub h: Header,
    pub first_field: Value,
    pub filler2: Value,
}

impl SentinelType {
    /// A sentinel whose list is empty.
    pub fn new() -> (r: SentinelType)
        ensures
            r.filler1.0 == 0,
            r.h.0 == encode(0, CAML_BLUE as int, 0),
            r.first_field.0 == 0,
            r.filler2.0 == 0,
    {
        SentinelType {
            filler1: Value(0),
            h: Header::new(0, CAML_BLUE, 0),
            first_field: Value(0),
            filler2: Value(0),
        }
    }
}

/// The allocator's registers: free words, and the head, cursor and tail of the list,
/// each as a word index into the heap.
#[derive(Debug, Clone, Copy)]
pub struct NfGlobals {
    pub cur_wsz: Wsize,
    pub nf_head: usize,
    pub nf_prev: usize,
    pub nf_last: usize,
}

} // verus!
