//! Sizes counted in machine words.
use vstd::arithmetic::power2::lemma2_to64;
use vstd::bits::{lemma_usize_shl_is_mul, lemma_usize_shr_is_div};
use vstd::prelude::*;

verus! {

/// log2 of the number of bytes in a word.
pub const SHIFT: usize = 3;

/// Number of bytes in a word.
pub const WORD_SIZE: usize = 8;

/// A count of machine words.
#[derive(Debug, Clone, Copy, PartialEq, Eq, Structural)]
pub struct Wsize(pub usize);

impl Wsize {
    pub fn get_val_mut(&mut self) -> (r: &mut usize)
        ensures
            *r == old(self).0,
            final(self).0 == *final(r),
    {
        &mut self.0
    }

    pub fn get_val(&self) -> (r: &usize)
        ensures
            *r == self.0,
    {
        &self.0
    }

    pub fn new(val: usize) -> (r: Self)
        ensures
            r.0 == val,
    {
        Wsize(val)
    }

    /// The number of whole words in `bytes` bytes.
    pub fn from_bytesize(bytes: usize) -> (r: Self)
        ensures
            r.0 == bytes / 8,
    {
        proof {
            lemma_usize_shr_is_div(bytes, 3);
            lemma2_to64();
        }
        Wsize(bytes >> SHIFT)
    }

    /// The number of bytes in this many words.
    pub fn to_bytesize(self) -> (r: usize)
        requires
            self.0 * 8 <= usize::MAX,
        ensures
            r == self.0 * 8,
    {
        proof {
            lemma2_to64();
            lemma_usize_shl_is_mul(self.0, 3);
        }
        self.0 << SHIFT
    }
}

} // verus!
