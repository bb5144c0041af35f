//! The one-word block header: `(wosize << 10) | (color << 8) | tag`.
use vstd::arithmetic::power2::lemma2_to64;
use vstd::bits::{lemma_usize_shl_is_mul, lemma_usize_shr_is_div};
use vstd::prelude::*;

use crate::colors::{is_color, Color};
use crate::word::Wsize;

verus! {

/// Largest wosize a header can hold.
pub const MAX_HEADER_WOSIZE: usize = usize::MAX >> 10;

/// Largest wosize a header can hold, as a number.
pub open spec fn max_wosize() -> int {
    usize::MAX as int / 1024
}

/// The wosize field of a header word.
pub open spec fn hd_wosize(w: usize) -> usize {
    w >> 10usize
}

/// The color field of a header word, in place.
pub open spec fn hd_color(w: usize) -> usize {
    w & 0x300usize
}

/// The tag field of a header word.
pub open spec fn hd_tag(w: usize) -> usize {
    w & 0xffusize
}

/// The word that encodes the three fields.
pub open spec fn encode(size: int, color: int, tag: int) -> int {
    size * 1024 + color + tag
}

pub proof fn lemma_max_header_wosize()
    ensures
        MAX_HEADER_WOSIZE == max_wosize(),
        max_wosize() * 1024 + 1023 == usize::MAX,
{
    lemma_usize_shr_is_div(usize::MAX, 10);
    lemma2_to64();
    assert(usize::MAX == 0xffff_ffff || usize::MAX == 0xffff_ffff_ffff_ffff);
}

/// The wosize of any header word is the word divided by 1024.
pub proof fn lemma_hd_wosize(w: usize)
    ensures
        hd_wosize(w) == w as int / 1024,
{
    lemma_usize_shr_is_div(w, 10);
    lemma2_to64();
}

pub proof fn lemma_encode(size: int, color: usize, tag: usize)
    requires
        0 <= size <= max_wosize(),
        is_color(color),
        tag < 256,
    ensures
        encode(size, color as int, tag as int) <= usize::MAX,
        hd_wosize(encode(size, color as int, tag as int) as usize) == size,
        hd_color(encode(size, color as int, tag as int) as usize) == color,
        hd_tag(encode(size, color as int, tag as int) as usize) == tag,
{
    lemma_max_header_wosize();
    let w: usize = encode(size, color as int, tag as int) as usize;
    lemma_hd_wosize(w);
    let low: usize = (color + tag) as usize;
    assert(w as int % 1024 == low);
    assert((w & 0x3ffusize) == w % 1024usize) by (bit_vector);
    assert((w & 0x300usize) == ((w & 0x3ffusize) & 0x300usize)) by (bit_vector);
    assert((w & 0xffusize) == ((w & 0x3ffusize) & 0xffusize)) by (bit_vector);
    assert((color == 0usize || color == 256usize || color == 512usize || color == 768usize) && tag
        < 256usize && low == color + tag ==> (low & 0x300usize) == color && (low & 0xffusize)
        == tag) by (bit_vector);
}

/// A block header.
#[derive(Debug, Clone, Copy, PartialEq, Eq, Structural)]
pub struct Header(pub usize);

impl Header {
    pub fn new(size: usize, color: Color, tag: u8) -> (r: Header)
        requires
            size <= MAX_HEADER_WOSIZE,
            is_color(color),
        ensures
            r.0 == encode(size as int, color as int, tag as int),
            hd_wosize(r.0) == size,
            hd_color(r.0) == color,
            hd_tag(r.0) == tag,
    {
        proof {
            lemma_max_header_wosize();
            lemma_encode(size as int, color, tag as usize);
            lemma2_to64();
            lemma_usize_shl_is_mul(size, 10);
        }
        Header((size << 10) + color + (tag as usize))
    }

    pub fn get_tag(&self) -> (r: u8)
        ensures
            r == hd_tag(self.0),
    {
        let w = self.0;
        assert((w & 0xffusize) < 256usize) by (bit_vector);
        (w & 0xff) as u8
    }

    pub fn get_color(&self) -> (r: Color)
        ensures
            r == hd_color(self.0),
            is_color(r),
    {
        let w = self.0;
        assert((w & 0x300usize) == 0usize || (w & 0x300usize) == 256usize || (w & 0x300usize)
            == 512usize || (w & 0x300usize) == 768usize) by (bit_vector);
        w & 0x300
    }

    /// The wosize field, as a plain number.
    pub fn get_size(&self) -> (r: usize)
        ensures
            r == hd_wosize(self.0),
    {
        self.0 >> 10
    }

    pub fn get_wosize(&self) -> (r: Wsize)
        ensures
            r.0 == hd_wosize(self.0),
            r.0 <= MAX_HEADER_WOSIZE,
    {
        proof {
            lemma_max_header_wosize();
            lemma_hd_wosize(self.0);
        }
        Wsize(self.0 >> 10)
    }
}

} // verus!
