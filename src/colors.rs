//! The two-bit block colors, already shifted into their header position.
use vstd::prelude::*;

verus! {

/// A color as it stands in a header word (bits 8 and 9).
pub type Color = usize;

pub const CAML_WHITE: Color = 0;

pub const CAML_GRAY: Color = 256;

/// Free blocks.
pub const CAML_BLUE: Color = 512;

/// Allocated blocks.
pub const CAML_BLACK: Color = 768;

/// The tag the allocator writes in every header it stamps.
pub const DEFAULT_TAG: u8 = 0;

/// A value that is one of the four colors.
pub open spec fn is_color(c: usize) -> bool {
    c == CAML_WHITE || c == CAML_GRAY || c == CAML_BLUE || c == CAML_BLACK
}

} // verus!
