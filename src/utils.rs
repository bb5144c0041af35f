//! Size conversions, pointer arithmetic, and the sizing of heap expansions.
use vstd::arithmetic::div_mod::{
    lemma_add_mod_noop, lemma_mod_bound, lemma_mod_sub_multiples_vanish, lemma_mul_mod_noop_right,
    lemma_small_mod,
};
use vstd::prelude::*;

use crate::header::{lemma_max_header_wosize, MAX_HEADER_WOSIZE};
use crate::value::Value;
use crate::word::{Wsize, WORD_SIZE};

verus! {

/// Number of distinct `usize` values.
pub open spec fn usize_range() -> int {
    usize::MAX as int + 1
}

/// Largest number of words a single heap expansion may be asked for.
pub const MAX_EXPANSION_WOSIZE: usize = MAX_HEADER_WOSIZE;

/// Size and alignment, in bytes, of a region requested from the host.
#[derive(Debug, Clone, Copy, PartialEq, Eq, Structural)]
pub struct Layout {
    pub size: usize,
    pub align: usize,
}

impl Layout {
    pub fn size(&self) -> (r: usize)
        ensures
            r == self.size,
    {
        self.size
    }
}

/// `n` is a power of two.
pub open spec fn is_pow2(n: int) -> bool
    decreases n,
{
    if n <= 0 {
        false
    } else if n == 1 {
        true
    } else {
        n % 2 == 0 && is_pow2(n / 2)
    }
}

/// The smallest power of two that is at least `n`.
pub open spec fn is_next_pow2(n: int, p: int) -> bool {
    is_pow2(p) && n <= p && (p == 1 || p / 2 < n)
}

/// The first of `p`, `2p`, `4p`, ... that is at least `n`.
pub open spec fn pow2_from(n: int, p: int) -> int
    decreases if n > p {
        n - p
    } else {
        0
    },
{
    if p <= 0 || p >= n {
        p
    } else {
        pow2_from(n, 2 * p)
    }
}

/// The smallest power of two that is at least `n`.
pub open spec fn next_pow2(n: int) -> int {
    pow2_from(n, 1)
}

/// Smallest power of two that is at least `n`.
pub fn next_power_of_two(n: usize) -> (r: usize)
    requires
        n <= usize::MAX / 4,
    ensures
        is_next_pow2(n as int, r as int),
        r == next_pow2(n as int),
{
    let mut p: usize = 1;
    while p < n
        invariant
            n <= usize::MAX / 4,
            is_pow2(p as int),
            p <= usize::MAX / 2,
            p == 1 || p / 2 < n,
            pow2_from(n as int, p as int) == next_pow2(n as int),
        decreases usize::MAX - p,
    {
        let q: usize = p * 2;
        assert(q / 2 == p && q % 2 == 0);
        assert(is_pow2(q as int));
        p = q;
    }
    p
}

/// The value pointer `index` words away from `val`, with wrapping arithmetic.
pub open spec fn field_addr(val: Value, index: isize) -> int {
    (val.0 as int + 8 * index as int) % usize_range()
}

/// The address `index` words away from `val`; wraps around the address space.
pub fn field_val(val: Value, index: isize) -> (r: Value)
    ensures
        r.0 as int == field_addr(val, index),
{
    let ghost m = usize_range();
    let ghost i = index as int;
    // `off` is `8 * index` modulo the address space.
    let off: usize = if index >= 0 {
        (index as usize).wrapping_mul(WORD_SIZE)
    } else {
        let k: usize = (-(index + 1)) as usize + 1;
        let a = k.wrapping_mul(WORD_SIZE);
        proof {
            lemma_mul_mod_noop_right(8, k as int, m);
            lemma_add_mod_noop(-8 * k, 8 * k, m);
            lemma_mod_bound(-8 * k, m);
            lemma_mod_bound(8 * k, m);
            assert((-8 * k + 8 * k) % m == 0);
            let x = (-8 * k) % m;
            let y = (8 * k) % m;
            assert((x + y) % m == 0);
            if x + y != 0 && x + y != m {
                if x + y < m {
                    lemma_small_mod((x + y) as nat, m as nat);
                } else {
                    lemma_mod_sub_multiples_vanish(x + y, m);
                    lemma_small_mod((x + y - m) as nat, m as nat);
                }
            }
        }
        0usize.wrapping_sub(a)
    };
    proof {
        if i >= 0 {
            lemma_mul_mod_noop_right(8, i, m);
        }
        assert(off as int == (8 * i) % m);
    }
    let r = val.0.wrapping_add(off);
    proof {
        lemma_add_mod_noop(val.0 as int, 8 * i, m);
        lemma_small_mod(val.0 as nat, m as nat);
        lemma_mod_bound(8 * i, m);
        if val.0 + off < m {
            lemma_small_mod((val.0 + off) as nat, m as nat);
        } else {
            lemma_mod_sub_multiples_vanish(val.0 + off, m);
            lemma_small_mod((val.0 + off - m) as nat, m as nat);
        }
    }
    Value(r)
}

/// The whsize of a block of wosize `wsz`.
pub fn whsize_wosize(wsz: Wsize) -> (r: Wsize)
    requires
        wsz.0 < usize::MAX,
    ensures
        r.0 == wsz.0 + 1,
{
    Wsize::new(*wsz.get_val() + 1)
}

/// The wosize of a block of whsize `wsz`.
pub fn wosize_whsize(wsz: Wsize) -> (r: Wsize)
    requires
        wsz.0 >= 1,
    ensures
        r.0 == wsz.0 - 1,
{
    Wsize::new(*wsz.get_val() - 1)
}

/// The number of words to ask for when the heap has to grow by `request_wo_sz`:
/// twice the request from `min_wosz_expand` up, else `min_wosz_expand`.
pub open spec fn actual_expansion(request_wo_sz: int, min_wosz_expand: int) -> int {
    if request_wo_sz >= min_wosz_expand {
        2 * request_wo_sz
    } else {
        min_wosz_expand
    }
}

/// Number of words in the pool that an expansion for `request_wo_sz` words obtains.
pub open spec fn pool_size(request_wo_sz: int, min_wosz_expand: int) -> int {
    next_pow2(actual_expansion(request_wo_sz, min_wosz_expand) * 8) / 8
}

pub fn get_actual_wosz_to_request(request_wo_sz: Wsize, min_wosz_expand: Wsize) -> (r: Wsize)
    requires
        request_wo_sz.0 <= MAX_EXPANSION_WOSIZE / 2,
    ensures
        r.0 == actual_expansion(request_wo_sz.0 as int, min_wosz_expand.0 as int),
{
    let mut request_wo_sz = request_wo_sz;
    if *request_wo_sz.get_val() >= *min_wosz_expand.get_val() {
        let v = request_wo_sz.get_val_mut();
        *v = *v * 2;
    } else {
        request_wo_sz = min_wosz_expand;
    }
    request_wo_sz
}

/// The host layout for `mem_size` words: the byte size rounded up to a power of two,
/// word-aligned.
pub fn get_layout(mem_size: Wsize) -> (r: Layout)
    requires
        mem_size.0 <= MAX_EXPANSION_WOSIZE,
    ensures
        is_next_pow2(mem_size.0 * 8, r.size as int),
        r.size == next_pow2(mem_size.0 * 8),
        r.align == WORD_SIZE,
{
    proof {
        lemma_max_header_wosize();
    }
    let bytes = mem_size.to_bytesize();
    Layout { size: next_power_of_two(bytes), align: WORD_SIZE }
}

/// The layout of the expansion for a request, and the number of words it holds.
pub fn get_layout_and_actual_expansion_size(request_wo_sz: Wsize, min_wosz_expand: Wsize) -> (r: (
    Layout,
    Wsize,
))
    requires
        request_wo_sz.0 <= MAX_EXPANSION_WOSIZE / 2,
        min_wosz_expand.0 <= MAX_EXPANSION_WOSIZE,
    ensures
        is_next_pow2(actual_expansion(request_wo_sz.0 as int, min_wosz_expand.0 as int) * 8,
            r.0.size as int),
        r.0.size == next_pow2(actual_expansion(request_wo_sz.0 as int, min_wosz_expand.0 as int) * 8),
        r.1.0 == pool_size(request_wo_sz.0 as int, min_wosz_expand.0 as int),
        r.0.align == WORD_SIZE,
        r.1.0 == r.0.size / 8,
{
    let actual = get_actual_wosz_to_request(request_wo_sz, min_wosz_expand);
    let layout = get_layout(actual);
    (layout, Wsize::from_bytesize(layout.size()))
}

} // verus!
