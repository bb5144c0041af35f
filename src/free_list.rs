//! The next-fit allocator: a heap of words, a sentinel-anchored free list threaded
//! through the first payload word of each free block, and a rolling cursor.
use vstd::prelude::*;

use crate::colors::{CAML_BLACK, CAML_BLUE, DEFAULT_TAG};
use crate::globals::{NfGlobals, SentinelType, HEAD, SENTINEL_WORDS};
use crate::header::{encode, lemma_encode, lemma_max_header_wosize, Header, MAX_HEADER_WOSIZE};
use crate::list::{
    adjacent, apart, carve, carved_value, coalesced, cursor_after_insert, cursor_after_merge,
    first_fit_from, free_words, freed, freed_cursor, insert_pos, last_addr, lemma_carve_coalesced,
    lemma_first_fit, lemma_first_fit_found, lemma_free_words_bound, lemma_free_words_insert,
    lemma_free_words_merge, lemma_free_words_nonneg, lemma_free_words_remove,
    lemma_free_words_split, lemma_free_words_update, lemma_freed_coalesced,
    lemma_insert_coalesced, lemma_insert_list_ordered, lemma_insert_pos, lemma_pow2_from_ge,
    lemma_carve_in_pools, lemma_insert_in_pools,
    lemma_merge_in_pools,
    link_of, merge_at, ordered, pos_addr, rev_idx, try_merge_seq,
};
use crate::pool::{
    all_in_pools, directory_wf, in_pool, lemma_in_pool_grow, Pool, PoolIter, POOL_HEADER_WORDS,
    POOL_RECORD_WORDS,
};
use crate::utils::{
    field_addr, field_val, get_layout_and_actual_expansion_size, pool_size, MAX_EXPANSION_WOSIZE,
};
use crate::value::Value;
use crate::word::Wsize;

verus! {

/// The smallest number of words a heap expansion asks for, by default: one MiB.
pub const DEFAULT_MIN_EXPANSION_WOSIZE: usize = 131072;

/// Largest number of words the heap may grow to.
pub const MAX_HEAP_WORDS: usize = MAX_HEADER_WOSIZE;

/// A free block and the word holding the link to it (the sentinel's, or the previous
/// block's), both as word indices.
#[derive(Debug, Clone, Copy, PartialEq, Eq, Structural)]
pub struct NfIterVal {
    prev: usize,
    cur: usize,
}

impl NfIterVal {
    pub closed spec fn prev_word(&self) -> int {
        self.prev as int
    }

    pub closed spec fn cur_word(&self) -> int {
        self.cur as int
    }

    /// The predecessor's address; the sentinel's when the block is first.
    pub fn get_actual_prev(&self) -> (r: Value)
        requires
            self.prev_word() <= MAX_HEAP_WORDS,
        ensures
            r.0 == self.prev_word() * 8,
    {
        proof {
            lemma_max_header_wosize();
        }
        Value(self.prev * 8)
    }

    /// The predecessor's address, or null when the predecessor is the sentinel.
    pub fn get_prev(&self) -> (r: Value)
        requires
            self.prev_word() <= MAX_HEAP_WORDS,
        ensures
            r.0 == if self.prev_word() == HEAD {
                0
            } else {
                self.prev_word() * 8
            },
    {
        proof {
            lemma_max_header_wosize();
        }
        if self.prev == HEAD {
            Value(0)
        } else {
            Value(self.prev * 8)
        }
    }

    /// The free block's address (its value pointer).
    pub fn get_cur(&self) -> (r: Value)
        requires
            self.cur_word() <= MAX_HEAP_WORDS,
        ensures
            r.0 == self.cur_word() * 8,
    {
        proof {
            lemma_max_header_wosize();
        }
        Value(self.cur * 8)
    }
}

/// The allocator: the heap it manages, its registers, and its pool directory.
pub struct NfAllocator {
    globals: NfGlobals,
    heap: Vec<usize>,
    pools: Vec<Pool>,
    min_wosz_expand: Wsize,
    last_expandheap_start_end: (usize, usize),
    num_of_heap_expansions: usize,
    /// The free list, in address order: value word index and wosize of each block.
    free: Ghost<Seq<(int, int)>>,
    /// The allocated blocks: value word index to wosize.
    live: Ghost<Map<int, int>>,
    /// List position of the cursor: 0 for the sentinel, `i + 1` for free block `i`.
    cursor: Ghost<int>,
}

impl NfAllocator {
    /// The free blocks, in address order, as (value word index, wosize).
    pub closed spec fn free_blocks(&self) -> Seq<(int, int)> {
        self.free@
    }

    /// The allocated blocks, from value word index to wosize.
    pub closed spec fn live_blocks(&self) -> Map<int, int> {
        self.live@
    }

    /// The heap's words.
    pub closed spec fn heap_words(&self) -> Seq<usize> {
        self.heap@
    }

    /// List position the next search starts from.
    pub closed spec fn cursor_pos(&self) -> int {
        self.cursor@
    }

    /// The free-word counter.
    pub closed spec fn free_count(&self) -> int {
        self.globals.cur_wsz.0 as int
    }

    /// The pool directory.
    pub closed spec fn pool_seq(&self) -> Seq<Pool> {
        self.pools@
    }

    pub closed spec fn expansions(&self) -> int {
        self.num_of_heap_expansions as int
    }

    pub closed spec fn min_expansion(&self) -> int {
        self.min_wosz_expand.0 as int
    }

    pub closed spec fn last_expansion_range(&self) -> (usize, usize) {
        self.last_expandheap_start_end
    }

    pub closed spec fn regs(&self) -> NfGlobals {
        self.globals
    }

    /// The free block `b` is described by its header in `h`, and fits.
    pub open spec fn node_ok(h: Seq<usize>, b: (int, int)) -> bool {
        &&& SENTINEL_WORDS < b.0
        &&& 1 <= b.1
        &&& b.0 + b.1 <= h.len()
        &&& h[b.0 - 1] as int == encode(b.1, CAML_BLUE as int, DEFAULT_TAG as int)
    }

    /// The allocated block at `a` of wosize `w` is described by its header in `h`, and fits.
    pub open spec fn live_ok(h: Seq<usize>, a: int, w: int) -> bool {
        &&& SENTINEL_WORDS < a
        &&& 1 <= w
        &&& a + w <= h.len()
        &&& h[a - 1] as int == encode(w, CAML_BLACK as int, DEFAULT_TAG as int)
    }

    /// The heap and its free list agree with the ghost state.
    #[verifier::opaque]
    pub closed spec fn list_wf(&self) -> bool {
        let h = self.heap@;
        let fl = self.free@;
        &&& SENTINEL_WORDS <= h.len() <= MAX_HEAP_WORDS
        &&& self.globals.nf_head == HEAD
        &&& h[HEAD as int] as int == link_of(fl, -1)
        &&& forall|i: int|
            0 <= i < fl.len() ==> Self::node_ok(h, #[trigger] fl[i]) && h[fl[i].0] as int
                == link_of(fl, i)
        &&& ordered(fl)
        &&& self.globals.nf_last as int == last_addr(fl)
        &&& 0 <= self.cursor@ <= fl.len()
        &&& self.globals.nf_prev as int == pos_addr(fl, self.cursor@)
        &&& self.globals.cur_wsz.0 as int == free_words(fl)
    }

    /// The allocated blocks are described in the heap, and no two blocks meet.
    #[verifier::opaque]
    pub closed spec fn live_wf(&self) -> bool {
        let h = self.heap@;
        let fl = self.free@;
        let l = self.live@;
        &&& forall|a: int| #[trigger] l.contains_key(a) ==> Self::live_ok(h, a, l[a])
        &&& forall|a: int, i: int|
            #[trigger] l.contains_key(a) && 0 <= i < fl.len() ==> apart(
                a,
                l[a],
                (#[trigger] fl[i]).0,
                fl[i].1,
            )
        &&& forall|a: int, b: int|
            #[trigger] l.contains_key(a) && #[trigger] l.contains_key(b) && a != b ==> apart(
                a,
                l[a],
                b,
                l[b],
            )
    }

    /// Every block, free or allocated, lies in the payload of a pool.
    #[verifier::opaque]
    pub closed spec fn pools_cover(&self) -> bool {
        &&& all_in_pools(self.pools@, self.free@)
        &&& forall|c: int| #[trigger]
            self.live@.contains_key(c) ==> in_pool(self.pools@, c, self.live@[c])
    }

    pub closed spec fn wf(&self) -> bool {
        &&& self.list_wf()
        &&& self.pools_cover()
        &&& coalesced(self.free@)
        &&& self.num_of_heap_expansions + 1 == self.pools@.len()
        &&& self.pools@.len() <= self.heap@.len()
        &&& self.live_wf()
        &&& directory_wf(self.pools@, self.heap@.len() as int)
        &&& self.min_wosz_expand.0 <= MAX_HEADER_WOSIZE
    }
}


/// The free list as seen from an allocator: read-only access for iteration and search.
pub struct FreeList<'a> {
    alloc: &'a NfAllocator,
}

/// A cursor-anchored sweep over the free list. It starts at the allocator's cursor,
/// wraps from the last block to the first once, and ends before the cursor again.
pub struct NfIter {
    prev: usize,
    visited_start_once: bool,
    steps: Ghost<int>,
}

impl NfIter {
    /// Number of blocks yielded so far.
    pub closed spec fn step(&self) -> int {
        self.steps@
    }

    pub closed spec fn inv(&self, a: NfAllocator) -> bool {
        let fl = a.free_blocks();
        let n = fl.len() as int;
        let s = a.cursor_pos();
        &&& 0 <= self.steps@ <= n
        &&& if !self.visited_start_once {
            self.steps@ == 0 && self.prev as int == pos_addr(fl, s)
        } else {
            self.steps@ >= 1 && self.prev as int == fl[rev_idx(s, n, self.steps@ - 1)].0
        }
    }

    /// The next (link word, block) pair of the sweep, or `None` once it is complete.
    pub fn next(&mut self, fl: &FreeList) -> (r: Option<NfIterVal>)
        requires
            fl.allocator().wf(),
            old(self).inv(fl.allocator()),
        ensures
            final(self).inv(fl.allocator()),
            ({
                let a = fl.allocator();
                let f = a.free_blocks();
                let n = f.len() as int;
                let k = old(self).step();
                let i = rev_idx(a.cursor_pos(), n, k);
                if k < n {
                    &&& final(self).step() == k + 1
                    &&& r.is_some()
                    &&& r.unwrap().prev_word() == pos_addr(f, i)
                    &&& r.unwrap().cur_word() == f[i].0
                } else {
                    final(self).step() == k && r.is_none()
                }
            }),
    {
        let a = fl.alloc;
        proof {
            reveal(NfAllocator::list_wf);
        }
        let ghost f = a.free@;
        let ghost n = f.len() as int;
        let ghost s = a.cursor@;
        let ghost k = self.steps@;
        let nf_prev = a.globals.nf_prev;
        if self.visited_start_once && self.prev == nf_prev {
            proof {
                let i = rev_idx(s, n, k - 1);
                assert(f[i].0 > HEAD);
                assert(s >= 1);
                if i != s - 1 {
                    assert(f[i].0 != f[s - 1].0);
                }
            }
            return None;
        }
        proof {
            if self.visited_start_once && k == n {
                assert(rev_idx(s, n, k - 1) == n - 1);
            }
        }
        let mut prev = self.prev;
        let mut next = a.heap[prev];
        if next == 0 {
            prev = a.globals.nf_head;
            if prev == nf_prev {
                return None;
            }
            next = a.heap[prev];
        }
        self.visited_start_once = true;
        self.prev = next;
        self.steps = Ghost(k + 1);
        Some(NfIterVal { prev, cur: next })
    }
}

impl<'a> FreeList<'a> {
    /// The allocator whose list this is.
    pub closed spec fn allocator(&self) -> NfAllocator {
        *self.alloc
    }

    pub fn new(a: &'a NfAllocator) -> (r: FreeList<'a>)
        ensures
            r.allocator() == *a,
    {
        FreeList { alloc: a }
    }

    /// A sweep that starts at the allocator's cursor.
    pub fn sweep(&self) -> (r: NfIter)
        requires
            self.allocator().wf(),
        ensures
            r.inv(self.allocator()),
            r.step() == 0,
    {
        proof {
            reveal(NfAllocator::list_wf);
        }
        NfIter { prev: self.alloc.globals.nf_prev, visited_start_once: false, steps: Ghost(0) }
    }

    /// Every (link word, block) pair of one sweep, in the order the sweep meets them.
    pub fn nf_iter(&self) -> (r: Vec<NfIterVal>)
        requires
            self.allocator().wf(),
        ensures
            ({
                let a = self.allocator();
                let f = a.free_blocks();
                let n = f.len() as int;
                &&& r.len() == n
                &&& forall|k: int|
                    0 <= k < n ==> (#[trigger] r[k]).prev_word() == pos_addr(
                        f,
                        rev_idx(a.cursor_pos(), n, k),
                    ) && r[k].cur_word() == f[rev_idx(a.cursor_pos(), n, k)].0
            }),
    {
        let ghost a = self.allocator();
        let ghost f = a.free_blocks();
        let ghost n = f.len() as int;
        proof {
            reveal(NfAllocator::list_wf);
        }
        let mut it = self.sweep();
        let mut out: Vec<NfIterVal> = Vec::new();
        loop
            invariant
                a == self.allocator(),
                a.wf(),
                f == a.free_blocks(),
                n == f.len(),
                it.inv(a),
                out.len() == it.step(),
                forall|k: int|
                    0 <= k < out.len() ==> (#[trigger] out[k]).prev_word() == pos_addr(
                        f,
                        rev_idx(a.cursor_pos(), n, k),
                    ) && out[k].cur_word() == f[rev_idx(a.cursor_pos(), n, k)].0,
            decreases n - it.step(),
        {
            match it.next(self) {
                None => {
                    return out;
                },
                Some(v) => {
                    out.push(v);
                },
            }
        }
    }

    /// The first pair of the sweep whose block has a wosize of at least `wo_sz`.
    pub fn find_next(&self, wo_sz: Wsize) -> (r: Option<NfIterVal>)
        requires
            self.allocator().wf(),
        ensures
            ({
                let a = self.allocator();
                let f = a.free_blocks();
                let n = f.len() as int;
                let k = first_fit_from(f, a.cursor_pos(), wo_sz.0 as int, 0);
                let i = rev_idx(a.cursor_pos(), n, k);
                if k < n {
                    &&& r.is_some()
                    &&& r.unwrap().prev_word() == pos_addr(f, i)
                    &&& r.unwrap().cur_word() == f[i].0
                } else {
                    r.is_none()
                }
            }),
    {
        let ghost a = self.allocator();
        let ghost f = a.free_blocks();
        let ghost n = f.len() as int;
        let ghost s = a.cursor_pos();
        proof {
            reveal(NfAllocator::list_wf);
        }
        let mut it = self.sweep();
        loop
            invariant
                a == self.allocator(),
                a.wf(),
                f == a.free_blocks(),
                n == f.len(),
                s == a.cursor_pos(),
                0 <= s <= n,
                it.inv(a),
                first_fit_from(f, s, wo_sz.0 as int, 0) == first_fit_from(
                    f,
                    s,
                    wo_sz.0 as int,
                    it.step(),
                ),
            decreases n - it.step(),
        {
            let ghost k = it.step();
            match it.next(self) {
                None => {
                    return None;
                },
                Some(v) => {
                    let ghost i = rev_idx(s, n, k);
                    let w = self.alloc.free_wosize(v.cur, Ghost(i));
                    if w >= wo_sz.0 {
                        return Some(v);
                    }
                },
            }
        }
    }
}

impl NfAllocator {
    /// The wosize of free block `i`, read from its header.
    fn free_wosize(&self, v: usize, Ghost(i): Ghost<int>) -> (r: usize)
        requires
            self.wf(),
            0 <= i < self.free_blocks().len(),
            v == self.free_blocks()[i].0,
        ensures
            r == self.free_blocks()[i].1,
    {
        proof {
            reveal(NfAllocator::list_wf);
            let b = self.free@[i];
            assert(Self::node_ok(self.heap@, b));
            lemma_encode(b.1, CAML_BLUE, DEFAULT_TAG as usize);
        }
        Header(self.heap[v - 1]).get_wosize().0
    }
}

impl NfAllocator {
    /// An allocator with an empty heap that grows by at least `min_wosz_expand` words.
    pub fn with_min_expansion(min_wosz_expand: Wsize) -> (r: Self)
        requires
            min_wosz_expand.0 <= MAX_HEADER_WOSIZE,
        ensures
            r.wf(),
            r.free_blocks().len() == 0,
            r.live_blocks() == Map::<int, int>::empty(),
            r.cursor_pos() == 0,
            r.free_count() == 0,
            r.expansions() == 0,
            r.min_expansion() == min_wosz_expand.0,
            r.pool_seq().len() == 1,
            r.heap_words().len() == SENTINEL_WORDS,
    {
        let sentinel = SentinelType::new();
        let mut heap: Vec<usize> = Vec::new();
        heap.push(sentinel.filler1.0);
        heap.push(sentinel.h.0);
        heap.push(sentinel.first_field.0);
        heap.push(sentinel.filler2.0);
        let mut pools: Vec<Pool> = Vec::new();
        pools.push(Pool { pool_wo_sz: Wsize::new(0), prev: 0, next: 0, start: 0 });
        proof {
            lemma_max_header_wosize();
        }
        let r = NfAllocator {
            globals: NfGlobals { cur_wsz: Wsize::new(0), nf_head: HEAD, nf_prev: HEAD, nf_last: HEAD },
            heap,
            pools,
            min_wosz_expand,
            last_expandheap_start_end: (0, 0),
            num_of_heap_expansions: 0,
            free: Ghost(Seq::empty()),
            live: Ghost(Map::empty()),
            cursor: Ghost(0),
        };
        proof {
            reveal(NfAllocator::list_wf);
            reveal(NfAllocator::live_wf);
            reveal(NfAllocator::pools_cover);
        }
        r
    }

    /// An allocator with an empty heap and the default minimum expansion.
    pub fn new() -> (r: Self)
        ensures
            r.wf(),
            r.free_blocks().len() == 0,
            r.live_blocks() == Map::<int, int>::empty(),
            r.cursor_pos() == 0,
            r.free_count() == 0,
            r.expansions() == 0,
            r.min_expansion() == DEFAULT_MIN_EXPANSION_WOSIZE,
            r.pool_seq().len() == 1,
            r.heap_words().len() == SENTINEL_WORDS,
    {
        proof {
            lemma_max_header_wosize();
        }
        Self::with_min_expansion(Wsize::new(DEFAULT_MIN_EXPANSION_WOSIZE))
    }

    pub fn get_globals(&self) -> (r: &NfGlobals)
        ensures
            *r == self.regs(),
    {
        &self.globals
    }

    /// Heap byte range of the block added by the last expansion.
    pub fn get_start_end_after_heap_expand(&self) -> (r: (usize, usize))
        ensures
            r == self.last_expansion_range(),
    {
        self.last_expandheap_start_end
    }

    pub fn get_num_of_expansions(&self) -> (r: usize)
        ensures
            r == self.expansions(),
    {
        self.num_of_heap_expansions
    }

    /// Carves a block of whsize `wh_sz` from the top of free block `i`, whose link
    /// word is `prev`. Returns the new block's header word.
    #[verifier::spinoff_prover]
    #[verifier::rlimit(50)]
    fn nf_allocate_block(&mut self, prev: usize, cur: usize, wh_sz: Wsize, Ghost(i): Ghost<int>) -> (hp: usize)
        requires
            old(self).wf(),
            0 <= i < old(self).free_blocks().len(),
            prev == pos_addr(old(self).free_blocks(), i),
            cur == old(self).free_blocks()[i].0,
            wh_sz.0 >= 2,
            old(self).free_blocks()[i].1 >= wh_sz.0 - 1,
        ensures
            ({
                let f = old(self).free_blocks();
                let wo = wh_sz.0 - 1;
                &&& final(self).wf()
                &&& hp + 1 == carved_value(f, i, wo)
                &&& final(self).free_blocks() == carve(f, i, wo)
                &&& final(self).live_blocks() == old(self).live_blocks().insert(hp + 1, wo)
                &&& final(self).cursor_pos() == i
                &&& final(self).pool_seq() == old(self).pool_seq()
                &&& final(self).heap_words().len() == old(self).heap_words().len()
                &&& final(self).expansions() == old(self).expansions()
                &&& final(self).min_expansion() == old(self).min_expansion()
                &&& final(self).last_expansion_range() == old(self).last_expansion_range()
                &&& f[i].1 == wo + 1 ==> final(self).heap_words()[f[i].0 - 1] as int == encode(
                    0,
                    CAML_BLUE as int,
                    DEFAULT_TAG as int,
                )
            }),
    {
        let ghost f = self.free@;
        let ghost n = f.len() as int;
        let ghost h0 = self.heap@;
        let ghost wo = wh_sz.0 - 1;
        let ghost b = f[i];
        let hd_sz = self.free_wosize(cur, Ghost(i));
        proof {
            reveal(NfAllocator::list_wf);
            lemma_max_header_wosize();
            lemma_free_words_split(f, i);
            lemma_free_words_nonneg(f.subrange(0, i));
            lemma_free_words_nonneg(f.subrange(i + 1, n));
            assert(Self::node_ok(h0, f[i]));
            if i > 0 {
                assert(Self::node_ok(h0, f[i - 1]));
                assert(f[i - 1].0 + f[i - 1].1 <= f[i].0 - 1);
            }
        }
        if hd_sz < wh_sz.0 + 1 {
            self.globals.cur_wsz = Wsize::new(self.globals.cur_wsz.0 - (hd_sz + 1));
            let nx = self.heap[cur];
            self.heap.set(prev, nx);
            self.heap.set(cur - 1, Header::new(0, CAML_BLUE, DEFAULT_TAG).0);
            if cur == self.globals.nf_last {
                self.globals.nf_last = prev;
            }
            self.free = Ghost(f.remove(i));
            proof {
                lemma_free_words_remove(f, i);
            }
        } else {
            self.globals.cur_wsz = Wsize::new(self.globals.cur_wsz.0 - wh_sz.0);
            self.heap.set(cur - 1, Header::new(hd_sz - wh_sz.0, CAML_BLUE, DEFAULT_TAG).0);
            self.free = Ghost(f.update(i, (b.0, b.1 - wo - 1)));
            proof {
                lemma_free_words_update(f, i, (b.0, b.1 - wo - 1));
            }
        }
        let hp = cur + hd_sz - wh_sz.0;
        self.heap.set(hp, Header::new(wh_sz.0 - 1, CAML_BLACK, DEFAULT_TAG).0);
        self.globals.nf_prev = prev;
        self.cursor = Ghost(i);
        self.live = Ghost(self.live@.insert(hp + 1, wo));
        proof {
            reveal(carve);
            lemma_encode(wo, CAML_BLACK, 0);
            lemma_encode(0, CAML_BLUE, 0);
            if b.1 >= wo + 2 {
                lemma_encode(b.1 - wo - 1, CAML_BLUE, 0);
            }
            assert forall|x: int|
                0 <= x < h0.len() && x != hp && x != b.0 - 1 && !(b.1 < wo + 2 && x == prev) implies
                self.heap@[x] == h0[x] by {}
            lemma_carve(*old(self), *self, i, wo, hp as int);
        }
        hp
    }
}


/// One carving step: block `i` of `o` gives a block of wosize `wo` whose header is
/// `hp`, and `a` is what remains; the heap changed only in the carved block's header,
/// block `i`'s header and, when block `i` left the list, the link word that led to it.
spec fn carve_step(o: NfAllocator, a: NfAllocator, i: int, wo: int, hp: int) -> bool {
    &&& 0 <= i < o.free@.len()
    &&& 1 <= wo <= o.free@[i].1
    &&& hp == o.free@[i].0 + o.free@[i].1 - wo - 1
    &&& a.free@ == carve(o.free@, i, wo)
    &&& a.live@ == o.live@.insert(hp + 1, wo)
    &&& a.cursor@ == i
    &&& a.globals.nf_head == HEAD
    &&& a.globals.nf_prev as int == pos_addr(o.free@, i)
    &&& a.globals.nf_last as int == last_addr(carve(o.free@, i, wo))
    &&& a.globals.cur_wsz.0 as int == free_words(carve(o.free@, i, wo))
    &&& a.pools == o.pools
    &&& a.num_of_heap_expansions == o.num_of_heap_expansions
    &&& a.min_wosz_expand == o.min_wosz_expand
    &&& a.heap@.len() == o.heap@.len()
    &&& forall|x: int|
        0 <= x < o.heap@.len() && x != hp && x != o.free@[i].0 - 1 && !(o.free@[i].1 < wo + 2 && x
            == pos_addr(o.free@, i)) ==> a.heap@[x] == o.heap@[x]
    &&& a.heap@[hp] as int == encode(wo, CAML_BLACK as int, DEFAULT_TAG as int)
    &&& o.free@[i].1 >= wo + 2 ==> a.heap@[o.free@[i].0 - 1] as int == encode(
        o.free@[i].1 - wo - 1,
        CAML_BLUE as int,
        DEFAULT_TAG as int,
    )
    &&& o.free@[i].1 < wo + 2 ==> a.heap@[pos_addr(o.free@, i)] as int == link_of(o.free@, i)
}

/// What the list invariant says of the free blocks alone.
proof fn lemma_list_facts(o: NfAllocator)
    requires
        o.list_wf(),
    ensures
        ordered(o.free@),
        0 <= o.cursor@ <= o.free@.len(),
        o.globals.cur_wsz.0 as int == free_words(o.free@),
        o.globals.nf_last as int == last_addr(o.free@),
        o.globals.nf_prev as int == pos_addr(o.free@, o.cursor@),
        o.globals.nf_head == HEAD,
        SENTINEL_WORDS <= o.heap@.len() <= MAX_HEAP_WORDS,
        forall|i: int|
            0 <= i < o.free@.len() ==> NfAllocator::node_ok(o.heap@, #[trigger] o.free@[i]),
{
    reveal(NfAllocator::list_wf);
}

/// The invariant survives a carving step.
#[verifier::spinoff_prover]
proof fn lemma_carve(o: NfAllocator, a: NfAllocator, i: int, wo: int, hp: int)
    requires
        o.wf(),
        carve_step(o, a, i, wo, hp),
    ensures
        a.wf(),
{
    reveal(carve);
    lemma_carve_others(o, i, hp);
    if o.free@[i].1 >= wo + 2 {
        lemma_carve_shrink(o, a, i, wo, hp);
    } else {
        lemma_carve_remove(o, a, i, wo, hp);
    }
    lemma_carve_live(o, a, i, wo, hp);
    lemma_list_facts(o);
    lemma_carve_coalesced(o.free@, i, wo);
    lemma_carve_cover(o, a, i, wo, hp);
}

/// Carving keeps every block in a pool.
proof fn lemma_carve_cover(o: NfAllocator, a: NfAllocator, i: int, wo: int, hp: int)
    requires
        o.wf(),
        carve_step(o, a, i, wo, hp),
    ensures
        a.pools_cover(),
{
    reveal(NfAllocator::pools_cover);
    lemma_carve_in_pools(o.pools@, o.free@, i, wo);
    assert forall|c: int| #[trigger] a.live@.contains_key(c) implies in_pool(
        a.pools@,
        c,
        a.live@[c],
    ) by {
        if c != hp + 1 {
            assert(o.live@.contains_key(c));
        }
    }
}

/// Blocks other than `i` lie wholly before or after it.
proof fn lemma_carve_others(o: NfAllocator, i: int, hp: int)
    requires
        o.wf(),
        0 <= i < o.free@.len(),
        o.free@[i].0 - 1 <= hp < o.free@[i].0 + o.free@[i].1,
    ensures
        NfAllocator::node_ok(o.heap@, o.free@[i]),
        forall|j: int|
            0 <= j < o.free@.len() && j != i ==> NfAllocator::node_ok(o.heap@, #[trigger] o.free@[j])
                && (j < i ==> o.free@[j].0 + o.free@[j].1 <= o.free@[i].0 - 1) && (j > i
                ==> o.free@[i].0 + o.free@[i].1 <= o.free@[j].0 - 1),
{
    reveal(NfAllocator::list_wf);
    let f = o.free@;
    assert forall|j: int| 0 <= j < f.len() && j != i implies NfAllocator::node_ok(o.heap@, #[trigger] f[j])
        && (j < i ==> f[j].0 + f[j].1 <= f[i].0 - 1) && (j > i ==> f[i].0 + f[i].1 <= f[j].0 - 1) by {
        assert(NfAllocator::node_ok(o.heap@, f[j]));
        if j < i {
            assert(f[j].0 + f[j].1 <= f[i].0 - 1);
        } else {
            assert(f[i].0 + f[i].1 <= f[j].0 - 1);
        }
    }
}

#[verifier::spinoff_prover]
proof fn lemma_carve_shrink(o: NfAllocator, a: NfAllocator, i: int, wo: int, hp: int)
    requires
        o.wf(),
        carve_step(o, a, i, wo, hp),
        o.free@[i].1 >= wo + 2,
        NfAllocator::node_ok(o.heap@, o.free@[i]),
        forall|j: int|
            0 <= j < o.free@.len() && j != i ==> NfAllocator::node_ok(o.heap@, #[trigger] o.free@[j])
                && (j < i ==> o.free@[j].0 + o.free@[j].1 <= o.free@[i].0 - 1) && (j > i
                ==> o.free@[i].0 + o.free@[i].1 <= o.free@[j].0 - 1),
    ensures
        a.list_wf(),
{
    reveal(carve);
    reveal(NfAllocator::list_wf);
    let f = o.free@;
    let g = a.free@;
    let h0 = o.heap@;
    let h1 = a.heap@;
    let b = f[i];
    lemma_encode(b.1 - wo - 1, CAML_BLUE, 0);
    assert forall|j: int| 0 <= j < g.len() implies NfAllocator::node_ok(h1, #[trigger] g[j])
        && h1[g[j].0] as int == link_of(g, j) by {
        if j != i {
            assert(NfAllocator::node_ok(h0, f[j]));
            assert(h1[f[j].0] == h0[f[j].0]);
            assert(h1[f[j].0 - 1] == h0[f[j].0 - 1]);
        } else {
            assert(h1[b.0] == h0[b.0]);
        }
    }
    assert(h1[HEAD as int] == h0[HEAD as int]);
    assert(ordered(g)) by {
        assert forall|x: int, y: int| 0 <= x < y < g.len() implies #[trigger] g[x].0 + g[x].1
            <= #[trigger] g[y].0 - 1 by {
            assert(f[x].0 + f[x].1 <= f[y].0 - 1);
        }
    }
    assert(pos_addr(g, i) == pos_addr(f, i));
}

#[verifier::spinoff_prover]
#[verifier::rlimit(50)]
proof fn lemma_carve_remove(o: NfAllocator, a: NfAllocator, i: int, wo: int, hp: int)
    requires
        o.wf(),
        carve_step(o, a, i, wo, hp),
        o.free@[i].1 < wo + 2,
        NfAllocator::node_ok(o.heap@, o.free@[i]),
        forall|j: int|
            0 <= j < o.free@.len() && j != i ==> NfAllocator::node_ok(o.heap@, #[trigger] o.free@[j])
                && (j < i ==> o.free@[j].0 + o.free@[j].1 <= o.free@[i].0 - 1) && (j > i
                ==> o.free@[i].0 + o.free@[i].1 <= o.free@[j].0 - 1),
    ensures
        a.list_wf(),
{
    reveal(carve);
    reveal(NfAllocator::list_wf);
    let f = o.free@;
    let g = a.free@;
    let h0 = o.heap@;
    let h1 = a.heap@;
    let b = f[i];
    assert(g == f.remove(i));
    assert(g.len() == f.len() - 1);
    assert forall|j: int| 0 <= j < g.len() implies g[j] == if j < i {
        f[j]
    } else {
        f[j + 1]
    } by {}
    assert forall|j: int| 0 <= j < g.len() implies NfAllocator::node_ok(h1, #[trigger] g[j])
        && h1[g[j].0] as int == link_of(g, j) by {
        if j < i {
            assert(g[j] == f[j]);
            assert(NfAllocator::node_ok(h0, f[j]));
            assert(h1[f[j].0 - 1] == h0[f[j].0 - 1]);
            if j + 1 < i {
                assert(f[j].0 != pos_addr(f, i));
                assert(h1[f[j].0] == h0[f[j].0]);
            }
        } else {
            assert(g[j] == f[j + 1]);
            assert(NfAllocator::node_ok(h0, f[j + 1]));
            assert(h1[f[j + 1].0 - 1] == h0[f[j + 1].0 - 1]);
            assert(h1[f[j + 1].0] == h0[f[j + 1].0]);
        }
    }
    if i > 0 {
        assert(h1[HEAD as int] == h0[HEAD as int]);
    }
    assert(ordered(g)) by {
        assert forall|x: int, y: int| 0 <= x < y < g.len() implies #[trigger] g[x].0 + g[x].1
            <= #[trigger] g[y].0 - 1 by {
            let fx = if x < i { x } else { x + 1 };
            let fy = if y < i { y } else { y + 1 };
            assert(f[fx].0 + f[fx].1 <= f[fy].0 - 1);
        }
    }
    assert(pos_addr(g, i) == pos_addr(f, i));
}

#[verifier::spinoff_prover]
proof fn lemma_carve_live(o: NfAllocator, a: NfAllocator, i: int, wo: int, hp: int)
    requires
        o.wf(),
        carve_step(o, a, i, wo, hp),
        NfAllocator::node_ok(o.heap@, o.free@[i]),
        forall|j: int|
            0 <= j < o.free@.len() && j != i ==> NfAllocator::node_ok(o.heap@, #[trigger] o.free@[j])
                && (j < i ==> o.free@[j].0 + o.free@[j].1 <= o.free@[i].0 - 1) && (j > i
                ==> o.free@[i].0 + o.free@[i].1 <= o.free@[j].0 - 1),
    ensures
        a.live_wf(),
{
    reveal(carve);
    reveal(NfAllocator::live_wf);
    let f = o.free@;
    let g = a.free@;
    let h0 = o.heap@;
    let h1 = a.heap@;
    let l0 = o.live@;
    let b = f[i];
    let v = hp + 1;
    lemma_encode(wo, CAML_BLACK, 0);
    assert(!l0.contains_key(v)) by {
        if l0.contains_key(v) {
            assert(apart(v, l0[v], b.0, b.1));
        }
    }
    let l1 = a.live@;
    assert forall|c: int| #[trigger] l1.contains_key(c) implies NfAllocator::live_ok(h1, c, l1[c]) by {
        if c != v {
            assert(NfAllocator::live_ok(h0, c, l0[c]));
            assert(apart(c, l0[c], b.0, b.1));
            if b.1 < wo + 2 && i > 0 {
                assert(apart(c, l0[c], f[i - 1].0, f[i - 1].1));
            }
            assert(h1[c - 1] == h0[c - 1]);
        }
    }
    assert forall|c: int, j: int| #[trigger] l1.contains_key(c) && 0 <= j < g.len() implies apart(
        c,
        l1[c],
        (#[trigger] g[j]).0,
        g[j].1,
    ) by {
        let fj = if b.1 >= wo + 2 || j < i { j } else { j + 1 };
        if c != v {
            assert(apart(c, l0[c], f[fj].0, f[fj].1));
        }
    }
    assert forall|c: int, d: int| #[trigger] l1.contains_key(c) && #[trigger] l1.contains_key(d)
        && c != d implies apart(c, l1[c], d, l1[d]) by {
        if c == v {
            assert(apart(d, l0[d], b.0, b.1));
        } else if d == v {
            assert(apart(c, l0[c], b.0, b.1));
        } else {
            assert(apart(c, l0[c], d, l0[d]));
        }
    }
}

impl NfAllocator {
    /// Next-fit allocation of a block of `wo_sz` words from the free list, without
    /// growing the heap. Returns the new block's header address, or null when no
    /// free block is large enough.
    pub fn nf_allocate(&mut self, wo_sz: Wsize) -> (r: Value)
        requires
            old(self).wf(),
            wo_sz.0 >= 1,
        ensures
            final(self).wf(),
            ({
                let f = old(self).free_blocks();
                let s = old(self).cursor_pos();
                let wo = wo_sz.0 as int;
                let k = first_fit_from(f, s, wo, 0);
                let i = rev_idx(s, f.len() as int, k);
                &&& r.0 + 8 <= MAX_HEAP_WORDS * 8
                &&& if k < f.len() {
                    &&& f[i].1 >= wo
                    &&& r.0 > 0
                    &&& r.0 == (carved_value(f, i, wo) - 1) * 8
                    &&& final(self).free_blocks() == carve(f, i, wo)
                    &&& final(self).live_blocks() == old(self).live_blocks().insert(
                        carved_value(f, i, wo),
                        wo,
                    )
                    &&& final(self).cursor_pos() == i
                    &&& final(self).pool_seq() == old(self).pool_seq()
                    &&& final(self).heap_words().len() == old(self).heap_words().len()
                    &&& final(self).expansions() == old(self).expansions()
                    &&& final(self).min_expansion() == old(self).min_expansion()
                    &&& final(self).last_expansion_range() == old(self).last_expansion_range()
                    &&& f[i].1 == wo + 1 ==> final(self).heap_words()[f[i].0 - 1] as int == encode(
                        0,
                        CAML_BLUE as int,
                        DEFAULT_TAG as int,
                    )
                } else {
                    r.0 == 0 && *final(self) == *old(self)
                }
            }),
    {
        let ghost f = self.free@;
        let ghost s = self.cursor@;
        proof {
            lemma_list_facts(*self);
            lemma_first_fit(f, s, wo_sz.0 as int, 0);
            lemma_max_header_wosize();
            let k = first_fit_from(f, s, wo_sz.0 as int, 0);
            if k < f.len() {
                let i = rev_idx(s, f.len() as int, k);
                assert(NfAllocator::node_ok(self.heap@, f[i]));
            }
        }
        let it = FreeList::new(self).find_next(wo_sz);
        match it {
            None => Value::null(),
            Some(it) => {
                let ghost k = first_fit_from(f, s, wo_sz.0 as int, 0);
                let ghost i = rev_idx(s, f.len() as int, k);
                proof {
                    assert(NfAllocator::node_ok(self.heap@, f[i]));
                }
                let hp = self.nf_allocate_block(it.prev, it.cur, Wsize::new(wo_sz.0 + 1), Ghost(i));
                Value(hp * 8)
            },
        }
    }
}

/// One insertion step: `a` is `o` with block `(v, w)` linked in at index `j`.
spec fn insert_step(o: NfAllocator, a: NfAllocator, v: int, w: int, j: int) -> bool {
    let f = o.free@;
    &&& 0 <= j <= f.len()
    &&& SENTINEL_WORDS < v
    &&& 1 <= w
    &&& v + w <= o.heap@.len()
    &&& o.heap@[v - 1] as int == encode(w, CAML_BLUE as int, DEFAULT_TAG as int)
    &&& j > 0 ==> f[j - 1].0 + f[j - 1].1 <= v - 1
    &&& j < f.len() ==> v + w <= f[j].0 - 1
    &&& forall|c: int| #[trigger] o.live@.contains_key(c) ==> apart(c, o.live@[c], v, w)
    &&& a.free@ == f.insert(j, (v, w))
    &&& a.live@ == o.live@
    &&& a.cursor@ == cursor_after_insert(o.cursor@, j)
    &&& a.globals.nf_head == HEAD
    &&& a.globals.nf_prev == o.globals.nf_prev
    &&& a.globals.nf_last as int == last_addr(f.insert(j, (v, w)))
    &&& a.globals.cur_wsz.0 as int == free_words(f.insert(j, (v, w)))
    &&& a.heap@.len() == o.heap@.len()
    &&& a.heap@[v] == o.heap@[pos_addr(f, j)]
    &&& a.heap@[pos_addr(f, j)] as int == v
    &&& forall|x: int|
        0 <= x < o.heap@.len() && x != v && x != pos_addr(f, j) ==> a.heap@[x] == o.heap@[x]
}

#[verifier::spinoff_prover]
#[verifier::rlimit(50)]
proof fn lemma_insert_list(o: NfAllocator, a: NfAllocator, v: int, w: int, j: int)
    requires
        o.list_wf(),
        insert_step(o, a, v, w, j),
    ensures
        a.list_wf(),
{
    reveal(NfAllocator::list_wf);
    let f = o.free@;
    let g = a.free@;
    let h0 = o.heap@;
    let h1 = a.heap@;
    let n = f.len() as int;
    assert forall|i: int| 0 <= i < g.len() implies g[i] == if i < j {
        f[i]
    } else if i == j {
        (v, w)
    } else {
        f[i - 1]
    } by {}
    assert forall|i: int| 0 <= i < n && i < j implies f[i].0 + f[i].1 <= v - 1 by {
        if i < j - 1 {
            assert(f[i].0 + f[i].1 <= f[j - 1].0 - 1);
            assert(NfAllocator::node_ok(h0, f[j - 1]));
        }
    }
    assert forall|i: int| 0 <= i < n && i >= j implies v + w <= f[i].0 - 1 by {
        if i > j {
            assert(f[j].0 + f[j].1 <= f[i].0 - 1);
            assert(NfAllocator::node_ok(h0, f[j]));
        }
    }
    if j > 0 {
        assert(NfAllocator::node_ok(h0, f[j - 1]));
    }
    assert forall|i: int| 0 <= i < g.len() implies NfAllocator::node_ok(h1, #[trigger] g[i])
        && h1[g[i].0] as int == link_of(g, i) by {
        if i < j {
            assert(NfAllocator::node_ok(h0, f[i]));
            if i < j - 1 {
                assert(f[i].0 + f[i].1 <= f[j - 1].0 - 1);
            }
            assert(h1[f[i].0 - 1] == h0[f[i].0 - 1]);
        } else if i > j {
            assert(NfAllocator::node_ok(h0, f[i - 1]));
            assert(h1[f[i - 1].0 - 1] == h0[f[i - 1].0 - 1]);
            assert(h1[f[i - 1].0] == h0[f[i - 1].0]);
        }
    }
    if j > 0 {
        assert(h1[HEAD as int] == h0[HEAD as int]);
    }
    assert(ordered(g)) by {
        assert forall|x: int, y: int| 0 <= x < y < g.len() implies #[trigger] g[x].0 + g[x].1
            <= #[trigger] g[y].0 - 1 by {
            if x < j && y > j {
                assert(f[x].0 + f[x].1 <= v - 1);
                assert(v + w <= f[y - 1].0 - 1);
            } else if x != j && y != j {
                let fx = if x < j { x } else { x - 1 };
                let fy = if y < j { y } else { y - 1 };
                assert(f[fx].0 + f[fx].1 <= f[fy].0 - 1);
            }
        }
    }
    let p = o.cursor@;
    assert(pos_addr(g, cursor_after_insert(p, j)) == pos_addr(f, p));
}

#[verifier::spinoff_prover]
proof fn lemma_insert_live(o: NfAllocator, a: NfAllocator, v: int, w: int, j: int)
    requires
        o.list_wf(),
        o.live_wf(),
        insert_step(o, a, v, w, j),
    ensures
        a.live_wf(),
{
    reveal(NfAllocator::live_wf);
    lemma_list_facts(o);
    let f = o.free@;
    let g = a.free@;
    let l = o.live@;
    if j > 0 {
        assert(NfAllocator::node_ok(o.heap@, f[j - 1]));
    }
    assert forall|c: int| #[trigger] l.contains_key(c) implies NfAllocator::live_ok(
        a.heap@,
        c,
        l[c],
    ) by {
        assert(NfAllocator::live_ok(o.heap@, c, l[c]));
        assert(apart(c, l[c], v, w));
        if j > 0 {
            assert(apart(c, l[c], f[j - 1].0, f[j - 1].1));
        }
        assert(a.heap@[c - 1] == o.heap@[c - 1]);
    }
    assert forall|c: int, i: int| #[trigger] l.contains_key(c) && 0 <= i < g.len() implies apart(
        c,
        l[c],
        (#[trigger] g[i]).0,
        g[i].1,
    ) by {
        if i < j {
            assert(g[i] == f[i]);
            assert(apart(c, l[c], f[i].0, f[i].1));
        } else if i > j {
            assert(g[i] == f[i - 1]);
            assert(apart(c, l[c], f[i - 1].0, f[i - 1].1));
        }
    }
}

/// One merge step: `a` is `o` with blocks `k` and `k + 1`, which touch, merged.
spec fn merge_step(o: NfAllocator, a: NfAllocator, k: int) -> bool {
    let f = o.free@;
    &&& 0 <= k
    &&& k + 1 < f.len()
    &&& adjacent(f, k)
    &&& a.free@ == merge_at(f, k)
    &&& a.live@ == o.live@
    &&& a.cursor@ == cursor_after_merge(f, o.cursor@, k)
    &&& a.globals.nf_head == HEAD
    &&& a.globals.nf_prev as int == pos_addr(merge_at(f, k), cursor_after_merge(f, o.cursor@, k))
    &&& a.globals.nf_last as int == last_addr(merge_at(f, k))
    &&& a.globals.cur_wsz == o.globals.cur_wsz
    &&& a.heap@.len() == o.heap@.len()
    &&& a.heap@[f[k].0] == o.heap@[f[k + 1].0]
    &&& a.heap@[f[k].0 - 1] as int == encode(
        f[k].1 + f[k + 1].1 + 1,
        CAML_BLUE as int,
        DEFAULT_TAG as int,
    )
    &&& forall|x: int|
        0 <= x < o.heap@.len() && x != f[k].0 && x != f[k].0 - 1 ==> a.heap@[x] == o.heap@[x]
}

#[verifier::spinoff_prover]
#[verifier::rlimit(50)]
proof fn lemma_merge_list(o: NfAllocator, a: NfAllocator, k: int)
    requires
        o.list_wf(),
        merge_step(o, a, k),
    ensures
        a.list_wf(),
{
    reveal(NfAllocator::list_wf);
    let f = o.free@;
    let g = a.free@;
    let h0 = o.heap@;
    let h1 = a.heap@;
    let n = f.len() as int;
    assert(NfAllocator::node_ok(h0, f[k]));
    assert(NfAllocator::node_ok(h0, f[k + 1]));
    assert forall|i: int| 0 <= i < g.len() implies g[i] == if i < k {
        f[i]
    } else if i == k {
        (f[k].0, f[k].1 + f[k + 1].1 + 1)
    } else {
        f[i + 1]
    } by {}
    assert forall|i: int| 0 <= i < g.len() implies NfAllocator::node_ok(h1, #[trigger] g[i])
        && h1[g[i].0] as int == link_of(g, i) by {
        if i < k {
            assert(NfAllocator::node_ok(h0, f[i]));
            assert(f[i].0 + f[i].1 <= f[k].0 - 1);
            assert(h1[f[i].0 - 1] == h0[f[i].0 - 1]);
            assert(h1[f[i].0] == h0[f[i].0]);
        } else if i > k {
            assert(NfAllocator::node_ok(h0, f[i + 1]));
            assert(f[k + 1].0 + f[k + 1].1 <= f[i + 1].0 - 1);
            assert(h1[f[i + 1].0 - 1] == h0[f[i + 1].0 - 1]);
            assert(h1[f[i + 1].0] == h0[f[i + 1].0]);
        }
    }
    assert(h1[HEAD as int] == h0[HEAD as int]);
    assert(ordered(g)) by {
        assert forall|x: int, y: int| 0 <= x < y < g.len() implies #[trigger] g[x].0 + g[x].1
            <= #[trigger] g[y].0 - 1 by {
            let fx = if x <= k { x } else { x + 1 };
            let fy = if y <= k { y } else { y + 1 };
            if x == k {
                assert(f[k + 1].0 + f[k + 1].1 <= f[fy].0 - 1);
            } else {
                assert(f[fx].0 + f[fx].1 <= f[fy].0 - 1);
            }
        }
    }
    lemma_free_words_merge(f, k);
}

#[verifier::spinoff_prover]
proof fn lemma_merge_live(o: NfAllocator, a: NfAllocator, k: int)
    requires
        o.list_wf(),
        o.live_wf(),
        merge_step(o, a, k),
    ensures
        a.live_wf(),
{
    reveal(NfAllocator::live_wf);
    lemma_list_facts(o);
    let f = o.free@;
    let g = a.free@;
    let l = o.live@;
    assert forall|c: int| #[trigger] l.contains_key(c) implies NfAllocator::live_ok(
        a.heap@,
        c,
        l[c],
    ) by {
        assert(NfAllocator::live_ok(o.heap@, c, l[c]));
        assert(apart(c, l[c], f[k].0, f[k].1));
        assert(a.heap@[c - 1] == o.heap@[c - 1]);
    }
    assert forall|c: int, i: int| #[trigger] l.contains_key(c) && 0 <= i < g.len() implies apart(
        c,
        l[c],
        (#[trigger] g[i]).0,
        g[i].1,
    ) by {
        if i < k {
            assert(g[i] == f[i]);
            assert(apart(c, l[c], f[i].0, f[i].1));
        } else if i > k {
            assert(g[i] == f[i + 1]);
            assert(apart(c, l[c], f[i + 1].0, f[i + 1].1));
        } else {
            assert(apart(c, l[c], f[k].0, f[k].1));
            assert(apart(c, l[c], f[k + 1].0, f[k + 1].1));
        }
    }
}

impl NfAllocator {
    /// Links block `(v, w)`, whose blue header is already written, into the list at
    /// index `j`, after the link word `prev`.
    fn link_in(&mut self, v: usize, w: usize, prev: usize, Ghost(j): Ghost<int>)
        requires
            old(self).list_wf(),
            old(self).live_wf(),
            0 <= j <= old(self).free@.len(),
            prev == pos_addr(old(self).free@, j),
            SENTINEL_WORDS < v,
            1 <= w,
            v + w <= old(self).heap@.len(),
            old(self).heap@[v - 1] as int == encode(w as int, CAML_BLUE as int, DEFAULT_TAG as int),
            j > 0 ==> old(self).free@[j - 1].0 + old(self).free@[j - 1].1 <= v - 1,
            j < old(self).free@.len() ==> v + w <= old(self).free@[j].0 - 1,
            forall|c: int| #[trigger]
                old(self).live@.contains_key(c) ==> apart(c, old(self).live@[c], v as int, w as int),
        ensures
            final(self).list_wf(),
            final(self).live_wf(),
            final(self).free@ == old(self).free@.insert(j, (v as int, w as int)),
            final(self).live@ == old(self).live@,
            final(self).cursor@ == cursor_after_insert(old(self).cursor@, j),
            final(self).globals.cur_wsz.0 == old(self).globals.cur_wsz.0 + w + 1,
            final(self).pools == old(self).pools,
            final(self).num_of_heap_expansions == old(self).num_of_heap_expansions,
            final(self).min_wosz_expand == old(self).min_wosz_expand,
            final(self).last_expandheap_start_end == old(self).last_expandheap_start_end,
            final(self).heap@.len() == old(self).heap@.len(),
    {
        let ghost f = self.free@;
        let ghost g = f.insert(j, (v as int, w as int));
        proof {
            lemma_list_facts(*self);
            lemma_free_words_insert(f, j, (v as int, w as int));
            assert forall|i: int| 0 <= i < g.len() - 1 implies #[trigger] g[i].0 + g[i].1 <= g[i
                + 1].0 - 1 by {
                if i + 1 < j {
                    assert(f[i].0 + f[i].1 <= f[i + 1].0 - 1);
                } else if i > j {
                    assert(f[i - 1].0 + f[i - 1].1 <= f[i].0 - 1);
                }
            }
            assert forall|i: int| 0 <= i < g.len() implies 1 <= (#[trigger] g[i]).0 && 0 <= g[i].1 by {
                if i != j {
                    let fi = if i < j { i } else { i - 1 };
                    assert(NfAllocator::node_ok(self.heap@, f[fi]));
                }
            }
            lemma_free_words_bound(g);
            if g.len() > 0 {
                let li = g.len() - 1;
                if li != j {
                    assert(NfAllocator::node_ok(self.heap@, f[li - 1]));
                }
            }
            lemma_max_header_wosize();
            assert(pos_addr(f, j) == last_addr(f) <==> j == f.len()) by {
                if j < f.len() && f.len() > 0 {
                    assert(NfAllocator::node_ok(self.heap@, f[j]));
                    if j > 0 {
                        assert(f[j - 1].0 + f[j - 1].1 <= f[f.len() - 1].0 - 1);
                        assert(NfAllocator::node_ok(self.heap@, f[j - 1]));
                    }
                }
            }
        }
        let nx = self.heap[prev];
        self.heap.set(v, nx);
        self.heap.set(prev, v);
        if prev == self.globals.nf_last {
            self.globals.nf_last = v;
        }
        self.globals.cur_wsz = Wsize::new(self.globals.cur_wsz.0 + w + 1);
        self.free = Ghost(g);
        self.cursor = Ghost(cursor_after_insert(self.cursor@, j));
        proof {
            lemma_insert_list(*old(self), *self, v as int, w as int, j);
            lemma_insert_live(*old(self), *self, v as int, w as int, j);
        }
    }

    /// Merges free blocks `k` (at `left`) and `k + 1` (at `right`) when they touch, and
    /// moves the tail and the cursor off the absorbed block. Returns whether they merged.
    fn merge_and_update_global(&mut self, left: usize, right: usize, Ghost(k): Ghost<int>) -> (r: bool)
        requires
            old(self).list_wf(),
            old(self).live_wf(),
            0 <= k,
            k + 1 < old(self).free@.len(),
            left == old(self).free@[k].0,
            right == old(self).free@[k + 1].0,
        ensures
            final(self).list_wf(),
            final(self).live_wf(),
            r == adjacent(old(self).free@, k),
            final(self).free@ == try_merge_seq(old(self).free@, k),
            final(self).live@ == old(self).live@,
            final(self).cursor@ == cursor_after_merge(old(self).free@, old(self).cursor@, k),
            final(self).globals.cur_wsz == old(self).globals.cur_wsz,
            final(self).pools == old(self).pools,
            final(self).num_of_heap_expansions == old(self).num_of_heap_expansions,
            final(self).min_wosz_expand == old(self).min_wosz_expand,
            final(self).last_expandheap_start_end == old(self).last_expandheap_start_end,
            final(self).heap@.len() == old(self).heap@.len(),
    {
        let ghost f = self.free@;
        proof {
            lemma_list_facts(*self);
            lemma_max_header_wosize();
            assert(NfAllocator::node_ok(self.heap@, f[k]));
            assert(NfAllocator::node_ok(self.heap@, f[k + 1]));
        }
        let lw = self.free_wosize_weak(left, Ghost(k));
        if left + lw != right - 1 {
            return false;
        }
        let rw = self.free_wosize_weak(right, Ghost(k + 1));
        let nx = self.heap[right];
        self.heap.set(left, nx);
        self.heap.set(left - 1, Header::new(lw + rw + 1, CAML_BLUE, DEFAULT_TAG).0);
        if self.globals.nf_last == right {
            self.globals.nf_last = left;
        }
        if self.globals.nf_prev == right {
            self.globals.nf_prev = left;
        }
        let ghost p = self.cursor@;
        let ghost g = merge_at(f, k);
        self.free = Ghost(g);
        self.cursor = Ghost(cursor_after_merge(f, p, k));
        proof {
            lemma_encode(lw + rw + 1, CAML_BLUE, 0);
            assert(g.len() == f.len() - 1);
            if p >= 1 && p != k + 2 {
                assert(f[p - 1].0 != right);
            }
            if p == 0 {
                assert(HEAD != right);
            }
            if k + 1 != f.len() - 1 {
                assert(f[k + 1].0 + f[k + 1].1 <= f[f.len() - 1].0 - 1);
            }
            lemma_merge_list(*old(self), *self, k);
            lemma_merge_live(*old(self), *self, k);
        }
        true
    }

    /// The wosize of free block `i`, read from its header; needs only the list invariant.
    fn free_wosize_weak(&self, v: usize, Ghost(i): Ghost<int>) -> (r: usize)
        requires
            self.list_wf(),
            0 <= i < self.free@.len(),
            v == self.free@[i].0,
        ensures
            r == self.free@[i].1,
    {
        proof {
            reveal(NfAllocator::list_wf);
            let b = self.free@[i];
            assert(Self::node_ok(self.heap@, b));
            lemma_encode(b.1, CAML_BLUE, DEFAULT_TAG as usize);
        }
        Header(self.heap[v - 1]).get_wosize().0
    }
}

/// One recoloring step: the live block at `v` turns blue and leaves the live map.
spec fn recolor_step(o: NfAllocator, a: NfAllocator, v: int) -> bool {
    &&& o.live@.contains_key(v)
    &&& a.free@ == o.free@
    &&& a.live@ == o.live@.remove(v)
    &&& a.cursor@ == o.cursor@
    &&& a.globals == o.globals
    &&& a.heap@.len() == o.heap@.len()
    &&& a.heap@[v - 1] as int == encode(o.live@[v], CAML_BLUE as int, DEFAULT_TAG as int)
    &&& forall|x: int| 0 <= x < o.heap@.len() && x != v - 1 ==> a.heap@[x] == o.heap@[x]
}

#[verifier::spinoff_prover]
proof fn lemma_recolor(o: NfAllocator, a: NfAllocator, v: int)
    requires
        o.list_wf(),
        o.live_wf(),
        recolor_step(o, a, v),
    ensures
        a.list_wf(),
        a.live_wf(),
{
    reveal(NfAllocator::list_wf);
    reveal(NfAllocator::live_wf);
    let f = o.free@;
    let l = o.live@;
    let w = l[v];
    assert(NfAllocator::live_ok(o.heap@, v, w));
    assert forall|i: int| 0 <= i < f.len() implies NfAllocator::node_ok(a.heap@, #[trigger] f[i])
        && a.heap@[f[i].0] as int == link_of(f, i) by {
        assert(NfAllocator::node_ok(o.heap@, f[i]));
        assert(apart(v, w, f[i].0, f[i].1));
        assert(a.heap@[f[i].0 - 1] == o.heap@[f[i].0 - 1]);
        assert(a.heap@[f[i].0] == o.heap@[f[i].0]);
    }
    assert(a.heap@[HEAD as int] == o.heap@[HEAD as int]);
    assert forall|c: int| #[trigger] a.live@.contains_key(c) implies NfAllocator::live_ok(
        a.heap@,
        c,
        a.live@[c],
    ) by {
        assert(NfAllocator::live_ok(o.heap@, c, l[c]));
        assert(apart(c, l[c], v, w));
        assert(a.heap@[c - 1] == o.heap@[c - 1]);
    }
}

impl NfAllocator {
    /// The wosize of the allocated block at `v`, read from its header.
    fn live_wosize(&self, v: usize) -> (r: usize)
        requires
            self.live_wf(),
            self.live@.contains_key(v as int),
        ensures
            r == self.live@[v as int],
    {
        proof {
            reveal(NfAllocator::live_wf);
            assert(Self::live_ok(self.heap@, v as int, self.live@[v as int]));
            lemma_max_header_wosize();
            lemma_encode(self.live@[v as int], CAML_BLACK, DEFAULT_TAG as usize);
        }
        Header(self.heap[v - 1]).get_wosize().0
    }

    /// The neighbours in the list of an address `v` strictly between the first and the
    /// last free block: the link word before it, the block after it, and its index.
    fn locate(&self, v: usize) -> (r: (usize, usize, Ghost<int>))
        requires
            self.list_wf(),
            self.free@.len() >= 1,
            self.free@[0].0 < v,
            v < self.free@.last().0,
            forall|i: int| 0 <= i < self.free@.len() ==> (#[trigger] self.free@[i]).0 != v,
        ensures
            1 <= r.2@ < self.free@.len(),
            r.0 as int == self.free@[r.2@ - 1].0,
            r.1 as int == self.free@[r.2@].0,
            self.free@[r.2@ - 1].0 < v < self.free@[r.2@].0,
    {
        let ghost f = self.free@;
        let ghost n = f.len() as int;
        proof {
            reveal(NfAllocator::list_wf);
            assert(NfAllocator::node_ok(self.heap@, f[0]));
        }
        let mut prev = self.heap[HEAD];
        let mut cur = self.heap[prev];
        let mut j: Ghost<int> = Ghost(1);
        while cur < v
            invariant
                self.list_wf(),
                f == self.free@,
                n == f.len(),
                n >= 2,
                v < f[n - 1].0,
                1 <= j@ < n,
                prev as int == f[j@ - 1].0,
                cur as int == f[j@].0,
                f[j@ - 1].0 < v,
                forall|i: int| 0 <= i < n ==> (#[trigger] f[i]).0 != v,
            decreases n - j@,
        {
            proof {
                reveal(NfAllocator::list_wf);
                assert(NfAllocator::node_ok(self.heap@, f[j@]));
                if j@ == n - 1 {
                    assert(false);
                }
            }
            prev = cur;
            cur = self.heap[cur];
            j = Ghost(j@ + 1);
        }
        (prev, cur, j)
    }

    /// Links the blue block `(v, w)` in at index `j` of the list, after the link word
    /// `prev` and before the block at `cur` (null at the end), then merges it with the
    /// block after it and with the block before it, each when they touch.
    #[verifier::spinoff_prover]
    #[verifier::rlimit(50)]
    fn link_and_merge(&mut self, v: usize, w: usize, prev: usize, cur: usize, Ghost(j): Ghost<int>)
        requires
            old(self).list_wf(),
            old(self).live_wf(),
            coalesced(old(self).free@),
            0 <= j <= old(self).free@.len(),
            prev == pos_addr(old(self).free@, j),
            cur == link_of(old(self).free@, j - 1),
            SENTINEL_WORDS < v,
            1 <= w,
            v + w <= old(self).heap@.len(),
            old(self).heap@[v - 1] as int == encode(w as int, CAML_BLUE as int, DEFAULT_TAG as int),
            forall|i: int|
                0 <= i < old(self).free@.len() ==> (i < j ==> (#[trigger] old(self).free@[i]).0
                    + old(self).free@[i].1 <= v - 1) && (i >= j ==> v + w <= old(self).free@[i].0
                    - 1),
            forall|c: int| #[trigger]
                old(self).live@.contains_key(c) ==> apart(c, old(self).live@[c], v as int, w as int),
        ensures
            final(self).list_wf(),
            final(self).live_wf(),
            coalesced(final(self).free@),
            ({
                let g = old(self).free@.insert(j, (v as int, w as int));
                let p1 = cursor_after_insert(old(self).cursor@, j);
                &&& final(self).free@ == try_merge_seq(try_merge_seq(g, j), j - 1)
                &&& final(self).cursor@ == cursor_after_merge(
                    try_merge_seq(g, j),
                    cursor_after_merge(g, p1, j),
                    j - 1,
                )
            }),
            final(self).globals.cur_wsz.0 == old(self).globals.cur_wsz.0 + w + 1,
            final(self).live@ == old(self).live@,
            final(self).pools == old(self).pools,
            final(self).num_of_heap_expansions == old(self).num_of_heap_expansions,
            final(self).min_wosz_expand == old(self).min_wosz_expand,
            final(self).last_expandheap_start_end == old(self).last_expandheap_start_end,
            final(self).heap@.len() == old(self).heap@.len(),
    {
        let ghost f = self.free@;
        let ghost n = f.len() as int;
        let ghost g = f.insert(j, (v as int, w as int));
        proof {
            lemma_list_facts(*self);
            assert forall|i: int| 0 <= i < n implies 1 <= (#[trigger] f[i]).1 by {
                assert(NfAllocator::node_ok(self.heap@, f[i]));
            }
            lemma_insert_list_ordered(f, j, v as int, w as int);
            lemma_freed_coalesced(f, j, v as int, w as int);
            if j > 0 {
                assert(f[j - 1].0 + f[j - 1].1 <= v - 1);
            }
            if j < n {
                assert(v + w <= f[j].0 - 1);
            }
        }
        self.link_in(v, w, prev, Ghost(j));
        if cur != 0 {
            proof {
                if j >= n {
                    assert(false);
                }
            }
            self.merge_and_update_global(v, cur, Ghost(j));
        } else {
            proof {
                if j < n {
                    lemma_list_facts(*old(self));
                    assert(NfAllocator::node_ok(old(self).heap@, f[j]));
                }
            }
        }
        if prev != HEAD {
            proof {
                if j == 0 {
                    assert(false);
                }
            }
            self.merge_and_update_global(prev, v, Ghost(j - 1));
        } else {
            proof {
                if j > 0 {
                    lemma_list_facts(*old(self));
                    assert(NfAllocator::node_ok(old(self).heap@, f[j - 1]));
                }
            }
        }
    }

    /// Frees the allocated block whose value address is `val`: it turns blue, joins the
    /// list in address order, and merges with the free blocks it touches.
    #[verifier::spinoff_prover]
    #[verifier::rlimit(50)]
    pub fn nf_deallocate(&mut self, val: Value)
        requires
            old(self).wf(),
            val.0 % 8 == 0,
            old(self).live_blocks().contains_key((val.0 / 8) as int),
        ensures
            final(self).wf(),
            ({
                let v = (val.0 / 8) as int;
                let w = old(self).live_blocks()[v];
                let f = old(self).free_blocks();
                &&& final(self).free_blocks() == freed(f, v, w)
                &&& final(self).live_blocks() == old(self).live_blocks().remove(v)
                &&& final(self).cursor_pos() == freed_cursor(f, old(self).cursor_pos(), v, w)
                &&& final(self).free_count() == old(self).free_count() + w + 1
                &&& final(self).pool_seq() == old(self).pool_seq()
                &&& final(self).heap_words().len() == old(self).heap_words().len()
                &&& final(self).expansions() == old(self).expansions()
                &&& final(self).min_expansion() == old(self).min_expansion()
                &&& final(self).last_expansion_range() == old(self).last_expansion_range()
            }),
    {
        let v = val.0 / 8;
        let w = self.live_wosize(v);
        proof {
            reveal(NfAllocator::live_wf);
            assert(Self::live_ok(self.heap@, v as int, w as int));
            lemma_max_header_wosize();
        }
        self.heap.set(v - 1, Header::new(w, CAML_BLUE, DEFAULT_TAG).0);
        self.live = Ghost(self.live@.remove(v as int));
        proof {
            lemma_recolor(*old(self), *self, v as int);
        }
        let ghost f = self.free@;
        proof {
            self.lemma_dealloc_room(*old(self), v as int, w as int);
        }
        let (prev, cur, j) = self.position_of(v);
        self.link_and_merge(v, w, prev, cur, j);
        proof {
            let o = *old(self);
            reveal(NfAllocator::pools_cover);
            lemma_list_facts(o);
            assert(in_pool(o.pools@, v as int, w as int));
            let g = f.insert(j@, (v as int, w as int));
            lemma_insert_in_pools(o.pools@, f, j@, (v as int, w as int));
            assert forall|i: int| 0 <= i < g.len() implies 0 <= (#[trigger] g[i]).1 by {
                if i < j@ {
                    assert(g[i] == f[i]);
                    assert(NfAllocator::node_ok(o.heap@, f[i]));
                } else if i > j@ {
                    assert(g[i] == f[i - 1]);
                    assert(NfAllocator::node_ok(o.heap@, f[i - 1]));
                }
            }
            lemma_merge_in_pools(o.pools@, o.heap@.len() as int, g, j@);
            lemma_merge_in_pools(o.pools@, o.heap@.len() as int, try_merge_seq(g, j@), j@ - 1);
            assert forall|c: int| #[trigger] self.live@.contains_key(c) implies in_pool(
                self.pools@,
                c,
                self.live@[c],
            ) by {
                assert(o.live@.contains_key(c));
            }
        }
    }

    /// Where a block at `v` goes in the list: the link word before it, the block after it
    /// (null at the end), and its index.
    fn position_of(&self, v: usize) -> (r: (usize, usize, Ghost<int>))
        requires
            self.list_wf(),
            SENTINEL_WORDS < v,
            forall|i: int| 0 <= i < self.free@.len() ==> (#[trigger] self.free@[i]).0 != v,
        ensures
            r.2@ == insert_pos(self.free@, v as int),
            0 <= r.2@ <= self.free@.len(),
            r.0 as int == pos_addr(self.free@, r.2@),
            r.1 as int == link_of(self.free@, r.2@ - 1),
            forall|i: int|
                0 <= i < self.free@.len() ==> (i < r.2@ ==> (#[trigger] self.free@[i]).0 < v) && (i
                    >= r.2@ ==> self.free@[i].0 > v),
    {
        let ghost f = self.free@;
        let (prev, cur, j) = if v > self.globals.nf_last {
            proof {
                self.lemma_split_last(v as int);
            }
            (self.globals.nf_last, 0, Ghost(f.len() as int))
        } else {
            proof {
                lemma_list_facts(*self);
                reveal(NfAllocator::list_wf);
            }
            let first = self.heap[HEAD];
            if first == 0 || v < first {
                proof {
                    self.lemma_split_first(v as int);
                }
                (HEAD, first, Ghost(0int))
            } else {
                proof {
                    assert(f.last() == f[f.len() - 1]);
                }
                let (prev, cur, jj) = self.locate(v);
                proof {
                    self.lemma_split_middle(v as int, jj@);
                }
                (prev, cur, jj)
            }
        };
        proof {
            lemma_insert_pos(f, v as int, j@);
        }
        (prev, cur, j)
    }

    /// Every free block lies wholly below or wholly above the block being freed, which
    /// meets no other allocated block.
    proof fn lemma_dealloc_room(&self, o: NfAllocator, v: int, w: int)
        requires
            o.live_wf(),
            o.live@.contains_key(v),
            o.live@[v] == w,
            self.list_wf(),
            self.free@ == o.free@,
            self.live@ == o.live@.remove(v),
        ensures
            forall|i: int|
                0 <= i < self.free@.len() ==> ((#[trigger] self.free@[i]).0 < v
                    ==> self.free@[i].0 + self.free@[i].1 <= v - 1) && (self.free@[i].0 > v ==> v
                    + w <= self.free@[i].0 - 1) && self.free@[i].0 != v,
            forall|c: int| #[trigger] self.live@.contains_key(c) ==> apart(c, self.live@[c], v, w),
    {
        reveal(NfAllocator::live_wf);
        reveal(NfAllocator::list_wf);
        let f = self.free@;
        assert forall|i: int| 0 <= i < f.len() implies ((#[trigger] f[i]).0 < v ==> f[i].0 + f[i].1
            <= v - 1) && (f[i].0 > v ==> v + w <= f[i].0 - 1) && f[i].0 != v by {
            assert(apart(v, w, f[i].0, f[i].1));
            assert(NfAllocator::node_ok(self.heap@, f[i]));
        }
        assert forall|c: int| #[trigger] self.live@.contains_key(c) implies apart(
            c,
            self.live@[c],
            v,
            w,
        ) by {
            assert(o.live@.contains_key(c) && c != v);
        }
    }

    /// A block above the last free one goes at the end.
    proof fn lemma_split_last(&self, v: int)
        requires
            self.list_wf(),
            v > self.globals.nf_last,
        ensures
            forall|i: int| 0 <= i < self.free@.len() ==> (#[trigger] self.free@[i]).0 < v,
            self.globals.nf_last as int == pos_addr(self.free@, self.free@.len() as int),
            link_of(self.free@, self.free@.len() - 1) == 0,
    {
        reveal(NfAllocator::list_wf);
        let f = self.free@;
        let n = f.len();
        assert forall|i: int| 0 <= i < n implies (#[trigger] f[i]).0 < v by {
            if i < n - 1 {
                assert(f[i].0 + f[i].1 <= f[n - 1].0 - 1);
                assert(NfAllocator::node_ok(self.heap@, f[i]));
            }
        }
    }

    /// A block below the first free one goes at the start.
    proof fn lemma_split_first(&self, v: int)
        requires
            self.list_wf(),
            self.free@.len() >= 1,
            v < self.free@[0].0,
        ensures
            forall|i: int| 0 <= i < self.free@.len() ==> (#[trigger] self.free@[i]).0 > v,
    {
        reveal(NfAllocator::list_wf);
        let f = self.free@;
        assert forall|i: int| 0 <= i < f.len() implies (#[trigger] f[i]).0 > v by {
            if i > 0 {
                assert(f[0].0 + f[0].1 <= f[i].0 - 1);
                assert(NfAllocator::node_ok(self.heap@, f[0]));
            }
        }
    }

    /// A block between blocks `j - 1` and `j` goes at index `j`.
    proof fn lemma_split_middle(&self, v: int, j: int)
        requires
            self.list_wf(),
            1 <= j < self.free@.len(),
            self.free@[j - 1].0 < v < self.free@[j].0,
        ensures
            forall|i: int|
                0 <= i < self.free@.len() ==> (i < j ==> (#[trigger] self.free@[i]).0 < v) && (i
                    >= j ==> self.free@[i].0 > v),
    {
        reveal(NfAllocator::list_wf);
        let f = self.free@;
        assert forall|i: int| 0 <= i < f.len() implies (i < j ==> (#[trigger] f[i]).0 < v) && (i
            >= j ==> f[i].0 > v) by {
            if i < j - 1 {
                assert(f[i].0 + f[i].1 <= f[j - 1].0 - 1);
                assert(NfAllocator::node_ok(self.heap@, f[i]));
            }
            if i > j {
                assert(f[j].0 + f[j].1 <= f[i].0 - 1);
                assert(NfAllocator::node_ok(self.heap@, f[j]));
            }
        }
    }
}


/// Whether the heap, at `heap_len` words, can grow by the pool an expansion for
/// `request` words obtains: the request is in range, the pool can hold its record,
/// and the heap stays within its limit.
pub open spec fn expansion_fits(heap_len: int, request: int, min_wosz_expand: int) -> bool {
    &&& request <= MAX_EXPANSION_WOSIZE / 2
    &&& pool_size(request, min_wosz_expand) >= POOL_RECORD_WORDS
    &&& heap_len + pool_size(request, min_wosz_expand) <= MAX_HEAP_WORDS
}

/// The free block a pool starting at heap word `start` with `pool_wo_sz` words is born with.
pub open spec fn pool_block(start: int, pool_wo_sz: int) -> (int, int) {
    (start + POOL_RECORD_WORDS - 1, pool_wo_sz - POOL_RECORD_WORDS + 1)
}

/// One growth step: the heap got longer and kept its old words.
spec fn grow_step(o: NfAllocator, a: NfAllocator) -> bool {
    &&& a.free@ == o.free@
    &&& a.live@ == o.live@
    &&& a.cursor@ == o.cursor@
    &&& a.globals == o.globals
    &&& o.heap@.len() <= a.heap@.len() <= MAX_HEAP_WORDS
    &&& forall|x: int| 0 <= x < o.heap@.len() ==> a.heap@[x] == o.heap@[x]
}

proof fn lemma_grow(o: NfAllocator, a: NfAllocator)
    requires
        o.list_wf(),
        o.live_wf(),
        grow_step(o, a),
    ensures
        a.list_wf(),
        a.live_wf(),
{
    reveal(NfAllocator::list_wf);
    reveal(NfAllocator::live_wf);
    let f = o.free@;
    assert forall|i: int| 0 <= i < f.len() implies NfAllocator::node_ok(a.heap@, #[trigger] f[i])
        && a.heap@[f[i].0] as int == link_of(f, i) by {
        assert(NfAllocator::node_ok(o.heap@, f[i]));
    }
    assert forall|c: int| #[trigger] a.live@.contains_key(c) implies NfAllocator::live_ok(
        a.heap@,
        c,
        a.live@[c],
    ) by {
        assert(NfAllocator::live_ok(o.heap@, c, o.live@[c]));
    }
}

impl NfAllocator {
    /// Adds the blue block `(v, w)`, whose header is already written, to the list in
    /// address order. It is not merged: it must be apart from every free block.
    fn nf_add_block(&mut self, v: usize, w: usize)
        requires
            old(self).list_wf(),
            old(self).live_wf(),
            coalesced(old(self).free@),
            SENTINEL_WORDS < v,
            1 <= w,
            v + w <= old(self).heap@.len(),
            old(self).heap@[v - 1] as int == encode(w as int, CAML_BLUE as int, DEFAULT_TAG as int),
            forall|i: int|
                0 <= i < old(self).free@.len() ==> (#[trigger] old(self).free@[i]).0
                    + old(self).free@[i].1 < v - 1 || v + w < old(self).free@[i].0 - 1,
            forall|c: int| #[trigger]
                old(self).live@.contains_key(c) ==> apart(c, old(self).live@[c], v as int, w as int),
        ensures
            final(self).list_wf(),
            final(self).live_wf(),
            coalesced(final(self).free@),
            final(self).free@ == old(self).free@.insert(
                insert_pos(old(self).free@, v as int),
                (v as int, w as int),
            ),
            final(self).cursor@ == cursor_after_insert(
                old(self).cursor@,
                insert_pos(old(self).free@, v as int),
            ),
            final(self).globals.cur_wsz.0 == old(self).globals.cur_wsz.0 + w + 1,
            final(self).live@ == old(self).live@,
            final(self).pools == old(self).pools,
            final(self).num_of_heap_expansions == old(self).num_of_heap_expansions,
            final(self).min_wosz_expand == old(self).min_wosz_expand,
            final(self).last_expandheap_start_end == old(self).last_expandheap_start_end,
            final(self).heap@.len() == old(self).heap@.len(),
    {
        let ghost f = self.free@;
        proof {
            lemma_list_facts(*self);
            assert forall|i: int| 0 <= i < f.len() implies (#[trigger] f[i]).0 != v by {
                assert(NfAllocator::node_ok(self.heap@, f[i]));
            }
        }
        let (prev, _cur, j) = self.position_of(v);
        proof {
            if j@ > 0 {
                assert(NfAllocator::node_ok(self.heap@, f[j@ - 1]));
            }
            if j@ < f.len() {
                assert(NfAllocator::node_ok(self.heap@, f[j@]));
            }
            lemma_insert_coalesced(f, j@, v as int, w as int);
        }
        self.link_in(v, w, prev, j);
    }

    /// Grows the heap by one pool, sized for `request_wo_sz` words, and adds its block
    /// to the free list. Returns false, changing nothing, when the pool cannot be had.
    #[verifier::spinoff_prover]
    #[verifier::rlimit(50)]
    pub fn nf_expand_heap(&mut self, request_wo_sz: Wsize) -> (r: bool)
        requires
            old(self).wf(),
        ensures
            final(self).wf(),
            r == expansion_fits(
                old(self).heap_words().len() as int,
                request_wo_sz.0 as int,
                old(self).min_expansion(),
            ),
            !r ==> *final(self) == *old(self),
            r ==> ({
                let start = old(self).heap_words().len() as int;
                let pw = pool_size(request_wo_sz.0 as int, old(self).min_expansion());
                &&& final(self).heap_words().len() == start + pw
                &&& final(self).free_blocks() == old(self).free_blocks().push(pool_block(start, pw))
                &&& final(self).free_count() == old(self).free_count() + pw - POOL_HEADER_WORDS
                &&& final(self).live_blocks() == old(self).live_blocks()
                &&& final(self).cursor_pos() == old(self).cursor_pos()
                &&& final(self).expansions() == old(self).expansions() + 1
                &&& final(self).min_expansion() == old(self).min_expansion()
                &&& final(self).pool_seq().len() == old(self).pool_seq().len() + 1
                &&& final(self).pool_seq().last().start == start
                &&& final(self).pool_seq().last().pool_wo_sz.0 == pw
                &&& final(self).free_blocks().len() == old(self).free_blocks().len() + 1
                &&& final(self).free_blocks().last().1 == (pw - POOL_HEADER_WORDS) - 1
                &&& final(self).last_expansion_range().0 == (start + POOL_HEADER_WORDS) * 8
                &&& final(self).last_expansion_range().1 == (start + POOL_HEADER_WORDS) * 8 + (pw
                    - POOL_RECORD_WORDS + 1) * 8
            }),
    {
        proof {
            lemma_max_header_wosize();
            lemma_list_facts(*self);
        }
        if request_wo_sz.0 > MAX_EXPANSION_WOSIZE / 2 {
            return false;
        }
        let (_layout, pool_words) = get_layout_and_actual_expansion_size(
            request_wo_sz,
            self.min_wosz_expand,
        );
        let pool_wo_sz = pool_words.0;
        if pool_wo_sz < POOL_RECORD_WORDS || pool_wo_sz > MAX_HEAP_WORDS - self.heap.len() {
            return false;
        }
        let start = self.heap.len();
        let mut chunk: Vec<usize> = vec![0usize; pool_wo_sz];
        self.heap.append(&mut chunk);
        self.heap.set(start, pool_wo_sz);
        let bw = Pool::get_header_size_from_pool_wo_sz(Wsize::new(pool_wo_sz)).0;
        let hp = start + POOL_HEADER_WORDS;
        self.heap.set(hp, Header::new(bw, CAML_BLUE, DEFAULT_TAG).0);
        proof {
            lemma_grow(*old(self), *self);
            lemma_encode(bw as int, CAML_BLUE, 0);
        }
        let ghost ps0 = self.pools@;
        let idx = self.pools.len();
        self.pools.push(Pool { pool_wo_sz: Wsize::new(pool_wo_sz), prev: idx, next: idx, start });
        let last = self.pools[0].prev;
        proof {
            assert(ps0[0].prev == idx - 1);
            assert(self.pools@[last as int].next == 0);
        }
        Pool::insert_right_after_left(&mut self.pools, last, idx);
        proof {
            let ps = self.pools@;
            let n = ps.len() as int;
            assert forall|i: int| 0 <= i < n implies (#[trigger] ps[i]).next == crate::pool::succ(
                i,
                n,
            ) && ps[i].prev == crate::pool::pred(i, n) by {
                if i < idx {
                    assert(ps0[i].next == crate::pool::succ(i, idx as int));
                    assert(ps0[i].prev == crate::pool::pred(i, idx as int));
                }
            }
            assert forall|i: int| 1 <= i < n implies (#[trigger] ps[i]).pool_wo_sz.0
                >= POOL_RECORD_WORDS && ps[i].start + ps[i].pool_wo_sz.0 <= self.heap@.len() by {
                if i < idx {
                    assert(ps0[i].start + ps0[i].pool_wo_sz.0 <= start);
                }
            }
            assert forall|i: int, j: int| 1 <= i < j < n implies #[trigger] ps[i].start
                + ps[i].pool_wo_sz.0 <= #[trigger] ps[j].start by {
                if j < idx {
                    assert(ps0[i].start + ps0[i].pool_wo_sz.0 <= ps0[j].start);
                } else {
                    assert(ps0[i].start + ps0[i].pool_wo_sz.0 <= start);
                }
            }
        }
        self.num_of_heap_expansions = self.num_of_heap_expansions + 1;
        self.last_expandheap_start_end = (hp * 8, hp * 8 + bw * 8);
        let ghost f = self.free@;
        proof {
            reveal(NfAllocator::live_wf);
            reveal(NfAllocator::list_wf);
            let o = *old(self);
            assert forall|i: int| 0 <= i < f.len() implies (#[trigger] f[i]).0 + f[i].1 < hp by {
                assert(NfAllocator::node_ok(o.heap@, f[i]));
            }
            assert forall|c: int| #[trigger] self.live@.contains_key(c) implies apart(
                c,
                self.live@[c],
                (hp + 1) as int,
                bw as int,
            ) by {
                assert(NfAllocator::live_ok(o.heap@, c, o.live@[c]));
            }
            if f.len() > 0 {
                assert(NfAllocator::node_ok(o.heap@, f[f.len() - 1]));
            }
            lemma_insert_pos(f, (hp + 1) as int, f.len() as int);
        }
        self.nf_add_block(hp + 1, bw);
        proof {
            assert(f.insert(f.len() as int, (hp + 1, bw as int)) =~= f.push((hp + 1, bw as int)));
            let o = *old(self);
            let ps = self.pools@;
            reveal(NfAllocator::pools_cover);
            assert(ps[idx as int].start == start && ps[idx as int].pool_wo_sz.0 == pool_wo_sz);
            assert(in_pool(ps, (hp + 1) as int, bw as int));
            assert forall|i: int| 0 <= i < o.pools@.len() implies (#[trigger] ps[i]).start
                == o.pools@[i].start && ps[i].pool_wo_sz == o.pools@[i].pool_wo_sz by {
                assert(ps0[i] == o.pools@[i]);
            }
            let g = self.free@;
            assert forall|i: int| 0 <= i < g.len() implies in_pool(ps, (#[trigger] g[i]).0, g[i].1) by {
                if i < f.len() {
                    assert(g[i] == f[i]);
                    assert(in_pool(o.pools@, f[i].0, f[i].1));
                    lemma_in_pool_grow(o.pools@, ps, f[i].0, f[i].1);
                }
            }
            assert forall|c: int| #[trigger] self.live@.contains_key(c) implies in_pool(
                ps,
                c,
                self.live@[c],
            ) by {
                lemma_in_pool_grow(o.pools@, ps, c, o.live@[c]);
            }
        }
        true
    }
}

/// `a` is `o` after a pool sized for `wo` words was added and `wo` words were then
/// allocated by next fit, at value address `r`.
pub open spec fn grown_allocation(o: NfAllocator, a: NfAllocator, wo: int, r: Value) -> bool {
    let pw = pool_size(expansion_request(wo), o.min_expansion());
    let g = o.free_blocks().push(pool_block(o.heap_words().len() as int, pw));
    let k = first_fit_from(g, o.cursor_pos(), wo, 0);
    let i = rev_idx(o.cursor_pos(), g.len() as int, k);
    &&& k < g.len()
    &&& r.0 == carved_value(g, i, wo) * 8
    &&& a.free_blocks() == carve(g, i, wo)
    &&& a.live_blocks() == o.live_blocks().insert(carved_value(g, i, wo), wo)
    &&& a.cursor_pos() == i
    &&& a.expansions() == o.expansions() + 1
    &&& a.heap_words().len() == o.heap_words().len() + pw
    &&& a.pool_seq().len() == o.pool_seq().len() + 1
}

/// Words an allocation of `wo` words asks the heap to grow by when nothing fits: enough
/// for the pool's record around a block of `wo` words.
pub open spec fn expansion_request(wo: int) -> int {
    wo + POOL_RECORD_WORDS - 1
}

impl NfAllocator {
    /// Allocates a block of `wo_sz` words, growing the heap by one pool when no free
    /// block is large enough. Returns the block's value address. When the heap cannot
    /// grow, returns the address one word above null, whose header slot is null.
    #[verifier::spinoff_prover]
    #[verifier::rlimit(100)]
    pub fn allocate(&mut self, wo_sz: Wsize) -> (r: Value)
        requires
            old(self).wf(),
            wo_sz.0 >= 1,
        ensures
            final(self).wf(),
            ({
                let f = old(self).free_blocks();
                let s = old(self).cursor_pos();
                let wo = wo_sz.0 as int;
                let k = first_fit_from(f, s, wo, 0);
                let i = rev_idx(s, f.len() as int, k);
                if k < f.len() {
                    &&& r.0 == carved_value(f, i, wo) * 8
                    &&& final(self).free_blocks() == carve(f, i, wo)
                    &&& final(self).live_blocks() == old(self).live_blocks().insert(
                        carved_value(f, i, wo),
                        wo,
                    )
                    &&& final(self).expansions() == old(self).expansions()
                } else {
                    let grows = expansion_fits(
                        old(self).heap_words().len() as int,
                        expansion_request(wo),
                        old(self).min_expansion(),
                    );
                    &&& (r.0 == 8) == !grows
                    &&& !grows ==> *final(self) == *old(self)
                    &&& grows ==> grown_allocation(*old(self), *final(self), wo, r)
                }
            }),
    {
        proof {
            lemma_max_header_wosize();
        }
        let hp = self.nf_allocate(wo_sz);
        if hp.0 != 0 {
            return Value(hp.0 + 8);
        }
        self.grow_and_allocate(wo_sz)
    }

    /// Grows the heap by a pool that can hold `wo_sz` words and allocates from it; used
    /// when no free block is large enough.
    #[verifier::spinoff_prover]
    #[verifier::rlimit(50)]
    fn grow_and_allocate(&mut self, wo_sz: Wsize) -> (r: Value)
        requires
            old(self).wf(),
            wo_sz.0 >= 1,
        ensures
            final(self).wf(),
            ({
                let wo = wo_sz.0 as int;
                let grows = expansion_fits(
                    old(self).heap_words().len() as int,
                    expansion_request(wo),
                    old(self).min_expansion(),
                );
                &&& (r.0 == 8) == !grows
                &&& !grows ==> *final(self) == *old(self)
                &&& grows ==> grown_allocation(*old(self), *final(self), wo, r)
            }),
    {
        proof {
            lemma_max_header_wosize();
        }
        if wo_sz.0 > MAX_EXPANSION_WOSIZE / 2 - (POOL_RECORD_WORDS - 1) {
            return Value(8);
        }
        let request = Wsize::new(wo_sz.0 + (POOL_RECORD_WORDS - 1));
        let ghost f = self.free@;
        let ghost start = self.heap@.len() as int;
        if !self.nf_expand_heap(request) {
            return Value(8);
        }
        proof {
            let req = request.0 as int;
            let act = crate::utils::actual_expansion(req, self.min_wosz_expand.0 as int);
            lemma_pow2_from_ge(act * 8, 1);
            let pw = pool_size(req, self.min_wosz_expand.0 as int);
            assert(pw >= act);
            assert(act >= req);
            let g = self.free@;
            assert(g[f.len() as int] == pool_block(start, pw));
            lemma_list_facts(*self);
            lemma_first_fit_found(g, self.cursor@, wo_sz.0 as int, f.len() as int);
            lemma_first_fit(g, self.cursor@, wo_sz.0 as int, 0);
            let k = first_fit_from(g, self.cursor@, wo_sz.0 as int, 0);
            let i = rev_idx(self.cursor@, g.len() as int, k);
            assert(NfAllocator::node_ok(self.heap@, g[i]));
        }
        let hp2 = self.nf_allocate(wo_sz);
        Value(hp2.0 + 8)
    }

    /// Frees the block whose value address is `bp`; does nothing when its header slot
    /// is null (what a failed allocation returned).
    pub fn deallocate(&mut self, bp: Value)
        requires
            old(self).wf(),
            field_addr(bp, -1isize) == 0 || (bp.0 % 8 == 0 && old(self).live_blocks().contains_key(
                (bp.0 / 8) as int,
            )),
        ensures
            final(self).wf(),
            field_addr(bp, -1isize) == 0 ==> *final(self) == *old(self),
            field_addr(bp, -1isize) != 0 ==> ({
                let v = (bp.0 / 8) as int;
                let w = old(self).live_blocks()[v];
                let f = old(self).free_blocks();
                &&& final(self).free_blocks() == freed(f, v, w)
                &&& final(self).live_blocks() == old(self).live_blocks().remove(v)
                &&& final(self).free_count() == old(self).free_count() + w + 1
            }),
    {
        let hd = field_val(bp, -1);
        if hd.0 == 0 {
            return;
        }
        self.nf_deallocate(bp);
    }

    /// The pool directory.
    pub fn get_pools(&self) -> (r: &Vec<Pool>)
        ensures
            r@ == self.pool_seq(),
    {
        &self.pools
    }

    /// A walk over the pool directory from its sentinel.
    pub fn get_pool_iter(&self) -> (r: PoolIter)
        ensures
            r.at() == 0,
            r.origin() == 0,
    {
        PoolIter::new(0)
    }

    /// Number of pools obtained from the host (the sentinel pool is not counted).
    pub fn count_pools(&self) -> (r: usize)
        requires
            self.wf(),
        ensures
            r == self.pool_seq().len() - 1,
            r == self.expansions(),
    {
        let mut it = self.get_pool_iter();
        let mut count: usize = 0;
        proof {
            lemma_max_header_wosize();
            lemma_list_facts(*self);
        }
        loop
            invariant
                self.wf(),
                directory_wf(self.pools@, self.heap@.len() as int),
                self.pools@.len() <= self.heap@.len() <= MAX_HEAP_WORDS,
                it.origin() == 0,
                0 <= it.at() < self.pools@.len(),
                count == it.at(),
            decreases self.pools@.len() - it.at(),
        {
            match it.next(&self.pools) {
                None => {
                    return count;
                },
                Some(_) => {
                    count = count + 1;
                },
            }
        }
    }

    /// Walks one sweep of the free list and checks that each block lies above the link
    /// word before it and that the tail register names the highest block.
    pub fn verify_nf_last_invariant(&self) -> (r: bool)
        requires
            self.wf(),
        ensures
            r,
    {
        let items = FreeList::new(self).nf_iter();
        let ghost f = self.free@;
        let ghost n = f.len() as int;
        let ghost s = self.cursor@;
        proof {
            lemma_list_facts(*self);
        }
        let mut sorted = true;
        let mut largest: usize = 0;
        let mut k: usize = 0;
        while k < items.len()
            invariant
                self.wf(),
                f == self.free@,
                n == f.len(),
                s == self.cursor@,
                0 <= s <= n,
                ordered(f),
                forall|i: int| 0 <= i < n ==> NfAllocator::node_ok(self.heap@, #[trigger] f[i]),
                self.heap@.len() <= MAX_HEAP_WORDS,
                items.len() == n,
                forall|q: int|
                    0 <= q < n ==> (#[trigger] items[q]).prev_word() == pos_addr(f, rev_idx(s, n, q))
                        && items[q].cur_word() == f[rev_idx(s, n, q)].0,
                0 <= k <= n,
                sorted,
                largest == 0 || exists|q: int| 0 <= q < n && largest == f[q].0,
                forall|q: int| 0 <= q < k ==> f[rev_idx(s, n, q)].0 <= largest,
            decreases n - k,
        {
            let ghost i = rev_idx(s, n, k as int);
            proof {
                if i > 0 {
                    assert(f[i - 1].0 + f[i - 1].1 <= f[i].0 - 1);
                }
            }
            let it = items[k];
            if !(it.get_prev().0 < it.get_cur().0) {
                sorted = false;
            }
            if it.get_cur().0 / 8 > largest {
                largest = it.get_cur().0 / 8;
            }
            k = k + 1;
        }
        let nf_last = self.globals.nf_last;
        proof {
            if n > 0 {
                let q = if n - 1 >= s { n - 1 - s } else { n - 1 + n - s };
                assert(rev_idx(s, n, q) == n - 1);
                assert(f[n - 1].0 <= largest);
                let q2 = choose|q: int| 0 <= q < n && largest == f[q].0;
                if q2 < n - 1 {
                    assert(f[q2].0 + f[q2].1 <= f[n - 1].0 - 1);
                }
            }
        }
        sorted && (nf_last == HEAD || largest == nf_last)
    }
}


impl NfAllocator {
    /// The header of the block whose value address is `val`.
    pub fn get_header(&self, val: Value) -> (r: Header)
        requires
            val.0 % 8 == 0,
            8 <= val.0,
            val.0 / 8 <= self.heap_words().len(),
        ensures
            r.0 == self.heap_words()[val.0 / 8 - 1],
    {
        Header(self.heap[val.0 / 8 - 1])
    }

    /// What the allocator's invariant guarantees, stated over its views: the free list
    /// is sorted by address, the tail register names its highest block, the free-word
    /// counter is the sum of the free blocks' whsizes, no two blocks, free or allocated,
    /// share a word, free blocks carry a blue header and allocated ones a black one, and
    /// every block lies in the payload of a pool.
    #[verifier::spinoff_prover]
    #[verifier::rlimit(50)]
    pub proof fn lemma_invariants(&self)
        requires
            self.wf(),
        ensures
            ({
                let f = self.free_blocks();
                let l = self.live_blocks();
                let g = self.regs();
                &&& forall|i: int, j: int| 0 <= i < j < f.len() ==> #[trigger] f[i].0 < #[trigger] f[j].0
                &&& f.len() > 0 ==> g.nf_last as int == f.last().0 && forall|i: int|
                    0 <= i < f.len() ==> #[trigger] f[i].0 <= g.nf_last
                &&& f.len() == 0 ==> g.nf_last == g.nf_head && g.nf_head == HEAD
                    && self.heap_words()[HEAD as int] == 0
                &&& g.cur_wsz.0 as int == free_words(f)
                &&& g.nf_prev as int == pos_addr(f, self.cursor_pos())
                &&& forall|i: int, j: int|
                    0 <= i < j < f.len() ==> apart(#[trigger] f[i].0, f[i].1, #[trigger] f[j].0, f[j].1)
                &&& forall|c: int, i: int|
                    #[trigger] l.contains_key(c) && 0 <= i < f.len() ==> apart(
                        c,
                        l[c],
                        (#[trigger] f[i]).0,
                        f[i].1,
                    )
                &&& forall|c: int, d: int|
                    #[trigger] l.contains_key(c) && #[trigger] l.contains_key(d) && c != d ==> apart(
                        c,
                        l[c],
                        d,
                        l[d],
                    )
                &&& forall|i: int| 0 <= i < f.len() ==> 1 <= (#[trigger] f[i]).1
                &&& forall|c: int| #[trigger] l.contains_key(c) ==> 1 <= l[c]
                &&& coalesced(f)
                &&& 0 <= self.cursor_pos() <= f.len()
                &&& forall|i: int|
                    0 <= i < f.len() ==> self.heap_words()[(#[trigger] f[i]).0 - 1] as int == encode(
                        f[i].1,
                        CAML_BLUE as int,
                        DEFAULT_TAG as int,
                    ) && in_pool(self.pool_seq(), f[i].0, f[i].1)
                &&& forall|c: int| #[trigger]
                    l.contains_key(c) ==> self.heap_words()[c - 1] as int == encode(
                        l[c],
                        CAML_BLACK as int,
                        DEFAULT_TAG as int,
                    ) && in_pool(self.pool_seq(), c, l[c])
            }),
    {
        reveal(NfAllocator::list_wf);
        reveal(NfAllocator::live_wf);
        reveal(NfAllocator::pools_cover);
        assert forall|c: int| #[trigger] self.live@.contains_key(c) implies 1 <= self.live@[c] by {
            assert(NfAllocator::live_ok(self.heap@, c, self.live@[c]));
        }
        assert forall|i: int| 0 <= i < self.free@.len() implies self.heap@[(#[trigger] self.free@[i]).0
            - 1] as int == encode(self.free@[i].1, CAML_BLUE as int, DEFAULT_TAG as int) by {
            assert(NfAllocator::node_ok(self.heap@, self.free@[i]));
        }
        assert forall|c: int| #[trigger] self.live@.contains_key(c) implies self.heap@[c - 1] as int
            == encode(self.live@[c], CAML_BLACK as int, DEFAULT_TAG as int) by {
            assert(NfAllocator::live_ok(self.heap@, c, self.live@[c]));
        }
        let f = self.free@;
        assert forall|i: int, j: int| 0 <= i < j < f.len() implies #[trigger] f[i].0 < #[trigger] f[j].0 by {
            assert(f[i].0 + f[i].1 <= f[j].0 - 1);
            assert(NfAllocator::node_ok(self.heap@, f[i]));
        }
        assert forall|i: int| 0 <= i < f.len() implies 1 <= (#[trigger] f[i]).1 by {
            assert(NfAllocator::node_ok(self.heap@, f[i]));
        }
        if f.len() > 0 {
            assert forall|i: int| 0 <= i < f.len() implies #[trigger] f[i].0 <= self.globals.nf_last by {
                if i < f.len() - 1 {
                    assert(f[i].0 + f[i].1 <= f[f.len() - 1].0 - 1);
                }
            }
        }
        assert forall|i: int, j: int| 0 <= i < j < f.len() implies apart(
            #[trigger] f[i].0,
            f[i].1,
            #[trigger] f[j].0,
            f[j].1,
        ) by {
            assert(f[i].0 + f[i].1 <= f[j].0 - 1);
        }
    }
}


impl NfAllocator {
    /// The link word of the free block whose value address is `val`: the address of the
    /// next free block, or null after the last.
    pub fn get_next(&self, val: Value) -> (r: Value)
        requires
            self.wf(),
            exists|i: int|
                0 <= i < self.free_blocks().len() && (#[trigger] self.free_blocks()[i]).0 * 8 == val.0,
        ensures
            forall|i: int|
                0 <= i < self.free_blocks().len() && (#[trigger] self.free_blocks()[i]).0 * 8 == val.0
                    ==> r.0 == link_of(self.free_blocks(), i) * 8,
    {
        let ghost f = self.free@;
        let ghost i = choose|i: int| 0 <= i < f.len() && (#[trigger] f[i]).0 * 8 == val.0;
        proof {
            reveal(NfAllocator::list_wf);
            lemma_max_header_wosize();
            assert(NfAllocator::node_ok(self.heap@, f[i]));
            if i + 1 < f.len() {
                assert(NfAllocator::node_ok(self.heap@, f[i + 1]));
            }
            assert forall|k: int| 0 <= k < f.len() && (#[trigger] f[k]).0 * 8 == val.0 implies k
                == i by {
                if k < i {
                    assert(f[k].0 + f[k].1 <= f[i].0 - 1);
                    assert(NfAllocator::node_ok(self.heap@, f[k]));
                } else if k > i {
                    assert(f[i].0 + f[i].1 <= f[k].0 - 1);
                }
            }
        }
        Value(self.heap[val.0 / 8] * 8)
    }
}

} // verus!
