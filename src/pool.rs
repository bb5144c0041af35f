//! The pool directory: chunks obtained from the host, kept in a circular doubly-linked
//! list whose links are indices into a growable vector. Entry 0 is the sentinel pool.
use vstd::prelude::*;

use crate::word::Wsize;

verus! {

/// Words at the start of a pool before its block's header: pool wosize, prev, next, filler.
pub const POOL_HEADER_WORDS: usize = 4;

/// Words in a pool record: the four above, the block's header and its first field.
pub const POOL_RECORD_WORDS: usize = 6;

/// One pool: its word size, its directory neighbours, and the heap word where it starts.
#[derive(Debug, Clone, Copy, PartialEq, Eq, Structural)]
pub struct Pool {
    pub pool_wo_sz: Wsize,
    pub prev: usize,
    pub next: usize,
    pub start: usize,
}

impl Pool {
    /// The wosize of the one free block that a pool of `pool_wo_sz` words is born with.
    pub fn get_header_size_from_pool_wo_sz(pool_wo_sz: Wsize) -> (r: Wsize)
        requires
            pool_wo_sz.0 >= POOL_RECORD_WORDS,
        ensures
            r.0 == pool_wo_sz.0 - POOL_RECORD_WORDS + 1,
    {
        Wsize::new(pool_wo_sz.0 - POOL_RECORD_WORDS + 1)
    }

    pub fn get_next_raw(&self) -> (r: usize)
        ensures
            r == self.next,
    {
        self.next
    }

    pub fn get_prev_raw(&self) -> (r: usize)
        ensures
            r == self.prev,
    {
        self.prev
    }

    /// Splices entry `right` into the directory right after entry `left`.
    pub fn insert_right_after_left(ps: &mut Vec<Pool>, left: usize, right: usize)
        requires
            left < old(ps).len(),
            right < old(ps).len(),
            left != right,
            old(ps)[left as int].next < old(ps).len(),
            old(ps)[left as int].next != right,
        ensures
            final(ps).len() == old(ps).len(),
            ({
                let nx = old(ps)[left as int].next as int;
                forall|i: int|
                    0 <= i < final(ps).len() ==> #[trigger] final(ps)[i] == if i == right {
                        Pool { prev: left, next: nx as usize, ..old(ps)[i] }
                    } else if i == left && i == nx {
                        Pool { next: right, prev: right, ..old(ps)[i] }
                    } else if i == left {
                        Pool { next: right, ..old(ps)[i] }
                    } else if i == nx {
                        Pool { prev: right, ..old(ps)[i] }
                    } else {
                        old(ps)[i]
                    }
            }),
    {
        let cur_left_next = ps[left].next;
        let mut r = ps[right];
        r.next = cur_left_next;
        r.prev = left;
        ps.set(right, r);
        let mut n = ps[cur_left_next];
        n.prev = right;
        ps.set(cur_left_next, n);
        let mut l = ps[left];
        l.next = right;
        ps.set(left, l);
    }
}

/// Index of the entry after `i` in a circular directory of `n` entries.
pub open spec fn succ(i: int, n: int) -> int {
    if i + 1 < n {
        i + 1
    } else {
        0
    }
}

/// Index of the entry before `i` in a circular directory of `n` entries.
pub open spec fn pred(i: int, n: int) -> int {
    if i == 0 {
        n - 1
    } else {
        i - 1
    }
}

/// The directory is circular, starts with the sentinel, and its pools lie in
/// increasing, non-overlapping address order below `limit`.
pub open spec fn directory_wf(ps: Seq<Pool>, limit: int) -> bool {
    &&& ps.len() >= 1
    &&& ps[0].pool_wo_sz.0 == 0
    &&& ps[0].start == 0
    &&& forall|i: int|
        0 <= i < ps.len() ==> (#[trigger] ps[i]).next == succ(i, ps.len() as int) && ps[i].prev
            == pred(i, ps.len() as int)
    &&& forall|i: int|
        1 <= i < ps.len() ==> (#[trigger] ps[i]).pool_wo_sz.0 >= POOL_RECORD_WORDS
            && ps[i].start + ps[i].pool_wo_sz.0 <= limit
    &&& forall|i: int, j: int|
        1 <= i < j < ps.len() ==> #[trigger] ps[i].start + ps[i].pool_wo_sz.0 <= #[trigger] ps[j].start
}

/// Walks a directory from its sentinel, yielding each real pool once.
#[derive(Debug, Clone, Copy)]
pub struct PoolIter {
    start: usize,
    cur: usize,
}

/// The index of a pool in the directory.
#[derive(Debug, Clone, Copy)]
pub struct PoolIterVal(pub usize);

impl PoolIterVal {
    pub fn get_pool<'a>(&self, ps: &'a Vec<Pool>) -> (r: &'a Pool)
        requires
            self.0 < ps.len(),
        ensures
            *r == ps[self.0 as int],
    {
        &ps[self.0]
    }
}

impl PoolIter {
    /// The index the walk stands at.
    pub closed spec fn at(&self) -> int {
        self.cur as int
    }

    /// The index the walk started from.
    pub closed spec fn origin(&self) -> int {
        self.start as int
    }

    /// An iterator over the pools after `head`.
    pub fn new(head: usize) -> (r: PoolIter)
        ensures
            r.at() == head,
            r.origin() == head,
    {
        PoolIter { start: head, cur: head }
    }

    /// The next pool, or `None` once the walk is back at its start.
    pub fn next(&mut self, ps: &Vec<Pool>) -> (r: Option<PoolIterVal>)
        requires
            directory_wf(ps@, usize::MAX as int),
            old(self).origin() == 0,
            old(self).at() < ps.len(),
        ensures
            final(self).origin() == 0,
            final(self).at() < ps.len(),
            old(self).at() + 1 < ps.len() ==> r == Some(PoolIterVal((old(self).at() + 1) as usize))
                && final(self).at() == old(self).at() + 1,
            old(self).at() + 1 >= ps.len() ==> r.is_none() && final(self).at() == old(self).at(),
    {
        let next = ps[self.cur].next;
        if next == self.start {
            return None;
        }
        self.cur = next;
        Some(PoolIterVal(next))
    }
}

/// The block at value word `a` of wosize `w`, header included, lies in the payload of a
/// pool of `ps`: after the pool's four-word record head and before its end.
pub open spec fn in_pool(ps: Seq<Pool>, a: int, w: int) -> bool {
    exists|p: int|
        1 <= p < ps.len() && #[trigger] ps[p].start + POOL_HEADER_WORDS <= a - 1 && a + w
            <= ps[p].start + ps[p].pool_wo_sz.0
}

/// Every block of `fl` lies in a pool of `ps`.
pub open spec fn all_in_pools(ps: Seq<Pool>, fl: Seq<(int, int)>) -> bool {
    forall|i: int| 0 <= i < fl.len() ==> in_pool(ps, (#[trigger] fl[i]).0, fl[i].1)
}

/// A block inside a block that lies in a pool lies in that pool.
pub proof fn lemma_in_pool_within(ps: Seq<Pool>, a: int, w: int, b: int, v: int)
    requires
        in_pool(ps, a, w),
        a <= b,
        b + v <= a + w,
    ensures
        in_pool(ps, b, v),
{
    let p = choose|p: int|
        1 <= p < ps.len() && #[trigger] ps[p].start + POOL_HEADER_WORDS <= a - 1 && a + w
            <= ps[p].start + ps[p].pool_wo_sz.0;
    assert(1 <= p < ps.len() && ps[p].start + POOL_HEADER_WORDS <= b - 1 && b + v <= ps[p].start
        + ps[p].pool_wo_sz.0);
}

/// Two blocks that touch lie in the same pool, so the block they merge into does too.
pub proof fn lemma_in_pool_merge(ps: Seq<Pool>, limit: int, a: int, w: int, b: int, v: int)
    requires
        directory_wf(ps, limit),
        in_pool(ps, a, w),
        in_pool(ps, b, v),
        0 <= w,
        0 <= v,
        a + w == b - 1,
    ensures
        in_pool(ps, a, w + v + 1),
{
    let p = choose|p: int|
        1 <= p < ps.len() && #[trigger] ps[p].start + POOL_HEADER_WORDS <= a - 1 && a + w
            <= ps[p].start + ps[p].pool_wo_sz.0;
    let q = choose|q: int|
        1 <= q < ps.len() && #[trigger] ps[q].start + POOL_HEADER_WORDS <= b - 1 && b + v
            <= ps[q].start + ps[q].pool_wo_sz.0;
    if p < q {
        assert(ps[p].start + ps[p].pool_wo_sz.0 <= ps[q].start);
    } else if q < p {
        assert(ps[q].start + ps[q].pool_wo_sz.0 <= ps[p].start);
    }
    assert(p == q);
    assert(1 <= p < ps.len() && ps[p].start + POOL_HEADER_WORDS <= a - 1 && a + (w + v + 1)
        <= ps[p].start + ps[p].pool_wo_sz.0);
}

/// What lies in a pool still does when the directory gains entries and relinks, keeping
/// each pool's start and size.
pub proof fn lemma_in_pool_grow(ps: Seq<Pool>, qs: Seq<Pool>, a: int, w: int)
    requires
        in_pool(ps, a, w),
        ps.len() <= qs.len(),
        forall|i: int|
            0 <= i < ps.len() ==> (#[trigger] qs[i]).start == ps[i].start && qs[i].pool_wo_sz
                == ps[i].pool_wo_sz,
    ensures
        in_pool(qs, a, w),
{
    let p = choose|p: int|
        1 <= p < ps.len() && #[trigger] ps[p].start + POOL_HEADER_WORDS <= a - 1 && a + w
            <= ps[p].start + ps[p].pool_wo_sz.0;
    assert(qs[p].start == ps[p].start);
}

} // verus!
