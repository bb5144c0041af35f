//! The free list as a sequence of (value word, wosize) pairs in address order: how
//! blocks are ordered and summed, how a next-fit sweep finds one, and how allocation
//! and freeing edit the sequence.
use vstd::prelude::*;

use crate::globals::HEAD;
use crate::pool::{
    all_in_pools, directory_wf, in_pool, lemma_in_pool_merge, lemma_in_pool_within, Pool,
};
use crate::utils::pow2_from;

verus! {

/// The word ranges `[a - 1, a + aw)` and `[b - 1, b + bw)` of two blocks do not meet.
pub open spec fn apart(a: int, aw: int, b: int, bw: int) -> bool {
    a + aw <= b - 1 || b + bw <= a - 1
}

/// Free blocks `(value word, wosize)` in increasing address order, each ending at or
/// before the header of every later one.
pub open spec fn ordered(fl: Seq<(int, int)>) -> bool {
    forall|i: int, j: int|
        0 <= i < j < fl.len() ==> #[trigger] fl[i].0 + fl[i].1 <= #[trigger] fl[j].0 - 1
}

/// No free block ends right where the next one's header starts: neighbours are merged.
pub open spec fn coalesced(fl: Seq<(int, int)>) -> bool {
    forall|i: int| 0 <= i < fl.len() - 1 ==> #[trigger] fl[i].0 + fl[i].1 < fl[i + 1].0 - 1
}

/// Number of words (headers included) held by a sequence of free blocks.
pub open spec fn free_words(fl: Seq<(int, int)>) -> int
    decreases fl.len(),
{
    if fl.len() == 0 {
        0
    } else {
        free_words(fl.drop_last()) + fl.last().1 + 1
    }
}

/// The heap word holding the link that leads to block `p` of the list: the sentinel's
/// for `p == 0`, else the link word of block `p - 1`.
pub open spec fn pos_addr(fl: Seq<(int, int)>, p: int) -> int {
    if p == 0 {
        HEAD as int
    } else {
        fl[p - 1].0
    }
}

/// What the link word of block `i` holds: the next block, or null after the last.
pub open spec fn link_of(fl: Seq<(int, int)>, i: int) -> int {
    if i + 1 < fl.len() {
        fl[i + 1].0
    } else {
        0
    }
}

/// The highest free block, or the sentinel when there is none.
pub open spec fn last_addr(fl: Seq<(int, int)>) -> int {
    if fl.len() == 0 {
        HEAD as int
    } else {
        fl.last().0
    }
}

/// The `k`-th block visited by a sweep that starts at list position `s`, wraps
/// around once at the end, and stops before coming back to `s`.
pub open spec fn rev_idx(s: int, n: int, k: int) -> int {
    if s + k < n {
        s + k
    } else {
        s + k - n
    }
}

/// The step of the sweep from position `s` at which the first block of wosize at least
/// `wo` is met, counting from step `k`; `fl.len()` when none is.
pub open spec fn first_fit_from(fl: Seq<(int, int)>, s: int, wo: int, k: int) -> int
    decreases fl.len() - k,
{
    if k >= fl.len() {
        fl.len() as int
    } else if fl[rev_idx(s, fl.len() as int, k)].1 >= wo {
        k
    } else {
        first_fit_from(fl, s, wo, k + 1)
    }
}


/// The free list after a block of wosize `wo` is carved from block `i`: the block
/// shrinks when at least a two-word remainder is left, else it leaves the list.
#[verifier::opaque]
pub open spec fn carve(fl: Seq<(int, int)>, i: int, wo: int) -> Seq<(int, int)> {
    if fl[i].1 >= wo + 2 {
        fl.update(i, (fl[i].0, fl[i].1 - wo - 1))
    } else {
        fl.remove(i)
    }
}

/// Value word index of the block carved from the top of free block `i`.
pub open spec fn carved_value(fl: Seq<(int, int)>, i: int, wo: int) -> int {
    fl[i].0 + fl[i].1 - wo
}

pub proof fn lemma_free_words_nonneg(fl: Seq<(int, int)>)
    requires
        forall|i: int| 0 <= i < fl.len() ==> 0 <= (#[trigger] fl[i]).1,
    ensures
        free_words(fl) >= 0,
    decreases fl.len(),
{
    if fl.len() > 0 {
        lemma_free_words_nonneg(fl.drop_last());
    }
}

pub proof fn lemma_free_words_concat(a: Seq<(int, int)>, b: Seq<(int, int)>)
    ensures
        free_words(a + b) == free_words(a) + free_words(b),
    decreases b.len(),
{
    if b.len() == 0 {
        assert(a + b =~= a);
    } else {
        lemma_free_words_concat(a, b.drop_last());
        assert((a + b).drop_last() =~= a + b.drop_last());
    }
}

/// The words of a list are those before block `i`, block `i`'s, and those after it.
pub proof fn lemma_free_words_split(fl: Seq<(int, int)>, i: int)
    requires
        0 <= i < fl.len(),
    ensures
        free_words(fl) == free_words(fl.subrange(0, i)) + fl[i].1 + 1 + free_words(
            fl.subrange(i + 1, fl.len() as int),
        ),
{
    let one = seq![fl[i]];
    assert(one.drop_last() =~= Seq::<(int, int)>::empty());
    assert(free_words(Seq::<(int, int)>::empty()) == 0);
    assert(one.last() == fl[i]);
    assert(free_words(one) == fl[i].1 + 1);
    assert(fl =~= fl.subrange(0, i) + one + fl.subrange(i + 1, fl.len() as int));
    lemma_free_words_concat(fl.subrange(0, i) + one, fl.subrange(i + 1, fl.len() as int));
    lemma_free_words_concat(fl.subrange(0, i), one);
}

pub proof fn lemma_free_words_update(fl: Seq<(int, int)>, i: int, x: (int, int))
    requires
        0 <= i < fl.len(),
    ensures
        free_words(fl.update(i, x)) == free_words(fl) - fl[i].1 + x.1,
{
    let g = fl.update(i, x);
    lemma_free_words_split(fl, i);
    lemma_free_words_split(g, i);
    assert(g.subrange(0, i) =~= fl.subrange(0, i));
    assert(g.subrange(i + 1, g.len() as int) =~= fl.subrange(i + 1, fl.len() as int));
}

pub proof fn lemma_free_words_remove(fl: Seq<(int, int)>, i: int)
    requires
        0 <= i < fl.len(),
    ensures
        free_words(fl.remove(i)) == free_words(fl) - fl[i].1 - 1,
{
    lemma_free_words_split(fl, i);
    assert(fl.remove(i) =~= fl.subrange(0, i) + fl.subrange(i + 1, fl.len() as int));
    lemma_free_words_concat(fl.subrange(0, i), fl.subrange(i + 1, fl.len() as int));
}

pub proof fn lemma_free_words_insert(fl: Seq<(int, int)>, i: int, x: (int, int))
    requires
        0 <= i <= fl.len(),
    ensures
        free_words(fl.insert(i, x)) == free_words(fl) + x.1 + 1,
{
    let g = fl.insert(i, x);
    lemma_free_words_split(g, i);
    assert(g.subrange(0, i) =~= fl.subrange(0, i));
    assert(g.subrange(i + 1, g.len() as int) =~= fl.subrange(i, fl.len() as int));
    assert(fl =~= fl.subrange(0, i) + fl.subrange(i, fl.len() as int));
    lemma_free_words_concat(fl.subrange(0, i), fl.subrange(i, fl.len() as int));
}

/// The words of blocks that lie in order without overlapping, from word 1 on, are at
/// most the end of the last one.
pub proof fn lemma_free_words_bound(fl: Seq<(int, int)>)
    requires
        forall|i: int| 0 <= i < fl.len() ==> 1 <= (#[trigger] fl[i]).0 && 0 <= fl[i].1,
        forall|i: int|
            0 <= i < fl.len() - 1 ==> #[trigger] fl[i].0 + fl[i].1 <= fl[i + 1].0 - 1,
    ensures
        free_words(fl) <= last_addr(fl) + if fl.len() == 0 {
            0
        } else {
            fl.last().1
        },
    decreases fl.len(),
{
    if fl.len() > 0 {
        let g = fl.drop_last();
        assert forall|i: int| 0 <= i < g.len() - 1 implies #[trigger] g[i].0 + g[i].1 <= g[i
            + 1].0 - 1 by {
            assert(fl[i].0 + fl[i].1 <= fl[i + 1].0 - 1);
        }
        lemma_free_words_bound(g);
        if g.len() > 0 {
            assert(fl[g.len() - 1].0 + fl[g.len() - 1].1 <= fl[g.len() as int].0 - 1);
        }
    }
}

/// Carving keeps free neighbours apart.
pub proof fn lemma_carve_coalesced(fl: Seq<(int, int)>, i: int, wo: int)
    requires
        coalesced(fl),
        ordered(fl),
        0 <= i < fl.len(),
        1 <= wo <= fl[i].1,
    ensures
        coalesced(carve(fl, i, wo)),
{
    reveal(carve);
    let g = carve(fl, i, wo);
    if fl[i].1 >= wo + 2 {
        assert forall|j: int| 0 <= j < g.len() - 1 implies #[trigger] g[j].0 + g[j].1 < g[j + 1].0
            - 1 by {
            assert(fl[j].0 + fl[j].1 < fl[j + 1].0 - 1);
        }
    } else {
        assert forall|j: int| 0 <= j < g.len() - 1 implies #[trigger] g[j].0 + g[j].1 < g[j + 1].0
            - 1 by {
            if j + 1 < i {
                assert(fl[j].0 + fl[j].1 < fl[j + 1].0 - 1);
            } else if j + 1 == i {
                assert(fl[j].0 + fl[j].1 < fl[j + 1].0 - 1);
                assert(fl[i].0 + fl[i].1 <= fl[i + 1].0 - 1);
            } else {
                assert(fl[j + 1].0 + fl[j + 1].1 < fl[j + 2].0 - 1);
            }
        }
    }
}


/// The search's answer: the step it stops at is a fit, and every earlier step was not.
pub proof fn lemma_first_fit(fl: Seq<(int, int)>, s: int, wo: int, k0: int)
    requires
        0 <= s <= fl.len(),
        0 <= k0 <= fl.len(),
    ensures
        k0 <= first_fit_from(fl, s, wo, k0) <= fl.len(),
        first_fit_from(fl, s, wo, k0) < fl.len() ==> 0 <= rev_idx(
            s,
            fl.len() as int,
            first_fit_from(fl, s, wo, k0),
        ) < fl.len() && fl[rev_idx(s, fl.len() as int, first_fit_from(fl, s, wo, k0))].1 >= wo,
        forall|k: int|
            k0 <= k < first_fit_from(fl, s, wo, k0) ==> #[trigger] fl[rev_idx(
                s,
                fl.len() as int,
                k,
            )].1 < wo,
    decreases fl.len() - k0,
{
    if k0 < fl.len() && fl[rev_idx(s, fl.len() as int, k0)].1 < wo {
        lemma_first_fit(fl, s, wo, k0 + 1);
    }
}


/// Blocks `k` and `k + 1` of the list touch: the first ends where the second's header is.
pub open spec fn adjacent(g: Seq<(int, int)>, k: int) -> bool {
    0 <= k && k + 1 < g.len() && g[k].0 + g[k].1 == g[k + 1].0 - 1
}

/// Block `k` absorbs block `k + 1`, header included.
pub open spec fn merge_at(g: Seq<(int, int)>, k: int) -> Seq<(int, int)> {
    g.update(k, (g[k].0, g[k].1 + g[k + 1].1 + 1)).remove(k + 1)
}

/// Blocks `k` and `k + 1` merged when they touch; the list unchanged otherwise.
pub open spec fn try_merge_seq(g: Seq<(int, int)>, k: int) -> Seq<(int, int)> {
    if adjacent(g, k) {
        merge_at(g, k)
    } else {
        g
    }
}

/// Cursor position after a block is inserted at index `j`.
pub open spec fn cursor_after_insert(p: int, j: int) -> int {
    if p > j {
        p + 1
    } else {
        p
    }
}

/// Cursor position after blocks `k` and `k + 1` of `g` are merged when they touch: a
/// cursor on the absorbed block moves to the one that absorbed it.
pub open spec fn cursor_after_merge(g: Seq<(int, int)>, p: int, k: int) -> int {
    if adjacent(g, k) && p >= k + 2 {
        p - 1
    } else {
        p
    }
}

pub proof fn lemma_free_words_merge(g: Seq<(int, int)>, k: int)
    requires
        0 <= k,
        k + 1 < g.len(),
    ensures
        free_words(merge_at(g, k)) == free_words(g),
{
    let x = (g[k].0, g[k].1 + g[k + 1].1 + 1);
    lemma_free_words_update(g, k, x);
    lemma_free_words_remove(g.update(k, x), k + 1);
}


/// Number of free blocks below address `v`: where a block at `v` goes in the list.
pub open spec fn insert_pos(fl: Seq<(int, int)>, v: int) -> int
    decreases fl.len(),
{
    if fl.len() == 0 {
        0
    } else if fl.last().0 < v {
        fl.len() as int
    } else {
        insert_pos(fl.drop_last(), v)
    }
}

/// The free list after the block `(v, w)` is freed: inserted in address order, then
/// merged with the block after it and with the block before it, each when they touch.
pub open spec fn freed(fl: Seq<(int, int)>, v: int, w: int) -> Seq<(int, int)> {
    let j = insert_pos(fl, v);
    let g = fl.insert(j, (v, w));
    try_merge_seq(try_merge_seq(g, j), j - 1)
}

/// The cursor position after the block `(v, w)` is freed, when it stood at `p`.
pub open spec fn freed_cursor(fl: Seq<(int, int)>, p: int, v: int, w: int) -> int {
    let j = insert_pos(fl, v);
    let g = fl.insert(j, (v, w));
    let p1 = cursor_after_insert(p, j);
    let p2 = cursor_after_merge(g, p1, j);
    cursor_after_merge(try_merge_seq(g, j), p2, j - 1)
}

/// In a list ordered by address, the blocks below `v` are exactly the first `j`.
pub proof fn lemma_insert_pos(fl: Seq<(int, int)>, v: int, j: int)
    requires
        0 <= j <= fl.len(),
        forall|i: int| 0 <= i < j ==> (#[trigger] fl[i]).0 < v,
        forall|i: int| j <= i < fl.len() ==> (#[trigger] fl[i]).0 > v,
    ensures
        insert_pos(fl, v) == j,
    decreases fl.len(),
{
    if fl.len() > 0 && j < fl.len() {
        assert(fl.last() == fl[fl.len() - 1]);
        lemma_insert_pos(fl.drop_last(), v, j);
    }
}

/// After the merge to the right of a freed block at index `j`, every pair of neighbours
/// but the one ending at index `j` is apart, and that one does not overlap.
pub proof fn lemma_coalesced_right(fl: Seq<(int, int)>, j: int, v: int, w: int)
    requires
        coalesced(fl),
        0 <= j <= fl.len(),
        ordered(fl.insert(j, (v, w))),
        forall|i: int| 0 <= i < fl.len() ==> 1 <= (#[trigger] fl[i]).1,
        1 <= w,
    ensures
        ({
            let g1 = try_merge_seq(fl.insert(j, (v, w)), j);
            &&& forall|i: int|
                0 <= i < g1.len() - 1 && i != j - 1 ==> #[trigger] g1[i].0 + g1[i].1 < g1[i
                    + 1].0 - 1
            &&& (j >= 1 && j < g1.len() ==> g1[j - 1].0 + g1[j - 1].1 <= g1[j].0 - 1)
            &&& j < g1.len()
        }),
{
    let g = fl.insert(j, (v, w));
    let g1 = try_merge_seq(g, j);
    assert forall|i: int| 0 <= i < g.len() implies g[i] == if i < j {
        fl[i]
    } else if i == j {
        (v, w)
    } else {
        fl[i - 1]
    } by {}
    if adjacent(g, j) {
        let m = (v, w + g[j + 1].1 + 1);
        assert(g1.len() == g.len() - 1);
        assert forall|i: int| 0 <= i < g1.len() implies g1[i] == if i < j {
            g[i]
        } else if i == j {
            m
        } else {
            g[i + 1]
        } by {}
        assert forall|i: int| 0 <= i < g1.len() - 1 && i != j - 1 implies #[trigger] g1[i].0
            + g1[i].1 < g1[i + 1].0 - 1 by {
            if i < j - 1 {
                assert(fl[i].0 + fl[i].1 < fl[i + 1].0 - 1);
            } else {
                assert(fl[i].0 + fl[i].1 < fl[i + 1].0 - 1);
            }
        }
        if j >= 1 {
            assert(g[j - 1].0 + g[j - 1].1 <= g[j].0 - 1);
        }
    } else {
        assert forall|i: int| 0 <= i < g1.len() - 1 && i != j - 1 implies #[trigger] g1[i].0
            + g1[i].1 < g1[i + 1].0 - 1 by {
            if i < j - 1 {
                assert(fl[i].0 + fl[i].1 < fl[i + 1].0 - 1);
            } else if i == j {
                assert(g[j].0 + g[j].1 <= g[j + 1].0 - 1);
            } else {
                assert(fl[i - 1].0 + fl[i - 1].1 < fl[i].0 - 1);
            }
        }
        if j >= 1 {
            assert(g[j - 1].0 + g[j - 1].1 <= g[j].0 - 1);
        }
    }
}

/// Merging at `k` a list whose neighbours are all apart but possibly the pair at `k`,
/// and that pair does not overlap, leaves all neighbours apart.
pub proof fn lemma_coalesced_left(g1: Seq<(int, int)>, k: int)
    requires
        forall|i: int|
            0 <= i < g1.len() - 1 && i != k ==> #[trigger] g1[i].0 + g1[i].1 < g1[i + 1].0 - 1,
        k >= 0 && k + 1 < g1.len() ==> g1[k].0 + g1[k].1 <= g1[k + 1].0 - 1,
    ensures
        coalesced(try_merge_seq(g1, k)),
{
    let g2 = try_merge_seq(g1, k);
    if adjacent(g1, k) {
        let m = (g1[k].0, g1[k].1 + g1[k + 1].1 + 1);
        assert(g2.len() == g1.len() - 1);
        assert forall|i: int| 0 <= i < g2.len() implies g2[i] == if i < k {
            g1[i]
        } else if i == k {
            m
        } else {
            g1[i + 1]
        } by {}
        assert forall|i: int| 0 <= i < g2.len() - 1 implies #[trigger] g2[i].0 + g2[i].1 < g2[i
            + 1].0 - 1 by {
            if i < k {
                assert(g1[i].0 + g1[i].1 < g1[i + 1].0 - 1);
            } else {
                assert(g1[i + 1].0 + g1[i + 1].1 < g1[i + 2].0 - 1);
            }
        }
    } else {
        assert forall|i: int| 0 <= i < g2.len() - 1 implies #[trigger] g2[i].0 + g2[i].1 < g2[i
            + 1].0 - 1 by {
            if i != k {
                assert(g1[i].0 + g1[i].1 < g1[i + 1].0 - 1);
            }
        }
    }
}

/// Freeing leaves no two touching neighbours.
pub proof fn lemma_freed_coalesced(fl: Seq<(int, int)>, j: int, v: int, w: int)
    requires
        coalesced(fl),
        0 <= j <= fl.len(),
        ordered(fl.insert(j, (v, w))),
        forall|i: int| 0 <= i < fl.len() ==> 1 <= (#[trigger] fl[i]).1,
        1 <= w,
    ensures
        coalesced(try_merge_seq(try_merge_seq(fl.insert(j, (v, w)), j), j - 1)),
{
    lemma_coalesced_right(fl, j, v, w);
    lemma_coalesced_left(try_merge_seq(fl.insert(j, (v, w)), j), j - 1);
}

/// Inserting a block that lies between its neighbours keeps the list ordered.
pub proof fn lemma_insert_list_ordered(fl: Seq<(int, int)>, j: int, v: int, w: int)
    requires
        ordered(fl),
        0 <= j <= fl.len(),
        forall|i: int| 0 <= i < fl.len() ==> 1 <= (#[trigger] fl[i]).1,
        forall|i: int| 0 <= i < j ==> (#[trigger] fl[i]).0 + fl[i].1 <= v - 1,
        forall|i: int| j <= i < fl.len() ==> v + w <= (#[trigger] fl[i]).0 - 1,
    ensures
        ordered(fl.insert(j, (v, w))),
{
    let g = fl.insert(j, (v, w));
    assert forall|x: int, y: int| 0 <= x < y < g.len() implies #[trigger] g[x].0 + g[x].1
        <= #[trigger] g[y].0 - 1 by {
        let fx = if x < j { x } else { x - 1 };
        let fy = if y < j { y } else { y - 1 };
        if x != j && y != j {
            assert(fl[fx].0 + fl[fx].1 <= fl[fy].0 - 1);
        }
    }
}

/// Inserting a block apart from its neighbours, with a gap, keeps them apart.
pub proof fn lemma_insert_coalesced(fl: Seq<(int, int)>, j: int, v: int, w: int)
    requires
        coalesced(fl),
        0 <= j <= fl.len(),
        j > 0 ==> fl[j - 1].0 + fl[j - 1].1 < v - 1,
        j < fl.len() ==> v + w < fl[j].0 - 1,
    ensures
        coalesced(fl.insert(j, (v, w))),
{
    let g = fl.insert(j, (v, w));
    assert forall|i: int| 0 <= i < g.len() - 1 implies #[trigger] g[i].0 + g[i].1 < g[i + 1].0
        - 1 by {
        if i + 1 < j {
            assert(fl[i].0 + fl[i].1 < fl[i + 1].0 - 1);
        } else if i > j {
            assert(fl[i - 1].0 + fl[i - 1].1 < fl[i].0 - 1);
        }
    }
}

/// A search finds a block whenever some block is large enough.
pub proof fn lemma_first_fit_found(fl: Seq<(int, int)>, s: int, wo: int, i: int)
    requires
        0 <= s <= fl.len(),
        0 <= i < fl.len(),
        fl[i].1 >= wo,
    ensures
        first_fit_from(fl, s, wo, 0) < fl.len(),
{
    let n = fl.len() as int;
    let k = if i >= s { i - s } else { i + n - s };
    assert(rev_idx(s, n, k) == i);
    lemma_first_fit(fl, s, wo, 0);
    if first_fit_from(fl, s, wo, 0) >= n {
        assert(fl[rev_idx(s, n, k)].1 < wo);
    }
}


pub proof fn lemma_pow2_from_ge(n: int, p: int)
    requires
        p >= 1,
    ensures
        pow2_from(n, p) >= n,
        pow2_from(n, p) >= p,
    decreases if n > p {
        n - p
    } else {
        0
    },
{
    if p < n {
        lemma_pow2_from_ge(n, 2 * p);
    }
}


/// Merging keeps every block in a pool.
pub proof fn lemma_merge_in_pools(ps: Seq<Pool>, limit: int, g: Seq<(int, int)>, k: int)
    requires
        directory_wf(ps, limit),
        all_in_pools(ps, g),
        forall|i: int| 0 <= i < g.len() ==> 0 <= (#[trigger] g[i]).1,
    ensures
        all_in_pools(ps, try_merge_seq(g, k)),
        forall|i: int|
            0 <= i < try_merge_seq(g, k).len() ==> 0 <= (#[trigger] try_merge_seq(g, k)[i]).1,
{
    if adjacent(g, k) {
        let h = try_merge_seq(g, k);
        lemma_in_pool_merge(ps, limit, g[k].0, g[k].1, g[k + 1].0, g[k + 1].1);
        assert forall|i: int| 0 <= i < h.len() implies in_pool(ps, (#[trigger] h[i]).0, h[i].1)
            && 0 <= h[i].1 by {
            if i < k {
                assert(h[i] == g[i]);
            } else if i > k {
                assert(h[i] == g[i + 1]);
            }
        }
    }
}

/// Inserting a block that lies in a pool keeps every block in a pool.
pub proof fn lemma_insert_in_pools(ps: Seq<Pool>, fl: Seq<(int, int)>, j: int, x: (int, int))
    requires
        all_in_pools(ps, fl),
        in_pool(ps, x.0, x.1),
        0 <= j <= fl.len(),
    ensures
        all_in_pools(ps, fl.insert(j, x)),
{
    let g = fl.insert(j, x);
    assert forall|i: int| 0 <= i < g.len() implies in_pool(ps, (#[trigger] g[i]).0, g[i].1) by {
        if i < j {
            assert(g[i] == fl[i]);
        } else if i > j {
            assert(g[i] == fl[i - 1]);
        }
    }
}

/// Carving keeps every block in a pool, the carved one included.
pub proof fn lemma_carve_in_pools(ps: Seq<Pool>, fl: Seq<(int, int)>, i: int, wo: int)
    requires
        all_in_pools(ps, fl),
        0 <= i < fl.len(),
        1 <= wo <= fl[i].1,
    ensures
        all_in_pools(ps, carve(fl, i, wo)),
        in_pool(ps, carved_value(fl, i, wo), wo),
{
    reveal(carve);
    let g = carve(fl, i, wo);
    lemma_in_pool_within(ps, fl[i].0, fl[i].1, carved_value(fl, i, wo), wo);
    if fl[i].1 >= wo + 2 {
        lemma_in_pool_within(ps, fl[i].0, fl[i].1, fl[i].0, fl[i].1 - wo - 1);
        assert forall|k: int| 0 <= k < g.len() implies in_pool(ps, (#[trigger] g[k]).0, g[k].1) by {
            if k != i {
                assert(g[k] == fl[k]);
            }
        }
    } else {
        assert forall|k: int| 0 <= k < g.len() implies in_pool(ps, (#[trigger] g[k]).0, g[k].1) by {
            if k < i {
                assert(g[k] == fl[k]);
            } else {
                assert(g[k] == fl[k + 1]);
            }
        }
    }
}

} // verus!
