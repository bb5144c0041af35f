//! Properties that relate several operations of the allocator.
use vstd::prelude::*;

use crate::free_list::NfAllocator;
use crate::list::{
    adjacent, apart, carve, carved_value, coalesced, first_fit_from, free_words, freed,
    insert_pos, lemma_first_fit, lemma_insert_pos, merge_at, rev_idx, try_merge_seq,
};

verus! {

/// The free list after allocating `wo` words from block `i` and freeing that block again.
pub open spec fn round_trip(fl: Seq<(int, int)>, i: int, wo: int) -> Seq<(int, int)> {
    freed(carve(fl, i, wo), carved_value(fl, i, wo), wo)
}

/// A free list sorted by address whose neighbours never touch and whose blocks each hold
/// at least one word.
pub open spec fn tidy(fl: Seq<(int, int)>) -> bool {
    &&& forall|x: int, y: int|
        0 <= x < y < fl.len() ==> apart(#[trigger] fl[x].0, fl[x].1, #[trigger] fl[y].0, fl[y].1)
    &&& forall|x: int, y: int| 0 <= x < y < fl.len() ==> #[trigger] fl[x].0 < #[trigger] fl[y].0
    &&& forall|x: int| 0 <= x < fl.len() ==> 1 <= (#[trigger] fl[x]).1
    &&& coalesced(fl)
}

proof fn lemma_tidy(a: NfAllocator)
    requires
        a.wf(),
    ensures
        tidy(a.free_blocks()),
{
    a.lemma_invariants();
    let f = a.free_blocks();
    assert forall|x: int, y: int| 0 <= x < y < f.len() implies apart(
        #[trigger] f[x].0,
        f[x].1,
        #[trigger] f[y].0,
        f[y].1,
    ) by {}
    assert forall|x: int, y: int| 0 <= x < y < f.len() implies #[trigger] f[x].0 < #[trigger] f[y].0 by {}
}

/// Allocating `wo` words from block `i` of a tidy list and freeing the block again gives
/// the list back; only when the block left a one-word placeholder behind does block `i`
/// come back one word higher and one word shorter.
#[verifier::spinoff_prover]
#[verifier::rlimit(50)]
pub proof fn lemma_round_trip_list(fl: Seq<(int, int)>, i: int, wo: int)
    requires
        tidy(fl),
        0 <= i < fl.len(),
        1 <= wo <= fl[i].1,
    ensures
        round_trip(fl, i, wo) == if fl[i].1 == wo + 1 {
            fl.update(i, (fl[i].0 + 1, fl[i].1 - 1))
        } else {
            fl
        },
{
    reveal(carve);
    let n = fl.len() as int;
    let a = fl[i].0;
    let h = fl[i].1;
    let v = carved_value(fl, i, wo);
    let c = carve(fl, i, wo);
    assert forall|k: int| 0 <= k < n && k != i implies (k < i ==> fl[k].0 + fl[k].1 < a - 1) && (k
        > i ==> a + h < fl[k].0 - 1) by {
        if k < i {
            assert(apart(fl[k].0, fl[k].1, a, h));
            assert(fl[k].0 < a);
            if k < i - 1 {
                assert(fl[k].0 < fl[i - 1].0);
                assert(apart(fl[k].0, fl[k].1, fl[i - 1].0, fl[i - 1].1));
            }
            assert(fl[i - 1].0 + fl[i - 1].1 < fl[i].0 - 1);
        } else {
            assert(apart(a, h, fl[k].0, fl[k].1));
            assert(fl[k].0 > a);
            assert(fl[i].0 + fl[i].1 < fl[i + 1].0 - 1);
            if k > i + 1 {
                assert(fl[i + 1].0 < fl[k].0);
            }
        }
    }
    if h >= wo + 2 {
        assert(c.len() == n);
        lemma_insert_pos(c, v, i + 1);
        let g = c.insert(i + 1, (v, wo));
        assert(!adjacent(g, i + 1));
        assert(adjacent(g, i));
        assert(try_merge_seq(g, i + 1) == g);
        assert(merge_at(g, i) =~= fl);
    } else {
        assert(c.len() == n - 1);
        assert forall|k: int| 0 <= k < c.len() implies c[k] == if k < i {
            fl[k]
        } else {
            fl[k + 1]
        } by {}
        lemma_insert_pos(c, v, i);
        let g = c.insert(i, (v, wo));
        let expect = if h == wo + 1 {
            fl.update(i, (a + 1, h - 1))
        } else {
            fl
        };
        assert(g =~= expect);
        assert(!adjacent(g, i));
        assert(!adjacent(g, i - 1));
    }
}

/// Allocating a block with `nf_allocate` and freeing it with `nf_deallocate` leaves the
/// free list as it was, but for the one-word placeholder an exact fit plus one leaves.
pub proof fn lemma_round_trip(a: NfAllocator, wo: int)
    requires
        a.wf(),
        1 <= wo,
        first_fit_from(a.free_blocks(), a.cursor_pos(), wo, 0) < a.free_blocks().len(),
    ensures
        ({
            let f = a.free_blocks();
            let i = rev_idx(
                a.cursor_pos(),
                f.len() as int,
                first_fit_from(f, a.cursor_pos(), wo, 0),
            );
            round_trip(f, i, wo) == if f[i].1 == wo + 1 {
                f.update(i, (f[i].0 + 1, f[i].1 - 1))
            } else {
                f
            }
        }),
{
    lemma_tidy(a);
    a.lemma_invariants();
    let f = a.free_blocks();
    lemma_first_fit(f, a.cursor_pos(), wo, 0);
    let i = rev_idx(a.cursor_pos(), f.len() as int, first_fit_from(f, a.cursor_pos(), wo, 0));
    lemma_round_trip_list(f, i, wo);
}

/// The free-word count after allocating `wo` words and freeing them again is at least
/// what it was, when the allocation left no placeholder behind.
pub proof fn lemma_round_trip_free_words(a: NfAllocator, wo: int)
    requires
        a.wf(),
        1 <= wo,
        first_fit_from(a.free_blocks(), a.cursor_pos(), wo, 0) < a.free_blocks().len(),
        ({
            let f = a.free_blocks();
            f[rev_idx(
                a.cursor_pos(),
                f.len() as int,
                first_fit_from(f, a.cursor_pos(), wo, 0),
            )].1 != wo + 1
        }),
    ensures
        ({
            let f = a.free_blocks();
            let i = rev_idx(
                a.cursor_pos(),
                f.len() as int,
                first_fit_from(f, a.cursor_pos(), wo, 0),
            );
            free_words(round_trip(f, i, wo)) >= free_words(f)
        }),
{
    lemma_round_trip(a, wo);
}

/// Freeing an allocated block that touches a free block merges them: the list does not
/// grow.
pub proof fn lemma_free_merges(a: NfAllocator, v: int)
    requires
        a.wf(),
        a.live_blocks().contains_key(v),
        exists|i: int|
            0 <= i < a.free_blocks().len() && (a.free_blocks()[i].0 + a.free_blocks()[i].1 == v - 1
                || v + a.live_blocks()[v] == (#[trigger] a.free_blocks()[i]).0 - 1),
    ensures
        freed(a.free_blocks(), v, a.live_blocks()[v]).len() <= a.free_blocks().len(),
{
    a.lemma_invariants();
    let f = a.free_blocks();
    let w = a.live_blocks()[v];
    let n = f.len() as int;
    let t = choose|i: int|
        0 <= i < n && (f[i].0 + f[i].1 == v - 1 || v + w == (#[trigger] f[i]).0 - 1);
    // The free blocks below `v` come first.
    let j = insert_pos(f, v);
    assert forall|x: int| 0 <= x < n implies (#[trigger] f[x]).0 != v by {
        assert(apart(v, w, f[x].0, f[x].1));
    }
    lemma_insert_pos_split(f, v);
    let g = f.insert(j, (v, w));
    let g1 = try_merge_seq(g, j);
    assert(apart(v, w, f[t].0, f[t].1));
    if f[t].0 + f[t].1 == v - 1 {
        assert(f[t].0 < v);
        assert(t < j);
        if t < j - 1 {
            assert(f[t].0 < f[j - 1].0);
            assert(apart(f[t].0, f[t].1, f[j - 1].0, f[j - 1].1));
            assert(false);
        }
        assert(g1[j - 1] == f[j - 1]);
        assert(g1[j].0 == v);
        assert(adjacent(g1, j - 1));
    } else {
        assert(t >= j);
        if t > j {
            assert(f[j].0 < f[t].0);
            assert(apart(f[j].0, f[j].1, f[t].0, f[t].1));
            assert(apart(v, w, f[j].0, f[j].1));
            assert(false);
        }
        assert(adjacent(g, j));
    }
}

/// Where `insert_pos` puts an address that no free block has.
pub proof fn lemma_insert_pos_split(fl: Seq<(int, int)>, v: int)
    requires
        forall|x: int, y: int| 0 <= x < y < fl.len() ==> #[trigger] fl[x].0 < #[trigger] fl[y].0,
        forall|x: int| 0 <= x < fl.len() ==> (#[trigger] fl[x]).0 != v,
    ensures
        0 <= insert_pos(fl, v) <= fl.len(),
        forall|x: int| 0 <= x < insert_pos(fl, v) ==> (#[trigger] fl[x]).0 < v,
        forall|x: int| insert_pos(fl, v) <= x < fl.len() ==> (#[trigger] fl[x]).0 > v,
    decreases fl.len(),
{
    if fl.len() > 0 {
        let n = fl.len() as int;
        let d = fl.drop_last();
        assert(fl.last() == fl[n - 1]);
        if fl[n - 1].0 < v {
            assert forall|x: int| 0 <= x < n implies (#[trigger] fl[x]).0 < v by {
                if x < n - 1 {
                    assert(fl[x].0 < fl[n - 1].0);
                }
            }
        } else {
            assert forall|x: int, y: int| 0 <= x < y < d.len() implies #[trigger] d[x].0
                < #[trigger] d[y].0 by {
                assert(fl[x].0 < fl[y].0);
            }
            assert forall|x: int| 0 <= x < d.len() implies (#[trigger] d[x]).0 != v by {
                assert(fl[x].0 != v);
            }
            lemma_insert_pos_split(d, v);
            assert forall|x: int| insert_pos(fl, v) <= x < n implies (#[trigger] fl[x]).0 > v by {
                if x < n - 1 {
                    assert(d[x] == fl[x]);
                }
            }
            assert forall|x: int| 0 <= x < insert_pos(fl, v) implies (#[trigger] fl[x]).0 < v by {
                assert(d[x] == fl[x]);
            }
        }
    }
}

} // verus!
