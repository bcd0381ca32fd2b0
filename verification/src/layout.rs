//! The bridge from construction to search: at perfect sizes (one below a
//! power of two) the level-order layout of a strictly ascending sequence is a
//! well-formed search tree, so the heap-indexed searches answer membership
//! exactly on what the constructor built.
//!
//! At other sizes the breadth-first bisection layout and the heap indexing of
//! the searches disagree about the tree shape, and the constructed value is
//! not search-tree ordered; the searches still answer exactly as their walk
//! specifications prescribe, but that answer is no longer exact membership.

use vstd::prelude::*;
use vstd::arithmetic::power2::lemma2_to64;
use vstd::arithmetic::power2::lemma_pow2_pos;
use vstd::arithmetic::power2::lemma_pow2_unfold;
use vstd::arithmetic::power2::pow2;
use crate::level_index::bfs_order;
use crate::level_index::level_index;
use crate::permute::lemma_same_multiset_same_members;
use crate::search_level::heap_ordered;
use crate::search_level::in_subtree;
use crate::search_level::left_child;
use crate::search_level::lemma_level_order_search_finds_member;
use crate::search_level::level_order_result;
use crate::search_level::right_child;
use crate::search_sorted::strictly_sorted;

verus! {

/// A perfect size: one below a power of two (0, 1, 3, 7, 15, ...).  Exactly
/// these sizes fill an implicit binary tree level by level with no gap.
pub open spec fn perfect_size(m: int) -> bool
    decreases m,
{
    if m <= 0 {
        m == 0
    } else {
        m % 2 == 1 && perfect_size(m / 2)
    }
}

/// The half-open range of sorted ranks that the subtree of heap slot `i`
/// covers in a layout of `n` ranks: the root covers everything; a child
/// covers its parent's half, the left below the parent's midpoint, the right
/// above it.
pub open spec fn slot_range(n: int, i: int) -> (int, int)
    decreases i,
{
    if i <= 0 {
        (0, n)
    } else {
        let parent = slot_range(n, (i - 1) / 2);
        let mid = parent.0 + (parent.1 - parent.0) / 2;
        if i % 2 == 1 {
            (parent.0, mid)
        } else {
            (mid + 1, parent.1)
        }
    }
}

/// The sorted rank that heap slot `i` itself holds: the midpoint of its range.
pub open spec fn slot_mid(n: int, i: int) -> int {
    let r = slot_range(n, i);
    r.0 + (r.1 - r.0) / 2
}

/// Depth of heap slot `i`; the root has depth 0.
pub open spec fn slot_depth(i: int) -> nat
    decreases i,
{
    if i <= 0 {
        0
    } else {
        1 + slot_depth((i - 1) / 2)
    }
}

/// At a perfect size every slot below the length has a well-formed, non-empty,
/// perfect-sized range, whose size is pinned by the slot's depth.
proof fn lemma_perfect_slot(n: int, i: int)
    requires
        perfect_size(n),
        0 <= i < n,
    ensures
        ({
            let r = slot_range(n, i);
            &&& 0 <= r.0 <= r.1 <= n
            &&& perfect_size(r.1 - r.0)
            &&& r.1 - r.0 >= 1
            &&& (r.1 - r.0 + 1) * pow2(slot_depth(i)) == n + 1
            &&& pow2(slot_depth(i)) <= i + 1 < 2 * pow2(slot_depth(i))
        }),
    decreases i,
{
    if i == 0 {
        assert(pow2(0) == 1) by {
            lemma2_to64();
        }
        assert(slot_depth(0) == 0);
        assert((n + 1) * pow2(slot_depth(0)) == n + 1) by (nonlinear_arith)
            requires
                pow2(slot_depth(0)) == 1,
        ;
    } else {
        let p = (i - 1) / 2;
        lemma_perfect_slot(n, p);
        let rp = slot_range(n, p);
        let sp = rp.1 - rp.0;
        let dp = slot_depth(p);
        assert(sp % 2 == 1);
        assert(perfect_size(sp / 2));
        assert(slot_depth(i) == dp + 1);
        assert(pow2(dp + 1) == 2 * pow2(dp)) by {
            lemma_pow2_unfold(dp + 1);
        }
        lemma_pow2_pos(dp);
        assert((sp / 2 + 1) * pow2(dp + 1) == (sp + 1) * pow2(dp)) by (nonlinear_arith)
            requires
                sp % 2 == 1,
                sp >= 1,
                pow2(dp + 1) == 2 * pow2(dp),
        ;
        assert(i == 2 * p + 1 || i == 2 * p + 2);
        let ri = slot_range(n, i);
        let mid = rp.0 + sp / 2;
        if i % 2 == 1 {
            assert(ri == (rp.0, mid));
        } else {
            assert(ri == (mid + 1, rp.1));
        }
        assert(ri.1 - ri.0 == sp / 2);
        assert(0 <= ri.0 <= ri.1 <= n);
        assert((ri.1 - ri.0 + 1) * pow2(slot_depth(i)) == n + 1);
        assert(2 * pow2(dp) <= i + 1);
        assert(i + 1 < 4 * pow2(dp));
        assert(pow2(slot_depth(i)) <= i + 1 < 2 * pow2(slot_depth(i)));
        // a size-zero child would put its own index past the end
        if ri.1 - ri.0 == 0 {
            assert(pow2(dp + 1) == n + 1);
            assert(false);
        }
        assert(ri.1 - ri.0 >= 1);
    }
}

/// The queue of pending ranges after the breadth-first drain has emitted the
/// slots before `f`: the ranges of the consecutive slots `f..=min(2f, n-1)`.
pub open spec fn perfect_queue(n: int, f: int) -> Seq<(int, int)> {
    if f >= n {
        Seq::empty()
    } else {
        let g = if 2 * f <= n - 1 {
            2 * f
        } else {
            n - 1
        };
        Seq::new((g + 1 - f) as nat, |t: int| slot_range(n, f + t))
    }
}

/// Draining the queue from slot `f` on emits the slots' own ranks, in slot
/// order: the breadth-first producer fills heap slots left to right.
proof fn lemma_bfs_perfect(n: int, f: int)
    requires
        perfect_size(n),
        0 <= f <= n,
    ensures
        bfs_order(perfect_queue(n, f)) == Seq::new((n - f) as nat, |t: int| slot_mid(n, f + t)),
    decreases n - f,
{
    if f == n {
        assert(perfect_queue(n, f) =~= Seq::<(int, int)>::empty());
        assert(bfs_order(Seq::<(int, int)>::empty()) =~= Seq::<int>::empty());
        assert(Seq::new((n - f) as nat, |t: int| slot_mid(n, f + t)) =~= Seq::<int>::empty());
    } else {
        lemma_perfect_slot(n, f);
        let q = perfect_queue(n, f);
        let r0 = slot_range(n, f);
        assert(q[0] == r0);
        let lo = r0.0;
        let hi = r0.1;
        let s0 = hi - lo;
        let d = slot_depth(f);
        let mid = lo + s0 / 2;
        let rest = q.drop_first();
        assert(n % 2 == 1);
        assert(pow2(d + 1) == 2 * pow2(d)) by {
            lemma_pow2_unfold(d + 1);
        }
        lemma_pow2_pos(d);
        lemma_bfs_perfect(n, f + 1);
        if s0 >= 3 {
            // both children are pending: they are the next two slots
            assert((s0 + 1) * pow2(d) >= 4 * pow2(d)) by (nonlinear_arith)
                requires
                    s0 + 1 >= 4,
                    pow2(d) >= 1,
            ;
            assert(2 * pow2(d + 1) == 4 * pow2(d));
            assert(2 * f + 3 <= 2 * pow2(d + 1) - 1);
            assert(2 * f + 2 <= n);
            assert(2 * f + 2 != n);
            assert(2 * f + 2 <= n - 1);
            assert(slot_range(n, 2 * f + 1) == (lo, mid));
            assert(slot_range(n, 2 * f + 2) == (mid + 1, hi));
            let rest2 = rest.push((lo, mid)).push((mid + 1, hi));
            assert(rest2 =~= perfect_queue(n, f + 1));
            assert(bfs_order(q) == seq![mid] + bfs_order(rest2));
            assert(bfs_order(q) =~= Seq::new((n - f) as nat, |t: int| slot_mid(n, f + t)));
        } else {
            // a leaf: its children lie past the end, nothing is enqueued
            assert(s0 == 1);
            assert(mid == lo);
            assert(pow2(d + 1) == n + 1);
            assert(2 * f + 1 >= n);
            assert(rest =~= perfect_queue(n, f + 1));
            assert(bfs_order(q) == seq![mid] + bfs_order(rest));
            assert(bfs_order(q) =~= Seq::new((n - f) as nat, |t: int| slot_mid(n, f + t)));
        }
    }
}

/// At a perfect size the produced index sequence is exactly the slots' ranks.
pub proof fn lemma_level_index_perfect(n: int, t: int)
    requires
        perfect_size(n),
        0 <= t < n,
    ensures
        level_index(n, t) == slot_mid(n, t),
{
    lemma_bfs_perfect(n, 0);
    assert(perfect_queue(n, 0) =~= seq![(0, n)]);
    assert(bfs_order(seq![(0, n)])[t] == Seq::new(n as nat, |k: int| slot_mid(n, k))[t]);
}

/// A slot's range is contained in the range of every subtree root above it.
proof fn lemma_subtree_slot_range(n: int, c: int, j: int)
    requires
        perfect_size(n),
        0 <= c,
        in_subtree(c, j),
        0 <= j < n,
    ensures
        slot_range(n, c).0 <= slot_range(n, j).0,
        slot_range(n, j).1 <= slot_range(n, c).1,
    decreases j,
{
    if j != c {
        let p = (j - 1) / 2;
        lemma_subtree_slot_range(n, c, p);
        lemma_perfect_slot(n, p);
    }
}

/// The composition theorem: rearranging a strictly ascending sequence of
/// perfect size by the level-order indexes yields a heap-ordered layout, so
/// the level-order searches apply to what the constructor builds.
pub proof fn lemma_perfect_layout_heap_ordered(s: Seq<u64>, t: Seq<u64>)
    requires
        strictly_sorted(s),
        perfect_size(s.len() as int),
        t.len() == s.len(),
        forall|k: int| 0 <= k < s.len() ==> t[k] == s[level_index(s.len() as int, k)],
    ensures
        heap_ordered(t),
{
    let n = s.len() as int;
    assert forall|a: int, j: int|
        0 <= a < n && 0 <= j < n && #[trigger] in_subtree(left_child(a), j) implies t[j]
        < t[a] by {
        lemma_perfect_slot(n, a);
        lemma_perfect_slot(n, j);
        lemma_level_index_perfect(n, a);
        lemma_level_index_perfect(n, j);
        lemma_subtree_slot_range(n, left_child(a), j);
        assert(slot_range(n, left_child(a)) == (slot_range(n, a).0, slot_mid(n, a)));
        assert(slot_mid(n, j) < slot_mid(n, a));
        assert(s[slot_mid(n, j)] < s[slot_mid(n, a)]);
    }
    assert forall|a: int, j: int|
        0 <= a < n && 0 <= j < n && #[trigger] in_subtree(right_child(a), j) implies t[j]
        > t[a] by {
        lemma_perfect_slot(n, a);
        lemma_perfect_slot(n, j);
        lemma_level_index_perfect(n, a);
        lemma_level_index_perfect(n, j);
        lemma_subtree_slot_range(n, right_child(a), j);
        assert(slot_range(n, right_child(a)) == (slot_mid(n, a) + 1, slot_range(n, a).1));
        assert(slot_mid(n, j) > slot_mid(n, a));
        assert(s[slot_mid(n, j)] > s[slot_mid(n, a)]);
    }
}

/// Round-trip membership through the constructor: over the level-order
/// rearrangement of a strictly ascending sequence of perfect size, either
/// level-order search finds every element of the input.  The hypotheses are
/// the constructor's guarantees and a search's guarantee on its result.
pub proof fn lemma_perfect_build_finds_member(
    s: Seq<u64>,
    t: Seq<u64>,
    x: u64,
    r: Result<usize, usize>,
)
    requires
        strictly_sorted(s),
        perfect_size(s.len() as int),
        t.len() == s.len(),
        forall|k: int| 0 <= k < s.len() ==> t[k] == s[level_index(s.len() as int, k)],
        t.to_multiset() == s.to_multiset(),
        heap_ordered(t) ==> level_order_result(t, x, r),
        s.contains(x),
    ensures
        r matches Ok(i) && t[i as int] == x,
{
    lemma_perfect_layout_heap_ordered(s, t);
    lemma_same_multiset_same_members(s, t);
    lemma_level_order_search_finds_member(t, x, r);
}

} // verus!
