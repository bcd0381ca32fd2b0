//! Heap-indexed search over the level-order (Eytzinger) layout: a
//! branch-based variant that can stop early on an exact match, and a
//! branchless variant that always walks to a terminal index and decodes it
//! afterwards.
//!
//! The layout is modelled as an implicit binary tree over array slots: slot
//! `a` has children `2a + 1` and `2a + 2`.  On any slice the searches are
//! safe and return exactly what the walk specifications ([`branchful_walk`],
//! [`branchless_walk_result`]) prescribe; their answer means exact membership
//! only where every slot dominates its subtrees in search-tree order
//! ([`heap_ordered`]), so calling them on another layout is a logic error
//! whose result, though pinned, is not membership.

use vstd::prelude::*;

verus! {

/// Heap index of the left child of slot `a`.
pub open spec fn left_child(a: int) -> int {
    2 * a + 1
}

/// Heap index of the right child of slot `a`.
pub open spec fn right_child(a: int) -> int {
    2 * a + 2
}

/// Slot `j` lies in the subtree rooted at slot `r` of the implicit tree.
pub open spec fn in_subtree(r: int, j: int) -> bool
    decreases j,
{
    if j == r {
        true
    } else if j <= 0 {
        false
    } else {
        in_subtree(r, (j - 1) / 2)
    }
}

/// Search-tree order on the implicit tree: every slot is above its whole left
/// subtree and below its whole right subtree.  This is what the level-order
/// searches assume of their input.
pub open spec fn heap_ordered(s: Seq<u64>) -> bool {
    &&& forall|a: int, j: int|
        0 <= a < s.len() && 0 <= j < s.len() && #[trigger] in_subtree(left_child(a), j)
            ==> s[j] < s[a]
    &&& forall|a: int, j: int|
        0 <= a < s.len() && 0 <= j < s.len() && #[trigger] in_subtree(right_child(a), j)
            ==> s[j] > s[a]
}

/// Every element is below the needle.
pub open spec fn no_greater(s: Seq<u64>, x: u64) -> bool {
    forall|k: int| 0 <= k < s.len() ==> s[k] < x
}

/// Slot `p` holds the least element above the needle.
pub open spec fn least_greater_at(s: Seq<u64>, x: u64, p: int) -> bool {
    &&& 0 <= p < s.len()
    &&& s[p] > x
    &&& forall|k: int| 0 <= k < s.len() && s[k] > x ==> s[p] <= s[k]
}

/// Result contract of both level-order searches: `Ok(i)` finds `x` at slot
/// `i`; `Err(p)` reports that `x` is absent, `p` being the slot of the least
/// element above `x`, or the length when every element is below `x`.
pub open spec fn level_order_result(s: Seq<u64>, x: u64, r: Result<usize, usize>) -> bool {
    match r {
        Ok(i) => 0 <= i < s.len() && s[i as int] == x,
        Err(p) => !s.contains(x) && ((p == s.len() && no_greater(s, x)) || least_greater_at(
            s,
            x,
            p as int,
        )),
    }
}

/// Subtree members never precede their root.
proof fn lemma_subtree_ge(r: int, j: int)
    requires
        0 <= r,
        in_subtree(r, j),
    ensures
        j >= r,
    decreases j,
{
    if j != r {
        lemma_subtree_ge(r, (j - 1) / 2);
    }
}

/// A child's subtree is contained in the parent's subtree.
proof fn lemma_child_subtree(r: int, c: int, j: int)
    requires
        0 <= r,
        c == left_child(r) || c == right_child(r),
        in_subtree(c, j),
    ensures
        in_subtree(r, j),
    decreases j,
{
    if j == c {
        assert((c - 1) / 2 == r);
        assert(in_subtree(r, r));
        assert(in_subtree(r, c));
    } else {
        lemma_child_subtree(r, c, (j - 1) / 2);
    }
}

/// A proper subtree member lies in one of the two child subtrees.
proof fn lemma_subtree_decompose(r: int, j: int)
    requires
        0 <= r,
        in_subtree(r, j),
        j != r,
    ensures
        in_subtree(left_child(r), j) || in_subtree(right_child(r), j),
    decreases j,
{
    let p = (j - 1) / 2;
    if p == r {
        assert(j == left_child(r) || j == right_child(r));
        assert(in_subtree(left_child(r), left_child(r)));
        assert(in_subtree(right_child(r), right_child(r)));
    } else {
        lemma_subtree_decompose(r, p);
    }
}

/// Every slot lies in the subtree of the root.
proof fn lemma_subtree_root(j: int)
    requires
        0 <= j,
    ensures
        in_subtree(0, j),
    decreases j,
{
    if j != 0 {
        lemma_subtree_root((j - 1) / 2);
    }
}

/// Two distinct slots of a common subtree hold distinct elements.
proof fn lemma_heap_distinct_from(s: Seq<u64>, a: int, j: int, k: int)
    requires
        heap_ordered(s),
        0 <= a,
        in_subtree(a, j),
        in_subtree(a, k),
        j != k,
        0 <= j < s.len(),
        0 <= k < s.len(),
    ensures
        s[j] != s[k],
    decreases j + k - 2 * a,
{
    lemma_subtree_ge(a, j);
    lemma_subtree_ge(a, k);
    if j == a {
        lemma_subtree_decompose(a, k);
    } else if k == a {
        lemma_subtree_decompose(a, j);
    } else {
        lemma_subtree_decompose(a, j);
        lemma_subtree_decompose(a, k);
        if in_subtree(left_child(a), j) && in_subtree(left_child(a), k) {
            lemma_subtree_ge(left_child(a), j);
            lemma_subtree_ge(left_child(a), k);
            lemma_heap_distinct_from(s, left_child(a), j, k);
        } else if in_subtree(right_child(a), j) && in_subtree(right_child(a), k) {
            lemma_subtree_ge(right_child(a), j);
            lemma_subtree_ge(right_child(a), k);
            lemma_heap_distinct_from(s, right_child(a), j, k);
        }
    }
}

/// A heap-ordered sequence has pairwise distinct elements.
pub proof fn lemma_heap_ordered_distinct(s: Seq<u64>)
    requires
        heap_ordered(s),
    ensures
        forall|j: int, k: int| 0 <= j < s.len() && 0 <= k < s.len() && j != k ==> s[j] != s[k],
{
    assert forall|j: int, k: int|
        0 <= j < s.len() && 0 <= k < s.len() && j != k implies s[j] != s[k] by {
        lemma_subtree_root(j);
        lemma_subtree_root(k);
        lemma_heap_distinct_from(s, 0, j, k);
    }
}

/// The decoded rank of a terminal walk index `i`, taken on `m == i + 1`:
/// strip the trailing one bits of `m` (the final run of right moves), then
/// one more bit.  The result is one past the slot of the last left move, or 0
/// when the walk never moved left.
pub open spec fn terminal_decode(m: int) -> int
    decreases m,
{
    if m <= 0 {
        0
    } else if m % 2 == 1 {
        terminal_decode(m / 2)
    } else {
        m / 2
    }
}

/// Computes [`terminal_decode`] of `i + 1`: the find-first-set bit trick on
/// the complemented index, written as a loop over the trailing one bits.
fn terminal_rank(i: usize) -> (j: usize)
    requires
        i < usize::MAX,
    ensures
        j as int == terminal_decode(i as int + 1),
{
    let mut m: usize = i + 1;
    while m % 2 == 1
        invariant
            terminal_decode(m as int) == terminal_decode(i as int + 1),
        decreases m,
    {
        m = m / 2;
    }
    m / 2
}

/// The branch-based walk itself, as a recursive definition over any sequence:
/// from slot `i`, stop on an exact match, step to `2i + 2` below the needle
/// and to `2i + 1` above it; off the end, decode the terminal index.
pub open spec fn branchful_walk(s: Seq<u64>, x: u64, i: int) -> Result<int, int>
    decreases 2 * s.len() + 2 - i,
        when 0 <= i
{
    if i < s.len() {
        if s[i] == x {
            Ok(i)
        } else if s[i] < x {
            branchful_walk(s, x, 2 * i + 2)
        } else {
            branchful_walk(s, x, 2 * i + 1)
        }
    } else {
        let j = terminal_decode(i + 1);
        if j == 0 {
            Err(s.len() as int)
        } else {
            Err(j - 1)
        }
    }
}

/// The terminal index of the branchless walk: from slot `i`, step to `2i + 2`
/// below the needle and to `2i + 1` otherwise, until the index leaves the
/// sequence.
pub open spec fn branchless_walk(s: Seq<u64>, x: u64, i: int) -> int
    decreases 2 * s.len() + 2 - i,
        when 0 <= i
{
    if i < s.len() {
        if s[i] < x {
            branchless_walk(s, x, 2 * i + 2)
        } else {
            branchless_walk(s, x, 2 * i + 1)
        }
    } else {
        i
    }
}

/// What the branchless search answers on any sequence: decode the terminal
/// walk index, then test the decoded slot once for an exact match.
pub open spec fn branchless_walk_result(s: Seq<u64>, x: u64) -> Result<int, int> {
    let j = terminal_decode(branchless_walk(s, x, 0) + 1);
    if j == 0 {
        Err(s.len() as int)
    } else if j - 1 < s.len() && s[j - 1] == x {
        Ok(j - 1)
    } else {
        Err(j - 1)
    }
}

/// The returned machine-sized result carries the values of the walk's answer.
pub open spec fn walk_result_is(r: Result<usize, usize>, w: Result<int, int>) -> bool {
    match (r, w) {
        (Ok(a), Ok(b)) => a as int == b,
        (Err(a), Err(b)) => a as int == b,
        _ => false,
    }
}

/// Branch-based search over a level-order layout: walk the implicit tree from
/// the root, descending right when the slot is below the needle and left when
/// above, stopping early on an exact match; once the walk leaves the tree,
/// decode the terminal index to recover the miss position.
///
/// The walk is safe on any slice, and its answer on any slice is pinned by
/// [`branchful_walk`]; where the slice is heap-ordered that answer is exact
/// membership with the least-greater miss slot, a hit always names a slot
/// holding the needle, and a needle above every element misses at the length.
pub fn branchful_level_order_search(v: &Vec<u64>, x: &u64) -> (r: Result<usize, usize>)
    requires
        v@.len() <= usize::MAX / 2 - 1,
    ensures
        walk_result_is(r, branchful_walk(v@, *x, 0)),
        heap_ordered(v@) ==> level_order_result(v@, *x, r),
        r matches Ok(i) ==> 0 <= i < v@.len() && v@[i as int] == *x,
        no_greater(v@, *x) ==> r == Err::<usize, usize>(v.len()),
{
    let n = v.len();
    let mut i: usize = 0;
    let ghost mut best: Option<int> = None::<int>;
    proof {
        assert forall|k: int| 0 <= k < n implies in_subtree(0, k) by {
            lemma_subtree_root(k);
        }
        assert(terminal_decode(0) == 0);
        assert(terminal_decode(1) == 0);
    }
    while i < n
        invariant
            n == v@.len(),
            n <= usize::MAX / 2 - 1,
            i <= 2 * n,
            best matches Some(b) ==> 0 <= b < n && v@[b] > *x,
            branchful_walk(v@, *x, 0) == branchful_walk(v@, *x, i as int),
            heap_ordered(v@) ==> forall|k: int|
                0 <= k < n && !in_subtree(i as int, k) ==> v@[k] != *x,
            heap_ordered(v@) ==> (match best {
                None => forall|k: int| 0 <= k < n && !in_subtree(i as int, k) ==> v@[k] < *x,
                Some(b) => {
                    &&& !in_subtree(i as int, b)
                    &&& forall|k: int|
                        0 <= k < n && !in_subtree(i as int, k) && v@[k] > *x ==> v@[b] <= v@[k]
                    &&& forall|k: int| 0 <= k < n && in_subtree(i as int, k) ==> v@[k] < v@[b]
                },
            }),
            terminal_decode(i as int + 1) == match best {
                None => 0int,
                Some(b) => b + 1,
            },
        decreases 2 * n + 2 - i,
    {
        let e = v[i];
        if e == *x {
            proof {
                assert(branchful_walk(v@, *x, i as int) == Ok::<int, int>(i as int));
            }
            return Ok(i);
        }
        let ghost gi = i as int;
        let ghost ob = best;
        if e < *x {
            i = 2 * i + 2;
        } else {
            proof {
                best = Some(gi);
            }
            i = 2 * i + 1;
        }
        proof {
            let ni = i as int;
            assert(branchful_walk(v@, *x, gi) == branchful_walk(v@, *x, ni));
            assert(in_subtree(gi, gi));
            assert(in_subtree(ni, ni));
            if in_subtree(ni, gi) {
                lemma_subtree_ge(ni, gi);
            }
            assert(!in_subtree(ni, gi));
            assert forall|k: int| #[trigger] in_subtree(ni, k) implies in_subtree(gi, k) by {
                lemma_child_subtree(gi, ni, k);
            }
            if e < *x {
                assert(ni + 1 == 2 * (gi + 1) + 1);
                assert(terminal_decode(ni + 1) == terminal_decode(gi + 1));
            } else {
                assert(ni + 1 == 2 * (gi + 1));
                assert(terminal_decode(ni + 1) == gi + 1);
            }
            if heap_ordered(v@) {
                if e < *x {
                    // moved right: the slots left behind hold elements below x
                    assert forall|k: int|
                        0 <= k < n && in_subtree(gi, k) && !in_subtree(ni, k) implies v@[k]
                        < *x by {
                        if k != gi {
                            lemma_subtree_decompose(gi, k);
                            assert(in_subtree(left_child(gi), k));
                            assert(v@[k] < v@[gi]);
                        }
                    }
                    assert(forall|k: int| 0 <= k < n && !in_subtree(ni, k) ==> v@[k] != *x);
                    match ob {
                        None => {
                            assert(forall|k: int| 0 <= k < n && !in_subtree(ni, k) ==> v@[k] < *x);
                        },
                        Some(b) => {
                            assert(!in_subtree(ni, b));
                            assert(forall|k: int|
                                0 <= k < n && !in_subtree(ni, k) && v@[k] > *x ==> v@[b] <= v@[k]);
                            assert(forall|k: int|
                                0 <= k < n && in_subtree(ni, k) ==> v@[k] < v@[b]);
                        },
                    }
                } else {
                    // moved left: slot gi becomes the best bound so far
                    assert forall|k: int|
                        0 <= k < n && in_subtree(gi, k) && !in_subtree(ni, k) && k
                        != gi implies v@[k] > v@[gi] by {
                        lemma_subtree_decompose(gi, k);
                        assert(in_subtree(right_child(gi), k));
                    }
                    assert(v@[gi] > *x);
                    if let Some(b) = ob {
                        assert(v@[gi] < v@[b]);
                    }
                    assert(forall|k: int| 0 <= k < n && !in_subtree(ni, k) ==> v@[k] != *x);
                    assert forall|k: int|
                        0 <= k < n && !in_subtree(ni, k) && v@[k] > *x implies v@[gi] <= v@[k] by {
                        if in_subtree(gi, k) {
                            assert(k == gi || v@[k] > v@[gi]);
                        } else {
                            match ob {
                                None => {
                                    assert(v@[k] < *x);
                                },
                                Some(b) => {
                                    assert(v@[b] <= v@[k]);
                                    assert(v@[gi] < v@[b]);
                                },
                            }
                        }
                    }
                    assert forall|k: int|
                        0 <= k < n && in_subtree(ni, k) implies v@[k] < v@[gi] by {
                        assert(in_subtree(left_child(gi), k));
                    }
                }
            }
        }
    }
    proof {
        assert forall|k: int| 0 <= k < n implies !in_subtree(i as int, k) by {
            if in_subtree(i as int, k) {
                lemma_subtree_ge(i as int, k);
            }
        }
        if heap_ordered(v@) {
            assert(!v@.contains(*x)) by {
                if v@.contains(*x) {
                    let w = choose|w: int| 0 <= w < v@.len() && v@[w] == *x;
                    assert(!in_subtree(i as int, w));
                    assert(v@[w] != *x);
                }
            }
        }
    }
    let j = terminal_rank(i);
    proof {
        assert(branchful_walk(v@, *x, i as int) == (if terminal_decode(i as int + 1) == 0 {
            Err::<int, int>(n as int)
        } else {
            Err::<int, int>(terminal_decode(i as int + 1) - 1)
        }));
    }
    if j == 0 {
        proof {
            assert(best is None);
            if heap_ordered(v@) {
                assert forall|k: int| 0 <= k < n implies v@[k] < *x by {
                    assert(!in_subtree(i as int, k));
                }
            }
        }
        Err(n)
    } else {
        proof {
            let b = best->Some_0;
            assert(j as int == b + 1);
            assert(v@[b] > *x);
            if heap_ordered(v@) {
                assert forall|k: int| 0 <= k < n && v@[k] > *x implies v@[b] <= v@[k] by {
                    assert(!in_subtree(i as int, k));
                }
                assert(least_greater_at(v@, *x, b));
            }
        }
        Err(j - 1)
    }
}

/// Branchless search over a level-order layout: descend from the root with a
/// purely arithmetic step, never stopping on equality, then decode the
/// terminal index and test the decoded slot once.
///
/// The walk is safe on any slice, and its answer on any slice is pinned by
/// [`branchless_walk_result`]; where the slice is heap-ordered that answer is
/// exact membership with the least-greater miss slot, a hit always names a
/// slot holding the needle, and a needle above every element misses at the
/// length.
pub fn branchless_level_order_search(v: &Vec<u64>, x: &u64) -> (r: Result<usize, usize>)
    requires
        v@.len() <= usize::MAX / 2 - 1,
    ensures
        walk_result_is(r, branchless_walk_result(v@, *x)),
        heap_ordered(v@) ==> level_order_result(v@, *x, r),
        r matches Ok(i) ==> 0 <= i < v@.len() && v@[i as int] == *x,
        no_greater(v@, *x) ==> r == Err::<usize, usize>(v.len()),
{
    let n = v.len();
    let mut i: usize = 0;
    let ghost mut best: Option<int> = None::<int>;
    proof {
        assert forall|k: int| 0 <= k < n implies in_subtree(0, k) by {
            lemma_subtree_root(k);
        }
        assert(terminal_decode(0) == 0);
        assert(terminal_decode(1) == 0);
    }
    while i < n
        invariant
            n == v@.len(),
            n <= usize::MAX / 2 - 1,
            i <= 2 * n,
            best matches Some(b) ==> 0 <= b < n && v@[b] >= *x,
            branchless_walk(v@, *x, 0) == branchless_walk(v@, *x, i as int),
            heap_ordered(v@) ==> (match best {
                None => forall|k: int| 0 <= k < n && !in_subtree(i as int, k) ==> v@[k] < *x,
                Some(b) => {
                    &&& !in_subtree(i as int, b)
                    &&& forall|k: int|
                        0 <= k < n && !in_subtree(i as int, k) && v@[k] >= *x ==> v@[b] <= v@[k]
                    &&& forall|k: int| 0 <= k < n && in_subtree(i as int, k) ==> v@[k] < v@[b]
                },
            }),
            terminal_decode(i as int + 1) == match best {
                None => 0int,
                Some(b) => b + 1,
            },
        decreases 2 * n + 2 - i,
    {
        let ghost gi = i as int;
        let ghost ob = best;
        let step = (v[i] < *x) as usize;
        proof {
            if v@[gi] >= *x {
                best = Some(gi);
            }
        }
        i = 2 * i + 1 + step;
        proof {
            let ni = i as int;
            assert(branchless_walk(v@, *x, gi) == branchless_walk(v@, *x, ni));
            assert(in_subtree(gi, gi));
            assert(in_subtree(ni, ni));
            if in_subtree(ni, gi) {
                lemma_subtree_ge(ni, gi);
            }
            assert(!in_subtree(ni, gi));
            assert forall|k: int| #[trigger] in_subtree(ni, k) implies in_subtree(gi, k) by {
                lemma_child_subtree(gi, ni, k);
            }
            if v@[gi] < *x {
                assert(ni + 1 == 2 * (gi + 1) + 1);
                assert(terminal_decode(ni + 1) == terminal_decode(gi + 1));
            } else {
                assert(ni + 1 == 2 * (gi + 1));
                assert(terminal_decode(ni + 1) == gi + 1);
            }
            if heap_ordered(v@) {
                if v@[gi] < *x {
                    // moved right: the slots left behind hold elements below x
                    assert(ni == right_child(gi));
                    assert forall|k: int|
                        0 <= k < n && in_subtree(gi, k) && !in_subtree(ni, k) implies v@[k]
                        < *x by {
                        if k != gi {
                            lemma_subtree_decompose(gi, k);
                            assert(in_subtree(left_child(gi), k));
                            assert(v@[k] < v@[gi]);
                        }
                    }
                    match ob {
                        None => {
                            assert(forall|k: int| 0 <= k < n && !in_subtree(ni, k) ==> v@[k] < *x);
                        },
                        Some(b) => {
                            assert(!in_subtree(ni, b));
                            assert(forall|k: int|
                                0 <= k < n && !in_subtree(ni, k) && v@[k] >= *x ==> v@[b]
                                    <= v@[k]);
                            assert(forall|k: int|
                                0 <= k < n && in_subtree(ni, k) ==> v@[k] < v@[b]);
                        },
                    }
                } else {
                    // moved left: slot gi becomes the best bound so far
                    assert(ni == left_child(gi));
                    assert forall|k: int|
                        0 <= k < n && in_subtree(gi, k) && !in_subtree(ni, k) && k
                        != gi implies v@[k] > v@[gi] by {
                        lemma_subtree_decompose(gi, k);
                        assert(in_subtree(right_child(gi), k));
                    }
                    assert(v@[gi] >= *x);
                    if let Some(b) = ob {
                        assert(v@[gi] < v@[b]);
                    }
                    assert forall|k: int|
                        0 <= k < n && !in_subtree(ni, k) && v@[k] >= *x implies v@[gi]
                        <= v@[k] by {
                        if in_subtree(gi, k) {
                            assert(k == gi || v@[k] > v@[gi]);
                        } else {
                            match ob {
                                None => {
                                    assert(v@[k] < *x);
                                },
                                Some(b) => {
                                    assert(v@[b] <= v@[k]);
                                    assert(v@[gi] < v@[b]);
                                },
                            }
                        }
                    }
                    assert forall|k: int|
                        0 <= k < n && in_subtree(ni, k) implies v@[k] < v@[gi] by {
                        assert(in_subtree(left_child(gi), k));
                    }
                }
            }
        }
    }
    proof {
        assert forall|k: int| 0 <= k < n implies !in_subtree(i as int, k) by {
            if in_subtree(i as int, k) {
                lemma_subtree_ge(i as int, k);
            }
        }
    }
    let j = terminal_rank(i);
    proof {
        assert(branchless_walk(v@, *x, i as int) == i as int);
        assert(j as int == terminal_decode(branchless_walk(v@, *x, 0) + 1));
    }
    if j == 0 {
        proof {
            assert(best is None);
            if heap_ordered(v@) {
                assert forall|k: int| 0 <= k < n implies v@[k] < *x by {
                    assert(!in_subtree(i as int, k));
                }
                assert(!v@.contains(*x)) by {
                    if v@.contains(*x) {
                        let w = choose|w: int| 0 <= w < v@.len() && v@[w] == *x;
                        assert(v@[w] == *x);
                    }
                }
            }
        }
        Err(n)
    } else {
        let p = j - 1;
        proof {
            let b = best->Some_0;
            assert(j as int == b + 1);
            assert(p as int == b);
        }
        if v[p] == *x {
            proof {
                assert(branchless_walk_result(v@, *x) == Ok::<int, int>(p as int));
            }
            Ok(p)
        } else {
            proof {
                let b = best->Some_0;
                assert(v@[b] >= *x);
                assert(branchless_walk_result(v@, *x) == Err::<int, int>(p as int));
                if heap_ordered(v@) {
                    assert(v@[b] > *x);
                    assert forall|k: int| 0 <= k < n && v@[k] >= *x implies v@[b] <= v@[k] by {
                        assert(!in_subtree(i as int, k));
                    }
                    assert(!v@.contains(*x)) by {
                        if v@.contains(*x) {
                            let w = choose|w: int| 0 <= w < v@.len() && v@[w] == *x;
                            assert(v@[w] >= *x);
                            assert(v@[b] <= v@[w]);
                        }
                    }
                    assert(least_greater_at(v@, *x, b));
                }
            }
            Err(p)
        }
    }
}

/// Each well-typed answer of a level-order search is the only one: over a
/// heap-ordered sequence the contract pins the result, so the branch-based
/// and branchless variants agree exactly.
pub proof fn lemma_level_order_unique(
    s: Seq<u64>,
    x: u64,
    r1: Result<usize, usize>,
    r2: Result<usize, usize>,
)
    requires
        heap_ordered(s),
        level_order_result(s, x, r1),
        level_order_result(s, x, r2),
    ensures
        r1 == r2,
{
    lemma_heap_ordered_distinct(s);
    match (r1, r2) {
        (Ok(i1), Ok(i2)) => {
            assert(s[i1 as int] == s[i2 as int]);
        }
        (Ok(i1), Err(p2)) => {
            assert(s.contains(x)) by {
                assert(s[i1 as int] == x);
            }
        }
        (Err(p1), Ok(i2)) => {
            assert(s.contains(x)) by {
                assert(s[i2 as int] == x);
            }
        }
        (Err(p1), Err(p2)) => {
            if p1 as int == s.len() && least_greater_at(s, x, p2 as int) {
                assert(s[p2 as int] < x);
            }
            if p2 as int == s.len() && least_greater_at(s, x, p1 as int) {
                assert(s[p1 as int] < x);
            }
            if least_greater_at(s, x, p1 as int) && least_greater_at(s, x, p2 as int) {
                assert(s[p1 as int] == s[p2 as int]);
            }
        }
    }
}

/// Round-trip membership for the level-order layout: a needle that is present
/// in a heap-ordered sequence is reported found, by either variant.
pub proof fn lemma_level_order_search_finds_member(s: Seq<u64>, x: u64, r: Result<usize, usize>)
    requires
        heap_ordered(s),
        s.contains(x),
        level_order_result(s, x, r),
    ensures
        r matches Ok(i) && s[i as int] == x,
{
}

/// Boundary behaviour of both level-order searches, forced by their contract:
/// the empty sequence always reports a miss at 0, and a single element is
/// found at 0 exactly when it equals the needle, the miss point falling on 0
/// or 1 according to the ordering.
pub proof fn lemma_level_order_search_boundary(s: Seq<u64>, x: u64, r: Result<usize, usize>)
    requires
        heap_ordered(s),
        level_order_result(s, x, r),
    ensures
        s.len() == 0 ==> r == Err::<usize, usize>(0),
        s.len() == 1 && s[0] == x ==> r == Ok::<usize, usize>(0),
        s.len() == 1 && s[0] < x ==> r == Err::<usize, usize>(1),
        s.len() == 1 && s[0] > x ==> r == Err::<usize, usize>(0),
{
    if s.len() == 1 && s[0] == x {
        assert(s.contains(x)) by {
            assert(s[0] == x);
        }
        lemma_level_order_search_finds_member(s, x, r);
    }
    if s.len() == 1 && s[0] != x {
        if let Ok(i) = r {
            assert(s[i as int] == x);
        }
    }
}

} // verus!
