//! Level-order index producer: emits the positions `0..n` in breadth-first
//! order of the implicit balanced binary search tree built by recursive
//! bisection, using a FIFO queue of pending half-open ranges.
//!
//! Dequeue a range, emit its lower-biased midpoint, and enqueue its non-empty
//! left and right subranges (left before right).  The emitted sequence lists
//! each position of `0..n` exactly once; position `i` of the level-order
//! layout must hold the element of sorted rank `emitted[i]`.

use vstd::prelude::*;

verus! {

/// Number of positions in the half-open range `r`.
pub open spec fn range_len(r: (int, int)) -> nat {
    if r.1 > r.0 {
        (r.1 - r.0) as nat
    } else {
        0
    }
}

/// Total number of positions still pending in a queue of ranges.
pub open spec fn queue_total(q: Seq<(int, int)>) -> nat
    decreases q.len(),
{
    if q.len() == 0 {
        0
    } else {
        range_len(q[0]) + queue_total(q.drop_first())
    }
}

proof fn lemma_queue_total_push(q: Seq<(int, int)>, e: (int, int))
    ensures
        queue_total(q.push(e)) == queue_total(q) + range_len(e),
    decreases q.len(),
{
    if q.len() == 0 {
        assert(q.push(e) =~= seq![e]);
        assert(seq![e].drop_first() =~= Seq::<(int, int)>::empty());
        assert(queue_total(Seq::<(int, int)>::empty()) == 0);
        assert(queue_total(seq![e]) == range_len(e));
    } else {
        assert(q.push(e).drop_first() =~= q.drop_first().push(e));
        lemma_queue_total_push(q.drop_first(), e);
        assert(q.push(e)[0] == q[0]);
    }
}

/// The sequence of positions emitted by draining a queue of pending ranges in
/// breadth-first order: pop the front range, emit its lower-biased midpoint,
/// and append its non-empty left and right subranges to the back.
pub open spec fn bfs_order(q: Seq<(int, int)>) -> Seq<int>
    decreases queue_total(q), q.len(),
    via bfs_order_decreases
{
    if q.len() == 0 {
        Seq::empty()
    } else {
        let lo = q[0].0;
        let hi = q[0].1;
        let rest = q.drop_first();
        if hi <= lo {
            bfs_order(rest)
        } else {
            let mid = lo + (hi - lo) / 2;
            let rest1 = if mid > lo {
                rest.push((lo, mid))
            } else {
                rest
            };
            let rest2 = if hi > mid + 1 {
                rest1.push((mid + 1, hi))
            } else {
                rest1
            };
            seq![mid] + bfs_order(rest2)
        }
    }
}

#[via_fn]
proof fn bfs_order_decreases(q: Seq<(int, int)>) {
    if q.len() != 0 {
        let lo = q[0].0;
        let hi = q[0].1;
        let rest = q.drop_first();
        assert(queue_total(q) == range_len(q[0]) + queue_total(rest));
        if hi > lo {
            let mid = lo + (hi - lo) / 2;
            let rest1 = if mid > lo {
                rest.push((lo, mid))
            } else {
                rest
            };
            let rest2 = if hi > mid + 1 {
                rest1.push((mid + 1, hi))
            } else {
                rest1
            };
            if mid > lo {
                lemma_queue_total_push(rest, (lo, mid));
            }
            if hi > mid + 1 {
                lemma_queue_total_push(rest1, (mid + 1, hi));
            }
            assert(queue_total(rest2) < queue_total(q));
        }
    }
}

/// The index sequence of the level-order layout of length `n`: the breadth-
/// first emission order seeded with the full range.
pub open spec fn level_index(n: int, k: int) -> int {
    bfs_order(seq![(0, n)])[k]
}

/// An index vector is a permutation of its positions: values in range and
/// pairwise distinct.
pub open spec fn is_permutation(p: Seq<usize>) -> bool {
    &&& forall|k: int| 0 <= k < p.len() ==> (#[trigger] p[k]) < p.len()
    &&& forall|k1: int, k2: int|
        0 <= k1 < p.len() && 0 <= k2 < p.len() && k1 != k2 ==> p[k1] != p[k2]
}

/// Draining a queue of well-formed, pairwise disjoint ranges emits exactly one
/// position per pending slot, each inside one of the queued ranges, with no
/// position repeated.
pub proof fn lemma_bfs_order_props(q: Seq<(int, int)>, n: int)
    requires
        forall|k: int| 0 <= k < q.len() ==> 0 <= (#[trigger] q[k]).0 < q[k].1 <= n,
        forall|k1: int, k2: int|
            0 <= k1 < k2 < q.len() ==> q[k1].1 <= q[k2].0 || q[k2].1 <= q[k1].0,
    ensures
        bfs_order(q).len() == queue_total(q),
        forall|t: int|
            0 <= t < bfs_order(q).len() ==> exists|k: int|
                0 <= k < q.len() && (#[trigger] q[k]).0 <= #[trigger] bfs_order(q)[t] < q[k].1,
        forall|t1: int, t2: int|
            0 <= t1 < t2 < bfs_order(q).len() ==> bfs_order(q)[t1] != bfs_order(q)[t2],
    decreases queue_total(q), q.len(),
{
    if q.len() == 0 {
        assert(bfs_order(q) =~= Seq::<int>::empty());
    } else {
        let lo = q[0].0;
        let hi = q[0].1;
        let rest = q.drop_first();
        assert(0 <= lo < hi <= n);
        assert(queue_total(q) == range_len(q[0]) + queue_total(rest));
        let mid = lo + (hi - lo) / 2;
        let rest1 = if mid > lo {
            rest.push((lo, mid))
        } else {
            rest
        };
        let rest2 = if hi > mid + 1 {
            rest1.push((mid + 1, hi))
        } else {
            rest1
        };
        assert(forall|k: int| 0 <= k < rest.len() ==> #[trigger] rest[k] == q[k + 1]);
        // the grown queue is still well formed and pairwise disjoint
        assert forall|k: int| 0 <= k < rest2.len() implies 0 <= (#[trigger] rest2[k]).0
            < rest2[k].1 <= n by {
            if k < rest.len() {
                assert(rest2[k] == q[k + 1]);
            } else {
                assert(rest2[k] == (lo, mid) || rest2[k] == (mid + 1, hi));
            }
        }
        assert forall|k1: int, k2: int| 0 <= k1 < k2 < rest2.len() implies (rest2[k1].1
            <= rest2[k2].0 || rest2[k2].1 <= rest2[k1].0) by {
            if k1 < rest.len() && k2 < rest.len() {
                assert(rest2[k1] == q[k1 + 1]);
                assert(rest2[k2] == q[k2 + 1]);
            } else if k1 < rest.len() {
                // a child of the popped range against an older range
                assert(rest2[k1] == q[k1 + 1]);
                assert(rest2[k2] == (lo, mid) || rest2[k2] == (mid + 1, hi));
                assert(q[0].1 <= q[k1 + 1].0 || q[k1 + 1].1 <= q[0].0);
            } else {
                // the left child against the right child
                assert(rest2[k1] == (lo, mid) && rest2[k2] == (mid + 1, hi));
            }
        }
        if mid > lo {
            lemma_queue_total_push(rest, (lo, mid));
        }
        if hi > mid + 1 {
            lemma_queue_total_push(rest1, (mid + 1, hi));
        }
        assert(queue_total(rest2) + 1 == queue_total(q));
        lemma_bfs_order_props(rest2, n);
        let e = bfs_order(q);
        let e2 = bfs_order(rest2);
        assert(e == seq![mid] + e2);
        assert(e.len() == queue_total(q));
        assert forall|t: int| 0 <= t < e.len() implies exists|k: int|
            0 <= k < q.len() && (#[trigger] q[k]).0 <= #[trigger] e[t] < q[k].1 by {
            if t == 0 {
                assert(e[0] == mid);
                assert(q[0].0 <= e[0] < q[0].1);
            } else {
                assert(e[t] == e2[t - 1]);
                let k2 = choose|k2: int|
                    0 <= k2 < rest2.len() && (#[trigger] rest2[k2]).0 <= e2[t - 1] < rest2[k2].1;
                if k2 < rest.len() {
                    assert(rest2[k2] == q[k2 + 1]);
                    assert(q[k2 + 1].0 <= e[t] < q[k2 + 1].1);
                } else {
                    assert(rest2[k2] == (lo, mid) || rest2[k2] == (mid + 1, hi));
                    assert(q[0].0 <= e[t] < q[0].1);
                }
            }
        }
        assert forall|t1: int, t2: int| 0 <= t1 < t2 < e.len() implies e[t1] != e[t2] by {
            if t1 == 0 {
                assert(e[t1] == mid);
                assert(e[t2] == e2[t2 - 1]);
                let k2 = choose|k2: int|
                    0 <= k2 < rest2.len() && (#[trigger] rest2[k2]).0 <= e2[t2 - 1] < rest2[k2].1;
                if k2 < rest.len() {
                    assert(rest2[k2] == q[k2 + 1]);
                    assert(q[0].1 <= q[k2 + 1].0 || q[k2 + 1].1 <= q[0].0);
                } else {
                    assert(rest2[k2] == (lo, mid) || rest2[k2] == (mid + 1, hi));
                }
            } else {
                assert(e[t1] == e2[t1 - 1]);
                assert(e[t2] == e2[t2 - 1]);
            }
        }
    }
}

/// Lazy, finite, non-restartable producer of the level-order positions of a
/// range, backed by a FIFO queue of pending subranges.
pub struct LevelOrderIterator {
    queue: Vec<(usize, usize)>,
    head: usize,
}

impl LevelOrderIterator {
    /// The queue never holds an empty range and its consumed prefix stays in
    /// bounds.
    pub closed spec fn wf(self) -> bool {
        &&& self.head <= self.queue@.len()
        &&& forall|k: int|
            self.head <= k < self.queue@.len() ==> (#[trigger] self.queue@[k]).0
                < self.queue@[k].1
    }

    /// The pending ranges, oldest first.
    pub closed spec fn pending(self) -> Seq<(int, int)> {
        self.queue@.subrange(self.head as int, self.queue@.len() as int).map_values(
            |r: (usize, usize)| (r.0 as int, r.1 as int),
        )
    }

    /// The positions this iterator will still emit, in order.
    pub open spec fn remaining(self) -> Seq<int> {
        bfs_order(self.pending())
    }

    /// Seeds the producer with the half-open range `lo..hi`.
    pub fn from_range(lo: usize, hi: usize) -> (it: LevelOrderIterator)
        ensures
            it.wf(),
            it.remaining() == bfs_order(seq![(lo as int, hi as int)]),
    {
        let mut queue: Vec<(usize, usize)> = Vec::new();
        if lo < hi {
            queue.push((lo, hi));
        }
        let it = LevelOrderIterator { queue, head: 0 };
        proof {
            if lo < hi {
                assert(it.pending() =~= seq![(lo as int, hi as int)]);
            } else {
                assert(it.pending() =~= Seq::<(int, int)>::empty());
                assert(bfs_order(seq![(lo as int, hi as int)]) == bfs_order(
                    seq![(lo as int, hi as int)].drop_first(),
                ));
                assert(seq![(lo as int, hi as int)].drop_first() =~= Seq::<(int, int)>::empty());
            }
        }
        it
    }

    /// Whether any position is still pending.
    pub fn has_next(&self) -> (r: bool)
        requires
            self.wf(),
        ensures
            r == (self.remaining().len() > 0),
    {
        proof {
            if self.head < self.queue@.len() {
                assert(self.pending().len() > 0);
                assert(self.pending()[0] == (
                    self.queue@[self.head as int].0 as int,
                    self.queue@[self.head as int].1 as int,
                ));
                assert(self.remaining().len() > 0);
            } else {
                assert(self.pending() =~= Seq::<(int, int)>::empty());
            }
        }
        self.head < self.queue.len()
    }

    /// Emits the next level-order position: the midpoint of the front range,
    /// after queueing that range's non-empty halves.
    pub fn next(&mut self) -> (r: Option<usize>)
        requires
            old(self).wf(),
        ensures
            final(self).wf(),
            match r {
                Some(v) => {
                    &&& old(self).remaining().len() > 0
                    &&& v as int == old(self).remaining()[0]
                    &&& final(self).remaining() == old(self).remaining().drop_first()
                },
                None => old(self).remaining().len() == 0 && final(self).remaining().len() == 0,
            },
    {
        if self.head == self.queue.len() {
            proof {
                assert(self.pending() =~= Seq::<(int, int)>::empty());
            }
            return None;
        }
        let ghost p0 = self.pending();
        let r = self.queue[self.head];
        let lo = r.0;
        let hi = r.1;
        self.head = self.head + 1;
        let len = hi - lo;
        let mid = lo + len / 2;
        if mid > lo {
            self.queue.push((lo, mid));
        }
        if hi > mid + 1 {
            self.queue.push((mid + 1, hi));
        }
        proof {
            let glo = lo as int;
            let ghi = hi as int;
            let gmid = glo + (ghi - glo) / 2;
            assert(p0[0] == (glo, ghi));
            assert(mid as int == gmid);
            let rest = p0.drop_first();
            let rest1 = if gmid > glo {
                rest.push((glo, gmid))
            } else {
                rest
            };
            let rest2 = if ghi > gmid + 1 {
                rest1.push((gmid + 1, ghi))
            } else {
                rest1
            };
            assert(bfs_order(p0) == seq![gmid] + bfs_order(rest2));
            assert(self.pending() =~= rest2);
            assert((seq![gmid] + bfs_order(rest2)).drop_first() =~= bfs_order(rest2));
        }
        Some(mid)
    }
}

/// Collects the full level-order position sequence for `0..n`: a permutation
/// of the positions, position `k` carrying the sorted rank that level-order
/// slot `k` must hold.
#[verifier::loop_isolation(false)]
pub fn level_order_indexes(n: usize) -> (r: Vec<usize>)
    ensures
        r@.len() == n,
        forall|k: int| 0 <= k < n ==> r@[k] as int == level_index(n as int, k),
        is_permutation(r@),
{
    let ghost full = bfs_order(seq![(0int, n as int)]);
    proof {
        assert(seq![(0int, n as int)].drop_first() =~= Seq::<(int, int)>::empty());
        assert(queue_total(Seq::<(int, int)>::empty()) == 0);
        assert(queue_total(seq![(0int, n as int)]) == range_len((0int, n as int)));
        if n == 0 {
            assert(full == bfs_order(seq![(0int, n as int)].drop_first()));
            assert(bfs_order(Seq::<(int, int)>::empty()) =~= Seq::<int>::empty());
            assert(full =~= Seq::<int>::empty());
        } else {
            lemma_bfs_order_props(seq![(0int, n as int)], n as int);
        }
        assert(full.len() == n);
        assert forall|t: int| 0 <= t < n implies 0 <= #[trigger] full[t] < n by {
            let k = choose|k: int|
                0 <= k < seq![(0int, n as int)].len() && (#[trigger] seq![(0int, n as int)][k]).0
                    <= full[t] < seq![(0int, n as int)][k].1;
        }
    }
    let mut it = LevelOrderIterator::from_range(0, n);
    let mut out: Vec<usize> = Vec::new();
    while it.has_next()
        invariant
            it.wf(),
            out@.len() + it.remaining().len() == n,
            it.remaining() == full.skip(out@.len() as int),
            forall|k: int| 0 <= k < out@.len() ==> out@[k] as int == #[trigger] full[k],
        decreases it.remaining().len(),
    {
        let ghost m = out@.len() as int;
        match it.next() {
            Some(u) => {
                out.push(u);
                proof {
                    assert(full.skip(m)[0] == full[m]);
                    assert(full.skip(m).drop_first() =~= full.skip(m + 1));
                }
            },
            None => {
                proof {
                    assert(false);
                }
            },
        }
    }
    proof {
        assert(out@.len() == n);
        assert forall|k: int| 0 <= k < n implies (#[trigger] out@[k]) < n by {
            assert(out@[k] as int == full[k]);
        }
        assert forall|k1: int, k2: int|
            0 <= k1 < out@.len() && 0 <= k2 < out@.len() && k1 != k2 implies out@[k1]
            != out@[k2] by {
            assert(out@[k1] as int == full[k1]);
            assert(out@[k2] as int == full[k2]);
        }
    }
    out
}

} // verus!
