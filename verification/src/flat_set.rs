//! The ordered collection: a thin owner of the backing array, exposing
//! construction in either layout and the four search procedures as membership
//! queries.
//!
//! The layout is not stored: a set built by [`FlatSet::binary_order`] from an
//! ascending input is in sorted layout, one built by [`FlatSet::from_iter`]
//! is in level-order layout, and the caller must pick the matching search
//! variant — each query's contract says under which layout its answer means
//! membership.

use vstd::prelude::*;
use crate::level_index::level_index;
use crate::permute::level_order;
use crate::search_level::branchful_level_order_search;
use crate::search_level::branchful_walk;
use crate::search_level::branchless_level_order_search;
use crate::search_level::branchless_walk_result;
use crate::search_level::heap_ordered;
use crate::search_level::no_greater;
use crate::search_sorted::branchful_binary_search;
use crate::search_sorted::branchless_binary_search;
use crate::search_sorted::insertion_point;
use crate::search_sorted::sorted;

verus! {

/// A flat, array-backed membership container over machine integers.
pub struct FlatSet {
    inner: Vec<u64>,
}

impl View for FlatSet {
    type V = Seq<u64>;

    closed spec fn view(&self) -> Seq<u64> {
        self.inner@
    }
}

impl FlatSet {
    /// The empty collection.
    pub fn new() -> (r: FlatSet)
        ensures
            r@ == Seq::<u64>::empty(),
    {
        let r = FlatSet { inner: Vec::new() };
        proof {
            assert(r@ =~= Seq::<u64>::empty());
        }
        r
    }

    /// The backing elements in their current physical order.
    pub fn iter(&self) -> (r: &Vec<u64>)
        ensures
            r@ == self@,
    {
        &self.inner
    }

    /// Number of elements held.
    pub fn len(&self) -> (r: usize)
        ensures
            r == self@.len(),
    {
        self.inner.len()
    }

    /// Builds a sorted-layout collection: the input is taken as is, so it must
    /// already be ascending for the binary searches to answer correctly.
    pub fn binary_order(v: Vec<u64>) -> (r: FlatSet)
        ensures
            r@ == v@,
    {
        FlatSet { inner: v }
    }

    /// Builds a level-order-layout collection: collects the input, assumed
    /// ascending, and rewrites it in place into the level-order layout.  The
    /// result holds exactly the input elements, rearranged.  When the input is
    /// strictly ascending and of perfect size, the result is heap-ordered
    /// ([`crate::lemma_perfect_layout_heap_ordered`]) and the level-order
    /// membership queries apply to it.
    pub fn from_iter(v: Vec<u64>) -> (r: FlatSet)
        ensures
            r@.len() == v@.len(),
            forall|k: int|
                0 <= k < v@.len() ==> r@[k] == v@[level_index(v@.len() as int, k)],
            r@.to_multiset() == v@.to_multiset(),
    {
        let mut data = v;
        level_order(&mut data);
        FlatSet { inner: data }
    }

    /// Membership under the level-order layout, by the branch-based search:
    /// exactly whether the walk ends on the needle.  A `true` answer always
    /// names a real member; the `false` answer means absence on a heap-ordered
    /// layout, and a needle above every element is always reported absent.
    pub fn contains(&self, value: &u64) -> (r: bool)
        requires
            self@.len() <= usize::MAX / 2 - 1,
        ensures
            r == (branchful_walk(self@, *value, 0) is Ok),
            heap_ordered(self@) ==> r == self@.contains(*value),
            r ==> self@.contains(*value),
            no_greater(self@, *value) ==> r == false,
    {
        self.branchful_level_order_search_contains(value)
    }

    /// Membership under the sorted layout, by the branch-based binary search.
    pub fn branchful_binary_search_contains(&self, value: &u64) -> (r: bool)
        requires
            sorted(self@),
        ensures
            r == self@.contains(*value),
    {
        let res = branchful_binary_search(&self.inner, value);
        proof {
            match res {
                Ok(i) => {
                    assert(self@.contains(*value)) by {
                        assert(self@[i as int] == *value);
                    }
                },
                Err(p) => {
                    assert(!self@.contains(*value)) by {
                        if self@.contains(*value) {
                            let w = choose|w: int| 0 <= w < self@.len() && self@[w] == *value;
                            assert(insertion_point(self@, *value, p as int));
                            assert(self@[w] == *value);
                        }
                    }
                },
            }
        }
        res.is_ok()
    }

    /// Membership under the sorted layout, by the branchless binary search.
    pub fn branchless_binary_search_contains(&self, value: &u64) -> (r: bool)
        requires
            sorted(self@),
        ensures
            r == self@.contains(*value),
    {
        let res = branchless_binary_search(&self.inner, value);
        proof {
            match res {
                Ok(i) => {
                    assert(self@.contains(*value)) by {
                        assert(self@[i as int] == *value);
                    }
                },
                Err(p) => {
                    assert(!self@.contains(*value)) by {
                        if self@.contains(*value) {
                            let w = choose|w: int| 0 <= w < self@.len() && self@[w] == *value;
                            assert(insertion_point(self@, *value, p as int));
                            assert(self@[w] == *value);
                        }
                    }
                },
            }
        }
        res.is_ok()
    }

    /// Membership under the level-order layout, by the branch-based search:
    /// exactly whether the walk ends on the needle.  A `true` answer always
    /// names a real member; the `false` answer means absence on a heap-ordered
    /// layout, and a needle above every element is always reported absent.
    pub fn branchful_level_order_search_contains(&self, value: &u64) -> (r: bool)
        requires
            self@.len() <= usize::MAX / 2 - 1,
        ensures
            r == (branchful_walk(self@, *value, 0) is Ok),
            heap_ordered(self@) ==> r == self@.contains(*value),
            r ==> self@.contains(*value),
            no_greater(self@, *value) ==> r == false,
    {
        let res = branchful_level_order_search(&self.inner, value);
        proof {
            if let Ok(i) = res {
                assert(self@.contains(*value)) by {
                    assert(self@[i as int] == *value);
                }
            }
        }
        res.is_ok()
    }

    /// Membership under the level-order layout, by the branchless search:
    /// exactly whether the decoded terminal slot holds the needle.  A `true`
    /// answer always names a real member; the `false` answer means absence on
    /// a heap-ordered layout, and a needle above every element is always
    /// reported absent.
    pub fn branchless_level_order_search_contains(&self, value: &u64) -> (r: bool)
        requires
            self@.len() <= usize::MAX / 2 - 1,
        ensures
            r == (branchless_walk_result(self@, *value) is Ok),
            heap_ordered(self@) ==> r == self@.contains(*value),
            r ==> self@.contains(*value),
            no_greater(self@, *value) ==> r == false,
    {
        let res = branchless_level_order_search(&self.inner, value);
        proof {
            if let Ok(i) = res {
                assert(self@.contains(*value)) by {
                    assert(self@[i as int] == *value);
                }
            }
        }
        res.is_ok()
    }
}

} // verus!
