//! Slice-level interface: the layout conversion and the four searches as
//! methods on the backing container, so that callers can work on a bare
//! vector without going through [`crate::FlatSet`].

use vstd::prelude::*;
use crate::level_index::level_index;
use crate::search_level::branchful_walk;
use crate::search_level::branchless_walk_result;
use crate::search_level::heap_ordered;
use crate::search_level::level_order_result;
use crate::search_level::no_greater;
use crate::search_level::walk_result_is;
use crate::search_sorted::binary_search_result;
use crate::search_sorted::sorted;

verus! {

/// The operations of a level-order-capable ordered container: in-place
/// conversion to the level-order layout, and the four membership searches.
/// Each search method carries the layout it assumes as a precondition.
pub trait LevelOrder {
    /// The elements in physical order, as the contracts see them.
    spec fn contents(&self) -> Seq<u64>;

    /// Branch-based binary search; assumes ascending order.
    fn branchful_binary_search(&self, x: &u64) -> (r: Result<usize, usize>)
        requires
            sorted(self.contents()),
        ensures
            binary_search_result(self.contents(), *x, r),
    ;

    /// Branchless binary search; assumes ascending order.
    fn branchless_binary_search(&self, x: &u64) -> (r: Result<usize, usize>)
        requires
            sorted(self.contents()),
        ensures
            binary_search_result(self.contents(), *x, r),
    ;

    /// Rewrites the contents, assumed ascending, into level-order layout.
    fn level_order(&mut self)
        ensures
            final(self).contents().len() == old(self).contents().len(),
            forall|k: int|
                0 <= k < old(self).contents().len() ==> final(self).contents()[k] == old(
                    self,
                ).contents()[level_index(old(self).contents().len() as int, k)],
            final(self).contents().to_multiset() == old(self).contents().to_multiset(),
    ;

    /// Branch-based search; safe on any contents, its answer pinned by the
    /// walk itself, exact membership on a search-tree-ordered layout, a hit
    /// always genuine.
    fn branchful_level_order_search(&self, x: &u64) -> (r: Result<usize, usize>)
        requires
            self.contents().len() <= usize::MAX / 2 - 1,
        ensures
            walk_result_is(r, branchful_walk(self.contents(), *x, 0)),
            heap_ordered(self.contents()) ==> level_order_result(self.contents(), *x, r),
            r matches Ok(i) ==> 0 <= i < self.contents().len() && self.contents()[i as int] == *x,
            no_greater(self.contents(), *x) ==> (r is Err && r->Err_0 == self.contents().len()),
    ;

    /// Branchless search; safe on any contents, its answer pinned by the walk
    /// and its decoded-slot recheck, exact membership on a search-tree-ordered
    /// layout, a hit always genuine.
    fn branchless_level_order_search(&self, x: &u64) -> (r: Result<usize, usize>)
        requires
            self.contents().len() <= usize::MAX / 2 - 1,
        ensures
            walk_result_is(r, branchless_walk_result(self.contents(), *x)),
            heap_ordered(self.contents()) ==> level_order_result(self.contents(), *x, r),
            r matches Ok(i) ==> 0 <= i < self.contents().len() && self.contents()[i as int] == *x,
            no_greater(self.contents(), *x) ==> (r is Err && r->Err_0 == self.contents().len()),
    ;
}

impl LevelOrder for Vec<u64> {
    open spec fn contents(&self) -> Seq<u64> {
        self@
    }

    fn branchful_binary_search(&self, x: &u64) -> (r: Result<usize, usize>) {
        crate::search_sorted::branchful_binary_search(self, x)
    }

    fn branchless_binary_search(&self, x: &u64) -> (r: Result<usize, usize>) {
        crate::search_sorted::branchless_binary_search(self, x)
    }

    fn level_order(&mut self) {
        crate::permute::level_order(self);
    }

    fn branchful_level_order_search(&self, x: &u64) -> (r: Result<usize, usize>) {
        crate::search_level::branchful_level_order_search(self, x)
    }

    fn branchless_level_order_search(&self, x: &u64) -> (r: Result<usize, usize>) {
        crate::search_level::branchless_level_order_search(self, x)
    }
}

} // verus!
