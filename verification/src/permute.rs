//! In-place layout permuter: rewrites an array into level-order (Eytzinger)
//! layout by cycle-following swaps, guided by an auxiliary index array that
//! degrades from "permutation to apply" to the identity as each cycle closes.

use vstd::prelude::*;
use vstd::set_lib::lemma_int_range;
use vstd::set_lib::lemma_len_subset;
use vstd::set_lib::set_int_range;
use crate::level_index::is_permutation;
use crate::level_index::level_index;
use crate::level_index::level_order_indexes;

verus! {

/// The positions whose auxiliary entry has not yet reached its fixed point.
spec fn unfixed(p: Seq<usize>) -> Set<int> {
    Set::new(|k: int| 0 <= k < p.len() && p[k] as int != k)
}

proof fn lemma_unfixed_finite(p: Seq<usize>)
    ensures
        unfixed(p).finite(),
{
    lemma_int_range(0, p.len() as int);
    assert(unfixed(p).subset_of(set_int_range(0, p.len() as int)));
    lemma_len_subset(unfixed(p), set_int_range(0, p.len() as int));
}

/// Applies the permutation held in `idx` to `data` in place: afterwards
/// position `k` of `data` holds the element that stood at position `idx[k]`,
/// and `idx` has degraded to the identity.  Only swaps are used, so the
/// multiset of elements is untouched.
fn apply_order(data: &mut Vec<u64>, idx: &mut Vec<usize>)
    requires
        old(idx)@.len() == old(data)@.len(),
        is_permutation(old(idx)@),
    ensures
        final(data)@.len() == old(data)@.len(),
        forall|k: int|
            0 <= k < old(data)@.len() ==> final(data)@[k] == old(data)@[old(idx)@[k] as int],
        final(data)@.to_multiset() == old(data)@.to_multiset(),
        final(idx)@.len() == old(idx)@.len(),
        forall|k: int| 0 <= k < final(idx)@.len() ==> (#[trigger] final(idx)@[k]) as int == k,
{
    broadcast use vstd::seq_lib::group_to_multiset_ensures;
    broadcast use vstd::multiset::group_multiset_axioms;

    let ghost d0 = old(data)@;
    let ghost p0 = old(idx)@;
    let n = data.len();
    let mut i: usize = 0;
    while i < n
        invariant
            i <= n,
            idx@.len() == n,
            data@.len() == n,
            d0.len() == n,
            p0.len() == n,
            is_permutation(p0),
            is_permutation(idx@),
            forall|k: int| 0 <= k < i ==> (#[trigger] idx@[k]) as int == k,
            forall|k: int| 0 <= k < n ==> data@[(#[trigger] idx@[k]) as int] == d0[p0[k] as int],
            data@.to_multiset() == d0.to_multiset(),
        decreases n - i,
    {
        while idx[i] != idx[idx[i]]
            invariant
                i < n,
                idx@.len() == n,
                data@.len() == n,
                d0.len() == n,
                p0.len() == n,
                is_permutation(p0),
                is_permutation(idx@),
                forall|k: int| 0 <= k < i ==> (#[trigger] idx@[k]) as int == k,
                forall|k: int|
                    0 <= k < n ==> data@[(#[trigger] idx@[k]) as int] == d0[p0[k] as int],
                data@.to_multiset() == d0.to_multiset(),
            decreases unfixed(idx@).len(),
        {
            let ghost pre_idx = idx@;
            let ghost pre_data = data@;
            let a = idx[i];
            let b = idx[a];
            proof {
                // the two touched positions are distinct and beyond the prefix
                assert(a != b);
                if a as int == i as int {
                    assert(idx@[a as int] == idx@[i as int]);
                }
                assert(a as int != i as int);
                if (a as int) < (i as int) {
                    assert(idx@[a as int] as int == a as int);
                }
                assert(a as int > i as int);
            }
            let ta = data[a];
            let tb = data[b];
            data.set(a, tb);
            data.set(b, ta);
            idx.set(i, b);
            idx.set(a, a);
            proof {
                let gi = i as int;
                let ga = a as int;
                let gb = b as int;
                // the auxiliary array is still a permutation
                assert forall|k1: int, k2: int|
                    0 <= k1 < n && 0 <= k2 < n && k1 != k2 implies idx@[k1] != idx@[k2] by {
                    assert(pre_idx[k1] != pre_idx[k2]);
                    assert(pre_idx[gi] != pre_idx[ga]);
                }
                // the data relation survives the double swap
                assert forall|k: int|
                    0 <= k < n implies data@[(#[trigger] idx@[k]) as int] == d0[p0[k] as int] by {
                    if k == gi {
                        assert(data@[gb] == pre_data[ga]);
                    } else if k == ga {
                        assert(data@[ga] == pre_data[gb]);
                    } else {
                        assert(pre_idx[k] != pre_idx[gi]);
                        assert(pre_idx[k] != pre_idx[ga]);
                        assert(data@[pre_idx[k] as int] == pre_data[pre_idx[k] as int]);
                    }
                }
                // only a swap happened: the multiset is unchanged
                broadcast use vstd::multiset::group_multiset_properties;

                let s1 = pre_data.update(ga, tb);
                assert(data@ == s1.update(gb, ta));
                vstd::seq_lib::to_multiset_update(pre_data, ga, tb);
                vstd::seq_lib::to_multiset_update(s1, gb, ta);
                assert(s1[gb] == tb);
                assert(pre_data.contains(ta)) by {
                    assert(pre_data[ga] == ta);
                }
                assert(pre_data.contains(tb)) by {
                    assert(pre_data[gb] == tb);
                }
                vstd::seq_lib::to_multiset_contains(pre_data, ta);
                vstd::seq_lib::to_multiset_contains(pre_data, tb);
                assert(pre_data.to_multiset().count(ta) > 0);
                assert(pre_data.to_multiset().count(tb) > 0);
                assert forall|e: u64|
                    data@.to_multiset().count(e) == pre_data.to_multiset().count(e) by {
                    assert(pre_data.to_multiset().count(ta) > 0);
                    assert(pre_data.to_multiset().count(tb) > 0);
                }
                assert(data@.to_multiset() =~= pre_data.to_multiset());
                // position a reached its fixed point: strictly fewer unfixed
                lemma_unfixed_finite(pre_idx);
                lemma_unfixed_finite(idx@);
                assert(unfixed(pre_idx).contains(ga));
                assert(unfixed(idx@).subset_of(unfixed(pre_idx).remove(ga)));
                lemma_len_subset(unfixed(idx@), unfixed(pre_idx).remove(ga));
                assert(unfixed(pre_idx).remove(ga).len() < unfixed(pre_idx).len());
            }
        }
        proof {
            // at the fixed point the prefix extends by one
            let gi = i as int;
            let ga = idx@[gi] as int;
            if ga != gi {
                assert(idx@[ga] == idx@[gi]);
            }
        }
        i = i + 1;
    }
    proof {
        assert forall|k: int| 0 <= k < n implies data@[k] == d0[p0[k] as int] by {
            assert(idx@[k] as int == k);
            assert(data@[(idx@[k]) as int] == d0[p0[k] as int]);
        }
    }
}

/// Rewrites `data`, assumed ascending, into the level-order (Eytzinger)
/// layout in place: afterwards position `k` holds the element whose sorted
/// rank is the `k`-th level-order index.  The rewrite is a rearrangement: the
/// multiset of elements is exactly preserved.
pub fn level_order(data: &mut Vec<u64>)
    ensures
        final(data)@.len() == old(data)@.len(),
        forall|k: int|
            0 <= k < old(data)@.len() ==> final(data)@[k] == old(data)@[level_index(
                old(data)@.len() as int,
                k,
            )],
        final(data)@.to_multiset() == old(data)@.to_multiset(),
{
    let n = data.len();
    let mut idx = level_order_indexes(n);
    apply_order(data, &mut idx);
}

/// Sequences with the same multiset hold the same members: the companion of
/// the rearrangement guarantee, letting membership reported on the rewritten
/// layout stand for membership in the original input.
pub proof fn lemma_same_multiset_same_members(s: Seq<u64>, t: Seq<u64>)
    requires
        s.to_multiset() == t.to_multiset(),
    ensures
        forall|x: u64| s.contains(x) <==> t.contains(x),
{
    assert forall|x: u64| s.contains(x) <==> t.contains(x) by {
        vstd::seq_lib::to_multiset_contains(s, x);
        vstd::seq_lib::to_multiset_contains(t, x);
    }
}

} // verus!
