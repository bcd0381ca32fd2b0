//! Binary search over an ascending backing sequence: a branch-based variant
//! and a branchless variant that replaces the data-dependent branch of the
//! bisection step with an arithmetic position update.  Both variants have the
//! same input/output behaviour: a hit names the slot of the needle, a miss
//! names the insertion point.

use vstd::prelude::*;

verus! {

/// The sequence is in ascending order (duplicates allowed).
pub open spec fn sorted(s: Seq<u64>) -> bool {
    forall|i: int, j: int| 0 <= i <= j < s.len() ==> s[i] <= s[j]
}

/// The sequence is strictly ascending: sorted with all elements distinct.
pub open spec fn strictly_sorted(s: Seq<u64>) -> bool {
    forall|i: int, j: int| 0 <= i < j < s.len() ==> s[i] < s[j]
}

/// `p` is the rank at which `x` would be inserted to keep `s` ascending:
/// everything before `p` is below `x`, everything from `p` on is above it.
pub open spec fn insertion_point(s: Seq<u64>, x: u64, p: int) -> bool {
    &&& 0 <= p <= s.len()
    &&& forall|k: int| 0 <= k < p ==> s[k] < x
    &&& forall|k: int| p <= k < s.len() ==> s[k] > x
}

/// Result contract shared by both binary search variants: `Ok(i)` finds `x`
/// at `i`; `Err(p)` reports the insertion point of the absent needle.
pub open spec fn binary_search_result(s: Seq<u64>, x: u64, r: Result<usize, usize>) -> bool {
    match r {
        Ok(i) => 0 <= i < s.len() && s[i as int] == x,
        Err(p) => insertion_point(s, x, p as int),
    }
}

/// Classic bisection over an ascending vector: split the remaining subrange at
/// its midpoint, compare there, and continue into the half that can still hold
/// the needle, until the subrange is empty.
pub fn branchful_binary_search(v: &Vec<u64>, x: &u64) -> (r: Result<usize, usize>)
    requires
        sorted(v@),
    ensures
        binary_search_result(v@, *x, r),
{
    let mut base: usize = 0;
    let mut len: usize = v.len();
    while len > 0
        invariant
            sorted(v@),
            base + len <= v.len(),
            forall|k: int| 0 <= k < base ==> v@[k] < *x,
            forall|k: int| base + len <= k < v@.len() ==> v@[k] > *x,
        decreases len,
    {
        let half = len / 2;
        let mid = base + half;
        if v[mid] < *x {
            base = mid + 1;
            len = len - half - 1;
        } else if v[mid] > *x {
            len = half;
        } else {
            return Ok(mid);
        }
    }
    Err(base)
}

/// Branchless bisection over an ascending vector: keep a candidate position
/// and a remaining length; each round probes the midpoint and advances the
/// candidate by an arithmetic 0/1 multiple of the half-length instead of
/// branching into separate code paths.  The single surviving candidate is
/// tested at the end; on a miss, one more 0/1 step lands on the insertion
/// point.
pub fn branchless_binary_search(v: &Vec<u64>, x: &u64) -> (r: Result<usize, usize>)
    requires
        sorted(v@),
    ensures
        binary_search_result(v@, *x, r),
{
    let n = v.len();
    if n == 0 {
        return Err(0);
    }
    let mut pos: usize = 0;
    let mut len: usize = n;
    while len > 1
        invariant
            sorted(v@),
            n == v@.len(),
            1 <= len,
            pos + len <= n,
            pos == 0 || v@[pos as int] <= *x,
            forall|k: int| pos + len <= k < v@.len() ==> v@[k] > *x,
        decreases len,
    {
        let half = len / 2;
        let step = (v[pos + half] <= *x) as usize;
        pos = pos + step * half;
        len = len - half;
    }
    if v[pos] == *x {
        Ok(pos)
    } else {
        let step = (v[pos] < *x) as usize;
        proof {
            if v@[pos as int] < *x {
                assert(forall|k: int| 0 <= k <= pos ==> v@[k] <= v@[pos as int]);
            }
        }
        Err(pos + step)
    }
}

/// Each well-typed answer of a binary search is the only one: over a strictly
/// ascending sequence the contract pins the result.
pub proof fn lemma_binary_search_unique(
    s: Seq<u64>,
    x: u64,
    r1: Result<usize, usize>,
    r2: Result<usize, usize>,
)
    requires
        strictly_sorted(s),
        binary_search_result(s, x, r1),
        binary_search_result(s, x, r2),
    ensures
        r1 == r2,
{
    match (r1, r2) {
        (Ok(i1), Ok(i2)) => {
            if i1 < i2 {
                assert(s[i1 as int] < s[i2 as int]);
            }
            if i2 < i1 {
                assert(s[i2 as int] < s[i1 as int]);
            }
        }
        (Ok(i1), Err(p2)) => {
            assert(s[i1 as int] == x);
        }
        (Err(p1), Ok(i2)) => {
            assert(s[i2 as int] == x);
        }
        (Err(p1), Err(p2)) => {
            if (p1 as int) < (p2 as int) {
                assert(s[p1 as int] < x);
                assert(s[p1 as int] > x);
            }
            if (p2 as int) < (p1 as int) {
                assert(s[p2 as int] < x);
                assert(s[p2 as int] > x);
            }
        }
    }
}

/// Cross-variant agreement for the sorted layout: over a strictly ascending
/// sequence the branch-based and branchless searches return the same answer
/// for every needle — the same hit slot, or the same insertion point.
pub proof fn lemma_binary_variants_agree(
    s: Seq<u64>,
    x: u64,
    r1: Result<usize, usize>,
    r2: Result<usize, usize>,
)
    requires
        strictly_sorted(s),
        binary_search_result(s, x, r1),
        binary_search_result(s, x, r2),
    ensures
        r1 == r2,
{
    lemma_binary_search_unique(s, x, r1, r2);
}

/// Round-trip membership for the sorted layout: a needle that is present is
/// reported found, by either binary search variant.
pub proof fn lemma_binary_search_finds_member(s: Seq<u64>, x: u64, r: Result<usize, usize>)
    requires
        sorted(s),
        s.contains(x),
        binary_search_result(s, x, r),
    ensures
        r matches Ok(i) && s[i as int] == x,
{
    let w = choose|w: int| 0 <= w < s.len() && s[w] == x;
    if r matches Err(p) {
        assert(s[w] == x);
        assert(false);
    }
}

/// A miss is reported exactly when the needle is absent, and then the
/// insertion point splits the sequence: everything before it is below the
/// needle, everything from it on is above.
pub proof fn lemma_binary_search_miss(s: Seq<u64>, x: u64, r: Result<usize, usize>)
    requires
        sorted(s),
        binary_search_result(s, x, r),
    ensures
        r is Err <==> !s.contains(x),
        r matches Err(p) ==> insertion_point(s, x, p as int),
{
    match r {
        Ok(i) => {
            assert(s.contains(x)) by {
                assert(s[i as int] == x);
            }
        },
        Err(p) => {
            if s.contains(x) {
                let w = choose|w: int| 0 <= w < s.len() && s[w] == x;
                assert(s[w] == x);
                assert(false);
            }
        },
    }
}

/// Boundary behaviour of both binary search variants, forced by their
/// contract: the empty sequence always reports a miss at 0, and a single
/// element is found at 0 exactly when it equals the needle, the miss point
/// falling on 0 or 1 according to the ordering.
pub proof fn lemma_binary_search_boundary(s: Seq<u64>, x: u64, r: Result<usize, usize>)
    requires
        sorted(s),
        binary_search_result(s, x, r),
    ensures
        s.len() == 0 ==> r == Err::<usize, usize>(0),
        s.len() == 1 && s[0] == x ==> r == Ok::<usize, usize>(0),
        s.len() == 1 && s[0] < x ==> r == Err::<usize, usize>(1),
        s.len() == 1 && s[0] > x ==> r == Err::<usize, usize>(0),
{
    if s.len() == 1 && s[0] == x {
        assert(s.contains(x)) by {
            assert(s[0] == x);
        }
        lemma_binary_search_finds_member(s, x, r);
    }
    if s.len() == 1 && s[0] != x {
        if let Ok(i) = r {
            assert(s[i as int] == x);
        }
    }
}

} // verus!
