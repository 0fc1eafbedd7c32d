use cpl_rust::algorithms::binary_search::{BinarySearch, ElementBisect};

#[test]
fn test_binary_search() {
    let samples: [(i64, Vec<i64>, i64); 3] = [
        (9, vec![4, 4, 4], 1),
        (0, vec![1_000_000_000, 1_000_000_000], 1_000_000_000),
        (3, vec![7, 9], 4),
    ];

    for (k, a, out) in &samples {
        let is_good = |v: i64| a.iter().map(|ai| (ai - 1) / v).sum::<i64>() <= *k;
        let ans = is_good.binary_search(1_000_000_000, 0, None).unwrap();
        assert_eq!(ans, *out);
    }
}

#[test]
fn test_binary_search_returns_none_with_equal_good_and_bad() {
    assert_eq!((|v: i64| v > 0).binary_search(1, 1, None), None);
}

#[test]
fn test_binary_search_all_true_walks_to_bad() {
    assert_eq!((|_v: i64| true).binary_search(100, 0, None), Some(1));
}

#[test]
fn test_binary_search_all_false_keeps_good() {
    assert_eq!((|_v: i64| false).binary_search(100, 0, None), Some(100));
}

#[test]
fn test_binary_search_with_eps() {
    let sq = |v: i64| v * v >= 1_000_000;
    let r = sq.binary_search(2_000, 0, Some(1)).unwrap();
    assert_eq!(r, 1_000);
}

#[test]
fn test_bisect() {
    let li: [i64; 7] = [1, 2, 2, 2, 4, 5, 7];

    // bisect_left
    assert_eq!(li.bisect_left(&-1), 0);
    assert_eq!(li.bisect_left(&2), 1);
    assert_eq!(li.bisect_left(&4), 4);
    assert_eq!(li.bisect_left(&7), 6);
    assert_eq!(li.bisect_left(&8), 7);

    // bisect_right
    assert_eq!(li.bisect_right(&-1), 0);
    assert_eq!(li.bisect_right(&2), 4);
    assert_eq!(li.bisect_right(&4), 5);
    assert_eq!(li.bisect_right(&7), 7);
    assert_eq!(li.bisect_right(&8), 7);
}

#[test]
fn test_bisect_empty() {
    let li: [i64; 0] = [];
    assert_eq!(li.bisect_left(&3), 0);
    assert_eq!(li.bisect_right(&3), 0);
}
