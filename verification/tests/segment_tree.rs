use cpl_rust::data_structure::monoid::{FirstMonoid, MinMonoid, WrappingAddMonoid};
use cpl_rust::data_structure::segment_tree::{SegTreeError, SegmentTree};

#[test]
fn test_tree_is_indexable() {
    let node: [i64; 7] = [1, 2, -91, 20, 5, 10, 970];
    let t = SegmentTree::from_slice(&node, WrappingAddMonoid);
    assert_eq!(t.read(2), Ok(-91));
    assert_eq!(t.read(7), Err(SegTreeError::IndexOutOfRange));
}

#[test]
fn test_tree_is_debuggable() {
    let node: [i64; 2] = [1, 2];
    let t = SegmentTree::from_slice(&node, WrappingAddMonoid);
    assert_eq!(format!("{:?}", t.to_vec()), "[1, 2]");
}

#[test]
fn test_query() {
    let node: [i64; 7] = [1, 2, -91, 20, 5, 10, 970];
    let t = SegmentTree::from_slice(&node, WrappingAddMonoid);
    for i in 0..=node.len() {
        for j in i..=node.len() {
            let res = t.query(Some(i), Some(j)).unwrap();
            assert_eq!(res, node[i..j].iter().sum::<i64>());
        }
    }
}

#[test]
fn test_whole_query() {
    let node: [i64; 7] = [1, 2, -91, 20, 5, 10, 970];
    let top = *node.iter().max().unwrap();
    let tree = SegmentTree::from_slice(&node, MinMonoid { top });
    let whole_min = tree.query(None, None).unwrap();
    assert_eq!(whole_min, -91);
    let right_min = tree.query(Some(3), None).unwrap();
    assert_eq!(right_min, 5);
    let left_min = tree.query(None, Some(2)).unwrap();
    assert_eq!(left_min, 1);
}

#[test]
fn test_two_element_sums() {
    let node: [i64; 2] = [1, 2];
    let t = SegmentTree::from_slice(&node, WrappingAddMonoid);
    assert_eq!(t.read(0), Ok(1));
    assert_eq!(t.read(1), Ok(2));
    assert_eq!(t.query(Some(0), Some(2)), Ok(3));
}

#[test]
fn test_empty_tree() {
    let t = SegmentTree::new(0, WrappingAddMonoid);
    assert_eq!(t.query(Some(0), Some(0)), Ok(0));
    assert_eq!(t.read(0), Err(SegTreeError::IndexOutOfRange));
    let tm = SegmentTree::new(0, MinMonoid { top: 42 });
    assert_eq!(tm.query(Some(0), Some(0)), Ok(42));
}

#[test]
fn test_update_then_query() {
    let node: [i64; 7] = [1, 2, -91, 20, 5, 10, 970];
    let mut t = SegmentTree::from_slice(&node, WrappingAddMonoid);
    assert_eq!(t.query(None, None), Ok(917));
    t.update(5, 100).unwrap();
    assert_eq!(t.read(5), Ok(100));
    assert_eq!(t.query(Some(5), Some(6)), Ok(100));
    assert_eq!(t.query(Some(0), Some(7)), Ok(1007));
}

#[test]
fn test_update_out_of_range() {
    let node: [i64; 3] = [4, 5, 6];
    let mut t = SegmentTree::from_slice(&node, WrappingAddMonoid);
    assert_eq!(t.update(3, 1), Err(SegTreeError::IndexOutOfRange));
    assert_eq!(t.query(None, None), Ok(15));
}

#[test]
fn test_query_invalid_range() {
    let node: [i64; 3] = [4, 5, 6];
    let t = SegmentTree::from_slice(&node, WrappingAddMonoid);
    assert_eq!(t.query(Some(2), Some(1)), Err(SegTreeError::InvalidRange));
    assert_eq!(t.query(Some(0), Some(4)), Err(SegTreeError::InvalidRange));
}

#[test]
fn test_order_sensitive_query() {
    // "first non-blank element" is associative but not commutative: the
    // query must combine strictly left to right
    let node: [i64; 3] = [1, 2, 3];
    let t = SegmentTree::from_slice(&node, FirstMonoid { blank: i64::MIN });
    assert_eq!(t.query(Some(0), Some(3)), Ok(1));
    assert_eq!(t.query(Some(1), Some(3)), Ok(2));
    assert_eq!(t.query(Some(2), Some(3)), Ok(3));
    assert_eq!(t.query(Some(1), Some(1)), Ok(i64::MIN));
}

#[test]
fn test_empty_range_identity_everywhere() {
    let node: [i64; 5] = [3, 1, 4, 1, 5];
    let t = SegmentTree::from_slice(&node, WrappingAddMonoid);
    for k in 0..=node.len() {
        assert_eq!(t.query(Some(k), Some(k)), Ok(0));
    }
}

#[test]
fn test_decomposition_concrete() {
    let node: [i64; 6] = [2, 7, 1, 8, 2, 8];
    let t = SegmentTree::from_slice(&node, WrappingAddMonoid);
    for i in 0..=node.len() {
        for j in i..=node.len() {
            for k in j..=node.len() {
                let whole = t.query(Some(i), Some(k)).unwrap();
                let left = t.query(Some(i), Some(j)).unwrap();
                let right = t.query(Some(j), Some(k)).unwrap();
                assert_eq!(whole, left + right);
            }
        }
    }
}
