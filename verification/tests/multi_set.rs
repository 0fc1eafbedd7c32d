use cpl_rust::data_structure::multi_set::MultiSet;

#[test]
fn test_multi_set_is_empty_on_construction() {
    let ms = MultiSet::new();
    assert!(ms.is_empty());
}

#[test]
fn test_is_empty_after_clear() {
    let mut ms = MultiSet::from_slice(&[1, 2, 3, 4]);
    ms.clear();
    assert!(ms.is_empty());
}

#[test]
fn test_multi_set_can_count_contained_value() {
    let ms = MultiSet::from_slice(&[1, 1]);
    assert!(ms.count(&1) == 2);
}

#[test]
fn test_multi_set_len_is_total_of_elements() {
    let array: [i64; 4] = [1, 1, 2, 3];
    let ms = MultiSet::from_slice(&array);
    assert!(ms.len() == array.len());
}

#[test]
fn test_remove_decrements_count_if_the_element_was_present() {
    let array: [i64; 6] = [2, 3, 5, 5, 7, 11];
    let mut ms = MultiSet::from_slice(&array);
    ms.remove(&5);
    assert_eq!(ms.count(&5), 1);
    assert_eq!(ms.len(), array.len() - 1);
}

#[test]
fn test_empty_after_last_element_removed() {
    let array: [i64; 1] = [13];
    let mut ms = MultiSet::from_slice(&array);
    ms.remove(&13);
    assert!(ms.is_empty());
}

#[test]
fn test_remove_does_not_change_len_if_element_was_not_present() {
    let array: [i64; 6] = [2, 3, 5, 5, 7, 11];
    let mut ms = MultiSet::from_slice(&array);
    ms.remove(&4);
    assert_eq!(ms.len(), array.len());
}

#[test]
fn test_remove_returns_if_the_element_was_present() {
    let array: [i64; 5] = [2, 3, 5, 7, 11];
    let mut ms = MultiSet::from_slice(&array);
    assert!(ms.remove(&5));
    assert!(!ms.remove(&4));
}

#[test]
fn test_pop_first_is_ord_based() {
    let array: [i64; 4] = [4, 2, 1, 3];
    let mut ms = MultiSet::from_slice(&array);
    let poped = ms.pop_first();
    assert_eq!(poped, Some(1));
    assert!(!ms.contains(&1));
    assert_eq!(ms.len(), 3);
}

#[test]
fn test_pop_last_is_ord_based() {
    let array: [i64; 5] = [0, 4, 2, 1, 3];
    let mut ms = MultiSet::from_slice(&array);
    let poped = ms.pop_last();
    assert_eq!(poped, Some(4));
    assert!(!ms.contains(&4));
    assert_eq!(ms.len(), 4);
}

#[test]
fn test_iter() {
    let array: [i64; 8] = [3, 2, 1, 1, 3, 0, 0, 2];
    let ms = MultiSet::from_slice(&array);
    let mut iter = ms.iter();
    assert_eq!(Some(0), iter.next());
    assert_eq!(Some(3), iter.next_back());
    assert_eq!(Some(3), iter.next_back());
    assert_eq!(Some(0), iter.next());
    assert_eq!(Some(1), iter.next());
    assert_eq!(Some(1), iter.next());
    assert_eq!(Some(2), iter.next());
    assert_eq!(Some(2), iter.next());
    assert_eq!(None, iter.next());
    assert_eq!(None, iter.next_back());
}

#[test]
fn test_first_and_last() {
    let ms = MultiSet::from_slice(&[5, -2, 9]);
    assert_eq!(ms.first(), Some(-2));
    assert_eq!(ms.last(), Some(9));
    let empty = MultiSet::new();
    assert_eq!(empty.first(), None);
    assert_eq!(empty.last(), None);
}

#[test]
fn test_pop_on_empty() {
    let mut ms = MultiSet::new();
    assert_eq!(ms.pop_first(), None);
    assert_eq!(ms.pop_last(), None);
}
