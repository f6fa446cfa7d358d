use veb_tree::{VebError, VebTree};

#[test]
fn create() {
    assert!(VebTree::new(42).unwrap().is_empty());
}

#[test]
fn small_insert() {
    let mut tree = VebTree::new(4).unwrap();
    tree.insert(2).unwrap();
    assert_eq!(tree.min(), Some(2));
    assert_eq!(tree.max(), Some(2));
    tree.insert(3).unwrap();
    assert_eq!(tree.min(), Some(2));
    assert_eq!(tree.max(), Some(3));
    tree.insert(1).unwrap();
    assert_eq!(tree.min(), Some(1));
    assert_eq!(tree.max(), Some(3));
}

#[test]
fn insert() {
    for max_element in 1usize..256 {
        let mut tree = VebTree::new(max_element).unwrap();
        assert!(tree.is_empty());
        for value in 0usize..=max_element {
            assert!(!tree.contains(value));
            tree.insert(value).unwrap();
            assert!(tree.contains(value));
            assert_eq!(tree.min(), Some(0));
            assert_eq!(tree.max(), Some(value));
        }
        assert!(!tree.is_empty());
    }
}

#[test]
fn find_next() {
    let max_element: usize = 50;
    let mut tree = VebTree::new(max_element).unwrap();
    for value in 0usize..=max_element {
        assert!(tree.find_next(value).is_none());
    }
    let new_value: usize = 25;
    tree.insert(new_value).unwrap();
    for value in 0usize..new_value {
        assert_eq!(tree.find_next(value), Some(new_value));
    }
    for value in new_value..=max_element {
        assert!(tree.find_next(value).is_none());
    }
}

#[test]
fn rejects_zero_capacity() {
    assert_eq!(VebTree::new(0).err(), Some(VebError::InvalidCapacity));
}

#[test]
fn rejects_value_beyond_universe() {
    let mut tree = VebTree::new(10).unwrap();
    tree.insert(4).unwrap();
    assert_eq!(tree.insert(11), Err(VebError::InvalidValue));
    // a rejected insert leaves the tree untouched
    assert!(!tree.contains(11));
    assert_eq!(tree.min(), Some(4));
    assert_eq!(tree.max(), Some(4));
    tree.insert(10).unwrap();
    assert!(tree.contains(10));
}

#[test]
fn universe_of_two_values() {
    let mut tree = VebTree::new(1).unwrap();
    assert!(!tree.contains(0));
    assert!(!tree.contains(1));
    tree.insert(1).unwrap();
    tree.insert(0).unwrap();
    assert!(tree.contains(0));
    assert!(tree.contains(1));
    assert_eq!(tree.find_next(0), Some(1));
    assert_eq!(tree.find_next(1), None);
}
