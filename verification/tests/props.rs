use veb_tree::VebTree;

#[test]
fn large_increasing_run() {
    let max_element: usize = 16384;
    let mut tree = VebTree::new(max_element).unwrap();
    for value in 0usize..=max_element {
        assert!(!tree.contains(value));
        tree.insert(value).unwrap();
        assert!(tree.contains(value));
        assert!(!tree.is_empty());
    }
    assert_eq!(tree.min(), Some(0));
    assert_eq!(tree.max(), Some(max_element));
}

#[test]
fn duplicate_insert_is_idempotent() {
    let max_element: usize = 300;
    let mut once = VebTree::new(max_element).unwrap();
    let mut twice = VebTree::new(max_element).unwrap();
    for &value in &[17usize, 254, 3, 99, 99, 17] {
        once.insert(value).unwrap();
        twice.insert(value).unwrap();
        twice.insert(value).unwrap();
    }
    for x in 0usize..=max_element {
        assert_eq!(once.contains(x), twice.contains(x));
        assert_eq!(once.find_next(x), twice.find_next(x));
    }
}

#[test]
fn single_value_successors() {
    let max_element: usize = 100;
    let mut tree = VebTree::new(max_element).unwrap();
    let value: usize = 37;
    tree.insert(value).unwrap();
    for x in 0usize..value {
        assert_eq!(tree.find_next(x), Some(value));
    }
    for x in value..=max_element {
        assert_eq!(tree.find_next(x), None);
    }
}

#[test]
fn enumerates_in_increasing_order() {
    let max_element: usize = 64;
    let mut tree = VebTree::new(max_element).unwrap();
    let values: [usize; 5] = [41, 3, 20, 9, 7];
    for &value in &values {
        tree.insert(value).unwrap();
    }
    // walk the successors starting below the minimum
    let mut seen: Vec<usize> = Vec::new();
    let mut cursor: usize = 0;
    while let Some(next) = tree.find_next(cursor) {
        seen.push(next);
        cursor = next;
    }
    assert_eq!(seen, vec![3, 7, 9, 20, 41]);
}

#[test]
fn randomized_matches_reference() {
    let max_element: usize = 500;
    let mut tree = VebTree::new(max_element).unwrap();
    let mut present: Vec<bool> = vec![false; max_element + 1];
    let mut state: u64 = 0x9e37_79b9_7f4a_7c15;
    for _ in 0..200 {
        state = state
            .wrapping_mul(6364136223846793005)
            .wrapping_add(1442695040888963407);
        let value: usize = ((state >> 24) as usize) % (max_element + 1);
        tree.insert(value).unwrap();
        present[value] = true;
        assert!(tree.contains(value));
    }
    for x in 0usize..=max_element {
        assert_eq!(tree.contains(x), present[x]);
        let expected = (x + 1..=max_element).find(|&v| present[v]);
        assert_eq!(tree.find_next(x), expected);
    }
}
