use nickel_merge::ordmap::{split, IndexMap, SplitResult};

#[test]
fn all_left() -> Result<(), String> {
    let mut m1 = IndexMap::new();
    let m2 = IndexMap::<isize, isize>::new();

    m1.insert(1, 1);
    let SplitResult {
        mut left,
        center,
        right,
    } = split(m1, m2);

    if left.remove(&1) == Some(1) && left.is_empty() && center.is_empty() && right.is_empty() {
        Ok(())
    } else {
        Err(String::from("Expected all elements to be in the left part"))
    }
}

#[test]
fn all_right() -> Result<(), String> {
    let m1 = IndexMap::<isize, isize>::new();
    let mut m2 = IndexMap::new();

    m2.insert(1, 1);
    let SplitResult {
        left,
        center,
        mut right,
    } = split(m1, m2);

    if right.remove(&1) == Some(1) && right.is_empty() && left.is_empty() && center.is_empty() {
        Ok(())
    } else {
        Err(String::from(
            "Expected all elements to be in the right part",
        ))
    }
}

#[test]
fn all_center() -> Result<(), String> {
    let mut m1 = IndexMap::new();
    let mut m2 = IndexMap::new();

    m1.insert(1, 1);
    m2.insert(1, 2);
    let SplitResult {
        left,
        mut center,
        right,
    } = split(m1, m2);

    if center.remove(&1) == Some((1, 2)) && center.is_empty() && left.is_empty() && right.is_empty()
    {
        Ok(())
    } else {
        Err(String::from(
            "Expected all elements to be in the center part",
        ))
    }
}

#[test]
fn mixed() -> Result<(), String> {
    let mut m1 = IndexMap::new();
    let mut m2 = IndexMap::new();

    m1.insert(1, 1);
    m1.insert(2, 1);
    m2.insert(1, -1);
    m2.insert(3, -1);
    let SplitResult {
        mut left,
        mut center,
        mut right,
    } = split(m1, m2);

    if left.remove(&2) == Some(1)
        && center.remove(&1) == Some((1, -1))
        && right.remove(&3) == Some(-1)
        && left.is_empty()
        && center.is_empty()
        && right.is_empty()
    {
        Ok(())
    } else {
        Err(String::from(
            "Expected all elements to be in the center part",
        ))
    }
}

#[test]
fn split_keeps_source_order() {
    let mut m1 = IndexMap::new();
    let mut m2 = IndexMap::new();
    for k in [5isize, 3, 9, 1] {
        m1.insert(k, k * 10);
    }
    for k in [9isize, 4, 5, 7] {
        m2.insert(k, -k);
    }
    let SplitResult { left, center, right } = split(m1, m2);
    assert_eq!(left.keys_vec(), vec![3, 1]);
    assert_eq!(center.keys_vec(), vec![5, 9]);
    assert_eq!(right.keys_vec(), vec![4, 7]);
    assert_eq!(center.get(&9), Some(&(90, -9)));
    assert_eq!(left.get(&1), Some(&10));
    assert_eq!(right.get(&7), Some(&-7));
}

#[test]
fn insert_existing_key_keeps_place() {
    let mut m = IndexMap::new();
    assert_eq!(m.insert(1isize, 1isize), None);
    assert_eq!(m.insert(2, 2), None);
    assert_eq!(m.insert(1, 3), Some(1));
    assert_eq!(m.keys_vec(), vec![1, 2]);
    assert_eq!(m.get(&1), Some(&3));
    assert_eq!(m.len(), 2);
}
