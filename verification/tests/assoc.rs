use porco::AssociationExt;

#[test]
fn find_returns_first_match() {
    let v: Vec<(u64, u64)> = vec![(1, 10), (2, 20), (1, 30)];
    assert_eq!(v.find_(&1), Some(0));
    assert_eq!(v.find_(&2), Some(1));
    assert_eq!(v.find_(&9), None);
}

#[test]
fn get_returns_first_bound_value() {
    let v: Vec<(u64, u64)> = vec![(1, 10), (2, 20), (1, 30)];
    assert_eq!(v.get_(&1), Some(&10));
    assert_eq!(v.get_(&9), None);
}

#[test]
fn insert_replaces_and_moves_to_end() {
    let mut v: Vec<(u64, u64)> = vec![(1, 10), (2, 20), (3, 30)];
    assert_eq!(v.insert_(1, 11), Some(10));
    // the last pair takes the replaced pair's place; the new pair goes last
    assert_eq!(v, vec![(3, 30), (2, 20), (1, 11)]);
    assert_eq!(v.insert_(4, 40), None);
    assert_eq!(v.len(), 4);
    assert_eq!(v.get_(&4), Some(&40));
}
