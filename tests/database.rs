use chunkfs::base::HashMapBase;
use chunkfs::{Database, ErrorKind, IterableDatabase};

#[test]
fn try_insert_keeps_first_payload() {
    let mut db = HashMapBase::default();
    db.try_insert(vec![7, 7], vec![1, 2, 3]).unwrap();
    db.try_insert(vec![7, 7], vec![9, 9]).unwrap();
    assert_eq!(db.get(&vec![7, 7]).unwrap(), vec![1, 2, 3]);
}

#[test]
fn insert_overwrites_payload() {
    let mut db = HashMapBase::default();
    db.insert(vec![7], vec![1]).unwrap();
    db.insert(vec![7], vec![2]).unwrap();
    assert_eq!(db.get(&vec![7]).unwrap(), vec![2]);
    assert_eq!(db.keys(), vec![vec![7]]);
}

#[test]
fn get_missing_key_is_not_found() {
    let db = HashMapBase::default();
    assert_eq!(db.get(&vec![1]).unwrap_err().kind(), ErrorKind::NotFound);
    assert!(!db.contains(&vec![1]));
}

#[test]
fn multi_operations_keep_order_and_stop_at_missing_key() {
    let mut db = HashMapBase::default();
    db.insert_multi(vec![(vec![1], vec![10]), (vec![2], vec![20]), (vec![1], vec![30])])
        .unwrap();
    assert_eq!(
        db.get_multi(&[vec![2], vec![1]]).unwrap(),
        vec![vec![20], vec![10]]
    );
    let missing = db.get_multi(&[vec![1], vec![5]]);
    assert_eq!(missing.unwrap_err().kind(), ErrorKind::NotFound);
}

#[test]
fn clear_empties_memory_store() {
    let mut db = HashMapBase::default();
    db.insert(vec![1], vec![1]).unwrap();
    db.clear().unwrap();
    assert!(!db.contains(&vec![1]));
    assert!(db.keys().is_empty());
}

#[test]
fn insert_multi_of_present_keys_changes_nothing() {
    let mut db = HashMapBase::default();
    db.insert_multi(vec![(vec![1], vec![10]), (vec![2], vec![20])]).unwrap();
    db.insert_multi(vec![(vec![2], vec![99]), (vec![1], vec![98])]).unwrap();
    assert_eq!(db.get_multi(&[vec![1], vec![2]]).unwrap(), vec![vec![10], vec![20]]);
    assert_eq!(db.get_multi(&[]).unwrap(), Vec::<Vec<u8>>::new());
}

#[test]
fn iterator_and_values_copy_the_contents() {
    let mut db = HashMapBase::default();
    db.insert(vec![1], vec![10]).unwrap();
    db.insert(vec![2], vec![20]).unwrap();
    let mut pairs = db.iterator();
    pairs.sort();
    assert_eq!(pairs, vec![(vec![1], vec![10]), (vec![2], vec![20])]);
    let mut values = db.values();
    values.sort();
    assert_eq!(values, vec![vec![10], vec![20]]);
}
