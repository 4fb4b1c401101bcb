use main_index::table::same_bytes;
use main_index::{IndexError, Table};

#[test]
fn same_bytes_compares_contents() {
    assert!(same_bytes(b"", b""));
    assert!(same_bytes(b"words", b"words"));
    assert!(!same_bytes(b"words", b"word"));
    assert!(!same_bytes(b"words", b"wordz"));
    assert!(!same_bytes(b"", b"a"));
}

#[test]
fn new_table_is_open_and_empty() {
    let table = Table::new();
    assert!(table.is_open());
    assert_eq!(table.get(b"schema"), Ok(None));
    assert_eq!(table.get(b""), Ok(None));
}

#[test]
fn insert_then_get_gives_the_value() {
    let mut table = Table::new();
    assert_eq!(table.insert(b"a", vec![1, 2, 3]), Ok(None));
    assert_eq!(table.get(b"a"), Ok(Some(vec![1, 2, 3])));
    assert_eq!(table.get(b"b"), Ok(None));
}

#[test]
fn insert_replaces_and_returns_the_previous_value() {
    let mut table = Table::new();
    assert_eq!(table.insert(b"a", vec![1]), Ok(None));
    assert_eq!(table.insert(b"b", vec![2]), Ok(None));
    assert_eq!(table.insert(b"a", vec![3, 4]), Ok(Some(vec![1])));
    assert_eq!(table.get(b"a"), Ok(Some(vec![3, 4])));
    assert_eq!(table.get(b"b"), Ok(Some(vec![2])));
    assert_eq!(table.insert(b"b", vec![]), Ok(Some(vec![2])));
    assert_eq!(table.get(b"b"), Ok(Some(vec![])));
    assert_eq!(table.get(b"a"), Ok(Some(vec![3, 4])));
}

#[test]
fn keys_that_share_a_prefix_are_different_keys() {
    let mut table = Table::new();
    assert_eq!(table.insert(b"word", vec![1]), Ok(None));
    assert_eq!(table.insert(b"words", vec![2]), Ok(None));
    assert_eq!(table.insert(b"", vec![3]), Ok(None));
    assert_eq!(table.get(b"word"), Ok(Some(vec![1])));
    assert_eq!(table.get(b"words"), Ok(Some(vec![2])));
    assert_eq!(table.get(b""), Ok(Some(vec![3])));
    assert_eq!(table.get(b"wor"), Ok(None));
}

#[test]
fn many_keys_keep_their_values() {
    let mut table = Table::new();
    for i in 0..50u8 {
        assert_eq!(table.insert(&[i], vec![i, i]), Ok(None));
    }
    for i in 0..50u8 {
        assert_eq!(table.insert(&[i], vec![i]), Ok(Some(vec![i, i])));
    }
    for i in 0..50u8 {
        assert_eq!(table.get(&[i]), Ok(Some(vec![i])));
    }
    assert_eq!(table.get(&[50]), Ok(None));
}

#[test]
fn closed_table_refuses_reads_and_writes() {
    let mut table = Table::new();
    assert_eq!(table.insert(b"a", vec![1]), Ok(None));
    table.close();
    assert!(!table.is_open());
    assert_eq!(table.get(b"a"), Err(IndexError::StoreError));
    assert_eq!(table.get(b"b"), Err(IndexError::StoreError));
    assert_eq!(table.insert(b"a", vec![2]), Err(IndexError::StoreError));
    assert_eq!(table.insert(b"b", vec![2]), Err(IndexError::StoreError));
    table.close();
    assert!(!table.is_open());
}

#[test]
fn value_read_is_a_copy() {
    let mut table = Table::new();
    assert_eq!(table.insert(b"a", vec![1, 2]), Ok(None));
    let mut copy = table.get(b"a").unwrap().unwrap();
    copy.push(3);
    assert_eq!(table.get(b"a"), Ok(Some(vec![1, 2])));
}
