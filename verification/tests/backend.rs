use quadstore::backend::{
    compare_keys, starts_with, ColumnFamily, Db, KeyOrder, SstFile, Table,
};
use quadstore::error::{EngineError, StorageError};
use quadstore::storage::{sst_of_table, Storage};

#[test]
fn keys_compare_byte_by_byte() {
    assert_eq!(compare_keys(b"", b""), KeyOrder::Equal);
    assert_eq!(compare_keys(b"", b"a"), KeyOrder::Less);
    assert_eq!(compare_keys(b"a", b""), KeyOrder::Greater);
    assert_eq!(compare_keys(b"ab", b"abc"), KeyOrder::Less);
    assert_eq!(compare_keys(b"abd", b"abc"), KeyOrder::Greater);
    assert_eq!(compare_keys(&[1, 255], &[2]), KeyOrder::Less);
    assert_eq!(compare_keys(b"abc", b"abc"), KeyOrder::Equal);
    assert!(starts_with(b"abc", b"ab"));
    assert!(starts_with(b"abc", b""));
    assert!(!starts_with(b"ab", b"abc"));
    assert!(!starts_with(b"abc", b"b"));
}

#[test]
fn a_table_keeps_its_rows_in_order() {
    let mut table = Table::new();
    assert!(table.is_empty());
    for key in [&b"m"[..], b"a", b"z", b"ab", b"", b"m"] {
        table.insert(key, key);
    }
    table.insert(b"a", b"new");
    assert_eq!(table.len(), 5);
    assert_eq!(
        table.scan_prefix(b""),
        vec![b"".to_vec(), b"a".to_vec(), b"ab".to_vec(), b"m".to_vec(), b"z".to_vec()]
    );
    assert_eq!(table.scan_prefix(b"a"), vec![b"a".to_vec(), b"ab".to_vec()]);
    assert!(table.scan_prefix(b"b").is_empty());
    assert_eq!(table.get(b"a"), Some(&b"new".to_vec()));
    assert_eq!(table.get(b"b"), None);
    assert!(table.contains_key(b""));
    table.remove(b"");
    table.remove(b"missing");
    assert!(!table.contains_key(b""));
    assert_eq!(table.len(), 4);
    table.insert_empty(b"m");
    assert_eq!(table.get(b"m"), Some(&vec![]));
    let copy = table.snapshot();
    assert_eq!(copy, table);
}

#[test]
fn a_sorted_file_wants_ascending_keys() {
    let mut file = SstFile::new();
    assert_eq!(file.insert_empty(b"a"), Ok(()));
    assert_eq!(file.insert(b"b", b"1"), Ok(()));
    assert_eq!(
        file.insert_key_value(b"b", b"2"),
        Err(StorageError::Engine(EngineError::KeysOutOfOrder))
    );
    assert_eq!(file.insert_empty(b"a"), Err(StorageError::Engine(EngineError::KeysOutOfOrder)));
    assert_eq!(file.insert_key_value(b"c", b"3"), Ok(()));
    assert_eq!(file.len(), 3);
    assert_eq!(
        StorageError::Engine(EngineError::KeysOutOfOrder).message(),
        "the keys of a sorted file have to ascend"
    );
}

#[test]
fn ingesting_keeps_the_rows_that_are_there() {
    let mut staged = Table::new();
    staged.insert(b"a", b"staged");
    staged.insert(b"c", b"staged");
    let file = sst_of_table(&staged);
    assert_eq!(file.len(), 2);
    let mut table = Table::new();
    table.insert(b"a", b"kept");
    table.insert(b"b", b"kept");
    table.ingest(&file);
    assert_eq!(table.get(b"a"), Some(&b"kept".to_vec()));
    assert_eq!(table.get(b"b"), Some(&b"kept".to_vec()));
    assert_eq!(table.get(b"c"), Some(&b"staged".to_vec()));
    assert_eq!(table.len(), 3);
}

#[test]
fn column_families_do_not_share_rows() {
    let mut db = Db::new(Storage::initial_column_families());
    db.insert(ColumnFamily::Spog, b"k", b"v");
    db.insert_empty(ColumnFamily::Posg, b"k");
    assert_eq!(db.get(ColumnFamily::Spog, b"k"), Some(&b"v".to_vec()));
    assert_eq!(db.get(ColumnFamily::Posg, b"k"), Some(&vec![]));
    assert!(!db.contains_key(ColumnFamily::Ospg, b"k"));
    assert!(db.is_empty(ColumnFamily::Ospg));
    assert_eq!(db.len(ColumnFamily::Spog), 1);
    let copy = db.snapshot();
    db.remove(ColumnFamily::Spog, b"k");
    assert!(copy.contains_key(ColumnFamily::Spog, b"k"));
    assert!(!db.contains_key(ColumnFamily::Spog, b"k"));
    assert_eq!(copy.iter(ColumnFamily::Spog), vec![b"k".to_vec()]);
    let mut file = SstFile::new();
    file.insert_empty(b"x").unwrap();
    db.insert_sst_file(ColumnFamily::Graphs, &file);
    assert_eq!(db.scan_prefix(ColumnFamily::Graphs, b""), vec![b"x".to_vec()]);
    assert_eq!(db.flush_count(ColumnFamily::Graphs), 0);
    assert!(db.flush(ColumnFamily::Graphs).is_ok());
    assert!(db.flush(ColumnFamily::Graphs).is_ok());
    assert!(db.compact(ColumnFamily::Graphs).is_ok());
    assert_eq!(db.flush_count(ColumnFamily::Graphs), 2);
    assert_eq!(db.compaction_count(ColumnFamily::Graphs), 1);
    assert_eq!(db.flush_count(ColumnFamily::Spog), 0);
    assert_eq!(db.compaction_count(ColumnFamily::Spog), 0);
    assert_eq!(db.scan_prefix(ColumnFamily::Graphs, b""), vec![b"x".to_vec()]);
    for i in 0..12 {
        assert_eq!(quadstore::backend::column_family_at(i).index(), i);
    }
}
