use infra_core::lsm::memtable::MemTable;

#[test]
fn test_memtable_basic() {
    let mut mem = MemTable::new();
    assert!(mem.is_empty());
    assert_eq!(mem.size(), 0);

    mem.put(b"key1".to_vec(), b"value1".to_vec()).unwrap();
    assert!(!mem.is_empty());
    assert_eq!(mem.size(), 10); // 4 + 6

    // Overwrite
    mem.put(b"key1".to_vec(), b"val2".to_vec()).unwrap();
    assert_eq!(mem.size(), 8); // 4 + 4

    // Get
    let res = mem.get(b"key1").unwrap();
    assert_eq!(res, Some(Some(b"val2".to_vec())));

    // Delete
    mem.delete(b"key1".to_vec()).unwrap();
    assert_eq!(mem.size(), 4); // key size only (tombstone)

    let res = mem.get(b"key1").unwrap();
    assert_eq!(res, Some(None)); // Tombstone marker

    let res_nonexistent = mem.get(b"key2").unwrap();
    assert_eq!(res_nonexistent, None);
}
