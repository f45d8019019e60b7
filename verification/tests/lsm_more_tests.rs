use infra_core::lsm::compactor::merge_tables;
use infra_core::lsm::config::LsmConfig;
use infra_core::lsm::lookup::{layered_get, TableImage};
use infra_core::lsm::memtable::{KeyValuePair, MemTable};
use infra_core::lsm::sstable::{
    all_entries, encode_table, parse_footer, parse_index, table_get, SstError, SstableWriter,
};

fn entries() -> Vec<KeyValuePair> {
    vec![
        (b"key1".to_vec(), Some(b"value1".to_vec())),
        (b"key2".to_vec(), None),
        (b"key3".to_vec(), Some(b"value3".to_vec())),
    ]
}

#[test]
fn table_written_then_read_back() {
    let bytes = encode_table(&entries());
    assert_eq!(bytes, SstableWriter::encode(&entries()));
    let (index_offset, count) = parse_footer(&bytes).unwrap();
    assert_eq!(count, 3);
    assert_eq!(index_offset, (19 + 13 + 19) as u64);
    let index = parse_index(&bytes, index_offset, count).unwrap();
    assert_eq!(index.len(), 3);
    assert_eq!(index[0].0, b"key1".to_vec());
    assert_eq!(index[1].1, 19);
    assert_eq!(table_get(&bytes, &index, b"key1").unwrap(), Some(Some(b"value1".to_vec())));
    assert_eq!(table_get(&bytes, &index, b"key2").unwrap(), Some(None));
    assert_eq!(table_get(&bytes, &index, b"key3").unwrap(), Some(Some(b"value3".to_vec())));
    assert_eq!(table_get(&bytes, &index, b"key4").unwrap(), None);
    assert_eq!(all_entries(&bytes, 3).unwrap(), entries());
}

#[test]
fn damaged_tables_are_refused() {
    assert_eq!(parse_footer(&[0u8; 10]), Err(SstError::TooSmall));
    let mut bytes = encode_table(&entries());
    let n = bytes.len();
    bytes[n - 1] = 0;
    assert_eq!(parse_footer(&bytes), Err(SstError::BadMagic));
    let good = encode_table(&entries());
    assert_eq!(all_entries(&good[..20], 3), Err(SstError::Truncated));
}

#[test]
fn merging_keeps_the_newest_and_drops_deletions_when_major() {
    let newer: Vec<KeyValuePair> = vec![(b"a".to_vec(), None), (b"c".to_vec(), Some(b"3".to_vec()))];
    let older: Vec<KeyValuePair> = vec![
        (b"a".to_vec(), Some(b"1".to_vec())),
        (b"b".to_vec(), Some(b"2".to_vec())),
        (b"c".to_vec(), Some(b"old".to_vec())),
    ];
    let tables = vec![newer.clone(), older.clone()];
    let minor = merge_tables(&tables, false);
    assert_eq!(
        minor,
        vec![
            (b"a".to_vec(), None),
            (b"b".to_vec(), Some(b"2".to_vec())),
            (b"c".to_vec(), Some(b"3".to_vec())),
        ]
    );
    let major = merge_tables(&tables, true);
    assert_eq!(major, vec![(b"b".to_vec(), Some(b"2".to_vec())), (b"c".to_vec(), Some(b"3".to_vec()))]);
}

#[test]
fn memtable_reads_give_back_the_last_write() {
    let mut mem = MemTable::new();
    mem.put(b"b".to_vec(), b"2".to_vec()).unwrap();
    mem.put(b"a".to_vec(), b"1".to_vec()).unwrap();
    mem.delete(b"c".to_vec()).unwrap();
    assert_eq!(mem.get(b"a").unwrap(), Some(Some(b"1".to_vec())));
    assert_eq!(mem.get(b"c").unwrap(), Some(None));
    assert_eq!(mem.size(), 5);
    let drained = mem.drain().unwrap();
    assert_eq!(
        drained,
        vec![(b"a".to_vec(), Some(b"1".to_vec())), (b"b".to_vec(), Some(b"2".to_vec())), (b"c".to_vec(), None)]
    );
    assert!(mem.is_empty());
    assert_eq!(mem.size(), 0);
}

#[test]
fn engine_settings_and_thresholds() {
    let config = LsmConfig::default();
    assert_eq!(config.data_dir, "data/lsm_storage");
    assert_eq!(config.flush_threshold_bytes, 1024 * 1024);
    assert!(!config.needs_flush(1024 * 1024 - 1));
    assert!(config.needs_flush(1024 * 1024));
    assert!(!config.needs_compaction(3));
    assert!(config.needs_compaction(4));
}

#[test]
fn reads_go_through_the_layers_newest_first() {
    let old_table: Vec<KeyValuePair> = vec![
        (b"a".to_vec(), Some(b"old-a".to_vec())),
        (b"b".to_vec(), Some(b"old-b".to_vec())),
        (b"c".to_vec(), Some(b"old-c".to_vec())),
    ];
    let new_table: Vec<KeyValuePair> = vec![(b"b".to_vec(), None), (b"d".to_vec(), Some(b"new-d".to_vec()))];
    let tables = vec![
        TableImage::open(encode_table(&new_table)).unwrap(),
        TableImage::open(encode_table(&old_table)).unwrap(),
    ];
    assert_eq!(tables[0].index.len(), 2);
    let mut active = MemTable::new();
    active.put(b"a".to_vec(), b"live-a".to_vec()).unwrap();
    let mut frozen = MemTable::new();
    frozen.delete(b"c".to_vec()).unwrap();
    assert_eq!(layered_get(&active, Some(&frozen), &tables, b"a"), Ok(Some(b"live-a".to_vec())));
    assert_eq!(layered_get(&active, Some(&frozen), &tables, b"b"), Ok(None));
    assert_eq!(layered_get(&active, Some(&frozen), &tables, b"c"), Ok(None));
    assert_eq!(layered_get(&active, None, &tables, b"c"), Ok(Some(b"old-c".to_vec())));
    assert_eq!(layered_get(&active, Some(&frozen), &tables, b"d"), Ok(Some(b"new-d".to_vec())));
    assert_eq!(layered_get(&active, Some(&frozen), &tables, b"zz"), Ok(None));
    assert!(matches!(TableImage::open(vec![0u8; 4]), Err(SstError::TooSmall)));
}

#[test]
fn test_sstable_write_read() {
    let entries = vec![
        (b"key1".to_vec(), Some(b"value1".to_vec())),
        (b"key2".to_vec(), None),
        (b"key3".to_vec(), Some(b"value3".to_vec())),
    ];
    let reader = TableImage::open(SstableWriter::encode(&entries)).unwrap();
    assert_eq!(reader.index.len(), 3);
    assert_eq!(reader.index.first().map(|(k, _)| k.as_slice()), Some(b"key1".as_slice()));
    assert_eq!(reader.index.last().map(|(k, _)| k.as_slice()), Some(b"key3".as_slice()));
    assert_eq!(table_get(&reader.bytes, &reader.index, b"key1").unwrap(), Some(Some(b"value1".to_vec())));
    assert_eq!(table_get(&reader.bytes, &reader.index, b"key2").unwrap(), Some(None));
    assert_eq!(table_get(&reader.bytes, &reader.index, b"key3").unwrap(), Some(Some(b"value3".to_vec())));
    assert_eq!(table_get(&reader.bytes, &reader.index, b"key4").unwrap(), None);
    let read_entries = all_entries(&reader.bytes, reader.index.len()).unwrap();
    assert_eq!(read_entries, entries);
}

/// The store's layers held in memory: the active table and the table images, newest first.
struct Layers {
    config: LsmConfig,
    active: MemTable,
    tables: Vec<TableImage>,
}

impl Layers {
    fn settle(&mut self) {
        if !self.config.needs_flush(self.active.size()) {
            return;
        }
        let entries = self.active.drain().unwrap();
        if entries.is_empty() {
            return;
        }
        self.tables.insert(0, TableImage::open(encode_table(&entries)).unwrap());
        if self.config.needs_compaction(self.tables.len()) {
            let contents: Vec<Vec<KeyValuePair>> =
                self.tables.iter().map(|t| all_entries(&t.bytes, t.index.len()).unwrap()).collect();
            let merged = merge_tables(&contents, true);
            self.tables = vec![TableImage::open(encode_table(&merged)).unwrap()];
        }
    }

    fn put(&mut self, k: &[u8], v: &[u8]) {
        self.active.put(k.to_vec(), v.to_vec()).unwrap();
        self.settle();
    }

    fn delete(&mut self, k: &[u8]) {
        self.active.delete(k.to_vec()).unwrap();
        self.settle();
    }

    fn get(&self, k: &[u8]) -> Option<Vec<u8>> {
        layered_get(&self.active, None, &self.tables, k).unwrap()
    }
}

#[test]
fn test_lsm_engine_flow_and_compaction() {
    let config = LsmConfig {
        data_dir: "data/lsm_engine_test".to_string(),
        flush_threshold_bytes: 30,
        compaction_trigger_files: 4,
    };
    let mut engine = Layers { config, active: MemTable::new(), tables: Vec::new() };
    engine.put(b"aaa", b"111");
    engine.put(b"bbb", b"222");
    engine.put(b"ccc", b"333");
    engine.put(b"ddd_large_key", b"ddd_large_val");
    engine.put(b"eee_large_key", b"eee_large_val");
    engine.put(b"fff_large_key", b"fff_large_val");
    engine.put(b"ggg_large_key", b"ggg_large_val");
    engine.delete(b"aaa");
    engine.delete(b"bbb");
    engine.put(b"hhh_large_key", b"hhh_large_val");

    assert_eq!(engine.get(b"aaa"), None);
    assert_eq!(engine.get(b"bbb"), None);
    assert_eq!(engine.get(b"ccc"), Some(b"333".to_vec()));
    assert_eq!(engine.get(b"ddd_large_key"), Some(b"ddd_large_val".to_vec()));
    let sst_count = engine.tables.len();
    assert!(sst_count > 0);
    assert!(sst_count < 4);

    let reopened: Vec<TableImage> =
        engine.tables.iter().map(|t| TableImage::open(t.bytes.clone()).unwrap()).collect();
    let recovered = Layers { config: engine.config, active: MemTable::new(), tables: reopened };
    assert_eq!(recovered.get(b"aaa"), None);
    assert_eq!(recovered.get(b"ccc"), Some(b"333".to_vec()));
}
