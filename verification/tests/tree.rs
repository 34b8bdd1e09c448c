use bf_tree::circular_buffer::CircularBuffer;
use bf_tree::fs::{MemoryVfs, OffsetAlloc, Transfer};
use bf_tree::tree::leaf_ops::cache_page_size;
use bf_tree::wal::operations::WriteOp;
use bf_tree::{
    BfTree, Config, ConfigError, LeafInsertResult, LeafReadResult, StorageBackend, WalConfig,
    WalReader,
};

#[test]
fn what_is_inserted_is_read_until_it_is_deleted() {
    let mut tree = BfTree::default();
    let mut out = [0u8; 2048];
    assert_eq!(tree.read(b"key1", &mut out), LeafReadResult::NotFound);
    assert_eq!(tree.insert(b"key1", b"one"), LeafInsertResult::Success);
    assert_eq!(tree.read(b"key1", &mut out), LeafReadResult::Found(3));
    assert_eq!(&out[..3], b"one");
    assert_eq!(tree.insert(b"key1", b"longer"), LeafInsertResult::Success);
    assert_eq!(tree.read(b"key1", &mut out), LeafReadResult::Found(6));
    assert_eq!(&out[..6], b"longer");
    tree.delete(b"key1");
    assert_eq!(tree.read(b"key1", &mut out), LeafReadResult::Deleted);
    tree.delete(b"key2");
    assert_eq!(tree.read(b"key2", &mut out), LeafReadResult::Deleted);
    assert_eq!(tree.read(b"key3", &mut out), LeafReadResult::NotFound);
}

#[test]
fn records_and_keys_have_limits() {
    let mut tree = BfTree::default();
    let mut out = [0u8; 2048];
    assert_eq!(tree.insert(&[1; 17], b"value"), LeafInsertResult::InvalidKV);
    assert_eq!(tree.insert(&[1; 16], b"value"), LeafInsertResult::Success);
    assert_eq!(tree.insert(b"k", b"vv"), LeafInsertResult::InvalidKV);
    assert_eq!(tree.insert(b"k", b"vvv"), LeafInsertResult::Success);
    assert_eq!(tree.insert(b"kk", &[0; 1950]), LeafInsertResult::Success);
    assert_eq!(tree.insert(b"kk", &[0; 1951]), LeafInsertResult::InvalidKV);
    assert_eq!(tree.read(&[1; 17], &mut out), LeafReadResult::InvalidKey);
    tree.delete(&[1; 17]);
}

#[test]
fn a_tree_on_disk_loses_nothing_when_its_cache_is_small() {
    let mut config = Config::new(16 * 1024);
    config.scan_promotion_rate(0);
    let mut tree = BfTree::with_config(config).unwrap();
    for i in 0..3_000u64 {
        let k = i.wrapping_mul(0x9e37_79b9_7f4a_7c15);
        assert_eq!(
            tree.insert(&k.to_be_bytes(), &i.to_le_bytes()),
            LeafInsertResult::Success
        );
    }
    let mut out = [0u8; 16];
    for i in 0..3_000u64 {
        let k = i.wrapping_mul(0x9e37_79b9_7f4a_7c15);
        assert_eq!(
            tree.read(&k.to_be_bytes(), &mut out),
            LeafReadResult::Found(8)
        );
        assert_eq!(&out[..8], &i.to_le_bytes());
    }
}

#[test]
fn each_limit_of_a_configuration_has_its_error() {
    let check = |change: fn(&mut Config)| {
        let mut config = Config::default();
        change(&mut config);
        match BfTree::with_config(config) {
            Ok(_) => None,
            Err(e) => Some(e),
        }
    };
    assert_eq!(check(|_| {}), None);
    assert_eq!(
        check(|c| c.leaf_page_size = 65536),
        Some(ConfigError::LeafPageSize)
    );
    assert_eq!(
        check(|c| {
            c.cb_min_record_size(2000);
        }),
        Some(ConfigError::MinimumRecordSize)
    );
    assert_eq!(
        check(|c| {
            c.cb_max_record_size(2048);
        }),
        Some(ConfigError::MaximumRecordSize)
    );
    assert_eq!(
        check(|c| {
            c.cb_max_key_len(3000);
        }),
        Some(ConfigError::MaxKeyLen)
    );
    assert_eq!(
        check(|c| {
            c.cb_size_byte(8191);
        }),
        Some(ConfigError::CircularBufferSize)
    );
    assert_eq!(
        check(|c| c.snapshot_version = 1 << 61),
        Some(ConfigError::SnapshotFileInvalid)
    );
}

#[test]
fn settings_are_chained() {
    let mut config = Config::default();
    config
        .storage_backend(StorageBackend::Std)
        .read_promotion_rate(7)
        .scan_promotion_rate(8)
        .cb_max_key_len(20);
    assert_eq!(config.storage_backend, StorageBackend::Std);
    assert_eq!(config.read_promotion_rate, 7);
    assert_eq!(config.scan_promotion_rate, 8);
    assert_eq!(config.max_fence_len, 40);
    assert_eq!(Config::new(12345).cb_size_byte, 12345);
}

#[test]
fn operations_are_logged_before_they_are_done() {
    let mut wal = WalConfig::new();
    wal.segment_size(512);
    let mut config = Config::default();
    config.enable_write_ahead_log(wal);
    let mut tree = BfTree::with_config(config).unwrap();
    tree.insert(b"key1", b"one");
    tree.insert(b"k", b"");
    tree.delete(b"key1");
    let reader = WalReader::new(tree.wal.unwrap().log_file, 512);
    let segment = reader.read_segment_at(0).unwrap();
    let mut iter = segment.entry_iter();
    let (header, data) = iter.next().unwrap();
    assert_eq!((header.lsn, header.page_offset, header.log_len), (0, 0, 36));
    assert_eq!(data, b"\x04\x00\x03\x00\x00key1one");
    let (header, data) = iter.next().unwrap();
    assert_eq!(header.lsn, 1);
    assert_eq!(data, b"\x04\x00\x00\x00\x01key1");
    assert!(iter.next().is_none());
}

#[test]
fn offsets_are_handed_out_once_and_writes_are_read_back() {
    let mut offsets = OffsetAlloc::new_with(100);
    let first = offsets.alloc_offset(4096);
    let second = offsets.alloc_offset(10);
    assert!(second >= first + 4096);

    let mut file = MemoryVfs::open();
    let a = file.alloc_offset(100);
    let b = file.alloc_offset(50);
    assert_eq!((a, b), (4096, 4196));
    file.write(b, &[7; 50]);
    file.write(a, &[9; 100]);
    assert_eq!(file.read(b, 50), vec![7; 50]);
    assert_eq!(file.read(a, 100), vec![9; 100]);
    assert_eq!(file.read(0, 4096), vec![0; 4096]);
    file.reset();
    assert!(file.data.is_empty());
    let rest = usize::MAX - 4096;
    file.alloc_offset(rest);
    file.alloc_offset(1);
    assert!(file.full);
}

#[test]
fn the_oldest_page_leaves_the_cache_first() {
    let mut buffer = CircularBuffer::new(100);
    assert!(buffer.alloc_page(1, 60).is_ok());
    assert!(buffer.alloc_page(2, 50).is_err());
    assert!(buffer.alloc_page(2, 40).is_ok());
    assert_eq!(buffer.pop_oldest(), Some(1));
    assert_eq!(buffer.used, 40);
    buffer.dealloc_page(2);
    assert_eq!(buffer.used, 0);
    assert_eq!(buffer.pop_oldest(), None);
}

#[test]
fn a_value_is_read_back_with_its_length() {
    let mut config = Config::default();
    config.cb_min_record_size(4);
    let mut tree = BfTree::with_config(config).unwrap();
    tree.insert(b"key", b"value");
    let mut buffer = [0u8; 1024];
    let read_size = tree.read(b"key", &mut buffer);
    assert_eq!(read_size, LeafReadResult::Found(5));
    assert_eq!(&buffer[..5], b"value");
}

#[test]
fn a_write_leaves_other_keys_alone() {
    let mut tree = BfTree::default();
    let mut out = [0u8; 64];
    tree.insert(b"key1", b"one");
    tree.insert(b"key2", b"two");
    tree.delete(b"key2");
    tree.insert(b"key3", b"three");
    assert_eq!(tree.read(b"key1", &mut out), LeafReadResult::Found(3));
    assert_eq!(&out[..3], b"one");
    out = [9; 64];
    assert!(!matches!(
        tree.read(b"key2", &mut out),
        LeafReadResult::Found(_)
    ));
    assert_eq!(out, [9; 64]);
}

#[test]
fn only_operations_that_are_carried_out_are_logged() {
    let mut tree = BfTree::default();
    tree.insert(b"key1", b"one");
    let (page, bytes) = tree
        .log_record(&WriteOp::make_insert(b"key2", b"two"))
        .unwrap();
    assert_eq!(page, 0);
    assert_eq!(bytes, b"\x04\x00\x03\x00\x00key2two");
    let (_, bytes) = tree.log_record(&WriteOp::make_delete(b"key1")).unwrap();
    assert_eq!(bytes, b"\x04\x00\x00\x00\x01key1");
    assert!(tree.log_record(&WriteOp::make_insert(b"k", b"")).is_none());
    assert!(tree.log_record(&WriteOp::make_delete(&[1; 17])).is_none());
}

#[test]
fn a_transfer_goes_on_until_all_is_moved() {
    let mut transfer = Transfer::new(1000, 10);
    assert_eq!(transfer.next_piece(), Some((0, 1000)));
    assert!(transfer.advance(4));
    assert_eq!(transfer.next_piece(), Some((4, 1004)));
    assert!(!transfer.advance(0));
    assert!(transfer.advance(6));
    assert_eq!(transfer.next_piece(), None);
    assert_eq!(Transfer::new(7, 0).next_piece(), None);
}

#[test]
fn a_cached_page_is_a_little_larger_than_what_it_holds() {
    assert_eq!(cache_page_size(0, 4096), 256);
    assert_eq!(cache_page_size(255, 4096), 256);
    assert_eq!(cache_page_size(256, 4096), 512);
    assert_eq!(cache_page_size(3900, 4096), 4096);
    assert_eq!(cache_page_size(4096, 4096), 4096);
}

#[test]
fn a_full_cache_forgets_the_pages_that_came_first() {
    let mut config = Config::default();
    config.cache_only = true;
    config.cb_size_byte(16 * 1024);
    let mut tree = BfTree::with_config(config).unwrap();
    let mut out = [0u8; 2048];
    for r in 0..100u32 {
        let key = r.to_be_bytes();
        let room = 2 * tree.config.leaf_page_size;
        let mut used = tree.storage.circular_buffer.used;
        let mut leaving = Vec::new();
        for (page, size) in &tree.storage.circular_buffer.entries {
            if used + room <= tree.config.cb_size_byte {
                break;
            }
            used -= size;
            leaving.push(*page);
        }
        let held: Vec<u32> = (0..r)
            .filter(|k| matches!(tree.read(&k.to_be_bytes(), &mut out), LeafReadResult::Found(_)))
            .collect();
        let kept: Vec<u32> = held
            .into_iter()
            .filter(|k| {
                let key = k.to_be_bytes();
                let (page, _) = tree.log_record(&WriteOp::make_delete(&key)).unwrap();
                !leaving.contains(&page)
            })
            .collect();
        assert_eq!(tree.insert(&key, &[r as u8; 1000]), LeafInsertResult::Success);
        let now: Vec<u32> = (0..r)
            .filter(|k| matches!(tree.read(&k.to_be_bytes(), &mut out), LeafReadResult::Found(_)))
            .collect();
        assert_eq!(now, kept);
    }
}

#[test]
fn an_emptied_cache_loses_nothing_on_disk() {
    let mut tree = BfTree::default();
    let mut out = [0u8; 2048];
    for r in 0..500u32 {
        tree.insert(&r.to_be_bytes(), &[r as u8; 100]);
    }
    assert!(!tree.storage.circular_buffer.entries.is_empty());
    tree.empty_cache();
    assert!(tree.storage.circular_buffer.entries.is_empty());
    assert!(tree.has_page_room());
    for r in 0..500u32 {
        assert_eq!(
            tree.read(&r.to_be_bytes(), &mut out),
            LeafReadResult::Found(100)
        );
        assert_eq!(out[..100], [r as u8; 100]);
    }
}
