use bf_tree::fs::MemoryVfs;
use bf_tree::nodes::PageID;
use bf_tree::snapshot::meta::{read_vec_from_offset, serialize_vec_to_disk, BfTreeMeta};
use bf_tree::snapshot::CPRSnapShotMgr;
use bf_tree::storage::PageLocation;
use bf_tree::{
    BfTree, Config, ConfigError, LeafReadResult, ScanReturnField, SnapshotResult, WalConfig,
};

fn take(tree: &mut BfTree) -> Vec<u8> {
    match tree.cpr_snapshot() {
        SnapshotResult::Done(file) => file,
        _ => panic!("no snapshot"),
    }
}

fn dump(tree: &mut BfTree) -> Vec<(Vec<u8>, Vec<u8>)> {
    let mut out = vec![0u8; 8192];
    let mut all = Vec::new();
    let mut scan = tree
        .scan_with_count(b"", usize::MAX, ScanReturnField::KeyAndValue)
        .unwrap();
    while let Some((k, v)) = scan.next(&mut out) {
        all.push((out[..k].to_vec(), out[k..k + v].to_vec()));
    }
    all
}

fn key(r: usize) -> [u8; 8] {
    r.to_be_bytes()
}

/// A tree with inner nodes and leaf pages on disk and in the cache.
fn grown_tree(records: usize) -> BfTree {
    let mut config = Config::new(64 * 1024);
    config.use_snapshot(true);
    let mut tree = BfTree::with_config(config).unwrap();
    for r in 0..records {
        tree.insert(&key(r), &[7; 200]);
    }
    tree
}

fn rejected(file: &[u8]) -> bool {
    matches!(
        BfTree::new_from_cpr_snapshot(file, false, None, None),
        Err(ConfigError::SnapshotFileInvalid)
    )
}

/// The file with another header.
fn with_header(file: &[u8], change: impl Fn(&mut BfTreeMeta)) -> Vec<u8> {
    let mut meta = BfTreeMeta::from_bytes(file).unwrap();
    change(&mut meta);
    let mut changed = meta.as_bytes();
    changed.extend_from_slice(&file[changed.len()..]);
    changed
}

#[test]
fn a_new_tree_has_nothing_in_its_cache() {
    let tree = BfTree::with_config(Config::new(64 * 1024)).unwrap();
    assert_eq!(tree.storage.circular_buffer.used, 0);
    assert!(tree.storage.circular_buffer.entries.is_empty());
}

#[test]
fn a_header_over_parts_that_make_up_no_tree_is_rejected() {
    let mut tree = grown_tree(6000);
    let file = take(&mut tree);
    assert!(!rejected(&file));
    assert!(tree.inners.len() > 1);
    // A root that is not the topmost node, and one that is not there.
    let root = tree.root.as_inner_node() as usize;
    let other = PageID::from_pointer(if root == 0 { 1 } else { 0 }).raw;
    assert!(rejected(&with_header(&file, |m| m.root_id = other)));
    let beyond = PageID::from_pointer(tree.inners.len()).raw;
    assert!(rejected(&with_header(&file, |m| m.root_id = beyond)));
    assert!(rejected(&with_header(&file, |m| m.root_id = 0)));
    // A key that is changed belongs to another page, or is out of order.
    let at = file.windows(8).position(|w| w == key(0).as_slice()).unwrap();
    let mut moved = file.clone();
    moved[at] = 0xff;
    assert!(rejected(&moved));
    assert!(matches!(
        BfTree::recovery(&moved, Vec::new(), false, None, None),
        Err(ConfigError::SnapshotFileInvalid)
    ));
}

#[test]
fn whatever_comes_out_of_a_damaged_file_is_a_tree() {
    let mut tree = grown_tree(400);
    let file = take(&mut tree);
    let mut taken = 0;
    let mut refused = 0;
    for at in (224..file.len()).step_by(97) {
        let mut damaged = file.clone();
        damaged[at] ^= 0x41;
        match BfTree::new_from_cpr_snapshot(&damaged, false, None, None) {
            Err(_) => refused += 1,
            Ok(mut back) => {
                taken += 1;
                let all = dump(&mut back);
                assert!(all.windows(2).all(|w| w[0].0 < w[1].0));
                back.insert(b"new key", b"new value");
                let mut out = [0u8; 4096];
                assert_eq!(back.read(b"new key", &mut out), LeafReadResult::Found(9));
            }
        }
    }
    assert!(taken > 0);
    assert!(refused > 0);
}

#[test]
fn a_log_is_replayed_on_a_tree() {
    let mut config = WalConfig::new();
    config.segment_size(512);
    let mut tree_config = Config::new(64 * 1024);
    tree_config.enable_write_ahead_log(config);
    let mut tree = BfTree::with_config(tree_config).unwrap();
    for r in 0..50 {
        tree.insert(&key(r), &[r as u8; 20]);
    }
    tree.delete(&key(7));
    let expected = dump(&mut tree);
    let log_file = tree.wal.unwrap().log_file;
    let empty = BfTree::with_config(Config::new(64 * 1024)).unwrap();
    let mut back = empty
        .replay_log(log_file.clone(), Some((config, log_file.clone())))
        .unwrap();
    assert_eq!(dump(&mut back), expected);
    let mut out = [0u8; 4096];
    assert_eq!(back.read(&key(7), &mut out), LeafReadResult::Deleted);
    assert_eq!(back.wal.unwrap().inner.next_lsn, 51);
}

#[test]
fn a_lossy_cache_does_the_last_operation_of_the_log() {
    let mut wal = WalConfig::new();
    wal.segment_size(4096);
    let mut config = Config::new(64 * 1024);
    config.cache_only(true).use_snapshot(true);
    let mut tree = BfTree::with_config(config).unwrap();
    tree.insert(&key(0), &[0; 200]);
    let snapshot = take(&mut tree);
    let mut logged = Config::new(1024 * 1024);
    logged.enable_write_ahead_log(wal);
    let mut writer = BfTree::with_config(logged).unwrap();
    for r in 1..2000 {
        writer.insert(&key(r), &[r as u8; 200]);
    }
    let log_file = writer.wal.unwrap().log_file;
    let log = Some((wal, Vec::new()));
    let back = BfTree::recovery(&snapshot, log_file, false, None, log).unwrap();
    let mut out = [0u8; 4096];
    assert_eq!(back.read(&key(1999), &mut out), LeafReadResult::Found(200));
    assert_eq!(&out[..200], [1999usize as u8; 200]);
    // The cache had no room for all of it.
    let found = (0..2000)
        .filter(|r| matches!(back.read(&key(*r), &mut out), LeafReadResult::Found(_)))
        .count();
    assert!(found < 2000);
}

#[test]
fn a_roomy_cache_does_all_operations_of_the_log() {
    let mut wal = WalConfig::new();
    wal.segment_size(4096);
    let mut config = Config::new(1024 * 1024);
    config.cache_only(true).use_snapshot(true);
    let mut tree = BfTree::with_config(config).unwrap();
    tree.insert(&key(0), &[0; 200]);
    let snapshot = take(&mut tree);
    let mut logged = Config::new(1024 * 1024);
    logged.enable_write_ahead_log(wal);
    let mut writer = BfTree::with_config(logged).unwrap();
    for r in 1..100 {
        writer.insert(&key(r), &[r as u8; 200]);
    }
    let log_file = writer.wal.unwrap().log_file;
    let log = Some((wal, Vec::new()));
    let back = BfTree::recovery(&snapshot, log_file, false, None, log).unwrap();
    let mut out = [0u8; 4096];
    for r in 0..100usize {
        assert_eq!(back.read(&key(r), &mut out), LeafReadResult::Found(200));
        assert_eq!(&out[..200], [r as u8; 200]);
    }
}

#[test]
fn a_snapshot_taken_later_covers_the_earlier_ones() {
    let mut tree = grown_tree(0);
    let mut files = Vec::new();
    for round in 0..5 {
        for r in 0..100 {
            tree.insert(&key(round * 100 + r), &[round as u8; 50]);
        }
        files.push(take(&mut tree));
    }
    let mut before: Vec<(Vec<u8>, Vec<u8>)> = Vec::new();
    for (round, file) in files.iter().enumerate() {
        let mut back = BfTree::new_from_cpr_snapshot(file, false, None, None).unwrap();
        let all = dump(&mut back);
        assert_eq!(all.len(), 100 * (round + 1));
        assert!(before.iter().all(|record| all.contains(record)));
        before = all;
    }
}

#[test]
fn a_page_may_be_shorter_than_its_room() {
    let mut mgr = CPRSnapShotMgr::new(1);
    let first = mgr.snapshot_page(&[1; 10], 512);
    let next = mgr.snapshot_page(&[2; 512], 512);
    assert_eq!(next, first + 512);
    let data = &mgr.vfs.data;
    assert_eq!(data[first..first + 10], [1; 10]);
    assert!(data[first + 10..next].iter().all(|byte| *byte == 0));
    assert_eq!(data[next..next + 512], [2; 512]);
}

#[test]
fn a_scan_promotes_every_page_if_the_rate_says_so() {
    let mut config = Config::new(1024 * 1024);
    config.scan_promotion_rate = 100;
    let mut tree = BfTree::with_config(config).unwrap();
    for r in 0..300 {
        tree.insert(&key(r), &[7; 100]);
    }
    assert_eq!(dump(&mut tree).len(), 300);
    let pages = tree.storage.page_table.peek_next_id();
    assert!(pages > 1);
    for id in 0..pages {
        assert!(matches!(tree.storage.page_table.get(id), PageLocation::Full(_)));
    }
}

#[test]
fn lists_of_any_entries_are_read_back() {
    let mut vfs = MemoryVfs::open();
    let words: Vec<u64> = (0..700).map(|i| i * 0x0101_0101).collect();
    let pairs: Vec<(u64, u64)> = (0..300).map(|i| (i, u64::MAX - i)).collect();
    let (word_offset, word_size) = serialize_vec_to_disk(&words, &mut vfs);
    let (pair_offset, pair_size) = serialize_vec_to_disk(&pairs, &mut vfs);
    assert_eq!(serialize_vec_to_disk(&Vec::<u64>::new(), &mut vfs), (0, 0));
    assert_eq!(word_size, 8 * 700);
    assert_eq!(pair_size, 16 * 300);
    let file = &vfs.data;
    let back = read_vec_from_offset::<u64>(file, word_offset as u64, word_size as u64);
    assert_eq!(back, Some(words));
    let back = read_vec_from_offset::<(u64, u64)>(file, pair_offset as u64, pair_size as u64);
    assert_eq!(back, Some(pairs));
    // Not a whole number of entries.
    assert_eq!(read_vec_from_offset::<(u64, u64)>(file, word_offset as u64, 8), None);
    assert_eq!(read_vec_from_offset::<u64>(file, word_offset as u64, 8), Some(vec![0]));
}
