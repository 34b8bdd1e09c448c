use std::mem::size_of;

use bf_tree::nodes::PageID;
use bf_tree::snapshot::meta::{align_to_sector_size, read_vec_from_offset, BfTreeMeta};
use bf_tree::snapshot::places::{first_places, table_list};
use bf_tree::snapshot::{CPRSnapShotMgr, CPRSnapshotGuard, PhaseId, INVALID_SNAPSHOT_STATE};
use bf_tree::{
    BfTree, Config, ConfigError, LeafInsertResult, LeafReadResult, ScanReturnField,
    SnapshotResult, SnapshotRun, StepResult, WalConfig,
};

fn take(tree: &mut BfTree) -> Vec<u8> {
    match tree.cpr_snapshot() {
        SnapshotResult::Done(file) => file,
        _ => panic!("no snapshot"),
    }
}

fn dump(tree: &mut BfTree) -> Vec<(Vec<u8>, Vec<u8>)> {
    let mut out = vec![0u8; 8192];
    let mut all = Vec::new();
    let mut scan = tree
        .scan_with_count(b"", usize::MAX, ScanReturnField::KeyAndValue)
        .unwrap();
    while let Some((k, v)) = scan.next(&mut out) {
        all.push((out[..k].to_vec(), out[k..k + v].to_vec()));
    }
    all
}

fn key_of(worker: usize, r: usize, key_len: usize) -> Vec<u8> {
    let mut key = Vec::new();
    key.extend_from_slice(&worker.to_le_bytes());
    while key.len() < key_len {
        key.extend_from_slice(&r.to_le_bytes());
    }
    key
}

fn insert_record(tree: &mut BfTree, worker: usize, r: usize, key_len: usize) {
    let key = key_of(worker, r, key_len);
    match tree.insert(&key, &key) {
        LeafInsertResult::Success => {}
        _ => panic!("Insert failed"),
    }
}

fn verify_snapshot_recovery(
    snapshot_file: &[u8],
    num_workers: usize,
    key_len: usize,
    records_per_worker: &[usize],
    check_prefix: bool,
) -> Vec<usize> {
    let bftree = BfTree::new_from_cpr_snapshot(snapshot_file, false, None, None)
        .expect("fail to recover from snapshot");
    let mut captured = vec![0usize; num_workers];
    for i in 0..num_workers {
        let mut res_buffer = vec![0u8; key_len];
        let mut not_included = false;
        for r in 0..records_per_worker[i] {
            let key = key_of(i, r, key_len);
            match bftree.read(&key, &mut res_buffer) {
                LeafReadResult::Found(v) => {
                    assert!(!(check_prefix && not_included), "PREFIX VIOLATION");
                    assert_eq!(v as usize, key_len);
                    assert_eq!(res_buffer, key);
                    captured[i] += 1;
                }
                LeafReadResult::NotFound => not_included = true,
                _ => panic!("Unexpected read result"),
            }
        }
        assert!(captured[i] <= records_per_worker[i]);
    }
    captured
}

/// Writers take turns with the steps of the snapshots; what a snapshot holds is a
/// prefix of the inserts of each writer.
fn check_cpr_snapshots(config: Config, key_len: usize, snapshot_num: usize, lossless: bool) {
    let num_workers: usize = 4;
    let mut bftree = BfTree::with_config(config).unwrap();
    let mut rs = vec![0usize; num_workers];
    let mut write_some = |tree: &mut BfTree, rs: &mut Vec<usize>, n: usize| {
        for _ in 0..n {
            for i in 0..num_workers {
                insert_record(tree, i, rs[i], key_len);
                rs[i] += 1;
            }
        }
    };
    write_some(&mut bftree, &mut rs, 150);
    let mut file = Vec::new();
    for _ in 0..snapshot_num {
        let mut frozen = rs.clone();
        let mut run = SnapshotRun::start(&mut bftree).unwrap();
        assert!(matches!(bftree.cpr_snapshot(), SnapshotResult::Busy));
        let mut phase = 0;
        loop {
            write_some(&mut bftree, &mut rs, 7);
            match run.step(&mut bftree) {
                StepResult::Advanced => {
                    phase += 1;
                    if phase == 1 {
                        frozen = rs.clone();
                    }
                }
                StepResult::Done(bytes) => {
                    file = bytes;
                    break;
                }
                _ => panic!("no operation runs between the steps"),
            }
        }
        assert_eq!(phase, 3);
        let captured = verify_snapshot_recovery(&file, num_workers, key_len, &rs, lossless);
        if lossless {
            assert_eq!(captured, frozen);
        }
    }
    if lossless {
        assert_eq!(dump(&mut bftree).len(), num_workers * rs[0]);
    }
}

#[test]
fn cpr_snapshot_disk() {
    let min_record_size: usize = 64;
    let max_record_size: usize = 2408;
    let leaf_page_size: usize = 8192;
    let snapshot_num: usize = 10;

    let mut config = Config::new(128 * 1024); // 128KB buffer pool. insert/split/eviction all triggered
    config.cb_min_record_size = min_record_size + 2 * size_of::<usize>();
    config.cb_max_record_size = max_record_size;
    config.leaf_page_size = leaf_page_size;
    config.max_fence_len = min_record_size + 2 * size_of::<usize>();
    config.use_snapshot(true);

    let key_len: usize = min_record_size / 2 + size_of::<usize>();
    assert!(key_len * 2 <= max_record_size);
    check_cpr_snapshots(config, key_len, snapshot_num, true);
}

#[test]
fn cpr_snapshot_cache_only() {
    let min_record_size: usize = 64;
    let max_record_size: usize = 2408;
    let leaf_page_size: usize = 8192;

    let mut config = Config::default();
    config.cache_only = true;
    config.cb_size_byte(1024 * 1024 * 1024);
    config.cb_min_record_size = min_record_size;
    config.cb_max_record_size = max_record_size;
    config.leaf_page_size = leaf_page_size;
    config.max_fence_len = max_record_size;
    config.use_snapshot(true);

    let key_len: usize = min_record_size / 2 + size_of::<usize>();
    check_cpr_snapshots(config, key_len, 2, true);
}

#[test]
fn a_snapshot_of_a_lossy_cache_holds_no_more_than_the_cache() {
    let mut config = Config::default();
    config.cache_only = true;
    config.cb_size_byte(32 * 1024);
    config.use_snapshot(true);
    let mut tree = BfTree::with_config(config).unwrap();
    for r in 0..400usize {
        assert_eq!(
            tree.insert(&r.to_be_bytes(), &[r as u8; 900]),
            LeafInsertResult::Success
        );
    }
    let present = dump(&mut tree);
    assert!(present.len() < 400);
    let file = take(&mut tree);
    let mut back = BfTree::new_from_cpr_snapshot(&file, false, None, None).unwrap();
    assert_eq!(dump(&mut back), present);
}

/// A worker cannot commit to phase `x` after the manager has both advanced to
/// `x + 1` and satisfied itself that every thread is already there.
#[test]
fn phase_can_complete_while_a_reservation_is_still_in_the_old_phase() {
    for order in 0..4 {
        let mut tree = snapshot_tree();
        let mut mgr = CPRSnapShotMgr::new(0);
        std::mem::swap(&mut mgr, tree.snapshot_mgr.as_mut().unwrap());
        let old_state = tree.snapshot_mgr.as_ref().unwrap().global_state;
        let tid = tree.snapshot_mgr.as_mut().unwrap().claim_slot(5).unwrap();
        let mut confirmed = false;
        if order >= 1 {
            tree.snapshot_mgr.as_mut().unwrap().publish_state(tid, old_state);
        }
        if order >= 2 {
            confirmed = tree.snapshot_mgr.as_mut().unwrap().confirm_slot(tid);
            assert!(confirmed);
        }
        // The manager moves on.
        let _run = SnapshotRun::start(&mut tree).unwrap();
        let mgr = tree.snapshot_mgr.as_mut().unwrap();
        let new_state = mgr.global_state;
        assert_ne!(new_state, old_state);
        if order == 3 {
            mgr.release_thread_slot(tid);
        }
        let phase_completed = mgr.check_if_phase_completed(new_state);
        assert_eq!(phase_completed, order == 0 || order == 3);
        if order == 0 {
            mgr.publish_state(tid, old_state);
        }
        if order < 2 {
            // Too late: the slot is given back.
            assert!(!mgr.confirm_slot(tid));
        }
        assert!(!(phase_completed && confirmed && order != 3));
    }
}

/// A worker cannot reserve a slot after the manager has both flipped on pause
/// and satisfied itself that no thread is holding a slot.
#[test]
fn sweep_freeze_can_admit_a_reservation_after_declaring_the_tree_frozen() {
    let mut mgr = CPRSnapShotMgr::new(0);
    let state = mgr.global_state;
    let tid = mgr.claim_slot(0).unwrap();
    mgr.pause_snapshot = true;
    assert!(mgr.check_if_phase_completed(INVALID_SNAPSHOT_STATE));
    mgr.publish_state(tid, state);
    assert!(!mgr.confirm_slot(tid));
    assert!(mgr.reserve_thread_slot(0).is_err());

    mgr.pause_snapshot = false;
    let (tid, version, phase) = mgr.reserve_thread_slot(63).unwrap();
    assert_eq!((tid, version, phase), (63, 0, PhaseId::Rest));
    mgr.pause_snapshot = true;
    assert!(!mgr.check_if_phase_completed(INVALID_SNAPSHOT_STATE));
    mgr.release_thread_slot(tid);
    assert!(mgr.check_if_phase_completed(INVALID_SNAPSHOT_STATE));
}

fn snapshot_tree() -> BfTree {
    let mut config = Config::default();
    config.use_snapshot(true);
    BfTree::with_config(config).unwrap()
}

#[test]
fn a_snapshot_waits_for_operations_that_hold_a_slot() {
    let mut tree = snapshot_tree();
    assert_eq!(tree.insert(b"key1", b"one"), LeafInsertResult::Success);
    let guard = CPRSnapShotMgr::get_snapshot_guard(&mut tree.snapshot_mgr, 0).unwrap();
    assert!(guard.is_protected());
    assert_eq!(guard.snapshot_version(), 0);
    assert_eq!(guard.get_local_phase_id(), PhaseId::Rest);

    let mut run = SnapshotRun::start(&mut tree).unwrap();
    assert!(matches!(run.step(&mut tree), StepResult::Wait));
    assert_eq!(tree.insert(b"key2", b"two"), LeafInsertResult::Success);
    tree.snapshot_mgr
        .as_mut()
        .unwrap()
        .release_thread_slot(guard.thread_slot_id);
    assert!(matches!(run.step(&mut tree), StepResult::Advanced));
    assert_eq!(tree.insert(b"key3", b"three"), LeafInsertResult::Success);
    assert!(!tree.are_all_threads_in_next_snapshot_version());
    assert!(matches!(run.step(&mut tree), StepResult::Advanced));
    assert!(tree.are_all_threads_in_next_snapshot_version());

    // In the sweep, no operation may run.
    let (tid, version, phase) = tree
        .snapshot_mgr
        .as_mut()
        .unwrap()
        .reserve_thread_slot(9)
        .unwrap();
    assert_eq!((version, phase), (1, PhaseId::Sweep));
    assert!(matches!(run.step(&mut tree), StepResult::Wait));
    assert!(tree.snapshot_mgr.as_ref().unwrap().pause_snapshot);
    assert!(CPRSnapShotMgr::get_snapshot_guard(&mut tree.snapshot_mgr, 0).is_err());
    tree.snapshot_mgr.as_mut().unwrap().release_thread_slot(tid);
    assert!(matches!(run.step(&mut tree), StepResult::Advanced));
    assert!(!tree.snapshot_mgr.as_ref().unwrap().pause_snapshot);
    tree.delete(b"key1");
    let file = match run.step(&mut tree) {
        StepResult::Done(file) => file,
        _ => panic!("not done"),
    };
    assert!(!tree.are_all_threads_in_next_snapshot_version());

    let mut back = BfTree::new_from_cpr_snapshot(&file, true, None, None).unwrap();
    assert_eq!(
        dump(&mut back),
        [
            (b"key1".to_vec(), b"one".to_vec()),
            (b"key2".to_vec(), b"two".to_vec())
        ]
    );
    assert_eq!(
        dump(&mut tree),
        [
            (b"key2".to_vec(), b"two".to_vec()),
            (b"key3".to_vec(), b"three".to_vec())
        ]
    );
    // A tree that came back can be captured again.
    assert_eq!(back.insert(b"key4", b"four"), LeafInsertResult::Success);
    let again = take(&mut back);
    let mut third = BfTree::new_from_cpr_snapshot(&again, false, None, None).unwrap();
    assert_eq!(dump(&mut third).len(), 3);
}

#[test]
fn a_guard_without_a_coordinator_protects_nothing() {
    let mut none = None;
    let guard = CPRSnapshotGuard::new(&mut none, 0).unwrap();
    assert!(!guard.is_protected());
    assert_eq!(guard.get_local_phase_id(), PhaseId::Rest);
    assert_eq!(guard.snapshot_version(), 0x7fff_ffff_ffff_ffff);
}

#[test]
fn a_state_holds_phase_and_version() {
    assert_eq!(CPRSnapShotMgr::new_snapshot_state(0, 7), 7);
    assert_eq!(
        CPRSnapShotMgr::new_snapshot_state(3, 7),
        3 * 0x2000_0000_0000_0000 + 7
    );
    let mut mgr = CPRSnapShotMgr::new(41);
    assert!(!mgr.are_all_threads_in_next_version());
    let (tid, version, phase) = mgr.reserve_thread_slot(10).unwrap();
    assert_eq!((tid, version, phase), (10, 41, PhaseId::Rest));
    let second = mgr.reserve_thread_slot(10).unwrap();
    assert_eq!(second.0, 11);
}

#[test]
fn all_slots_taken_means_no_slot() {
    let mut mgr = CPRSnapShotMgr::new(0);
    for _ in 0..64 {
        assert!(mgr.reserve_thread_slot(17).is_ok());
    }
    assert!(mgr.reserve_thread_slot(17).is_err());
    mgr.release_thread_slot(3);
    assert_eq!(mgr.reserve_thread_slot(17).unwrap().0, 3);
}

#[test]
fn recovery_replays_write_ops_and_returns_the_tree() {
    let mut wal_config = WalConfig::new();
    wal_config.segment_size(512).flush_interval(1);

    let mut config = Config::new(64 * 1024);
    config
        .cache_only(true)
        .use_snapshot(true)
        .enable_write_ahead_log(wal_config);
    let mut tree = BfTree::with_config(config).unwrap();
    tree.insert(b"base", b"snapshot-value");
    let snapshot = take(&mut tree);
    tree.insert(b"key", b"replayed-value");
    tree.insert(b"gone", b"deleted-value");
    tree.delete(b"gone");
    let wal_file = tree.wal.unwrap().log_file;

    let recovered = BfTree::recovery(
        &snapshot,
        wal_file.clone(),
        false,
        None,
        Some((wal_config, wal_file)),
    )
    .unwrap();
    let mut output = [0; 64];
    assert_eq!(
        recovered.read(b"key", &mut output),
        LeafReadResult::Found(14)
    );
    assert_eq!(&output[..14], b"replayed-value");
    assert_eq!(
        recovered.read(b"gone", &mut output),
        LeafReadResult::Deleted
    );
    // The log goes on behind its four entries.
    assert_eq!(recovered.wal.unwrap().inner.next_lsn, 4);
}

#[test]
fn entries_that_are_no_operations_are_skipped() {
    let mut tree = snapshot_tree();
    tree.insert(b"base", b"value");
    let snapshot = take(&mut tree);
    let mut config = WalConfig::new();
    config.segment_size(512);
    let mut wal = bf_tree::WriteAheadLog::create(config);
    wal.append_and_wait(b"?", 0);
    wal.append_and_wait(
        &bf_tree::wal::operations::WriteOp::make_insert(b"more", b"value").to_bytes(),
        0,
    );
    let log = Some((config, Vec::new()));
    let mut back = BfTree::recovery(&snapshot, wal.log_file, false, None, log).unwrap();
    assert_eq!(dump(&mut back).len(), 2);
    // The file that the tree goes on with is not the one that was replayed.
    assert_eq!(back.wal.unwrap().inner.next_lsn, 0);
}

#[test]
fn a_log_that_begins_before_the_snapshot_is_replayed_to_the_same_end() {
    let mut config = WalConfig::new();
    config.segment_size(512);
    let mut tree_config = Config::new(1024 * 1024);
    tree_config.use_snapshot(true).enable_write_ahead_log(config);
    let mut tree = BfTree::with_config(tree_config).unwrap();
    tree.insert(b"first", b"old");
    tree.insert(b"second", b"value");
    tree.delete(b"second");
    tree.insert(b"first", b"new");
    let early = take(&mut tree);
    tree.insert(b"third", b"value");
    tree.delete(b"first");
    let late = take(&mut tree);
    let expected = dump(&mut tree);
    assert_eq!(expected, vec![(b"third".to_vec(), b"value".to_vec())]);
    let log_file = tree.wal.unwrap().log_file;
    for snapshot in [early, late] {
        let log = Some((config, log_file.clone()));
        let mut back =
            BfTree::recovery(&snapshot, log_file.clone(), false, None, log).unwrap();
        assert_eq!(dump(&mut back), expected);
        assert_eq!(back.wal.unwrap().inner.next_lsn, 6);
    }
}

#[test]
fn a_recovered_tree_takes_its_log_up_where_the_file_ends() {
    let mut tree = snapshot_tree();
    tree.insert(b"base", b"value");
    let snapshot = take(&mut tree);
    let mut config = WalConfig::new();
    config.segment_size(512);
    let mut wal = bf_tree::WriteAheadLog::create(config);
    wal.append_and_wait(b"entry", 0);
    let log = Some((config, wal.log_file.clone()));
    let back = BfTree::new_from_cpr_snapshot(&snapshot, false, None, log).unwrap();
    assert_eq!(back.wal.unwrap().inner.next_lsn, 1);
    config.storage_backend = bf_tree::StorageBackend::Memory;
    let log = Some((config, wal.log_file));
    let back = BfTree::new_from_cpr_snapshot(&snapshot, false, None, log).unwrap();
    let log = back.wal.unwrap();
    assert_eq!(log.inner.next_lsn, 0);
    assert!(log.log_file.is_empty());
}

#[test]
fn a_snapshot_needs_room_for_its_mini_pages() {
    let mut config = Config::new(1024 * 1024);
    config.use_snapshot(true);
    let mut tree = BfTree::with_config(config).unwrap();
    for r in 0..600usize {
        tree.insert(&r.to_be_bytes(), &[1; 100]);
    }
    let file = take(&mut tree);
    assert!(BfTree::new_from_cpr_snapshot(&file, false, None, None).is_ok());
    assert!(BfTree::new_from_cpr_snapshot(&file, false, Some(2 * 1024 * 1024), None).is_ok());
    assert!(matches!(
        BfTree::new_from_cpr_snapshot(&file, false, Some(4096), None),
        Err(ConfigError::CircularBufferSize)
    ));
}

#[test]
fn what_is_no_snapshot_is_rejected() {
    let mut tree = snapshot_tree();
    tree.insert(b"key1", b"value");
    let file = take(&mut tree);
    assert!(matches!(
        BfTree::new_from_cpr_snapshot(&[], false, None, None),
        Err(ConfigError::SnapshotFileInvalid)
    ));
    let mut longer = file.clone();
    longer.push(0);
    assert!(matches!(
        BfTree::new_from_cpr_snapshot(&longer, false, None, None),
        Err(ConfigError::SnapshotFileInvalid)
    ));
    let mut bad = file.clone();
    bad[0] = b'X';
    assert!(matches!(
        BfTree::new_from_cpr_snapshot(&bad, false, None, None),
        Err(ConfigError::SnapshotFileInvalid)
    ));
    assert_eq!(&file[..16], b"BF-TREE-V0-BEGIN");
    let meta = BfTreeMeta::from_bytes(&file).unwrap();
    assert_eq!(meta.file_size, file.len() as u64);
    assert_eq!(meta.leaf_page_num, 1);
    assert_eq!(meta.as_bytes(), file[..512].to_vec());
    assert!(matches!(
        BfTree::recovery(&bad, Vec::new(), false, None, None),
        Err(ConfigError::SnapshotFileInvalid)
    ));
    let mut flags = meta;
    flags.cache_only = true;
    flags.read_record_cache = true;
    flags.mini_page_binary_search = false;
    flags.write_load_full_page = true;
    let bytes = flags.as_bytes();
    assert_eq!((bytes[120], bytes[192], bytes[208], bytes[209]), (1, 1, 0, 1));
    assert_eq!(&bytes[210..224], b"BF-TREE-V0-END");
    assert_eq!(BfTreeMeta::from_bytes(&bytes), Some(flags));
    // Only the first byte of a flag counts.
    let mut padded = bytes.clone();
    padded[121] = 9;
    padded[199] = 9;
    assert_eq!(BfTreeMeta::from_bytes(&padded), Some(flags));
}

#[test]
fn sectors_are_filled_up() {
    assert_eq!(align_to_sector_size(0), 0);
    assert_eq!(align_to_sector_size(1), 512);
    assert_eq!(align_to_sector_size(512), 512);
    assert_eq!(align_to_sector_size(513), 1024);
}

#[test]
fn a_tree_comes_back_from_its_snapshot() {
    let mut config = Config::default();
    config.use_snapshot(true);
    let mut tree = BfTree::with_config(config).unwrap();
    tree.insert(b"key", b"value");
    assert!(!tree.are_all_threads_in_next_snapshot_version());
    let file = take(&mut tree);
    assert!(!tree.are_all_threads_in_next_snapshot_version());
    let tree = BfTree::new_from_cpr_snapshot(&file, true, None, None).unwrap();
    let mut buffer = [0u8; 1024];
    assert_eq!(tree.read(b"key", &mut buffer), LeafReadResult::Found(5));
    assert_eq!(&buffer[..5], b"value");
}

#[test]
fn the_header_of_a_snapshot_counts_pages_and_tells_where_the_lists_end() {
    let mut config = Config::new(1024 * 1024);
    config.use_snapshot(true);
    let mut tree = BfTree::with_config(config).unwrap();
    for r in 0..600usize {
        tree.insert(&r.to_be_bytes(), &[1; 100]);
    }
    let pages = tree.storage.page_table.peek_next_id();
    assert!(pages > 1);
    let file = take(&mut tree);
    let meta = BfTreeMeta::from_bytes(&file).unwrap();
    assert_eq!(meta.leaf_page_num, pages);
    assert_eq!(meta.base_size, 16 * pages);
    assert_eq!(
        meta.file_size,
        meta.base_offset + align_to_sector_size(meta.base_size as usize) as u64
    );
    let base = read_vec_from_offset::<(u64, u64)>(&file, meta.base_offset, meta.base_size).unwrap();
    let ids: Vec<u64> = base.iter().map(|e| e.0).collect();
    assert_eq!(ids, (0..pages).collect::<Vec<u64>>());
    assert!(read_vec_from_offset::<(u64, u64)>(&file, meta.base_offset, 8).is_none());
    assert!(read_vec_from_offset::<(u64, u64)>(&file, meta.file_size, 16).is_none());

    // Without a disk all pages are counted, and evicted ones are listed as well.
    let mut config = Config::default();
    config.cache_only = true;
    config.cb_size_byte(32 * 1024);
    config.use_snapshot(true);
    let mut tree = BfTree::with_config(config).unwrap();
    for r in 0..400usize {
        tree.insert(&r.to_be_bytes(), &[r as u8; 900]);
    }
    let pages = tree.storage.page_table.peek_next_id();
    let file = take(&mut tree);
    let meta = BfTreeMeta::from_bytes(&file).unwrap();
    assert_eq!(meta.leaf_page_num, pages);
    assert_eq!((meta.base_offset, meta.base_size), (0, 0));
    assert_eq!(
        meta.file_size,
        meta.mini_size_offset + align_to_sector_size(meta.mini_size_size as usize) as u64
    );
    let mini = read_vec_from_offset::<(u64, u64)>(&file, meta.mini_offset, meta.mini_size).unwrap();
    let sizes = read_vec_from_offset::<(u64, u64)>(&file, meta.mini_size_offset, meta.mini_size_size).unwrap();
    let ids: Vec<u64> = mini.iter().map(|e| e.0).collect();
    assert_eq!(ids, (0..pages).collect::<Vec<u64>>());
    assert!(mini.iter().any(|e| e.1 == u64::MAX));
    for (place, size) in mini.iter().zip(&sizes) {
        assert_eq!(place.0, size.0);
        assert_eq!(place.1 == u64::MAX, size.1 == 0);
    }
}

#[test]
fn the_first_place_of_a_page_counts() {
    let id = PageID::from_id;
    let local = vec![
        vec![(id(3), 4096)],
        vec![(id(1), 8192), (id(3), 12288), (id(1), 16384)],
        Vec::new(),
    ];
    let swept = vec![(id(0), 20480), (id(1), 24576), (id(0), 28672)];
    let table = first_places(&local, &swept, 0, 5);
    assert_eq!(
        table,
        vec![Some(20480), Some(8192), None, Some(4096), None]
    );
    assert_eq!(
        table_list(&table, 0),
        vec![(0, 20480), (1, 8192), (3, 4096)]
    );
}

#[test]
fn a_sweep_lists_exactly_the_pages_of_the_old_version() {
    let mut config = Config::new(1024 * 1024);
    config.use_snapshot(true);
    let mut tree = BfTree::with_config(config).unwrap();
    for r in 0..600usize {
        tree.insert(&r.to_be_bytes(), &[1; 100]);
    }
    let mut run = SnapshotRun::start(&mut tree).unwrap();
    assert!(matches!(run.step(&mut tree), StepResult::Advanced));
    // Written in the new version: captured by the operation itself.
    tree.insert(&0usize.to_be_bytes(), &[2; 100]);
    assert!(matches!(run.step(&mut tree), StepResult::Advanced));
    let pages = tree.storage.page_table.peek_next_id();
    let old: Vec<u64> = (0..pages)
        .filter(|pid| tree.storage.page_table.get(*pid).version() < 1)
        .collect();
    assert!(old.len() < pages as usize);
    let nodes: Vec<u64> = (0..tree.inners.len())
        .filter(|i| tree.inners[*i].get_clean_snapshot_version() < 1)
        .map(|i| PageID::from_pointer(i).raw)
        .collect();
    assert!(matches!(run.step(&mut tree), StepResult::Advanced));
    let ids = |l: &Vec<(PageID, usize)>| l.iter().map(|e| e.0.raw).collect::<Vec<u64>>();
    assert_eq!(ids(&run.lists.base), old);
    assert_eq!(ids(&run.lists.inner), nodes);
    assert_eq!(ids(&run.lists.mini), ids(&run.lists.mini_size));
    assert_eq!(run.leaf_count as u64, pages);
    assert!(matches!(run.step(&mut tree), StepResult::Done(_)));
}

#[test]
fn a_scan_that_may_write_marks_the_pages_of_its_records() {
    let mut config = Config::new(1024 * 1024);
    config.use_snapshot(true);
    config.scan_promotion_rate(0);
    let mut tree = BfTree::with_config(config).unwrap();
    for r in 0..600usize {
        tree.insert(&r.to_be_bytes(), &[1; 100]);
    }
    let file = take(&mut tree);
    let mut back = BfTree::new_from_cpr_snapshot(&file, true, None, None).unwrap();
    let _again = take(&mut back);
    assert!(back.storage.page_table.get(0).version() < 1);
    let mut out = [0u8; 2048];
    {
        let mut scan = back
            .scan_mut_with_count(&0usize.to_be_bytes(), 1, ScanReturnField::Key)
            .unwrap();
        assert_eq!(scan.next(&mut out), Some((8, 0)));
    }
    assert_eq!(back.storage.page_table.get(0).version(), 1);
}

#[test]
fn errors_have_words() {
    assert_eq!(
        ConfigError::CircularBufferSize.message(),
        "buffer size set too small. Consider increasing it or not specifying at all"
    );
    assert_eq!(
        ConfigError::SnapshotFileInvalid.message(),
        "not a snapshot file"
    );
}

#[test]
fn each_workers_inserts_are_captured_as_a_prefix() {
    let mut config = Config::new(1024 * 1024);
    config.use_snapshot(true);
    let mut tree = BfTree::with_config(config).unwrap();
    let mut inserted = [0usize; 3];
    for r in 0..40 {
        for worker in 0..3 {
            if r % (worker + 1) == 0 {
                insert_record(&mut tree, worker, inserted[worker], 16);
                inserted[worker] += 1;
            }
        }
    }
    let before = inserted;
    let mut run = SnapshotRun::start(&mut tree).unwrap();
    let mut frozen = before;
    let file = loop {
        // A worker gets on between any two steps.
        for worker in 0..3 {
            insert_record(&mut tree, worker, inserted[worker], 16);
            inserted[worker] += 1;
        }
        if frozen == before {
            frozen = inserted;
        }
        match run.step(&mut tree) {
            StepResult::Done(file) => break file,
            StepResult::TooLarge => panic!("no room"),
            _ => {}
        }
    };
    let captured = verify_snapshot_recovery(&file, 3, 16, &inserted, true);
    assert_eq!(captured, frozen);
    assert_ne!(captured, inserted.to_vec());
}
