use bf_tree::{BfTree, Config, LeafInsertResult, ScanIterError, ScanReturnField};
use std::mem::size_of;

/// Fills the buffer with `id`, over and over, and returns it as bytes.
fn install_value_to_buffer(buffer: &mut Vec<u8>, id: usize) -> &[u8] {
    for chunk in buffer.chunks_exact_mut(size_of::<usize>()) {
        chunk.copy_from_slice(&id.to_le_bytes());
    }
    buffer.as_slice()
}

fn insert_all(tree: &mut BfTree, key_len: usize, value_len: usize, total: usize) {
    let mut key_buffer = vec![0u8; key_len];
    let mut value_buffer = vec![0u8; value_len];
    for i in 0..total {
        let key = install_value_to_buffer(&mut key_buffer, i);
        let value = install_value_to_buffer(&mut value_buffer, i);
        if tree.insert(key, value) != LeafInsertResult::Success {
            panic!("Insert failed");
        }
    }
}

fn cache_only_tree(cb_size_byte: Option<usize>) -> BfTree {
    let mut config = Config::default();
    config.cache_only(true);
    if let Some(size) = cb_size_byte {
        config.cb_size_byte(size);
    }
    BfTree::with_config(config).expect("Failed to create cache-only BfTree")
}

fn check_scan_with_count(mut tree: BfTree) {
    // Insert 1000 consecutive keys
    let key_len: usize = tree.config.max_fence_len / 2;
    let mut key_buffer = vec![0u8; key_len];
    let value_len: usize = 1024; // 1KB long values
    insert_all(&mut tree, key_len, value_len, 1_000);

    // Scan with invalid count
    let start_key = install_value_to_buffer(&mut key_buffer, 0);
    match tree.scan_with_count(start_key, 0, ScanReturnField::Value) {
        Err(e) => assert_eq!(e, ScanIterError::InvalidCount),
        _ => panic!("Should not succeed"),
    }

    // Scan 100 at a time for 9 times
    let mut output_buffer = vec![0u8; key_len + value_len];
    let mut prev_key = vec![0u8; key_len];
    for _ in 0..9 {
        let start_key = prev_key.clone();
        let mut scan_iter = tree
            .scan_with_count(&start_key, 101, ScanReturnField::KeyAndValue)
            .expect("Scan failed");

        let mut cnt = 0;
        while let Some((kl, vl)) = scan_iter.next(&mut output_buffer) {
            let scanned_key = &output_buffer[0..kl];
            assert!(kl == key_len);

            if cnt != 0 {
                let cmp_res = scanned_key.cmp(&prev_key);
                if cmp_res == std::cmp::Ordering::Less {
                    panic!("Keys are not in order");
                }
                assert_eq!(cmp_res, std::cmp::Ordering::Greater);
            }

            prev_key[..kl].copy_from_slice(scanned_key);

            assert!(vl == value_len);
            cnt += 1;
        }
        assert!(cnt == 101);
    }

    // Scan 120 for the last 100 keys
    let start_key = prev_key.clone();
    let mut scan_iter = tree
        .scan_with_count(&start_key, 120, ScanReturnField::Key)
        .expect("Scan failed");
    let mut cnt = 0;

    while let Some((kl, vl)) = scan_iter.next(&mut output_buffer) {
        let scanned_key = &output_buffer[0..kl];
        assert!(kl == key_len);

        if cnt != 0 {
            let cmp_res = scanned_key.cmp(&prev_key);
            assert_eq!(cmp_res, std::cmp::Ordering::Greater);
        }
        prev_key[..kl].copy_from_slice(scanned_key);
        assert!(vl == 0);
        cnt += 1;
    }
    assert!(cnt == 100);
}

fn check_scan_with_end_key(mut tree: BfTree) {
    // Insert 1000 consecutive keys
    let key_len: usize = tree.config.max_fence_len / 2;
    let mut key_buffer = vec![0u8; key_len];
    let value_len: usize = 1024; // 1KB long values
    insert_all(&mut tree, key_len, value_len, 1_000);

    // Scan with invalid keys
    let start_key = install_value_to_buffer(&mut key_buffer, 1).to_vec();
    let mut invalid_key_buffer = vec![0u8; key_len + size_of::<usize>()];
    let invalid_key = install_value_to_buffer(&mut invalid_key_buffer, 1).to_vec();

    match tree.scan_with_end_key(&start_key, &invalid_key, ScanReturnField::Value) {
        Err(e) => assert_eq!(e, ScanIterError::InvalidEndKey),
        _ => panic!("Should not succeed"),
    }

    let invalid_key = install_value_to_buffer(&mut invalid_key_buffer, 0).to_vec();
    match tree.scan_with_end_key(&invalid_key, &start_key, ScanReturnField::Value) {
        Err(e) => assert_eq!(e, ScanIterError::InvalidStartKey),
        _ => panic!("Should not succeed"),
    }

    let mut end_key_buffer = vec![0u8; key_len];
    let end_key = install_value_to_buffer(&mut end_key_buffer, 0).to_vec();
    match tree.scan_with_end_key(&start_key, &end_key, ScanReturnField::Value) {
        Err(e) => assert_eq!(e, ScanIterError::InvalidKeyRange),
        _ => panic!("Should not succeed"),
    }

    let start_key = install_value_to_buffer(&mut key_buffer, 0).to_vec();
    let end_key = install_value_to_buffer(&mut end_key_buffer, 777).to_vec();

    let mut scan_iter = tree
        .scan_with_end_key(&start_key, &end_key, ScanReturnField::Key)
        .expect("Scan failed");
    let mut output_buffer = vec![0u8; key_len];
    let mut prev_key = vec![0u8; key_len];
    let mut cnt = 0;

    while let Some((kl, vl)) = scan_iter.next(&mut output_buffer) {
        let scanned_key = &output_buffer[0..kl];
        assert!(kl == key_len);

        if cnt != 0 {
            let cmp_res = scanned_key.cmp(&prev_key);
            assert_eq!(cmp_res, std::cmp::Ordering::Greater);
        }
        prev_key[..kl].copy_from_slice(scanned_key);

        let cmp_res = scanned_key.cmp(&end_key);
        assert!(cmp_res == std::cmp::Ordering::Less || cmp_res == std::cmp::Ordering::Equal);

        assert!(vl == 0);
        cnt += 1;
    }

    let cmp_res = prev_key.cmp(&end_key);
    assert!(cmp_res == std::cmp::Ordering::Equal);
    assert!(cnt == 40);
}

#[test]
fn test_scan_with_count() {
    check_scan_with_count(BfTree::default());
}

#[test]
fn test_scan_with_end_key() {
    check_scan_with_end_key(BfTree::default());
}

#[test]
fn test_scan_skips_many_deleted_records_with_bounded_stack() {
    const DELETED_RECORD_COUNT: u64 = 10_000;

    let mut tree = BfTree::default();

    for id in 0..=DELETED_RECORD_COUNT {
        assert_eq!(
            tree.insert(&id.to_be_bytes(), &[0]),
            LeafInsertResult::Success
        );
    }

    for id in 0..DELETED_RECORD_COUNT {
        tree.delete(&id.to_be_bytes());
    }

    let start_key = 0u64.to_be_bytes();
    let expected_key = DELETED_RECORD_COUNT.to_be_bytes();
    let mut output_buffer = [0u8; size_of::<u64>()];

    {
        let mut scan_iter = tree
            .scan_with_count(&start_key, 1, ScanReturnField::Key)
            .expect("Scan failed");
        let (key_len, value_len) = scan_iter
            .next(&mut output_buffer)
            .expect("Expected the live record after the deleted range");
        assert_eq!(key_len, expected_key.len());
        assert_eq!(value_len, 0);
        assert_eq!(output_buffer, expected_key);
        assert!(scan_iter.next(&mut output_buffer).is_none());
    }

    let mut scan_iter = tree
        .scan_mut_with_count(&start_key, 1, ScanReturnField::Key)
        .expect("Mutable scan failed");
    let (key_len, value_len) = scan_iter
        .next(&mut output_buffer)
        .expect("Expected the live record after the deleted range");
    assert_eq!(key_len, expected_key.len());
    assert_eq!(value_len, 0);
    assert_eq!(output_buffer, expected_key);
    assert!(scan_iter.next(&mut output_buffer).is_none());
}

#[test]
fn test_scan_with_count_cache_only() {
    let tree = cache_only_tree(None);
    assert!(tree.cache_only);
    check_scan_with_count(tree);
}

#[test]
fn test_scan_with_end_key_cache_only() {
    let tree = cache_only_tree(None);
    assert!(tree.cache_only);
    check_scan_with_end_key(tree);
}

#[test]
fn test_scan_mut_disallowed_in_cache_only() {
    let mut tree = cache_only_tree(None);
    assert!(tree.cache_only);

    let key_len: usize = tree.config.max_fence_len / 2;
    let mut key_buffer = vec![0u8; key_len];
    let start_key = install_value_to_buffer(&mut key_buffer, 0);

    let mut end_key_buffer = vec![0u8; key_len];
    let end_key = install_value_to_buffer(&mut end_key_buffer, 1);

    let r = tree.scan_mut_with_count(start_key, 10, ScanReturnField::Value);
    match r {
        Err(e) => assert_eq!(e, ScanIterError::CacheOnlyMode),
        _ => panic!("scan_mut_with_count should be disallowed in cache-only mode"),
    }

    let r = tree.scan_mut_with_end_key(start_key, end_key, ScanReturnField::Value);
    match r {
        Err(e) => assert_eq!(e, ScanIterError::CacheOnlyMode),
        _ => panic!("scan_mut_with_end_key should be disallowed in cache-only mode"),
    }
}

/// A small circular buffer (32 KiB cache, 4 KiB leaf pages -> only a
/// handful of leaves fit) so that inserting the test workload forces
/// evictions (Null pages) during scan.
const SMALL_CB_SIZE: usize = 32 * 1024;

#[test]
fn test_scan_with_count_cache_only_lossy() {
    let mut tree = cache_only_tree(Some(SMALL_CB_SIZE));
    assert!(tree.cache_only);

    let key_len: usize = tree.config.max_fence_len / 2;
    let mut key_buffer = vec![0u8; key_len];

    // Use ~1 KiB values so the workload (10K records ~ 10 MiB) is
    // dramatically larger than the 32 KiB circular buffer; evictions
    // are guaranteed.
    let value_len: usize = 1024;
    let total: usize = 10_000;
    insert_all(&mut tree, key_len, value_len, total);

    // Scan everything from the smallest key.
    let start_key = install_value_to_buffer(&mut key_buffer, 0);
    let mut scan_iter = tree
        .scan_with_count(start_key, usize::MAX, ScanReturnField::Key)
        .expect("Scan failed");

    let mut output_buffer = vec![0u8; key_len + value_len];
    let mut prev_key = vec![0u8; key_len];
    let mut cnt: usize = 0;
    while let Some((kl, vl)) = scan_iter.next(&mut output_buffer) {
        assert_eq!(kl, key_len);
        assert_eq!(vl, 0); // ScanReturnField::Key

        let scanned_key = &output_buffer[0..kl];
        if cnt != 0 {
            let cmp_res = scanned_key.cmp(&prev_key);
            assert_eq!(
                cmp_res,
                std::cmp::Ordering::Greater,
                "scan must produce strictly increasing keys"
            );
        }
        prev_key[..kl].copy_from_slice(scanned_key);
        cnt += 1;
    }

    // Some pages were evicted, so we should get strictly fewer than total.
    assert!(
        cnt < total,
        "expected evictions to drop some keys, got cnt={} total={}",
        cnt,
        total
    );
    // But the remaining cached data should still produce a non-trivial scan.
    assert!(cnt > 0, "scan returned no records");
}

#[test]
fn test_scan_with_end_key_cache_only_lossy() {
    let mut tree = cache_only_tree(Some(SMALL_CB_SIZE));
    assert!(tree.cache_only);

    let key_len: usize = tree.config.max_fence_len / 2;
    let mut key_buffer = vec![0u8; key_len];

    let value_len: usize = 1024;
    let total: usize = 5_000;
    insert_all(&mut tree, key_len, value_len, total);

    // Bounded range scan; bound is well within the inserted key space.
    let start_key = install_value_to_buffer(&mut key_buffer, 0);
    let mut end_key_buffer = vec![0u8; key_len];
    let end_key_idx: usize = 2_000;
    let end_key = install_value_to_buffer(&mut end_key_buffer, end_key_idx);

    let mut scan_iter = tree
        .scan_with_end_key(start_key, end_key, ScanReturnField::Key)
        .expect("Scan failed");

    let mut output_buffer = vec![0u8; key_len];
    let mut prev_key = vec![0u8; key_len];
    let mut cnt: usize = 0;
    while let Some((kl, vl)) = scan_iter.next(&mut output_buffer) {
        assert_eq!(kl, key_len);
        assert_eq!(vl, 0);

        let scanned_key = &output_buffer[0..kl];
        if cnt != 0 {
            let cmp_res = scanned_key.cmp(&prev_key);
            assert_eq!(cmp_res, std::cmp::Ordering::Greater);
        }
        prev_key[..kl].copy_from_slice(scanned_key);

        // Every scanned key must be <= end_key.
        let cmp_res = scanned_key.cmp(end_key);
        assert!(cmp_res == std::cmp::Ordering::Less || cmp_res == std::cmp::Ordering::Equal);

        cnt += 1;
    }

    // Even with eviction we expect at least some keys, and we should
    // never see more than the bound implies.
    assert!(
        cnt <= end_key_idx + 1,
        "scan returned more keys ({}) than the upper bound ({})",
        cnt,
        end_key_idx + 1
    );
}

#[test]
fn test_scan_with_value_cache_only_lossy() {
    // Verifies that scanned (key, value) pairs are self-consistent (the
    // returned value matches the encoding of the returned key) even when
    // pages are being evicted, and that scan tolerates Null pages.
    let mut tree = cache_only_tree(Some(SMALL_CB_SIZE));
    assert!(tree.cache_only);

    let key_len: usize = tree.config.max_fence_len / 2;
    let mut key_buffer = vec![0u8; key_len];

    let value_len: usize = 1024;
    let total: usize = 8_000;
    insert_all(&mut tree, key_len, value_len, total);

    let start_key = install_value_to_buffer(&mut key_buffer, 0);
    let mut scan_iter = tree
        .scan_with_count(start_key, usize::MAX, ScanReturnField::KeyAndValue)
        .expect("Scan failed");

    let mut output_buffer = vec![0u8; key_len + value_len];
    let mut prev_key = vec![0u8; key_len];
    let mut cnt: usize = 0;

    while let Some((kl, vl)) = scan_iter.next(&mut output_buffer) {
        assert_eq!(kl, key_len);
        assert_eq!(vl, value_len);

        let scanned_key = &output_buffer[0..kl];
        let scanned_value = &output_buffer[kl..kl + vl];

        if cnt != 0 {
            assert_eq!(scanned_key.cmp(&prev_key), std::cmp::Ordering::Greater);
        }
        prev_key[..kl].copy_from_slice(scanned_key);

        // Key and value repeat the same word, so the value starts with the key.
        assert_eq!(
            &scanned_value[..key_len],
            scanned_key,
            "scanned value prefix does not match key (key/value out of sync)"
        );
        // The value is also a repetition of the same word: verify every
        // chunk of `key_len` bytes within the value matches the key.
        for chunk in scanned_value.chunks_exact(key_len) {
            assert_eq!(chunk, scanned_key, "value is not a repetition of key");
        }

        cnt += 1;
    }

    assert!(cnt > 0, "scan returned no records");
    assert!(
        cnt < total,
        "expected evictions to drop some keys, got cnt={} total={}",
        cnt,
        total
    );
}

#[test]
fn a_count_limits_a_scan_and_an_end_key_is_included() {
    let mut tree = BfTree::default();
    for key in [b"aaaa", b"bbbb", b"cccc", b"dddd"] {
        assert_eq!(tree.insert(key, b"v"), LeafInsertResult::Success);
    }
    tree.delete(b"bbbb");
    let mut out = [0u8; 8];
    {
        let mut scan = tree
            .scan_with_count(b"aaaa", 2, ScanReturnField::KeyAndValue)
            .unwrap();
        assert_eq!(scan.next(&mut out), Some((4, 1)));
        assert_eq!(&out[..5], b"aaaav");
        assert_eq!(scan.next(&mut out), Some((4, 1)));
        assert_eq!(&out[..5], b"ccccv");
        assert_eq!(scan.next(&mut out), None);
    }
    {
        let mut scan = tree
            .scan_with_end_key(b"b", b"dddd", ScanReturnField::Value)
            .unwrap();
        assert_eq!(scan.next(&mut out), Some((0, 1)));
        assert_eq!(scan.next(&mut out), Some((0, 1)));
        assert_eq!(scan.next(&mut out), None);
    }
    let mut scan = tree
        .scan_mut_with_end_key(b"a", b"cccc", ScanReturnField::Key)
        .unwrap();
    assert_eq!(scan.next(&mut out), Some((4, 0)));
    assert_eq!(&out[..4], b"aaaa");
    assert_eq!(scan.next(&mut out), Some((4, 0)));
    assert_eq!(&out[..4], b"cccc");
    assert_eq!(scan.next(&mut out), None);
}

#[test]
fn a_buffer_has_to_hold_the_records_that_a_scan_gives_and_no_others() {
    let mut tree = BfTree::default();
    assert_eq!(tree.insert(b"aaaa", b"12345678"), LeafInsertResult::Success);
    assert_eq!(tree.insert(b"zzzz", &[7; 100]), LeafInsertResult::Success);
    let mut out = [0u8; 8];
    let mut scan = tree
        .scan_with_end_key(b"aaaa", b"bbbb", ScanReturnField::Value)
        .unwrap();
    assert_eq!(scan.next(&mut out), Some((0, 8)));
    assert_eq!(&out, b"12345678");
    assert_eq!(scan.next(&mut out), None);
    drop(scan);
    let mut scan = tree
        .scan_mut_with_count(b"aaaa", 1, ScanReturnField::Value)
        .unwrap();
    assert_eq!(scan.next(&mut out), Some((0, 8)));
    // The count is used up, so the next record is not looked at.
    assert_eq!(scan.next(&mut []), None);
}

#[test]
fn a_cache_of_a_given_size_holds_fewer_records_than_were_put_in() {
    let mut tree = cache_only_tree(Some(SMALL_CB_SIZE));
    let key_len: usize = tree.config.max_fence_len / 2;
    let total: usize = 200;
    insert_all(&mut tree, key_len, 1024, total);
    let mut out = vec![0u8; key_len + 1024];
    let mut scan = tree
        .scan_with_count(&[], usize::MAX, ScanReturnField::KeyAndValue)
        .unwrap();
    let mut count: usize = 0;
    while scan.next(&mut out).is_some() {
        count += 1;
    }
    assert!(count > 0 && count < total);
    assert!(count * (key_len + 1024 + 8) <= SMALL_CB_SIZE);
}
