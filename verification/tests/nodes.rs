use std::collections::{BTreeMap, HashMap};

use bf_tree::nodes::inner_node::{InnerNode, INNER_NODE_SIZE};
use bf_tree::nodes::leaf_node::{lower_bound, LeafNode, LeafReadResult, NO_NEXT_LEVEL};
use bf_tree::nodes::{OpType, PageID};
use bf_tree::utils::inner_lock::{is_locked, ReadGuard, WriteGuard};

const NO_VERSION: u64 = 0x7fff_ffff_ffff_ffff;

fn make_inner_node() -> InnerNode {
    InnerNode::with_left_most(PageID::from_id(0), true, 0, NO_VERSION)
}

/// A small generator of pseudo-random numbers.
struct Numbers(u64);

impl Numbers {
    fn below(&mut self, n: u64) -> u64 {
        self.0 = self
            .0
            .wrapping_mul(6364136223846793005)
            .wrapping_add(1442695040888963407);
        (self.0 >> 33) % n
    }

    fn bytes(&mut self, from: u64, to: u64) -> Vec<u8> {
        let n = from + self.below(to - from);
        (0..n).map(|_| self.below(256) as u8).collect()
    }
}

#[test]
fn test_inner_insert_read() {
    let mut numbers = Numbers(7);
    for _ in 0..1000 {
        let mut model = HashMap::<Vec<u8>, PageID>::new();
        let mut inner = make_inner_node();
        for _ in 0..1 + numbers.below(49) {
            let k = numbers.bytes(1, 30);
            let id = PageID::from_id(numbers.below(1 << 30));
            if numbers.below(2) == 0 {
                assert!(inner.insert(&k, id));
                model.insert(k, id);
            } else {
                let pos = inner.lower_bound(&k);
                match model.get(&k) {
                    Some(v) => {
                        assert_eq!(inner.get_full_key(pos), k);
                        assert_eq!(inner.get_value(pos), *v);
                    }
                    None => assert_ne!(inner.get_full_key(pos), k),
                }
            }
        }
        for (k, v) in &model {
            let pos = inner.lower_bound(k);
            assert_eq!(&inner.get_full_key(pos), k);
            assert_eq!(inner.get_value(pos), *v);
        }
        inner.consolidate(NO_VERSION);
        assert_eq!(inner.keys.len(), model.len());
    }
}

#[test]
fn test_inner_lower_bound_with_same_prefix() {
    let mut inner = make_inner_node();

    assert!(inner.insert(b"bbbb", PageID::from_id(1)));
    assert!(inner.insert(b"test", PageID::from_id(2)));
    assert!(inner.insert(b"teste", PageID::from_id(3)));

    let pos = inner.lower_bound(b"teste");
    assert_eq!(inner.get_full_key(pos), b"teste");
    assert_eq!(inner.get_value(pos), PageID::from_id(3));

    let pos = inner.lower_bound(b"test");
    assert_eq!(inner.get_full_key(pos), b"test");
    assert_eq!(inner.get_value(pos), PageID::from_id(2));

    let pos = inner.lower_bound(b"aaaa");
    assert_eq!(pos, 0);

    let pos = inner.lower_bound(b"testz");
    assert_eq!(inner.get_full_key(pos), b"teste");
    assert_eq!(inner.get_value(pos), PageID::from_id(3));
}

fn assert_inner_records(inner: &InnerNode, model: &BTreeMap<Vec<u8>, PageID>, left_most: PageID) {
    assert_eq!(inner.keys.len(), model.len());
    assert_eq!(inner.get_value(0), left_most);
    for (index, (key, value)) in model.iter().enumerate() {
        assert_eq!(inner.get_full_key(index + 1), *key);
        assert_eq!(inner.get_value(index + 1), *value);
        assert_eq!(inner.lower_bound(key), index + 1);
    }
}

#[test]
fn test_inner_update_full_node_and_reject_oversized_keys() {
    let mut inner = make_inner_node();
    let mut model = BTreeMap::new();
    for value in 0u32.. {
        let key = value.to_be_bytes();
        let child = PageID::from_id(value as u64);
        if !inner.insert(&key, child) {
            break;
        }
        model.insert(key.to_vec(), child);
    }
    let size = inner.separators_size();
    assert!(!inner.have_space_for(&0u32.to_be_bytes()));
    let replacement = PageID::from_id(100_000);
    assert!(inner.insert(&0u32.to_be_bytes(), replacement));
    model.insert(0u32.to_be_bytes().to_vec(), replacement);
    assert_eq!(inner.separators_size(), size);

    for len in [u16::MAX as usize, 1 << 16, (1 << 16) + 4, 1 << 17] {
        let key = vec![0xff; len];
        assert!(!inner.have_space_for(&key));
        assert!(!inner.insert(&key, PageID::from_id(99)));
        assert_eq!(inner.separators_size(), size);
    }
    assert_inner_records(&inner, &model, PageID::from_id(0));
}

#[test]
fn test_inner_oversized_keys_cannot_wrap_capacity_on_empty_node() {
    let mut inner = make_inner_node();
    let size = inner.separators_size();
    for len in [u16::MAX as usize - 12, u16::MAX as usize, 1 << 16, 1 << 17] {
        let key = vec![0; len];
        assert!(!inner.have_space_for(&key));
        assert!(!inner.insert(&key, PageID::from_id(1)));
        assert_eq!(inner.separators_size(), size);
        assert_eq!(inner.children.len(), 1);
    }
}

#[test]
fn test_inner_consolidate_and_split_binary_keys() {
    let keys: &[&[u8]] = &[
        b"",
        b"\0",
        b"\0\0",
        b"a",
        b"abc",
        b"abcd",
        b"abcde",
        b"same",
        b"same\0",
        b"same\0\xff",
        b"same\xfflonger suffix",
        b"\xff\xff\xff\xff\0",
    ];
    let mut inner = make_inner_node();
    let mut model = BTreeMap::new();
    for (value, key) in keys.iter().rev().enumerate() {
        let child = PageID::from_id(value as u64 + 1);
        assert!(inner.insert(key, child));
        model.insert(key.to_vec(), child);
    }
    inner.set_root(true);
    let size = inner.separators_size();
    inner.consolidate(17);
    assert_inner_records(&inner, &model, PageID::from_id(0));
    assert_eq!(inner.separators_size(), size);

    let (split_key, sibling) = inner.split(18);
    let mut right = model.split_off(&split_key);
    let promoted_child = right.remove(&split_key).unwrap();
    assert_inner_records(&inner, &model, PageID::from_id(0));
    assert_inner_records(&sibling, &right, promoted_child);
    assert!(inner.is_root());
    assert_eq!(inner.get_clean_snapshot_version(), 18);
    assert!(!sibling.is_root());
    assert!(inner.insert(&split_key, promoted_child));
    model.insert(split_key, promoted_child);
    inner.consolidate(19);
    assert_inner_records(&inner, &model, PageID::from_id(0));
}

#[test]
fn test_inner_binary_keys_consolidate_and_split() {
    let mut numbers = Numbers(41);
    for _ in 0..256 {
        let mut inner = make_inner_node();
        let mut model = BTreeMap::new();
        for value in 0..numbers.below(90) {
            let key = match numbers.below(3) {
                0 => numbers.bytes(0, 24),
                1 => [b"same".as_slice(), numbers.bytes(0, 20).as_slice()].concat(),
                _ => vec![0; numbers.below(8) as usize],
            };
            let child = PageID::from_id(value + 1);
            assert!(inner.insert(&key, child));
            model.insert(key, child);
        }
        assert_inner_records(&inner, &model, PageID::from_id(0));
        let size = inner.separators_size();
        inner.set_root(true);
        inner.consolidate(17);
        assert_inner_records(&inner, &model, PageID::from_id(0));
        assert_eq!(inner.separators_size(), size);
        assert_eq!(inner.get_clean_snapshot_version(), 17);
        assert!(inner.is_root());
        assert!(inner.leaf_children);
        assert_eq!(inner.disk_offset, 0);

        for _ in 0..numbers.below(40) {
            let query = numbers.bytes(0, 28);
            let expected = model.keys().take_while(|key| **key <= query).count();
            assert_eq!(inner.lower_bound(&query), expected);
        }

        if model.len() >= 3 {
            let (split_key, sibling) = inner.split(18);
            let mut right = model.split_off(&split_key);
            let promoted_child = right.remove(&split_key).unwrap();
            assert_inner_records(&inner, &model, PageID::from_id(0));
            assert_inner_records(&sibling, &right, promoted_child);
            assert_eq!(inner.get_clean_snapshot_version(), 18);
            assert_eq!(sibling.get_clean_snapshot_version(), 18);
            assert!(inner.is_root());
            assert!(!sibling.is_root());
            assert!(sibling.leaf_children);
            // The room that the split gave back can be used.
            assert!(inner.insert(&split_key, promoted_child));
            model.insert(split_key, promoted_child);
            assert_inner_records(&inner, &model, PageID::from_id(0));
        }
    }
}

#[test]
fn test_inner_restore_rejects_short_image() {
    assert!(InnerNode::build_from_slice(&[0; INNER_NODE_SIZE - 1]).is_none());
}

#[test]
fn test_inner_serialization_initializes_unused_bytes_and_resets_lock() {
    let mut inner = make_inner_node();
    let image = inner.as_image();
    assert_eq!(image.len(), INNER_NODE_SIZE);
    // One child and no separator: everything behind its record is zero.
    assert!(image[64 + 16..].iter().all(|byte| *byte == 0));
    assert!(inner.insert(b"same\0suffix", PageID::from_id(41)));
    inner.snapshot_version = 42;
    inner.set_root(true);
    inner.version_lock = 123;
    let restored = InnerNode::build_from_slice(&inner.as_image()).unwrap();
    assert_eq!(restored.version_lock, 0);
    assert_eq!(restored.get_clean_snapshot_version(), 42);
    assert!(restored.is_root());
    assert_eq!(restored.disk_offset, inner.disk_offset);
    let mut model = BTreeMap::new();
    model.insert(b"same\0suffix".to_vec(), PageID::from_id(41));
    assert_inner_records(&restored, &model, PageID::from_id(0));
}

#[test]
fn test_leaf_insert_read() {
    let mut numbers = Numbers(11);
    for _ in 0..1000 {
        let mut model = HashMap::<Vec<u8>, Vec<u8>>::new();
        let mut leaf = LeafNode::make_base_page(4096, NO_VERSION);
        let mut out_buffer = vec![0u8; 1024];
        for _ in 0..1 + numbers.below(49) {
            let k = numbers.bytes(1, 30);
            let v = numbers.bytes(1, 30);
            match numbers.below(3) {
                0 => {
                    assert!(leaf.insert(&k, &v, OpType::Insert, 60));
                    model.insert(k, v);
                }
                1 => {
                    let _ = leaf.insert(&k, &[], OpType::Delete, 60);
                    model.remove(&k);
                }
                _ => {
                    let rt = leaf.read_by_key(&k, &mut out_buffer);
                    match model.get(&k) {
                        Some(v) => {
                            assert_eq!(rt, LeafReadResult::Found(v.len() as u32));
                            assert_eq!(&out_buffer[0..v.len()], v);
                        }
                        None => assert!(
                            rt == LeafReadResult::NotFound || rt == LeafReadResult::Deleted
                        ),
                    }
                }
            }
        }
        for (k, v) in &model {
            let rt = leaf.read_by_key(k, &mut out_buffer);
            assert_eq!(rt, LeafReadResult::Found(v.len() as u32));
            assert_eq!(&out_buffer[0..v.len()], v);
        }
        let back = LeafNode::from_image(&leaf.as_image()).unwrap();
        assert_eq!(back.records.len(), leaf.records.len());
        leaf.consolidate(NO_VERSION);
        assert_eq!(model.len(), leaf.meta_count_without_fence());
    }
}

fn collision_key(prefix: &[u8], id: u8) -> Vec<u8> {
    let mut key = prefix.to_vec();
    match id {
        0 => {}
        1 => key.extend_from_slice(&[0]),
        2 => key.extend_from_slice(&[0, 0]),
        3 => key.extend_from_slice(&[0, 0, 0]),
        4 => key.extend_from_slice(&[0, 0, 1]),
        5 => key.extend_from_slice(&[0, 1]),
        6 => key.extend_from_slice(&[1]),
        7 => key.extend_from_slice(&[1, 0]),
        _ => key.extend_from_slice(&[2, 2, id]),
    }
    key
}

#[test]
fn leaf_search_update_and_consolidation_match_model() {
    let mut numbers = Numbers(23);
    for _ in 0..256 {
        let prefix = numbers.bytes(0, 32);
        let mut high_fence = prefix.clone();
        high_fence.push(u8::MAX);
        let mut leaf = LeafNode::make_base_page(8192, NO_VERSION);
        leaf.initialize(&prefix, &high_fence, 8192, NO_NEXT_LEVEL, NO_VERSION);
        let mut model = BTreeMap::<Vec<u8>, Vec<u8>>::new();
        let mut out = [0u8; 80];
        for _ in 0..1 + numbers.below(63) {
            let key = collision_key(&prefix, numbers.below(16) as u8);
            let value = numbers.bytes(1, 80);
            if numbers.below(4) == 0 {
                assert!(leaf.insert(&key, &[], OpType::Delete, 0));
                model.remove(&key);
            } else {
                assert!(leaf.insert(&key, &value, OpType::Insert, 0));
                model.insert(key, value);
            }
            for query_id in 0..17 {
                let query = collision_key(&prefix, query_id);
                let found = leaf.read_by_key(&query, &mut out);
                if let Some(expected) = model.get(&query) {
                    assert_eq!(found, LeafReadResult::Found(expected.len() as u32));
                    assert_eq!(&out[..expected.len()], expected);
                } else {
                    assert!(matches!(
                        found,
                        LeafReadResult::NotFound | LeafReadResult::Deleted
                    ));
                }
            }
        }
        let mut queries: Vec<Vec<u8>> = (0..17).map(|id| collision_key(&prefix, id)).collect();
        queries.extend((0..prefix.len()).map(|len| prefix[..len].to_vec()));
        queries.extend([vec![0], vec![u8::MAX], high_fence.clone()]);
        for query in queries {
            let expected = leaf.records.partition_point(|r| r.key < query);
            assert_eq!(lower_bound(&leaf.records, &query), expected);
        }
        leaf.consolidate(37);
        assert_eq!(leaf.get_low_fence_key(), prefix);
        assert_eq!(leaf.get_high_fence_key(), high_fence);
        assert_eq!(leaf.get_clean_snapshot_version(), 37);
        assert_eq!(leaf.meta_count_without_fence(), model.len());
        for (record, (key, value)) in leaf.records.iter().zip(&model) {
            assert_eq!((&record.key, &record.value), (key, value));
            assert_eq!(record.op_type, OpType::Insert);
        }
    }
}

#[test]
fn leaf_consolidation_changes_prefix_and_skips_requested_key() {
    let mut leaf = LeafNode::make_base_page(4096, NO_VERSION);
    leaf.initialize(b"tenant/a", b"tenant/z", 4096, NO_NEXT_LEVEL, NO_VERSION);
    assert!(leaf.insert(b"tenant/aa", b"short", OpType::Insert, 0));
    assert!(leaf.insert(b"tenant/ab", &[3; 96], OpType::Insert, 0));
    assert!(leaf.insert(b"tenant/ac", b"delete", OpType::Insert, 0));
    assert!(leaf.insert(b"tenant/ac", &[], OpType::Delete, 0));
    assert!(leaf.insert(b"tenant/ad", b"skip", OpType::Insert, 0));
    leaf.lsn = 42;
    leaf.consolidate_inner(
        Some(b"tenant/az".as_slice()),
        true,
        Some(b"tenant/ad".as_slice()),
        73,
    );

    assert_eq!(leaf.get_prefix(), b"tenant/a");
    assert_eq!(leaf.get_low_fence_key(), b"tenant/a");
    assert_eq!(leaf.get_high_fence_key(), b"tenant/az");
    assert_eq!(leaf.meta_count_without_fence(), 2);
    assert_eq!(leaf.lsn, 42);
    assert_eq!(leaf.get_clean_snapshot_version(), 73);
    let mut out = [0; 96];
    assert_eq!(
        leaf.read_by_key(b"tenant/aa", &mut out),
        LeafReadResult::Found(5)
    );
    assert_eq!(&out[..5], b"short");
    assert_eq!(
        leaf.read_by_key(b"tenant/ab", &mut out),
        LeafReadResult::Found(96)
    );
    assert_eq!(out, [3; 96]);
    for key in [b"tenant/ac", b"tenant/ad"] {
        assert_eq!(leaf.read_by_key(key, &mut out), LeafReadResult::NotFound);
    }
}

#[test]
fn leaf_insert_rejects_unrepresentable_lengths_without_mutation() {
    let mut leaf = LeafNode::make_base_page(4096, NO_VERSION);
    leaf.initialize(b"tenant/a", b"tenant/z", 4096, NO_NEXT_LEVEL, 0);
    assert!(leaf.insert(b"tenant/m", b"original", OpType::Insert, 0));
    let remaining = leaf.remaining_size();
    let count = leaf.meta_count_without_fence();

    for len in [1 << 14, 1 << 16, (1 << 16) + 8] {
        assert!(!leaf.insert(&vec![b'a'; len], b"value", OpType::Insert, 0));
    }
    for len in [1 << 15, 1 << 16, (1 << 16) + 8] {
        assert!(!leaf.insert(b"tenant/m", &vec![1; len], OpType::Insert, 0));
    }
    assert!(!leaf.insert(b"short", b"value", OpType::Insert, 0));

    assert_eq!(leaf.remaining_size(), remaining);
    assert_eq!(leaf.meta_count_without_fence(), count);
    let mut out = [0; 8];
    assert_eq!(
        leaf.read_by_key(b"tenant/m", &mut out),
        LeafReadResult::Found(8)
    );
    assert_eq!(&out, b"original");
}

#[test]
fn leaf_empty_prefix_and_empty_consolidation_are_valid() {
    let mut leaf = LeafNode::make_base_page(4096, NO_VERSION);
    assert_eq!(leaf.lsn, 0);
    assert!(leaf.get_prefix().is_empty());
    leaf.consolidate(1);
    assert_eq!(leaf.meta_count_without_fence(), 0);

    leaf.initialize(&[], &[], 4096, NO_NEXT_LEVEL, 2);
    assert!(leaf.get_prefix().is_empty());
    leaf.consolidate(3);
    assert_eq!(leaf.meta_count_without_fence(), 0);
    assert!(leaf.get_prefix().is_empty());
}

#[test]
fn a_page_refuses_what_it_has_no_room_for() {
    let mut leaf = LeafNode::make_base_page(256, NO_VERSION);
    assert_eq!(leaf.remaining_size(), 192);
    assert!(leaf.insert(b"a", &[1; 100], OpType::Insert, 0));
    assert_eq!(leaf.remaining_size(), 83);
    assert!(!leaf.insert(b"b", &[2; 75], OpType::Insert, 0));
    assert!(!leaf.insert(b"b", &[2; 74], OpType::Insert, 60));
    assert!(leaf.insert(b"b", &[2; 74], OpType::Insert, 0));
    assert_eq!(leaf.remaining_size(), 0);
    assert!(leaf.insert(b"a", &[3; 100], OpType::Insert, 0));
    assert!(!leaf.insert(b"a", &[3; 101], OpType::Insert, 0));
    let mut out = [0; 100];
    assert_eq!(leaf.read_by_key(b"a", &mut out), LeafReadResult::Found(100));
    assert_eq!(out, [3; 100]);
}

#[test]
fn leaf_base_page_unused_storage_is_initialized() {
    let leaf = LeafNode::make_base_page(4096, NO_VERSION);
    let bytes = leaf.as_image();
    assert_eq!(bytes.len(), 4096);
    assert!(bytes[64..].iter().all(|byte| *byte == 0));
}

#[test]
fn write_guard_reborrows_and_releases_the_version_lock() {
    let mut node = InnerNode::with_left_most(PageID::from_id(0), true, 0, NO_VERSION);
    node.version_lock = 2;
    {
        let mut guard = WriteGuard { node: &mut node };
        guard.as_mut().disk_offset = 17;
        assert_eq!(guard.as_ref().disk_offset, 17);
        guard.as_mut().disk_offset = 23;
        assert_eq!(guard.as_ref().disk_offset, 23);
        guard.release();
    }
    assert_eq!(node.version_lock, 4);
    assert_eq!(node.disk_offset, 23);
}

#[test]
fn readers_see_that_a_writer_was_there() {
    let mut nodes = vec![make_inner_node()];
    let reader = ReadGuard::try_read(&nodes, 0).unwrap();
    assert_eq!(reader.check_version(&nodes).unwrap(), 0);
    let other = ReadGuard::try_read(&nodes, 0).unwrap();
    let writer = other.upgrade(&mut nodes[0]).unwrap();
    let after = writer.downgrade(0);
    assert_eq!(after.version, 4);
    assert!(reader.check_version(&nodes).is_err());
    assert!(reader.upgrade(&mut nodes[0]).is_err());
    assert!(is_locked(2) && !is_locked(4));
    nodes[0].version_lock = 6;
    assert!(ReadGuard::try_read(&nodes, 0).is_err());
}

#[test]
fn an_obsolete_node_keeps_its_lock() {
    let mut node = make_inner_node();
    node.version_lock = 2;
    let mut guard = WriteGuard { node: &mut node };
    guard.mark_obsolete();
    assert_eq!(node.version_lock, 3);
    assert!(is_locked(3));
}
