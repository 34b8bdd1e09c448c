use bf_tree::utils::mapping_table::{MappingTable, MAX_BATCHES};
use std::cell::Cell;
use std::rc::Rc;

struct DropRecord(Rc<Cell<usize>>);

impl Drop for DropRecord {
    fn drop(&mut self) {
        self.0.set(self.0.get() + 1);
    }
}

#[test]
fn stable_references_across_insertions_and_batches() {
    // The array is part of the record, so its address tells that of the record.
    let mut table = MappingTable::new(2);
    let (_, first) = table.insert((String::from("first"), [0u8; 1]));
    assert_eq!(first.0, "first");
    let first_address = first.1.as_ptr();
    for id in 1..9u64 {
        let (actual_id, record) = table.insert((id.to_string(), [0u8; 1]));
        assert_eq!(actual_id, id);
        assert_eq!(record.0, id.to_string());
        assert_eq!(table.get(0).0, "first");
        assert_eq!(table.get(0).1.as_ptr(), first_address);
    }
    assert_eq!(table.peek_next_id(), 9);
}

#[test]
fn records_of_a_large_batch_stay_where_they_are() {
    let mut table = MappingTable::new(1000);
    let mut addresses = Vec::new();
    for id in 0..2500u64 {
        let (_, record) = table.insert([id; 3]);
        addresses.push(record.as_ptr());
    }
    for id in 0..2500u64 {
        assert_eq!(*table.get(id), [id; 3]);
        assert_eq!(table.get(id).as_ptr(), addresses[id as usize]);
    }
}

#[test]
fn drops_only_initialized_records_in_partial_batches() {
    for count in [0usize, 1, 2, 3, 7] {
        let drops = Rc::new(Cell::new(0));
        let mut table = MappingTable::new(3);
        for _ in 0..count {
            table.insert(DropRecord(drops.clone()));
        }
        assert_eq!(drops.get(), 0);
        drop(table);
        assert_eq!(drops.get(), count);
    }
}

#[test]
fn zero_sized_and_overaligned_records() {
    let mut table = MappingTable::new(1);
    for id in 0..4 {
        assert_eq!(table.insert(()).0, id);
        assert_eq!(*table.get(id), ());
    }

    let mut table = MappingTable::new(2);
    for id in 0..5u64 {
        table.insert([u128::from(id); 16]);
        let record = table.get(id);
        assert_eq!(record[15], u128::from(id));
        assert_eq!(record.as_ptr().addr() % std::mem::align_of::<u128>(), 0);
    }
}

#[test]
fn restore_contiguous_ids_and_continue_inserting() {
    let records: Vec<(u64, u64)> = (0..4).map(|id| (id, id * 2)).collect();
    let mut table = MappingTable::new_from_iter(records).unwrap();
    for id in 0..4 {
        assert_eq!(*table.get(id), id * 2);
    }
    assert_eq!(table.insert(8).0, 4);
    assert_eq!(table.peek_next_id(), 5);
}

#[test]
fn invalid_restore_drops_every_input_once() {
    for ids in [[1, 2, 3], [0, 2, 3], [0, 0, 1], [0, 1, u64::MAX]] {
        let drops = Rc::new(Cell::new(0));
        let records: Vec<(u64, DropRecord)> = ids
            .iter()
            .map(|id| (*id, DropRecord(drops.clone())))
            .collect();
        assert!(MappingTable::new_from_iter(records).is_none());
        assert_eq!(drops.get(), ids.len());
    }
}

#[test]
fn a_full_table_keeps_its_records() {
    let mut table = MappingTable::new(1);
    for id in 0..MAX_BATCHES as u64 {
        assert_eq!(table.insert(id).0, id);
    }
    assert_eq!(table.peek_next_id(), MAX_BATCHES as u64);
    assert_eq!(table.replace(3, 33), 3);
    assert_eq!(*table.get(3), 33);
    assert_eq!(*table.get(127), 127);
}

#[test]
fn concurrent_insertions_publish_fully_initialized_records() {
    let mut table = MappingTable::new(2);
    table.insert([0_u64; 8]);
    for _ in 0..4 {
        for worker in 1..=2_u64 {
            let (id, record) = table.insert([worker; 8]);
            assert_eq!(*record, [worker; 8]);
            assert_eq!(*table.get(id), [worker; 8]);
            for id in 0..table.peek_next_id() {
                let record = table.get(id);
                assert_eq!(*record, [record[0]; 8]);
                assert!(record[0] <= 2);
            }
            assert_eq!(*table.get(0), [0; 8]);
        }
    }
    assert_eq!(table.peek_next_id(), 9);
}
