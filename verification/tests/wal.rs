use bf_tree::wal::log::{WriteAheadLogInner, BLOCK_SIZE};
use bf_tree::wal::operations::WriteOp;
use bf_tree::{LogHeader, WalConfig, WalReader, WalSegment, WriteAheadLog};

fn make_test_wal(segment_size: usize, log_file: Vec<u8>) -> WriteAheadLog {
    let mut wal_config = WalConfig::new();
    wal_config.segment_size(segment_size);
    wal_config.flush_interval(1);
    WriteAheadLog::new(wal_config, log_file)
}

fn read_all(log_file: &[u8], segment_size: usize) -> Vec<(LogHeader, Vec<u8>)> {
    let reader = WalReader::new(log_file.to_vec(), segment_size);
    let mut entries = Vec::new();
    let mut segments = reader.segment_iter();
    while let Some(segment) = segments.next() {
        let mut iter = segment.entry_iter();
        while let Some((header, data)) = iter.next() {
            entries.push((header, data.to_vec()));
        }
    }
    entries
}

fn value_of(data: &[u8]) -> usize {
    let mut bytes = [0u8; 8];
    bytes.copy_from_slice(data);
    u64::from_le_bytes(bytes) as usize
}

fn entry_of(val: usize) -> [u8; 8] {
    (val as u64).to_le_bytes()
}

#[test]
fn reopening_wal_appends_with_monotonic_lsn() {
    const TEST_SEGMENT_SIZE: usize = 512;
    let mut wal = make_test_wal(TEST_SEGMENT_SIZE, Vec::new());
    assert_eq!(wal.append_and_wait(&entry_of(10), 10), 0);
    wal.stop_background_job();
    let log_file = wal.log_file;

    let mut wal = make_test_wal(TEST_SEGMENT_SIZE, log_file);
    assert_eq!(wal.append_and_wait(&entry_of(20), 20), 1);
    wal.stop_background_job();
    let log_file = wal.log_file;

    let values: Vec<usize> = read_all(&log_file, TEST_SEGMENT_SIZE)
        .iter()
        .map(|(_, data)| value_of(data))
        .collect();
    assert_eq!(values, [10, 20]);
}

#[test]
fn malformed_wal_header_stops_segment_without_panicking() {
    let mut data = vec![0; 512];
    data[0..8].copy_from_slice(&usize::MAX.to_le_bytes());
    let segment = WalSegment { data };
    assert!(segment.entry_iter().next().is_none());
}

#[test]
fn simple_wal() {
    const TEST_SEGMENT_SIZE: usize = 4096;
    let mut wal = make_test_wal(TEST_SEGMENT_SIZE, Vec::new());

    let log_entry_cnt = 4096;

    for i in 0..log_entry_cnt {
        let lsn = wal.append_and_wait(&entry_of(i), i as u64);
        assert_eq!(lsn, i as u64);
    }

    wal.stop_background_job();
    let mut cnt = 0;
    for (header, data) in read_all(&wal.log_file, TEST_SEGMENT_SIZE) {
        assert_eq!(header.log_len, 8 + LogHeader::size());
        assert_eq!(header.lsn, cnt as u64);
        assert_eq!(header.page_offset, cnt as u64);
        assert_eq!(value_of(&data), cnt);
        cnt += 1;
    }
    assert_eq!(cnt, log_entry_cnt);
}

#[test]
fn first_append_is_durable_before_returning() {
    const TEST_SEGMENT_SIZE: usize = 512;
    let mut wal = make_test_wal(TEST_SEGMENT_SIZE, Vec::new());

    assert_eq!(wal.append_and_wait(&entry_of(42), 7), 0);

    let entries = read_all(&wal.log_file, TEST_SEGMENT_SIZE);
    assert_eq!(entries.len(), 1);
    assert_eq!(entries[0].0.lsn, 0);
    assert_eq!(entries[0].0.page_offset, 7);
    assert_eq!(value_of(&entries[0].1), 42);
}

#[test]
fn append_rotates_when_entry_does_not_fit_remaining_segment() {
    const TEST_SEGMENT_SIZE: usize = 512;
    let mut wal = make_test_wal(TEST_SEGMENT_SIZE, Vec::new());

    let first = vec![1; 200];
    let second = vec![2; 300];
    assert_eq!(wal.append_and_wait(&first, 1), 0);
    assert_eq!(wal.append_and_wait(&second, 2), 1);

    let entries = read_all(&wal.log_file, TEST_SEGMENT_SIZE);
    assert_eq!(entries.len(), 2);
    assert_eq!(entries[0].1, first);
    assert_eq!(entries[1].1, second);
}

#[test]
fn a_flush_writes_whole_blocks_and_a_zero_header_behind_the_entries() {
    let mut log = WriteAheadLogInner::resume(4096, 8192, 5);
    log.need_flush = true;
    assert!(log.flush(true).is_none());
    assert!(!log.need_flush);
    assert_eq!((log.file_offset, log.next_lsn, log.next_flushed_lsn), (8192, 5, 5));
    assert_eq!(log.buffer, vec![0; 4096]);
    assert!(log.has_room(4072));
    assert!(!log.has_room(4073));
    assert_eq!(log.append(&[7; 480], 3), 5);
    let write = log.flush(false).unwrap();
    assert_eq!(write.offset, 8192);
    assert_eq!(write.bytes.len(), BLOCK_SIZE);
    assert_eq!(&write.bytes[0..8], &504u64.to_le_bytes());
    assert_eq!(&write.bytes[504..512], &[0u8; 8]);

    // The second flush goes on in the block of the first entry's end.
    assert_eq!(log.append(&[9; 8], 4), 6);
    let write = log.flush(false).unwrap();
    assert_eq!(write.offset, 8192);
    assert_eq!(write.bytes.len(), 2 * BLOCK_SIZE);
    assert_eq!(log.buffer_cursor, 536);

    // Half a segment is enough to begin the next one.
    assert_eq!(log.append(&[1; 2000], 4), 7);
    assert!(log.flush(false).is_some());
    assert_eq!(log.buffer_cursor, 0);
    assert_eq!(log.file_offset, 8192 + 4096);
}

#[test]
fn the_background_job_flushes_on_demand_on_time_and_at_the_end() {
    let mut log = WriteAheadLogInner::resume(512, 0, 0);
    log.append(&[1; 8], 0);
    let step = log.background_step(true, false);
    assert!(step.write.is_none() && !step.notify && !step.stop);
    assert_eq!(log.next_flushed_lsn, 0);

    let step = log.background_step(true, true);
    assert!(step.write.is_some() && step.notify && !step.stop);
    assert_eq!(log.next_flushed_lsn, 1);
    assert_eq!(log.buffer_cursor, 32);

    log.append(&[2; 8], 0);
    log.need_flush = true;
    let step = log.background_step(true, false);
    assert!(step.write.is_some() && step.notify && !step.stop);
    assert_eq!(log.buffer_cursor, 0);
    assert_eq!(log.file_offset, 512);
    assert!(!log.need_flush);

    let step = log.background_step(false, false);
    assert!(step.write.is_none() && step.notify && step.stop);
}

#[test]
fn write_ops_are_read_back_and_anything_else_is_not() {
    let op = WriteOp::make_insert(b"key", b"value");
    assert_eq!(op.log_size(), 13);
    let mut buffer = [0u8; 13];
    op.write_to_buffer(&mut buffer);
    assert_eq!(&buffer, b"\x03\x00\x05\x00\x00keyvalue");
    let back = WriteOp::try_read_from_buffer(&buffer).unwrap();
    assert_eq!(back.key, b"key");
    assert_eq!(back.value, b"value");
    assert_eq!(back.op_type, op.op_type);

    let bytes = WriteOp::make_delete(b"k").to_bytes();
    assert_eq!(bytes, b"\x01\x00\x00\x00\x01k");
    assert_eq!(WriteOp::try_read_from_buffer(&bytes).unwrap().value, b"");

    assert!(WriteOp::try_read_from_buffer(&bytes[..4]).is_none());
    assert!(WriteOp::try_read_from_buffer(&buffer[..12]).is_none());
    buffer[4] = 2;
    assert!(WriteOp::try_read_from_buffer(&buffer).is_none());

    // Lengths of more than two bytes cannot be written.
    let long = vec![1; 0x10003];
    for op in [
        WriteOp::make_insert(&long, b"value"),
        WriteOp::make_insert(b"key", &long),
        WriteOp::make_delete(&long),
    ] {
        let mut bytes = vec![0; op.log_size()];
        op.write_to_buffer(&mut bytes);
        assert_eq!(bytes, op.to_bytes());
        assert!(WriteOp::try_read_from_buffer(&bytes).is_none());
    }
    let most = vec![1; 0xffff];
    let bytes = WriteOp::make_insert(&most, &most).to_bytes();
    assert_eq!(WriteOp::try_read_from_buffer(&bytes).unwrap().key, most);
}

#[test]
fn the_last_lsn_is_that_of_the_last_segment_with_entries() {
    let mut wal = make_test_wal(512, Vec::new());
    for i in 0..40 {
        wal.append_and_wait(&entry_of(i), 0);
    }
    let mut file = wal.log_file.clone();
    assert_eq!(WalReader::new(file.clone(), 512).last_lsn(), Some(39));
    let whole = (file.len() + 511) / 512 * 512;
    file.resize(whole + 512, 0);
    assert_eq!(WalReader::new(file, 512).last_lsn(), Some(39));
    assert_eq!(WalReader::new(Vec::new(), 512).last_lsn(), None);
}

#[test]
fn multi_thread_wal() {
    const TEST_SEGMENT_SIZE: usize = 4096;
    let log_entry_cnt = 4096;
    let thread_cnt = 4;
    let mut inner = WriteAheadLogInner::resume(TEST_SEGMENT_SIZE, 0, 0);
    let mut log_file = vec![0u8; 0];
    let mut flush = |inner: &mut WriteAheadLogInner, running: bool, elapsed: bool| {
        let step = inner.background_step(running, elapsed);
        if let Some(write) = step.write {
            let end = write.offset + write.bytes.len();
            if log_file.len() < end {
                log_file.resize(end, 0);
            }
            log_file[write.offset..end].copy_from_slice(&write.bytes);
        }
    };
    for i in 0..log_entry_cnt {
        // Each worker appends in turn; the job flushes for all of them.
        let mut last = 0;
        for _ in 0..thread_cnt {
            if !inner.has_room(8) {
                inner.request_flush();
                flush(&mut inner, true, false);
            }
            last = inner.append(&entry_of(i), i as u64);
        }
        assert!(!inner.is_flushed(last));
        flush(&mut inner, true, true);
        assert!(inner.is_flushed(last));
    }
    flush(&mut inner, false, false);

    let entries = read_all(&log_file, TEST_SEGMENT_SIZE);
    for (header, data) in &entries {
        assert_eq!(header.log_len, 8 + LogHeader::size());
        assert_eq!(value_of(data), header.page_offset as usize);
    }
    assert!(entries.windows(2).all(|w| w[0].0.lsn < w[1].0.lsn));
    assert_eq!(entries.len(), log_entry_cnt * thread_cnt);
}
