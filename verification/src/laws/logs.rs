//! Logs, and what comes of replaying them.
use vstd::prelude::*;

use crate::codec;
use crate::config::{Config, StorageBackend, WalConfig};
use crate::error::ConfigError;
use crate::model::Core;
use crate::nodes::image::RecordView;
use crate::nodes::OpType;
use crate::snapshot::finalize;
use crate::snapshot::recovery;
use crate::tree::BfTree;
use crate::wal::log;
use crate::wal::log::{WalWrite, WriteAheadLog, WriteAheadLogInner};
use crate::wal::operations;
use crate::wal::reader;
use crate::wal::reader::{LogEntry, LogHeader};
use crate::wal::replay;

verus! {

/// A log that has the segment size of a default configuration and is all in its file is
/// replayed in full where no log configuration is given. So is one of any segment size
/// where a configuration with that size is given.
pub proof fn law_a_log_is_replayed_in_full(
    log: &WriteAheadLog,
    before: &BfTree,
    wal: Option<(WalConfig, Vec<u8>)>,
    r: Result<BfTree, ConfigError>,
)
    requires
        log.durable(),
        wal is None ==> log.config.segment_size == 1_048_576,
        wal matches Some((w, _)) ==> w.segment_size == log.config.segment_size,
        replay::replays(before, log.log_file@, wal, r),
    ensures
        replay::log_replayed(before, log@, wal, r),
        r matches Ok(t) ==> (!before.cache_only ==> t@ == replay::replayed(
            before@,
            log@,
            before.config,
        )),
        r is Err ==> before.model().pages.len() + before@.dom().union(
            replay::logged_keys(log@),
        ).len() + 4 > 0x800_0000,
{
    if r is Ok && !before.cache_only {
        let t = r->Ok_0;
        let ts = choose|ts: Seq<BfTree>| #[trigger] replay::replay_way(ts, before, &t, log@);
        replay::law_replay_forgets_only_what_is_evicted(ts, before, &t, log@);
        assert forall|i: int| 0 <= i < log@.len() implies replay::keeps_all(&#[trigger] ts[i]) by {
            replay::lemma_way(ts, before, &t, log@, i as nat);
        }
    }
}

/// Recovery from the snapshot of a tree and a log that is all in its file: the tree holds
/// what the snapshot holds, with what the log says done to it, entry by entry. Its page
/// cache is of the size asked for, and its log the one that is given.
pub proof fn law_recovery_replays_the_log_on_the_snapshot(
    b: Seq<u8>,
    f: Core,
    config: Config,
    v: u64,
    log: &WriteAheadLog,
    use_snapshot: bool,
    buffer_size: Option<usize>,
    wal: Option<(WalConfig, Vec<u8>)>,
    r: Result<BfTree, ConfigError>,
)
    requires
        finalize::holds(b, f, config, v),
        log.durable(),
        wal is None ==> log.config.segment_size == 1_048_576,
        wal matches Some((w, _)) ==> w.segment_size == log.config.segment_size,
        replay::recovers(b, log.log_file@, use_snapshot, buffer_size, wal, r),
    ensures
        r matches Ok(t) ==> {
            &&& !config.cache_only ==> t@ == replay::replayed(f.view(), log@, config)
            &&& t@.submap_of(replay::replayed(f.view(), log@, config))
            &&& t.storage.circular_buffer.capacity == match buffer_size {
                Some(n) => n,
                None => config.cb_size_byte,
            }
            &&& t.config.cache_only == config.cache_only
            &&& t.config.cb_min_record_size == config.cb_min_record_size
            &&& t.config.cb_max_record_size == config.cb_max_record_size
            &&& t.config.max_fence_len == config.max_fence_len
            &&& t.config.leaf_page_size == config.leaf_page_size
            &&& t.config.use_snapshot == use_snapshot
            &&& t.snapshot_mgr is Some <==> use_snapshot
            &&& wal is None ==> t.wal is None
            &&& wal matches Some((w, log_file)) ==> t.wal is Some && (t.wal->0).config == w
        },
{
    let start = choose|start: Result<BfTree, ConfigError>| #[trigger]
        recovery::comes_back(b, use_snapshot, buffer_size, None, start) && match start {
            Ok(t) => replay::replays(&t, log.log_file@, wal, r),
            Err(e) => r == Err::<BfTree, ConfigError>(e),
        };
    if r is Ok {
        let s = start->Ok_0;
        let t = r->Ok_0;
        law_a_log_is_replayed_in_full(log, &s, wal, r);
        let ts = choose|ts: Seq<BfTree>| #[trigger] replay::replay_way(ts, &s, &t, log@);
        replay::law_replay_forgets_only_what_is_evicted(ts, &s, &t, log@);
        replay::lemma_same_limits(f.view(), log@, s.config, config);
    }
}

/// Entry `e` is about key `k`.
pub open spec fn about(e: LogEntry, k: Seq<u8>) -> bool {
    operations::parse_op(e.data) matches Some(r) && r.key == k
}

/// What becomes of a key when a log is replayed is settled by the last entry that is about
/// it: the key has the value that is stored there, or is gone if it is removed there. A
/// key that no entry is about is left as it was.
pub proof fn law_the_last_entry_about_a_key_settles_it(
    m: Map<Seq<u8>, Seq<u8>>,
    es: Seq<LogEntry>,
    config: Config,
    i: int,
    k: Seq<u8>,
    v: Seq<u8>,
)
    requires
        -1 <= i < es.len(),
        forall|j: int| i < j < es.len() ==> !#[trigger] about(es[j], k),
    ensures
        i == -1 ==> {
            &&& replay::replayed(m, es, config).contains_key(k) == m.contains_key(k)
            &&& m.contains_key(k) ==> replay::replayed(m, es, config)[k] == m[k]
        },
        0 <= i && es[i].data == operations::op_bytes(
            RecordView { key: k, value: v, op: OpType::Insert },
        ) && k.len() <= config.max_fence_len / 2 && config.cb_min_record_size <= k.len() + v.len()
            <= config.cb_max_record_size && k.len() <= 0xffff && v.len() <= 0xffff ==> {
            &&& replay::replayed(m, es, config).contains_key(k)
            &&& replay::replayed(m, es, config)[k] == v
        },
        0 <= i && es[i].data == operations::op_bytes(
            RecordView { key: k, value: Seq::empty(), op: OpType::Delete },
        ) && k.len() <= 0xffff ==> !replay::replayed(m, es, config).contains_key(k),
    decreases es.len(),
{
    if es.len() > 0 {
        let n = es.len() - 1;
        let front = es.drop_last();
        if i < n {
            assert(!about(es[n], k));
            assert forall|j: int| i < j < front.len() implies !#[trigger] about(front[j], k) by {
                assert(!about(es[j], k));
            }
            law_the_last_entry_about_a_key_settles_it(m, front, config, i, k, v);
        } else {
            operations::law_logged_op_is_read_back(
                RecordView { key: k, value: v, op: OpType::Insert },
            );
            operations::law_logged_op_is_read_back(
                RecordView { key: k, value: Seq::empty(), op: OpType::Delete },
            );
        }
    }
}

/// How an operation stands in an entry: the lengths of key and value, what it does, the
/// key, and the value.
pub proof fn law_how_an_operation_is_written(r: RecordView)
    requires
        r.key.len() <= 0xffff,
        r.value.len() <= 0xffff,
    ensures
        ({
            let b = operations::op_bytes(r);
            &&& b.len() == 5 + r.key.len() + r.value.len()
            &&& codec::u16_at(b, 0) == r.key.len()
            &&& codec::u16_at(b, 2) == r.value.len()
            &&& r.op == OpType::Insert ==> b[4] == 0
            &&& r.op == OpType::Delete ==> b[4] == 1
            &&& b.subrange(5, 5 + r.key.len() as int) == r.key
            &&& b.skip(5 + r.key.len() as int) == r.value
        }),
{
    let b = operations::op_bytes(r);
    codec::lemma_le16(r.key.len() as u16);
    codec::lemma_le16(r.value.len() as u16);
    assert(b.subrange(0, 2) =~= codec::le16(r.key.len() as u16));
    assert(b.subrange(2, 4) =~= codec::le16(r.value.len() as u16));
    assert(b.subrange(5, 5 + r.key.len() as int) =~= r.key);
    assert(b.skip(5 + r.key.len() as int) =~= r.value);
}

/// How an entry stands in a segment: its length, its number, the place that it is about,
/// and its data; the next entry begins where it ends. Entries stand in a segment without a
/// gap, and none is found behind a length that cannot be one.
pub proof fn law_how_an_entry_is_written(d: Seq<u8>, at: int)
    requires
        0 <= at <= d.len(),
    ensures
        ({
            let es = reader::entries_from(d, at);
            let n = codec::u64_at(d, at);
            if d.len() - at >= 24 && 24 <= n <= d.len() - at {
                &&& es.len() > 0
                &&& es[0].lsn == codec::u64_at(d, at + 8)
                &&& es[0].page_offset == codec::u64_at(d, at + 16)
                &&& es[0].data == d.subrange(at + 24, at + n)
                &&& es.drop_first() == reader::entries_from(d, at + n)
            } else {
                es.len() == 0
            }
        }),
{
    let es = reader::entries_from(d, at);
    let n = codec::u64_at(d, at);
    if reader::entry_here(d, at) {
        assert(es.drop_first() =~= reader::entries_from(d, at + n));
    }
}

/// A header of an entry is its length, its number and the place that it is about.
pub proof fn law_how_a_log_header_is_written(h: LogHeader)
    requires
        h.log_len <= u64::MAX,
    ensures
        h.bytes().len() == 24,
        codec::u64_at(h.bytes(), 0) == h.log_len,
        codec::u64_at(h.bytes(), 8) == h.lsn,
        codec::u64_at(h.bytes(), 16) == h.page_offset,
{
    let b = h.bytes();
    codec::lemma_le64(h.log_len as u64);
    codec::lemma_le64(h.lsn);
    codec::lemma_le64(h.page_offset);
    assert(b.subrange(0, 8) =~= codec::le64(h.log_len as u64));
    assert(b.subrange(8, 16) =~= codec::le64(h.lsn));
    assert(b.subrange(16, 24) =~= codec::le64(h.page_offset));
}

/// A log file is read segment by segment, each from its start, up to the last one that
/// has a byte in the file; bytes that the file lacks are taken for zero.
pub proof fn law_a_log_file_is_read_by_segments(f: Seq<u8>, size: nat, n: nat)
    requires
        size > 0,
        n == 0 ==> f.len() == 0,
        n > 0 ==> (n - 1) * size < f.len() <= n * size,
    ensures
        n == 0 ==> reader::log_entries(f, size).len() == 0,
        n > 0 ==> {
            let d = f.skip((n - 1) * size) + codec::zeros((n * size - f.len()) as nat);
            reader::log_entries(f, size) == reader::log_entries(f.take((n - 1) * size), size)
                + reader::entries_from(d, 0)
        },
{
    assert((n - 1) * size + size == n * size) by (nonlinear_arith);
    assert(n == 0 ==> n * size == 0) by (nonlinear_arith);
    assert(size * n == n * size) by (nonlinear_arith);
    vstd::arithmetic::div_mod::lemma_fundamental_div_mod_converse(
        f.len() + size - 1,
        size as int,
        n as int,
        f.len() + size - 1 - n * size,
    );
    if n > 0 {
        let g = f.take((n - 1) * size);
        let k = (n - 1) as nat;
        assert(size * k == k * size) by (nonlinear_arith);
        assert(0 <= k * size) by (nonlinear_arith);
        vstd::arithmetic::div_mod::lemma_fundamental_div_mod_converse(
            g.len() + size - 1,
            size as int,
            k as int,
            size - 1,
        );
        assert forall|i: int| 0 <= i < k * size implies #[trigger] reader::byte_at(g, i)
            == reader::byte_at(f, i) by {}
        log::lemma_upto_same(f, g, size, k);
        let d = f.skip((n - 1) * size) + codec::zeros((n * size - f.len()) as nat);
        assert(reader::segment_of(f, size, n - 1) =~= d);
    }
}

/// The number that a reopened log goes on with: one more than the greatest in its file, or
/// zero if there is none.
pub proof fn law_the_number_a_log_goes_on_with(f: Seq<u8>, size: nat)
    requires
        log::lsns_ascend(reader::log_entries(f, size)),
    ensures
        ({
            let es = reader::log_entries(f, size);
            &&& es.len() == 0 ==> log::resumed_lsn(f, size) == 0
            &&& es.len() > 0 && es.last().lsn < u64::MAX ==> log::resumed_lsn(f, size)
                == es.last().lsn + 1
        }),
{
    let es = reader::log_entries(f, size);
    let n = reader::segment_count(f, size);
    log::lemma_last_lsn(f, size, n);
    log::lemma_last_lsn_known(f, size, n);
}

/// A log that is opened on a file goes on behind what the file holds, at the start of a
/// segment, with all entries of the file and the next number. One in memory starts empty.
pub proof fn law_a_reopened_log_goes_on(log: &WriteAheadLog, config: WalConfig, f: Seq<u8>)
    requires
        log.resumes(config, f),
        config.segment_size > 0,
    ensures
        log.config == config,
        config.storage_backend == StorageBackend::Memory ==> log@.len() == 0
            && log.log_file@.len() == 0 && log.inner.next_lsn == 0 && log.inner.file_offset == 0,
        config.storage_backend != StorageBackend::Memory ==> {
            &&& log.log_file@ == f
            &&& log@ == reader::log_entries(f, config.segment_size as nat)
            &&& f.len() <= log.inner.file_offset < f.len() + config.segment_size
            &&& log.inner.file_offset % config.segment_size == 0
            &&& log::lsns_ascend(log@) && log@.len() > 0 && log@.last().lsn < u64::MAX
                ==> log.inner.next_lsn == log@.last().lsn + 1
            &&& log@.len() == 0 ==> log.inner.next_lsn == 0
        },
{
    let g = log::kept_file(config, f);
    let size = config.segment_size as int;
    log::lemma_segments(g.len() as int, size);
    let n = reader::segment_count(g, size as nat);
    vstd::arithmetic::div_mod::lemma_mod_multiples_basic(n as int, size);
    if log::lsns_ascend(reader::log_entries(g, size as nat)) {
        law_the_number_a_log_goes_on_with(g, size as nat);
    }
    assert(n == 0 ==> n * size == 0) by (nonlinear_arith);
    if g.len() == 0 {
        vstd::arithmetic::div_mod::lemma_fundamental_div_mod_converse(size - 1, size, 0, size - 1);
    }
}

/// What a log can be made with and what it takes: segments of whole blocks, and entries
/// that fit a segment with their header, as long as there are numbers and the file can
/// grow.
pub proof fn law_what_a_log_takes(w: WalConfig, log: &WriteAheadLog, n: nat)
    ensures
        w.ok() <==> w.segment_size >= 512 && w.segment_size % 512 == 0,
        log.admits(n) <==> 24 + n <= log.config.segment_size && log.inner.next_lsn < u64::MAX
            && log.inner.file_offset + 4 * log.config.segment_size <= usize::MAX,
        log.inner.has_space() <==> log.inner.file_offset + 3 * log.inner.buffer@.len()
            <= usize::MAX,
{
}

/// A flush writes whole blocks of the segment: from the one that the last flush ended in
/// to the one that holds the end of what was gathered and the eight zero bytes behind it.
/// Up to there the bytes are those that were gathered.
pub proof fn law_a_flush_writes_whole_blocks(log: &WriteAheadLogInner, w: WalWrite)
    requires
        log.wf(),
        log.blocks_to_write(w),
    ensures
        ({
            let start = w.offset - log.file_offset;
            let end = start + w.bytes@.len();
            let tail = if log.buffer_cursor + 8 <= log.buffer@.len() {
                log.buffer_cursor + 8
            } else {
                log.buffer@.len() as int
            };
            &&& start % 512 == 0
            &&& start <= log.flushed_cursor < start + 512
            &&& end % 512 == 0
            &&& tail <= end < tail + 512
            &&& end <= log.buffer@.len()
            &&& forall|i: int|
                start <= i < log.buffer_cursor ==> #[trigger] log.buffer@[i] == w.bytes@[i - start]
            &&& tail == log.buffer_cursor + 8 ==> forall|i: int|
                log.buffer_cursor <= i < tail ==> #[trigger] w.bytes@[i - start] == 0
            &&& forall|i: int| tail <= i < end ==> #[trigger] log.buffer@[i] == w.bytes@[i - start]
        }),
{
    let n = log.buffer@.len() as int;
    assert(n % 512 == 0);
}

/// A flush leaves a segment for the next one if it is told to or the segment is half full,
/// but never one that is empty.
pub proof fn law_when_a_segment_is_left(
    before: &WriteAheadLogInner,
    after: &WriteAheadLogInner,
    rotate_segment: bool,
)
    requires
        before.wf(),
        after.placed_after(before, rotate_segment),
    ensures
        before.buffer_cursor == 0 ==> after.file_offset == before.file_offset
            && after.buffer_cursor == 0,
        before.buffer_cursor > 0 && (rotate_segment || 2 * before.buffer_cursor
            >= before.buffer@.len()) ==> after.buffer_cursor == 0 && after.file_offset
            == before.file_offset + before.buffer@.len(),
        !rotate_segment && 2 * before.buffer_cursor < before.buffer@.len() ==> after.buffer_cursor
            == before.buffer_cursor && after.file_offset == before.file_offset,
{
    assert(before.buffer@.len() % 2 == 0);
}

/// Where a log stands when an entry of `n` bytes was appended and is in the file: behind
/// the entry, which has its header of 24 bytes before it and does not go beyond its
/// segment; at the start of the next segment if the entry filled half of its own.
pub proof fn law_where_an_entry_goes(log: &WriteAheadLogInner, n: nat)
    requires
        log.wf(),
        24 + n <= log.buffer@.len(),
    ensures
        ({
            let size = log.buffer@.len() as int;
            let (offset, cursor) = log.place_behind(n);
            let fits = log.buffer_cursor + 24 + n <= size;
            let segment = if fits {
                log.file_offset as int
            } else {
                log.file_offset + size
            };
            let end = if fits {
                log.buffer_cursor + 24 + n
            } else {
                24 + n as int
            };
            &&& 2 * end < size ==> offset == segment && cursor == end
            &&& 2 * end >= size ==> offset == segment + size && cursor == 0
        }),
{
    assert(log.buffer@.len() % 2 == 0);
}

} // verus!
