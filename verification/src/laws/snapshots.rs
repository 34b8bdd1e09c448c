//! Snapshots, and trees that are brought back from them.
use vstd::prelude::*;

use crate::codec;
use crate::config::{Config, StorageBackend, WalConfig};
use crate::error::ConfigError;
use crate::fs;
use crate::model::{Core, PageState};
use crate::nodes::image;
use crate::nodes::image::RecordView;
use crate::nodes::inner_node;
use crate::nodes::PageID;
use crate::snapshot;
use crate::snapshot::capture;
use crate::snapshot::finalize;
use crate::snapshot::meta::BfTreeMeta;
use crate::snapshot::places;
use crate::snapshot::recovery;
use crate::snapshot::run;
use crate::snapshot::steps;
use crate::snapshot::steps::{SnapshotRun, StepResult};
use crate::snapshot::{CPRSnapShotMgr, CPRSnapshotGuard, Capture, PhaseId};
use crate::snapshot::INVALID_SNAPSHOT_STATE;
use crate::tree::BfTree;

verus! {

/// The page cache of a tree that is brought back is of the size that was asked for,
/// whether that is less or more than the tree had; if none was asked for, it is of the
/// size that the tree had.
pub proof fn law_the_cache_of_a_recovered_tree(
    b: Seq<u8>,
    f: Core,
    config: Config,
    v: u64,
    use_snapshot: bool,
    buffer_size: Option<usize>,
    wal: Option<(WalConfig, Vec<u8>)>,
    r: Result<BfTree, ConfigError>,
)
    requires
        finalize::holds(b, f, config, v),
        recovery::comes_back(b, use_snapshot, buffer_size, wal, r),
    ensures
        r matches Ok(t) ==> {
            &&& buffer_size matches Some(n) ==> t.storage.circular_buffer.capacity == n
                && t.config.cb_size_byte == n
            &&& buffer_size is None ==> t.storage.circular_buffer.capacity == config.cb_size_byte
                && t.config.cb_size_byte == config.cb_size_byte
        },
        buffer_size is None ==> r is Ok,
        buffer_size matches Some(n) ==> {
            &&& n >= config.cb_size_byte ==> r is Ok
            &&& n < 2 * config.leaf_page_size ==> (r matches Err(e) && e
                == ConfigError::CircularBufferSize)
        },
{
}

/// A tree that is brought back has the keys and values of the snapshot, and the settings
/// of the tree that it was taken of but for those that the caller gives.
pub proof fn law_a_recovered_tree_is_the_one_of_the_snapshot(
    b: Seq<u8>,
    f: Core,
    config: Config,
    v: u64,
    use_snapshot: bool,
    buffer_size: Option<usize>,
    wal: Option<(WalConfig, Vec<u8>)>,
    r: Result<BfTree, ConfigError>,
)
    requires
        finalize::holds(b, f, config, v),
        recovery::comes_back(b, use_snapshot, buffer_size, wal, r),
    ensures
        r matches Ok(t) ==> {
            &&& t@ == f.view()
            &&& t.cache_only == config.cache_only
            &&& t.config.cache_only == config.cache_only
            &&& t.config.cb_min_record_size == config.cb_min_record_size
            &&& t.config.cb_max_record_size == config.cb_max_record_size
            &&& t.config.leaf_page_size == config.leaf_page_size
            &&& t.config.cb_max_key_len == config.cb_max_key_len
            &&& t.config.max_fence_len == config.max_fence_len
            &&& t.config.max_mini_page_size == config.max_mini_page_size
            &&& t.config.scan_promotion_rate == config.scan_promotion_rate
            &&& t.config.read_promotion_rate == config.read_promotion_rate
            &&& t.config.cb_copy_on_access_ratio == config.cb_copy_on_access_ratio
            &&& t.config.read_record_cache == config.read_record_cache
            &&& t.config.mini_page_binary_search == config.mini_page_binary_search
            &&& t.config.write_load_full_page == config.write_load_full_page
            &&& t.config.storage_backend == StorageBackend::Memory <==> config.cache_only
            &&& t.config.snapshot_backend == StorageBackend::Std
            &&& t.config.use_snapshot == use_snapshot
            &&& t.config.snapshot_version == v
            &&& t.snapshot_mgr is Some <==> use_snapshot
            &&& t.wal is Some <==> wal is Some
            &&& wal matches Some((w, _)) ==> t.config.write_ahead_log == Some(w)
            &&& wal is None ==> t.config.write_ahead_log is None
            &&& wal matches Some((w, log_file)) ==> (t.wal->0).resumes(w, log_file@)
            &&& t.snapshot_mgr matches Some(m) ==> {
                &&& m.phase() == PhaseId::Rest
                &&& m.version() == v
                &&& !m.snapshot_in_progress
                &&& !m.pause_snapshot
                &&& forall|i: int| 0 <= i < 64 ==> !(#[trigger] m.thread_slots@[i])
            }
        },
{
}

/// What is no snapshot file is told so: one shorter than a header, without the two marks
/// of a header, or of another length than the header tells.
pub proof fn law_what_is_no_snapshot_file(
    b: Seq<u8>,
    use_snapshot: bool,
    buffer_size: Option<usize>,
    wal: Option<(WalConfig, Vec<u8>)>,
    r: Result<BfTree, ConfigError>,
)
    requires
        recovery::comes_back(b, use_snapshot, buffer_size, wal, r),
        b.len() < 512 || codec::u64_at(b, 88) != b.len() || b.subrange(0, 16) != seq![
            66u8,
            70,
            45,
            84,
            82,
            69,
            69,
            45,
            86,
            48,
            45,
            66,
            69,
            71,
            73,
            78,
        ] || b.subrange(210, 224) != seq![
            66u8,
            70,
            45,
            84,
            82,
            69,
            69,
            45,
            86,
            48,
            45,
            69,
            78,
            68,
        ],
    ensures
        r == Err::<BfTree, ConfigError>(ConfigError::SnapshotFileInvalid),
{
}

/// A file with the header of a snapshot that gives no tree is told to be no snapshot, or
/// that its pages find no room in the cache, or what is wrong with its settings.
pub proof fn law_why_recovery_fails(
    b: Seq<u8>,
    use_snapshot: bool,
    buffer_size: Option<usize>,
    wal: Option<(WalConfig, Vec<u8>)>,
    e: ConfigError,
)
    requires
        recovery::comes_back(b, use_snapshot, buffer_size, wal, Err(e)),
    ensures
        e == ConfigError::SnapshotFileInvalid || e == ConfigError::CircularBufferSize || (
        b.len() >= 512 && ({
            let n = codec::u64_at(b, 160);
            let k = codec::u64_at(b, 176) as int / 2;
            let most = codec::u64_at(b, 152);
            ||| e == ConfigError::LeafPageSize && n > 32768
            ||| e == ConfigError::MinimumRecordSize && codec::u64_at(b, 144) > most
            ||| e == ConfigError::MaxKeyLen && (k > most || 80 + 3 * (16 + k) > 4096)
            ||| e == ConfigError::MaximumRecordSize && 64 + 2 * k + 2 * (8 + most) > n
        })),
{
}

/// Where a snapshot file has an inner node: the list that the header leads to names the
/// nodes in order, each with its place, and the node can be read there.
pub proof fn law_where_a_snapshot_has_its_nodes(
    b: Seq<u8>,
    f: Core,
    config: Config,
    v: u64,
    i: int,
)
    requires
        finalize::holds(b, f, config, v),
        0 <= i < f.sk.nodes.len(),
    ensures
        codec::u64_at(b, 16) == f.root.raw,
        codec::u64_at(b, 88) == b.len(),
        codec::u64_at(b, 112) == v,
        codec::u64_at(b, 32) == 16 * f.sk.nodes.len(),
        ({
            let at = codec::u64_at(b, 24) + 16 * i;
            let place = codec::u64_at(b, at + 8) as int;
            &&& codec::u64_at(b, at) == 0x8000_0000_0000_0000 + i
            &&& place + 4096 <= b.len()
            &&& inner_node::parse_inner(b.subrange(place, place + 4096)) matches Some(n) && n.keys
                == f.sk.nodes[i].keys && n.children == f.sk.nodes[i].children
        }),
{
    let l = finalize::listed_at(b, codec::u64_at(b, 24), codec::u64_at(b, 32));
    assert(l[i].0 == 0x8000_0000_0000_0000 + i);
    assert(capture::inner_at(b, l[i].1 as int, f.sk.nodes[i]));
}

/// Where a snapshot file has a leaf page: a list of pages on disk and a list of delta
/// pages name each page with its place, by ascending number, and the page can be read
/// there with all its records.
pub proof fn law_where_a_snapshot_has_its_pages(
    b: Seq<u8>,
    f: Core,
    config: Config,
    v: u64,
    i: int,
)
    requires
        finalize::holds(b, f, config, v),
        0 <= i < f.pages.len(),
    ensures
        f.pages[i] is Base || f.pages[i] is Full ==> exists|j: int| #[trigger]
            has_page(b, codec::u64_at(b, 72), codec::u64_at(b, 80), j, i, f.pages[i].top()),
        f.pages[i] matches PageState::Mini(_, Some(w)) ==> exists|j: int| #[trigger]
            has_page(b, codec::u64_at(b, 72), codec::u64_at(b, 80), j, i, w.records),
        f.pages[i] is Mini ==> exists|j: int| #[trigger]
            has_page(b, codec::u64_at(b, 40), codec::u64_at(b, 48), j, i, f.pages[i].top()),
        ids_ascend(b, codec::u64_at(b, 72), codec::u64_at(b, 80)),
        ids_ascend(b, codec::u64_at(b, 40), codec::u64_at(b, 48)),
{
    lemma_ids_ascend(b, codec::u64_at(b, 72), codec::u64_at(b, 80));
    lemma_ids_ascend(b, codec::u64_at(b, 40), codec::u64_at(b, 48));
    let p = config.params();
    assert(f.pages[i].ok(p));
    if f.pages[i] is Mini {
        let l = finalize::listed_at(b, codec::u64_at(b, 40), codec::u64_at(b, 48));
        let z = finalize::listed_at(b, codec::u64_at(b, 56), codec::u64_at(b, 64));
        assert(places::has_id(l, i as u64));
        let j = choose|j: int| 0 <= j < l.len() && (#[trigger] l[j]).0 == i as u64;
        assert(finalize::mini_place_ok(b, f, l[j], z[j]));
        let w = f.pages[i]->Mini_0;
        assert(readable(b, l[j].1 as int, w.size as int, w.records));
        assert(has_page(
            b,
            codec::u64_at(b, 40),
            codec::u64_at(b, 48),
            j,
            i,
            f.pages[i].top(),
        ));
    }
    if capture::base_image(f.pages[i]) is Some {
        let l = finalize::listed_at(b, codec::u64_at(b, 72), codec::u64_at(b, 80));
        assert(places::has_id(l, i as u64));
        let j = choose|j: int| 0 <= j < l.len() && (#[trigger] l[j]).0 == i as u64;
        assert(finalize::base_place_ok(b, f, l[j]));
        let w = capture::base_image(f.pages[i])->0;
        assert(!(f.pages[i] is Mini) ==> f.pages[i].top() == w.records);
        assert(readable(b, l[j].1 as int, w.size as int, w.records));
        assert(has_page(b, codec::u64_at(b, 72), codec::u64_at(b, 80), j, i, w.records));
    }
}

/// The first numbers of the pairs in the list of `n` bytes at `off` ascend.
pub open spec fn ids_ascend(b: Seq<u8>, off: u64, n: u64) -> bool {
    forall|j: int, k: int|
        #![trigger codec::u64_at(b, off + 16 * j), codec::u64_at(b, off + 16 * k)]
        0 <= j < k && 16 * k + 16 <= n ==> codec::u64_at(b, off + 16 * j) < codec::u64_at(
            b,
            off + 16 * k,
        )
}

proof fn lemma_ids_ascend(b: Seq<u8>, off: u64, n: u64)
    requires
        places::ascending(finalize::listed_at(b, off, n)),
    ensures
        ids_ascend(b, off, n),
{
    let l = finalize::listed_at(b, off, n);
    assert forall|j: int, k: int|
        #![trigger codec::u64_at(b, off + 16 * j), codec::u64_at(b, off + 16 * k)]
        0 <= j < k && 16 * k + 16 <= n implies codec::u64_at(b, off + 16 * j) < codec::u64_at(
        b,
        off + 16 * k,
    ) by {
        assert(l[j].0 < l[k].0);
    }
}

/// A page with these records can be read at `place`.
pub open spec fn readable(b: Seq<u8>, place: int, size: int, rs: Seq<RecordView>) -> bool {
    &&& 0 <= place <= place + size <= b.len()
    &&& image::parse_image(b.subrange(place, place + size)) matches Some(m) && m.records == rs
}

/// Pair `j` of the list of `n` bytes at `off` names page `i` and a place where a page with
/// these records can be read.
pub open spec fn has_page(
    b: Seq<u8>,
    off: u64,
    n: u64,
    j: int,
    i: int,
    rs: Seq<RecordView>,
) -> bool {
    &&& 0 <= 16 * j < n
    &&& codec::u64_at(b, off + 16 * j) == i
    &&& exists|size: int| #[trigger]
        readable(b, codec::u64_at(b, off + 16 * j + 8) as int, size, rs)
}

/// A page that is copied into a snapshot file goes to a place of its own behind all others,
/// which stay as they are; it is there to be read from then on. A file that cannot hold it
/// is given up.
pub proof fn law_a_copied_page_has_its_own_place(
    before: Capture,
    after: Capture,
    bytes: Seq<u8>,
    size: nat,
    offset: usize,
)
    requires
        snapshot::room_written(before, after, bytes, size, offset),
        before.data.len() <= before.next_offset,
        bytes.len() <= size,
    ensures
        after.full <==> before.full || before.next_offset + size > usize::MAX,
        after.full ==> after.data == before.data,
        !after.full ==> {
            &&& offset == before.next_offset
            &&& after.next_offset == offset + size
            &&& after.data.subrange(offset as int, offset + bytes.len()) == bytes
            &&& after.data.take(before.data.len() as int) == before.data
            &&& after.data.len() == offset + bytes.len() <= after.next_offset
        },
        after.inner == before.inner,
        after.base == before.base,
        after.mini == before.mini,
        after.mini_size == before.mini_size,
        after.root_id == before.root_id,
{
    if !after.full {
        fs::law_read_after_write(before.data, offset as int, bytes);
        let n = before.data.len() as int;
        assert(after.data.subrange(0, n) == before.data.subrange(0, n));
        assert(after.data.take(n) =~= after.data.subrange(0, n));
        assert(before.data.subrange(0, n) =~= before.data);
    }
}

/// A snapshot that was taken while nothing else ran is read back as the tree that it was
/// taken of, and taking it changed nothing in that tree but its version.
pub proof fn law_a_snapshot_is_read_back(
    before: &BfTree,
    after: &BfTree,
    b: Seq<u8>,
    use_snapshot: bool,
    wal: Option<(WalConfig, Vec<u8>)>,
    r: Result<BfTree, ConfigError>,
)
    requires
        before.wf(),
        before.snapshot_mgr is Some,
        steps::snapshot_taken(before, after),
        finalize::holds(
            b,
            before.model(),
            before.config,
            (before.snapshot_mgr->0).version(),
        ),
        steps::pages_counted(b, before),
        recovery::comes_back(b, use_snapshot, None, wal, r),
    ensures
        after@ == before@,
        after.config == before.config,
        after.wal == before.wal,
        (after.snapshot_mgr->0).version() == (before.snapshot_mgr->0).version() + 1,
        (after.snapshot_mgr->0).phase() == PhaseId::Rest,
        !(after.snapshot_mgr->0).snapshot_in_progress,
        r matches Ok(t) && {
            &&& t@ == before@
            &&& t.config.snapshot_version == (before.snapshot_mgr->0).version()
            &&& t.storage.circular_buffer.capacity == before.storage.circular_buffer.capacity
            &&& before.cache_only ==> t.model().pages.len() == before.model().pages.len()
            &&& use_snapshot ==> (t.snapshot_mgr->0).version() == (before.snapshot_mgr->0).version()
                && (t.snapshot_mgr->0).phase() == PhaseId::Rest
        },
{
}

/// While a snapshot is in progress, all threads are said to be in its next version from
/// the step on that ends the phase `InProgress`: at every moment whose phase is neither
/// `Prepare` nor `InProgress`, and once at one moment, at every later one. When the
/// snapshot is done it is said no more.
pub proof fn law_the_next_version_once_reached_stays(
    runs: Seq<SnapshotRun>,
    trees: Seq<BfTree>,
    i: int,
    j: int,
)
    requires
        steps::moments(runs, trees),
        0 <= i <= j < trees.len(),
    ensures
        trees[i].all_in_the_next_version() ==> trees[j].all_in_the_next_version(),
        trees[i].all_in_the_next_version() <==> (trees[i].snapshot_mgr->0).phase()
            != PhaseId::Prepare && (trees[i].snapshot_mgr->0).phase() != PhaseId::InProgress,
        (trees[i].snapshot_mgr->0).phase() == PhaseId::InProgress && i + 1 == j && (
        trees[j].snapshot_mgr->0).phase() != PhaseId::InProgress
            ==> trees[j].all_in_the_next_version(),
        forall|run: SnapshotRun, t: BfTree, r: StepResult| #[trigger]
            steps::stepped(&runs[i], &trees[i], &run, &t, &r) && (r is Done || r is TooLarge)
                ==> !t.all_in_the_next_version(),
{
    lemma_at(runs, trees, i);
    lemma_at(runs, trees, j);
    law_a_snapshot_gets_on(runs, trees, i, j);
    assert forall|run: SnapshotRun, t: BfTree, r: StepResult| #[trigger]
        steps::stepped(&runs[i], &trees[i], &run, &t, &r) && (r is Done
            || r is TooLarge) implies !t.all_in_the_next_version() by {}
}

/// At every moment of a snapshot it is in progress, under one of two versions.
proof fn lemma_at(runs: Seq<SnapshotRun>, trees: Seq<BfTree>, n: int)
    requires
        steps::moments(runs, trees),
        0 <= n < trees.len(),
    ensures
        trees[n].snapshot_mgr is Some,
        (trees[n].snapshot_mgr->0).snapshot_in_progress,
        (trees[n].snapshot_mgr->0).version() == runs[0].version + if (
        trees[n].snapshot_mgr->0).phase() == PhaseId::Prepare {
            0int
        } else {
            1int
        },
{
    steps::lemma_frozen_at(runs, trees, n);
}

/// From one moment to the next the phase stays or is followed by the next one.
proof fn lemma_one_step(
    run0: &SnapshotRun,
    t0: &BfTree,
    run1: &SnapshotRun,
    t1: &BfTree,
)
    requires
        steps::passes(run0, t0, run1, t1),
    ensures
        ({
            let p0 = (t0.snapshot_mgr->0).phase();
            let p1 = (t1.snapshot_mgr->0).phase();
            p1 == p0 || (p0 != PhaseId::Rest && p1 == p0.succ())
        }),
{
}

/// How far a snapshot has come when its phase is `p`.
pub open spec fn progress(p: PhaseId) -> int {
    match p {
        PhaseId::Prepare => 0,
        PhaseId::InProgress => 1,
        PhaseId::Sweep => 2,
        PhaseId::Rest => 3,
    }
}

/// A snapshot gets on from phase to phase, never back and none left out; the version goes
/// up by one as the phase `Prepare` ends and stays from then on.
pub proof fn law_a_snapshot_gets_on(
    runs: Seq<SnapshotRun>,
    trees: Seq<BfTree>,
    i: int,
    j: int,
)
    requires
        steps::moments(runs, trees),
        0 <= i <= j < trees.len(),
    ensures
        progress((trees[i].snapshot_mgr->0).phase()) <= progress(
            (trees[j].snapshot_mgr->0).phase(),
        ),
        j <= i + 1 ==> progress((trees[j].snapshot_mgr->0).phase()) <= progress(
            (trees[i].snapshot_mgr->0).phase(),
        ) + 1,
        (trees[i].snapshot_mgr->0).version() == (trees[0].snapshot_mgr->0).version() + if (
        trees[i].snapshot_mgr->0).phase() == PhaseId::Prepare {
            0int
        } else {
            1int
        },
        (trees[i].snapshot_mgr->0).snapshot_in_progress,
    decreases j,
{
    lemma_at(runs, trees, i);
    lemma_at(runs, trees, 0);
    if i < j {
        law_a_snapshot_gets_on(runs, trees, i, j - 1);
        let k = j - 1;
        assert(steps::passes(&runs[k], &trees[k], &runs[k + 1], &trees[k + 1]));
        lemma_one_step(&runs[k], &trees[k], &runs[k + 1], &trees[k + 1]);
    }
}

/// Phases are numbered in the order in which they follow one another, from `Rest` on, and
/// the number of a phase stands above the version in a state.
pub proof fn law_phases_are_numbered_in_turn(p: PhaseId, state: u64)
    ensures
        PhaseId::Rest.code() == 0,
        p.succ().code() == (p.code() + 1) % 4,
        progress(p.succ()) == (progress(p) + 1) % 4,
        snapshot::is_state(state) ==> state == snapshot::phase_of(state).code()
            * 0x2000_0000_0000_0000 + snapshot::version_of(state) && snapshot::version_of(state)
            < 0x2000_0000_0000_0000,
{
}

/// When a step of a snapshot has to wait: as long as a worker holds a slot in a state that
/// is not the present one, and, once the sweep has asked for a pause, as long as a worker
/// holds a slot at all. Otherwise it gets on, or is done in the last phase.
pub proof fn law_a_step_waits_for_workers(
    run0: &SnapshotRun,
    t0: &BfTree,
    run1: &SnapshotRun,
    t1: &BfTree,
    r: &StepResult,
)
    requires
        steps::stepped(run0, t0, run1, t1, r),
    ensures
        ({
            let m = t0.snapshot_mgr->0;
            let s = m.thread_local_states@;
            let lags = exists|i: int|
                0 <= i < s.len() && #[trigger] s[i] != INVALID_SNAPSHOT_STATE && s[i]
                    != m.global_state;
            let held = exists|i: int|
                0 <= i < s.len() && #[trigger] s[i] != INVALID_SNAPSHOT_STATE;
            &&& m.phase() != PhaseId::Sweep ==> (*r is Wait <==> lags)
            &&& m.phase() == PhaseId::Sweep && m.pause_snapshot ==> (*r is Wait <==> held)
            &&& m.phase() == PhaseId::Sweep && !m.pause_snapshot ==> (*r is Wait <==> lags || held)
            &&& *r is Advanced ==> m.phase() != PhaseId::Rest
            &&& *r is Done || *r is TooLarge ==> m.phase() == PhaseId::Rest
        }),
{
    let m = t0.snapshot_mgr->0;
    let s = m.thread_local_states@;
    if !SnapshotRun::entered(t0) {
        let i = choose|i: int|
            0 <= i < s.len() && !(#[trigger] s[i] == INVALID_SNAPSHOT_STATE || s[i]
                == m.global_state);
        assert(s[i] != INVALID_SNAPSHOT_STATE && s[i] != m.global_state);
    }
    if !SnapshotRun::drained(t0) {
        let i = choose|i: int|
            0 <= i < s.len() && !(#[trigger] s[i] == INVALID_SNAPSHOT_STATE);
        assert(s[i] != INVALID_SNAPSHOT_STATE);
    }
}

/// The first free slot from `start` on, going round: nobody holds it, and every slot that
/// comes before it is held.
pub proof fn law_the_first_free_slot(slots: Seq<bool>, start: int, tid: int, i: int)
    requires
        0 <= start < 64,
        0 <= tid < 64,
        snapshot::is_first_free(slots, start, tid),
    ensures
        !slots[tid],
        start <= i < tid ==> slots[i],
        tid < start && (start <= i < 64 || 0 <= i < tid) ==> slots[i],
{
    let n = 64int;
    let k = choose|k: int|
        #![trigger slots[k % n]]
        start <= k < 2 * n && k % n == tid && !slots[k % n] && forall|h: int|
            start <= h < k ==> #[trigger] slots[h % n];
    if start <= k < 2 * n {
        if start <= i < tid {
            assert(slots[i % n]);
        }
        if tid < start && start <= i < 64 {
            assert(slots[i % n]);
        }
        if tid < start && 0 <= i < tid {
            assert(slots[(i + n) % n]);
        }
    }
}

/// A worker is given a slot that nobody holds. It runs in the state that the coordinator is
/// in, and its slot is held from then on. It is turned away only if every slot is held or a
/// pause has been asked for.
pub proof fn law_a_worker_is_given_a_free_slot(
    m: CPRSnapShotMgr,
    after: Option<CPRSnapShotMgr>,
    r: Result<CPRSnapshotGuard, ()>,
)
    requires
        m.wf(),
        snapshot::guard_taken(Some(m), after, r),
    ensures
        r is Err <==> m.pause_snapshot || forall|i: int| 0 <= i < 64 ==> #[trigger]
            m.thread_slots@[i],
        r is Err ==> after == Some(m),
        r matches Ok(g) ==> {
            let s0 = m.thread_slots@;
            let s1 = (after->0).thread_slots@;
            let tid = g.thread_slot_id as int;
            &&& 0 <= tid < 64
            &&& !s0[tid] && s1[tid]
            &&& forall|i: int| 0 <= i < 64 && i != tid ==> #[trigger] s1[i] == s0[i]
            &&& (after->0).thread_local_states@[tid] == m.global_state
            &&& g.snapshot_version == m.global_state % 0x2000_0000_0000_0000
            &&& g.phase_id.code() == m.global_state / 0x2000_0000_0000_0000
            &&& (after->0).global_state == m.global_state
        },
{
}

/// Where there are no snapshots a worker goes on without a slot, in no version and in the
/// phase `Rest`.
pub proof fn law_without_snapshots_no_slot_is_held(
    after: Option<CPRSnapShotMgr>,
    r: Result<CPRSnapshotGuard, ()>,
)
    requires
        snapshot::guard_taken(None, after, r),
    ensures
        after is None,
        r matches Ok(g) && g.thread_slot_id == usize::MAX && g.snapshot_version
            == 0x7fff_ffff_ffff_ffff && g.phase_id == PhaseId::Rest,
{
}

/// What a worker notes of a page that it copied comes last in its own list; the lists of
/// the others stay as they are.
pub proof fn law_each_worker_notes_its_own(
    m: Seq<Seq<(PageID, usize)>>,
    tid: int,
    e: (PageID, usize),
    i: int,
)
    requires
        0 <= tid < m.len(),
        0 <= i < m.len(),
    ensures
        snapshot::entry_added(m, tid, e).len() == m.len(),
        snapshot::entry_added(m, tid, e)[tid] == m[tid].push(e),
        i != tid ==> snapshot::entry_added(m, tid, e)[i] == m[i],
{
}

/// Which note of a page counts when several were made: the first one of the worker with
/// the least slot that made one, and one of the sweep only if no worker made any.
pub proof fn law_which_note_of_a_page_counts(
    local: Seq<Seq<(PageID, usize)>>,
    swept: Seq<(PageID, usize)>,
    id: PageID,
    s: int,
    i: int,
)
    requires
        0 <= s <= local.len(),
        forall|t: int| 0 <= t < s ==> !run::listed(#[trigger] local[t], id),
    ensures
        s < local.len() && 0 <= i < local[s].len() && local[s][i].0 == id && (forall|k: int|
            0 <= k < i ==> (#[trigger] local[s][k]).0 != id) ==> places::place_of(local, swept, id)
            == Some(local[s][i].1),
        s == local.len() && 0 <= i < swept.len() && swept[i].0 == id && (forall|k: int|
            0 <= k < i ==> (#[trigger] swept[k]).0 != id) ==> places::place_of(local, swept, id)
            == Some(swept[i].1),
        s == local.len() && !run::listed(swept, id) ==> places::place_of(local, swept, id) is None,
{
    places::lemma_first_of(local, id);
    places::lemma_first_in(swept, id);
    if s < local.len() && 0 <= i < local[s].len() && local[s][i].0 == id {
        assert(run::listed(local[s], id));
        assert(capture::has_entry(local, id));
    }
    if capture::has_entry(local, id) {
        let off = places::first_of(local, id)->0;
        let t = choose|t: int|
            0 <= t < local.len() && places::first_in(#[trigger] local[t], id) == Some(off)
                && forall|k: int| 0 <= k < t ==> !run::listed(#[trigger] local[k], id);
        places::lemma_first_in(local[t], id);
        let k = choose|k: int|
            0 <= k < local[t].len() && #[trigger] local[t][k] == (id, off) && forall|h: int|
                0 <= h < k ==> (#[trigger] local[t][h]).0 != id;
        if s < local.len() && 0 <= i < local[s].len() && local[s][i].0 == id {
            assert(t == s) by {
                if t < s {
                    assert(!run::listed(local[t], id));
                } else if s < t {
                    assert(!run::listed(local[s], id));
                }
            }
            if k < i {
                assert(local[s][k].0 == id);
            }
        }
    }
}

/// The pages that a list leads to are those that were noted, by ascending number, each
/// with its place; an evicted page has the greatest number for one.
pub proof fn law_a_list_names_what_was_noted(
    local: Seq<Seq<(PageID, usize)>>,
    swept: Seq<(PageID, usize)>,
    n: nat,
    i: int,
)
    requires
        0 <= i < n <= 0x800_0000,
    ensures
        ({
            let l = places::listing(local, swept, 0, n);
            let off = places::place_of(local, swept, PageID::leaf(i));
            &&& places::has_id(l, i as u64) <==> off is Some
            &&& forall|j: int|
                0 <= j < l.len() && (#[trigger] l[j]).0 == i ==> l[j].1 == (if off
                    == Some(usize::MAX) {
                    u64::MAX
                } else {
                    off->0 as u64
                })
            &&& forall|j: int, k: int|
                0 <= j < k < l.len() ==> (#[trigger] l[j]).0 < (#[trigger] l[k]).0
        }),
{
    let table = places::place_table(local, swept, 0, n);
    places::lemma_places(table, 0);
    assert(table[i] == places::place_of(local, swept, PageID::leaf(i)));
    let l = places::listing(local, swept, 0, n);
    if places::has_id(l, i as u64) {
        let j = choose|j: int| 0 <= j < l.len() && (#[trigger] l[j]).0 == i as u64;
        assert(table[l[j].0 - 0] is Some);
    }
}

/// The lists of a snapshot file follow each other: inner nodes, delta pages, their sizes,
/// pages on disk. The file ends with the sector that the last one ends in.
pub proof fn law_where_a_snapshot_file_ends(m: BfTreeMeta)
    ensures
        ({
            let end = finalize::lists_end(m);
            &&& m.base_size > 0 ==> m.base_offset + m.base_size <= end < m.base_offset
                + m.base_size + 512
            &&& m.base_size == 0 && m.mini_size_size > 0 ==> m.mini_size_offset + m.mini_size_size
                <= end < m.mini_size_offset + m.mini_size_size + 512
            &&& m.base_size == 0 && m.mini_size_size == 0 && m.mini_size == 0 && m.inner_size > 0
                ==> m.inner_offset + m.inner_size <= end < m.inner_offset + m.inner_size + 512
            &&& m.base_size == 0 && m.mini_size_size == 0 && m.mini_size == 0 && m.inner_size == 0
                ==> end == 512
        }),
{
}

/// A sweep copies every inner node and every page on disk that is of an earlier version,
/// every delta page that is, and no other.
pub proof fn law_a_sweep_copies_what_is_older(
    c: Core,
    cache_only: bool,
    version: u64,
    l: run::Lists,
    i: int,
)
    requires
        run::lists_exact(c, cache_only, version, l),
        c.pages.len() <= 0x800_0000,
        c.sk.nodes.len() <= 0x800_0000,
        0 <= i <= 0x800_0000,
    ensures
        i < c.sk.nodes.len() ==> (run::listed(l.inner, PageID::inner(i))
            <==> c.sk.nodes[i].version < version),
        i < c.pages.len() ==> {
            let s = c.pages[i];
            &&& run::listed(l.base, PageID::leaf(i)) <==> s.version() < version && (s is Base
                || s is Full || (s matches PageState::Mini(_, Some(_))))
            &&& run::listed(l.mini, PageID::leaf(i)) <==> s.version() < version && (s is Mini || (
            s is Null && cache_only))
        },
{
    lemma_nodes_below(c, version, c.sk.nodes.len(), i);
    lemma_pages_below(c, cache_only, version, c.pages.len(), i);
    lemma_listed(l.inner, PageID::inner(i));
    lemma_listed(l.base, PageID::leaf(i));
    lemma_listed(l.mini, PageID::leaf(i));
}

proof fn lemma_listed(l: Seq<(PageID, usize)>, id: PageID)
    ensures
        run::listed(l, id) <==> run::ids(l).contains(id),
{
    if run::listed(l, id) {
        let j = choose|j: int| 0 <= j < l.len() && (#[trigger] l[j]).0 == id;
        assert(run::ids(l)[j] == id);
    }
    if run::ids(l).contains(id) {
        let j = choose|j: int| 0 <= j < run::ids(l).len() && run::ids(l)[j] == id;
        assert(l[j].0 == id);
    }
}

proof fn lemma_pushed<A>(s: Seq<A>, x: A, y: A)
    ensures
        s.push(x).contains(y) <==> s.contains(y) || x == y,
{
    if s.contains(y) {
        let j = choose|j: int| 0 <= j < s.len() && s[j] == y;
        assert(s.push(x)[j] == y);
    }
    assert(s.push(x)[s.len() as int] == x);
}

proof fn lemma_nodes_below(c: Core, version: u64, n: nat, i: int)
    requires
        n <= 0x800_0000,
        0 <= i <= 0x800_0000,
    ensures
        run::nodes_below(c, version, n).contains(PageID::inner(i)) <==> i < n
            && c.sk.nodes[i].version < version,
    decreases n,
{
    if n > 0 {
        lemma_nodes_below(c, version, (n - 1) as nat, i);
        lemma_pushed(
            run::nodes_below(c, version, (n - 1) as nat),
            PageID::inner(n - 1),
            PageID::inner(i),
        );
    }
}

proof fn lemma_pages_below(c: Core, cache_only: bool, version: u64, n: nat, i: int)
    requires
        n <= 0x800_0000,
        0 <= i <= 0x800_0000,
    ensures
        run::bases_below(c, version, n).contains(PageID::leaf(i)) <==> i < n
            && c.pages[i].version() < version && capture::base_image(c.pages[i]) is Some,
        run::minis_below(c, cache_only, version, n).contains(PageID::leaf(i)) <==> i < n
            && c.pages[i].version() < version && (c.pages[i] is Mini || (c.pages[i] is Null
            && cache_only)),
    decreases n,
{
    if n > 0 {
        let m = (n - 1) as nat;
        lemma_pages_below(c, cache_only, version, m, i);
        lemma_pushed(run::bases_below(c, version, m), PageID::leaf(n - 1), PageID::leaf(i));
        lemma_pushed(
            run::minis_below(c, cache_only, version, m),
            PageID::leaf(n - 1),
            PageID::leaf(i),
        );
    }
}

} // verus!
