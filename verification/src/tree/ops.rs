//! The operations of the tree: creation, insertion, deletion and reading.
use vstd::prelude::*;

use crate::circular_buffer::CircularBuffer;
use crate::codec;
use crate::codec::copy_into;
use crate::config::Config;
use crate::error::ConfigError;
use crate::model;
use crate::model::{Core, Params};
use crate::nodes::image;
use crate::nodes::image::{LeafRecord, RecordView};
use crate::nodes::leaf_node;
use crate::nodes::leaf_node::{LeafNode, LeafReadResult};
use crate::nodes::{OpType, PageID};
use crate::order;
use crate::order::to_vec;
use crate::snapshot;
use crate::snapshot::capture;
use crate::snapshot::{CPRSnapShotMgr, CPRSnapshotGuard, PhaseId, INVALID_SNAPSHOT_VERSION};
use crate::storage::{LeafStorage, PageLocation, PAGE_LIMIT};
use crate::tree;
use crate::tree::evict;
use crate::tree::evict::PageKind;
use crate::tree::growth;
use crate::tree::leaf_ops;
use crate::tree::merge;
use crate::tree::{BfTree, Shape};
use crate::utils::mapping_table::MappingTable;
use crate::wal::log::WriteAheadLog;
use crate::wal::operations;
use crate::wal::operations::{WriteOp, WRITE_OP_HEADER_SIZE};
use crate::wal::reader::LogEntry;

verus! {

/// What came of an insertion.
#[derive(Debug, Clone, Copy, PartialEq, Eq, Structural)]
pub enum LeafInsertResult {
    Success,
    /// The key or the record is longer or shorter than the tree allows.
    InvalidKV,
}

/// The coordinator after an operation: no slot is held that was not held
/// before, and captures are made only while a snapshot asks for them.
pub open spec fn mgr_after(before: Option<CPRSnapShotMgr>, after: Option<CPRSnapShotMgr>) -> bool {
    match before {
        None => after is None,
        Some(m) => {
            &&& after is Some
            &&& (after->0).global_state == m.global_state
            &&& (after->0).thread_slots@ == m.thread_slots@
            &&& (after->0).thread_local_states@ == m.thread_local_states@
            &&& (after->0).pause_snapshot == m.pause_snapshot
            &&& (after->0).snapshot_in_progress == m.snapshot_in_progress
            &&& (after->0).frozen == m.frozen
            &&& !m.phase().captures() ==> (after->0).capture() == m.capture()
        },
    }
}

/// Slots have no part in what keeps tree and snapshot together.
proof fn lemma_cpr_slots(
    c: Core,
    before: Option<CPRSnapShotMgr>,
    after: Option<CPRSnapShotMgr>,
    p: Params,
)
    requires
        tree::cpr_ok(c, before, p),
        before is None <==> after is None,
        before is Some ==> (after->0).wf() && (after->0).only_slots_differ(&before->0),
    ensures
        tree::cpr_ok(c, after, p),
{
}

/// What storing a record does to the keys that readers see.
pub proof fn lemma_view_stored(before: Core, after: Core, r: RecordView)
    requires
        merge::record_stored(before, after, r),
    ensures
        r.op == OpType::Insert ==> after.view() == before.view().insert(r.key, r.value),
        r.op == OpType::Delete ==> after.view() == before.view().remove(r.key),
{
    assert forall|k: Seq<u8>| #[trigger] after.view().dom().contains(k) == if k == r.key {
        r.op.is_live()
    } else {
        before.view().dom().contains(k)
    } by {
        assert(leaf_node::live(after.find(k)) == leaf_node::live(
            if k == r.key {
                Some(r)
            } else {
                before.find(k)
            },
        ));
    }
    assert forall|k: Seq<u8>| after.view().dom().contains(k) implies #[trigger] after.view()[k]
        == (if k == r.key {
        r.value
    } else {
        before.view()[k]
    }) by {
        assert(leaf_node::live(after.find(k)) == leaf_node::live(
            if k == r.key {
                Some(r)
            } else {
                before.find(k)
            },
        ));
    }
    if r.op == OpType::Insert {
        assert(after.view() =~= before.view().insert(r.key, r.value));
    }
    if r.op == OpType::Delete {
        assert(after.view() =~= before.view().remove(r.key));
    }
}

/// What readers see of a tree when room has been made in its cache.
pub proof fn lemma_view_left(before: &BfTree, after: Core)
    requires
        evict::left_over(before, after),
    ensures
        after.view() == before.left(),
{
    let old = before.model();
    assert forall|k: Seq<u8>| #[trigger] after.view().dom().contains(k) == before.left().dom().contains(
    k) by {
        assert(leaf_node::live(after.find(k)) == if before.forgets(k) {
            None
        } else {
            leaf_node::live(old.find(k))
        });
    }
    assert forall|k: Seq<u8>| after.view().dom().contains(k) implies #[trigger] after.view()[k]
        == before.left()[k] by {
        assert(leaf_node::live(after.find(k)) == leaf_node::live(old.find(k)));
    }
    assert(after.view() =~= before.left());
}

impl View for BfTree {
    type V = Map<Seq<u8>, Seq<u8>>;

    /// The keys that are present, with their values.
    open spec fn view(&self) -> Map<Seq<u8>, Seq<u8>> {
        self.model().view()
    }
}

impl BfTree {
    /// An operation can be admitted.
    pub open spec fn admits(&self) -> bool {
        self.snapshot_mgr matches Some(m) ==> m.admits()
    }

    /// The pages that there are, and those that there may be once all cached pages
    /// are back on disk: each may have to be cut in two.
    pub open spec fn load(&self) -> nat {
        self.storage.page_table@.len() + if self.cache_only {
            0
        } else {
            self.storage.circular_buffer.entries@.len()
        }
    }

    /// The configuration is as in `other`, and the coordinator did nothing but
    /// capture.
    pub open spec fn settled(&self, other: &BfTree) -> bool {
        &&& self.config == other.config
        &&& self.cache_only == other.cache_only
        &&& mgr_after(other.snapshot_mgr, self.snapshot_mgr)
    }

    /// A record of `n` bytes can be logged, where operations are logged.
    pub open spec fn log_admits(&self, n: nat) -> bool {
        self.wal matches Some(w) ==> w.wf() && w.admits(n + WRITE_OP_HEADER_SIZE as nat)
    }

    /// Operation `r` has been logged, where operations are logged: it is the
    /// last entry, and in the log file.
    pub open spec fn logged(&self, other: &BfTree, r: RecordView) -> bool {
        match other.wal {
            None => self.wal is None,
            Some(w) => {
                &&& self.wal is Some
                &&& (self.wal->0).wf()
                &&& (self.wal->0).durable()
                &&& (self.wal->0).config == w.config
                &&& (self.wal->0)@ == w@.push(
                    LogEntry {
                        lsn: w.inner.next_lsn,
                        page_offset: other.model().leaf_of(r.key) as u64,
                        data: operations::op_bytes(r),
                    },
                )
                &&& (self.wal->0).inner.next_lsn == w.inner.next_lsn + 1
                &&& (self.wal->0).inner.file_offset <= w.inner.file_offset + 2
                    * w.config.segment_size
            },
        }
    }

    /// An operation that the tree carries out.
    pub open spec fn takes(&self, r: RecordView) -> bool {
        match r.op {
            OpType::Insert => self.config.valid_kv(r.key, r.value),
            OpType::Delete => r.key.len() <= self.config.key_max() && r.value.len() == 0,
            _ => false,
        }
    }

    /// What is logged of an operation before it is carried out: the leaf page
    /// that it goes to, and the operation as bytes. Nothing is logged of one
    /// that is refused.
    pub fn log_record(&self, op: &WriteOp<'_>) -> (r: Option<(u64, Vec<u8>)>)
        requires
            self.wf(),
        ensures
            r is Some <==> self.takes(op@),
            r matches Some((page, bytes)) ==> {
                &&& page == self.model().leaf_of(op@.key)
                &&& bytes@ == operations::op_bytes(op@)
            },
    {
        let k_len = op.key.len();
        let v_len = op.value.len();
        if k_len > self.config.max_fence_len / 2 {
            return None;
        }
        match op.op_type {
            OpType::Insert => {
                if v_len > self.config.cb_max_record_size || k_len + v_len
                    > self.config.cb_max_record_size || k_len + v_len
                    < self.config.cb_min_record_size {
                    return None;
                }
            },
            OpType::Delete => {
                if v_len > 0 {
                    return None;
                }
            },
            _ => {
                return None;
            },
        }
        Some((self.find_leaf(op.key), op.to_bytes()))
    }

    /// Logs an operation, and takes the log out of the tree.
    fn log_write(&mut self, op: &WriteOp<'_>) -> (r: Option<WriteAheadLog>)
        requires
            old(self).wf(),
            old(self).takes(op@),
            old(self).log_admits(op@.key.len() + op@.value.len()),
        ensures
            *final(self) == (BfTree { wal: None, ..*old(self) }),
            (BfTree { wal: r, ..*old(self) }).logged(old(self), op@),
    {
        let mut wal: Option<WriteAheadLog> = None;
        std::mem::swap(&mut wal, &mut self.wal);
        match &mut wal {
            None => {},
            Some(w) => {
                if let Some((page, bytes)) = self.log_record(op) {
                    assert(bytes@.len() == op.key@.len() + op.value@.len() + WRITE_OP_HEADER_SIZE)
                        by {
                        codec::lemma_le16(op.key@.len() as u16);
                        codec::lemma_le16(op.value@.len() as u16);
                    }
                    let _lsn = w.append_and_wait(bytes.as_slice(), page);
                }
            },
        }
        wal
    }

    /// Takes a guard for an operation.
    pub(crate) fn enter(&mut self) -> (g: CPRSnapshotGuard)
        requires
            old(self).wf(),
            old(self).admits(),
        ensures
            final(self).wf(),
            final(self).guard_ok(&g),
            final(self).model() == old(self).model(),
            final(self).config == old(self).config,
            final(self).cache_only == old(self).cache_only,
            final(self).wal == old(self).wal,
            final(self).storage == old(self).storage,
            snapshot::guard_taken(
                old(self).snapshot_mgr,
                final(self).snapshot_mgr,
                Ok::<CPRSnapshotGuard, ()>(g),
            ),
    {
        let start: usize = (self.lottery % 64) as usize;
        let ghost before = self.snapshot_mgr;
        let ghost c = self.model();
        let ghost p = self.params();
        match CPRSnapShotMgr::get_snapshot_guard(&mut self.snapshot_mgr, start) {
            Ok(g) => {
                proof {
                    lemma_cpr_slots(c, before, self.snapshot_mgr, p);
                    assert(self.model() == c);
                }
                g
            },
            Err(_) => {
                assert(false);
                CPRSnapshotGuard {
                    thread_slot_id: 0,
                    snapshot_version: 0,
                    phase_id: PhaseId::Rest,
                }
            },
        }
    }

    /// Gives the guard back.
    pub(crate) fn leave(&mut self, g: CPRSnapshotGuard)
        requires
            old(self).wf(),
            old(self).guard_ok(&g),
        ensures
            final(self).wf(),
            final(self).model() == old(self).model(),
            final(self).config == old(self).config,
            final(self).cache_only == old(self).cache_only,
            final(self).wal == old(self).wal,
            final(self).storage == old(self).storage,
            match old(self).snapshot_mgr {
                None => final(self).snapshot_mgr is None,
                Some(m) => {
                    &&& final(self).snapshot_mgr is Some
                    &&& (final(self).snapshot_mgr->0).only_slots_differ(&m)
                    &&& (final(self).snapshot_mgr->0).thread_slots@ == m.thread_slots@.update(
                        g.thread_slot_id as int,
                        false,
                    )
                    &&& (final(self).snapshot_mgr->0).thread_local_states@
                        == m.thread_local_states@.update(
                        g.thread_slot_id as int,
                        snapshot::INVALID_SNAPSHOT_STATE,
                    )
                },
            },
    {
        let ghost before = self.snapshot_mgr;
        let ghost c = self.model();
        let ghost p = self.params();
        match &mut self.snapshot_mgr {
            None => {},
            Some(m) => {
                m.release_thread_slot(g.thread_slot_id);
            },
        }
        proof {
            lemma_cpr_slots(c, before, self.snapshot_mgr, p);
            assert(self.model() == c);
        }
    }

    /// Creates an empty tree.
    pub fn with_config(config: Config) -> (r: Result<BfTree, ConfigError>)
        requires
            config.write_ahead_log matches Some(w) ==> w.ok(),
        ensures
            r is Ok <==> config.ok(),
            r matches Err(e) ==> e == config.first_error(),
            r matches Ok(t) ==> {
                &&& t.wf()
                &&& t@ == Map::<Seq<u8>, Seq<u8>>::empty()
                &&& t.config == config
                &&& t.load() == 1
                &&& t.storage.circular_buffer.used == 0
                &&& t.storage.circular_buffer.entries@.len() == 0
                &&& t.admits()
                &&& t.snapshot_mgr is Some <==> config.use_snapshot
                &&& t.snapshot_mgr matches Some(m) ==> m.phase() == PhaseId::Rest && m.version()
                    == config.snapshot_version && !m.snapshot_in_progress && !m.pause_snapshot
                    && m.idle()
                &&& match config.write_ahead_log {
                    None => t.wal is None,
                    Some(w) => t.wal is Some && (t.wal->0).is_fresh(w),
                }
            },
    {
        match config.validate() {
            Err(e) => Err(e),
            Ok(_) => Ok(BfTree::create(config)),
        }
    }

    fn create(config: Config) -> (t: BfTree)
        requires
            config.ok(),
            config.write_ahead_log matches Some(w) ==> w.ok(),
        ensures
            t.wf(),
            t@ == Map::<Seq<u8>, Seq<u8>>::empty(),
            t.config == config,
            t.load() == 1,
            t.storage.circular_buffer.used == 0,
            t.storage.circular_buffer.entries@.len() == 0,
            t.admits(),
            t.snapshot_mgr is Some <==> config.use_snapshot,
            t.snapshot_mgr matches Some(m) ==> m.phase() == PhaseId::Rest && m.version()
                == config.snapshot_version && !m.snapshot_in_progress && !m.pause_snapshot
                && m.idle(),
            match config.write_ahead_log {
                None => t.wal is None,
                Some(w) => t.wal is Some && (t.wal->0).is_fresh(w),
            },
    {
        let wal = match config.write_ahead_log {
            None => None,
            Some(w) => Some(WriteAheadLog::create(w)),
        };
        let snapshot_mgr = if config.use_snapshot {
            Some(CPRSnapShotMgr::new(config.snapshot_version))
        } else {
            None
        };
        let version: u64 = if config.use_snapshot {
            config.snapshot_version
        } else {
            INVALID_SNAPSHOT_VERSION
        };
        let root_page = if config.cache_only {
            PageLocation::Null(version)
        } else {
            PageLocation::Base(LeafNode::make_base_page(config.leaf_page_size, version))
        };
        let mut page_table: MappingTable<PageLocation> = MappingTable::default();
        let (_root_id, _) = page_table.insert(root_page);
        let circular_buffer = CircularBuffer::new(config.cb_size_byte);
        let t = BfTree {
            config,
            cache_only: config.cache_only,
            storage: LeafStorage { page_table, circular_buffer },
            inners: Vec::new(),
            root: PageID::from_id(0),
            snapshot_mgr,
            lottery: 0x5851_f42d_4c95_7f2d,
            wal,
            shape: Ghost(Shape { levels: Seq::empty(), ranges: Seq::empty() }),
        };
        proof {
            let c = t.model();
            let p = t.params();
            config.lemma_params();
            assert(c.pages =~= seq![root_page@]);
            assert forall|k: Seq<u8>| #[trigger] c.leaf_of(k) == 0 by {}
            assert forall|k: Seq<u8>| #[trigger] root_page@.find(k) is None by {}
            assert(c.sk.links_apart());
            assert(model::total_keys(c.sk.nodes) == 0);
            assert(root_page@.ok(p));
            assert forall|i: int, k: Seq<u8>|
                #![trigger c.pages[i].holds_key(k)]
                0 <= i < c.pages.len() && c.pages[i].holds_key(k) implies c.leaf_of(k) == i by {
                assert(root_page@.find(k) is None);
            }
            if !p.cache_only {
                assert forall|i: int, k: Seq<u8>|
                    #![trigger c.pages[i].fence().contains(k)]
                    0 <= i < c.pages.len() && !(c.pages[i] is Null) implies (
                c.pages[i].fence().contains(k) <==> c.leaf_of(k) == i) by {
                    order::lemma_lex_empty_least(k);
                }
            }
            assert(c.wf(p));
            assert(tree::cpr_ok(c, t.snapshot_mgr, p));
            assert forall|k: Seq<u8>| #[trigger] c.find(k) is None by {}
            assert(t@ =~= Map::<Seq<u8>, Seq<u8>>::empty());
        }
        t
    }

    /// A tree with the default configuration.
    pub fn default() -> (r: BfTree)
        ensures
            r.wf(),
            r@ == Map::<Seq<u8>, Seq<u8>>::empty(),
            r.config == crate::config::default_config(),
            r.load() == 1,
            r.admits(),
            r.snapshot_mgr is None,
            r.wal is None,
    {
        BfTree::create(Config::default())
    }
}

/// Searches find the same where neither pages nor ways to them changed.
pub(crate) proof fn lemma_found_same(before: Core, after: Core)
    requires
        after.pages == before.pages,
        forall|k: Seq<u8>| #[trigger] after.leaf_of(k) == before.leaf_of(k),
    ensures
        forall|k: Seq<u8>| #[trigger] after.find(k) == before.find(k),
{
    assert forall|k: Seq<u8>| #[trigger] after.find(k) == before.find(k) by {
        assert(after.leaf_of(k) == before.leaf_of(k));
    }
}

/// Storing after a change that readers do not see.
proof fn lemma_stored_through(before: Core, mid: Core, after: Core, r: RecordView)
    requires
        forall|k: Seq<u8>|
            leaf_node::live(#[trigger] mid.find(k)) == leaf_node::live(before.find(k)),
        merge::record_stored(mid, after, r),
    ensures
        merge::record_stored(before, after, r),
{
    assert forall|k: Seq<u8>|
        leaf_node::live(#[trigger] after.find(k)) == leaf_node::live(
            if k == r.key {
                Some(r)
            } else {
                before.find(k)
            },
        ) by {
        assert(leaf_node::live(mid.find(k)) == leaf_node::live(before.find(k)));
    }
}

/// Record `r` has been stored in what was left of the tree.
pub open spec fn stored_after_eviction(
    before: &BfTree,
    after: Core,
    r: RecordView,
) -> bool {
    exists|mid: Core| #[trigger]
        evict::left_over(before, mid) && merge::record_stored(mid, after, r)
}

impl BfTree {
    /// Stores a record where the guard's operation finds its place.
    fn store(&mut self, g: &CPRSnapshotGuard, rec: LeafRecord)
        requires
            old(self).wf(),
            old(self).guard_ok(g),
            leaf_ops::rec_ok(rec@, old(self).params()),
            old(self).load() + 4 <= PAGE_LIMIT,
            old(self).storage.circular_buffer.used + 2 * old(self).config.leaf_page_size
                <= old(self).storage.circular_buffer.capacity,
        ensures
            final(self).wf(),
            final(self).guard_ok(g),
            final(self).same_settings(old(self)),
            final(self).load() <= old(self).load() + 4,
            growth::grown(
                old(self).model(),
                final(self).model(),
                old(self)@.dom().insert(rec@.key),
            ),
            final(self).storage.circular_buffer.used <= old(self).storage.circular_buffer.used
                + 2 * old(self).config.leaf_page_size,
            merge::record_stored(old(self).model(), final(self).model(), rec@),
    {
        let ghost c = self.model();
        let ghost p = self.params();
        let ghost keys = c.view().dom().insert(rec@.key);
        proof {
            self.config.lemma_params();
            assert(keys.union(keys) =~= keys);
        }
        let key = to_vec(rec.key.as_slice());
        let cap = self.config.record_capacity();
        let size: usize = image::KV_META_SIZE + rec.key.len() + rec.value.len();
        let d = self.traverse_to_leaf(g, key.as_slice(), false);
        let pid = d.pid;
        let is_root = d.parent.is_none();
        assert(c.pages[pid as int].ok(p));
        let (kind, used) = self.page_kind(pid);
        if self.cache_only {
            match kind {
                PageKind::Mini => {
                    if used + size <= cap {
                        self.store_delta(g, pid, rec);
                        proof {
                            growth::lemma_not_grown(c, self.model(), keys);
                        }
                    } else {
                        let d2 = self.traverse_to_leaf(g, key.as_slice(), true);
                        proof {
                            lemma_found_same(c, self.model());
                            assert(self.model().leaf_of(key@) == c.leaf_of(key@));
                        }
                        let ghost c1 = self.model();
                        self.store_overflow(g, &d2, rec);
                        proof {
                            lemma_stored_through(c, c1, self.model(), rec@);
                            evict::lemma_same_live(c, c1);
                            growth::lemma_not_grown(c, c1, keys);
                            growth::lemma_grown_twice(c, c1, self.model(), keys, keys);
                        }
                    }
                },
                PageKind::Null | PageKind::Base | PageKind::Full => {
                    self.store_delta(g, pid, rec);
                    proof {
                        growth::lemma_not_grown(c, self.model(), keys);
                    }
                },
            }
            return;
        }
        if is_root {
            if used + size <= cap {
                self.store_whole(g, pid, rec);
                proof {
                    growth::lemma_not_grown(c, self.model(), keys);
                }
            } else {
                self.store_overflow(g, &d, rec);
            }
            return;
        }
        match kind {
            PageKind::Full => {
                if used + size <= cap {
                    self.store_whole(g, pid, rec);
                } else {
                    self.write_back(g, pid);
                    let ghost c1 = self.model();
                    assert(c1.leaf_of(key@) == c.leaf_of(key@));
                    self.store_delta(g, pid, rec);
                    proof {
                        lemma_stored_through(c, c1, self.model(), rec@);
                        assert forall|k: Seq<u8>| #[trigger] self.model().leaf_of(k) == c.leaf_of(
                            k,
                        ) by {
                            assert(c1.leaf_of(k) == c.leaf_of(k));
                        }
                    }
                }
                proof {
                    growth::lemma_not_grown(c, self.model(), keys);
                }
            },
            PageKind::Mini => {
                let limit: usize = if self.config.max_mini_page_size < cap / 2 {
                    self.config.max_mini_page_size
                } else {
                    cap / 2
                };
                if used + size <= limit {
                    self.store_delta(g, pid, rec);
                    proof {
                        growth::lemma_not_grown(c, self.model(), keys);
                    }
                } else {
                    let d2 = self.traverse_to_leaf(g, key.as_slice(), true);
                    let ghost c1 = self.model();
                    proof {
                        lemma_found_same(c, c1);
                        assert(c1.leaf_of(key@) == c.leaf_of(key@));
                        assert(d2.parent is Some);
                    }
                    let _r = self.try_merge_mini_page(g, &d2, Ghost(key@));
                    let ghost c2 = self.model();
                    let d3 = self.traverse_to_leaf(g, key.as_slice(), false);
                    proof {
                        assert(c2.leaf_of(key@) == d3.pid);
                        assert(c2.pages[d3.pid as int] is Base);
                        assert forall|k: Seq<u8>|
                            leaf_node::live(#[trigger] c2.find(k)) == leaf_node::live(
                                c.find(k),
                            ) by {
                            assert(leaf_node::live(c2.find(k)) == leaf_node::live(c1.find(k)));
                        }
                    }
                    self.store_delta(g, d3.pid, rec);
                    proof {
                        lemma_stored_through(c, c2, self.model(), rec@);
                        evict::lemma_same_live(c, c1);
                        growth::lemma_not_grown(c, c1, keys);
                        growth::lemma_grown_more(c1, c2, c.view().dom(), keys);
                        growth::lemma_grown_twice(c, c1, c2, keys, keys);
                        growth::lemma_not_grown(c2, self.model(), keys);
                        growth::lemma_grown_twice(c, c2, self.model(), keys, keys);
                    }
                }
            },
            PageKind::Base | PageKind::Null => {
                self.store_delta(g, pid, rec);
                proof {
                    growth::lemma_not_grown(c, self.model(), keys);
                }
            },
        }
    }

    /// Stores a record: makes room in the cache first.
    fn put_record(&mut self, rec: LeafRecord)
        requires
            old(self).wf(),
            old(self).admits(),
            leaf_ops::rec_ok(rec@, old(self).params()),
            old(self).load() + 4 <= PAGE_LIMIT,
        ensures
            final(self).wf(),
            final(self).settled(old(self)),
            final(self).admits(),
            final(self).load() <= old(self).load() + 4,
            stored_after_eviction(&*old(self), final(self).model(), rec@),
            growth::grown(
                old(self).model(),
                final(self).model(),
                old(self)@.dom().insert(rec@.key),
            ),
            final(self).model().find(rec@.key) == Some(rec@),
            old(self).has_space() ==> merge::record_stored(
                old(self).model(),
                final(self).model(),
                rec@,
            ) && final(self).storage.circular_buffer.used
                <= old(self).storage.circular_buffer.used + 2 * old(self).config.leaf_page_size,
    {
        let g = self.enter();
        let ghost entered = *self;
        self.make_room(&g);
        let ghost mid = self.model();
        let ghost key = rec@.key;
        self.store(&g, rec);
        let ghost stored = self.model();
        self.leave(g);
        proof {
            assert(evict::left_over(&*old(self), mid)) by {
                assert(entered.model() == old(self).model());
                assert forall|k: Seq<u8>| #[trigger] entered.forgets(k) == old(self).forgets(k) by {}
                assert forall|k: Seq<u8>|
                    leaf_node::live(#[trigger] mid.find(k)) == if old(self).forgets(k) {
                        None
                    } else {
                        leaf_node::live(old(self).model().find(k))
                    } by {
                    assert(entered.forgets(k) == old(self).forgets(k));
                }
            }
            let keys = old(self)@.dom().insert(key);
            lemma_view_left(&*old(self), mid);
            old(self).lemma_left();
            assert(mid.view().dom().insert(key).subset_of(keys)) by {
                assert forall|k: Seq<u8>| mid.view().dom().contains(k) implies old(
                    self)@.dom().contains(k) by {}
            }
            growth::lemma_grown_more(old(self).model(), mid, old(self)@.dom(), keys);
            growth::lemma_grown_more(mid, stored, mid.view().dom().insert(key), keys);
            growth::lemma_grown_twice(old(self).model(), mid, stored, keys, keys);
            assert(keys.union(keys) =~= keys);
            if old(self).snapshot_mgr is Some {
                let m = old(self).snapshot_mgr->0;
                assert((self.snapshot_mgr->0).thread_slots@ =~= m.thread_slots@);
                assert((self.snapshot_mgr->0).thread_local_states@ =~= m.thread_local_states@);
            }
        }
    }
}

impl BfTree {
    /// Takes all pages out of the cache of a tree with a disk, as long as the page
    /// table has room for what that may add.
    pub fn empty_cache(&mut self)
        requires
            old(self).wf(),
            old(self).admits(),
        ensures
            final(self).wf(),
            final(self).settled(old(self)),
            final(self).admits(),
            final(self).wal == old(self).wal,
            old(self).cache_only ==> *final(self) == *old(self),
            final(self).load() == final(self).model().pages.len() || final(self).model().pages.len()
                == PAGE_LIMIT,
            final(self).storage.circular_buffer.used <= old(self).storage.circular_buffer.used,
            evict::same_live(old(self).model(), final(self).model()),
            growth::grown(old(self).model(), final(self).model(), old(self)@.dom()),
    {
        let ghost c0 = self.model();
        let ghost keys = c0.view().dom();
        proof {
            growth::lemma_not_grown(c0, c0, keys);
            assert(keys.union(keys) =~= keys);
        }
        if self.cache_only {
            return;
        }
        let g = self.enter();
        let ghost entered = *self;
        while self.storage.circular_buffer.entries.len() > 0
            && self.storage.page_table.peek_next_id() < PAGE_LIMIT
            invariant
                self.wf(),
                self.guard_ok(&g),
                self.same_settings(&entered),
                !self.cache_only,
                self.storage.circular_buffer.used <= old(self).storage.circular_buffer.used,
                c0 == old(self).model(),
                keys == c0.view().dom(),
                keys.union(keys) == keys,
                evict::same_live(c0, self.model()),
                growth::grown(c0, self.model(), keys),
            decreases self.storage.circular_buffer.entries@.len(),
        {
            let ghost mid = self.model();
            self.evict_from_circular_buffer(&g);
            proof {
                evict::lemma_same_live(c0, mid);
                growth::lemma_grown_twice(c0, mid, self.model(), keys, keys);
                assert forall|k: Seq<u8>|
                    leaf_node::live(#[trigger] self.model().find(k)) == leaf_node::live(
                        c0.find(k),
                    ) by {
                    assert(leaf_node::live(mid.find(k)) == leaf_node::live(c0.find(k)));
                }
            }
        }
        self.leave(g);
        proof {
            if old(self).snapshot_mgr is Some {
                let m = old(self).snapshot_mgr->0;
                assert((self.snapshot_mgr->0).thread_slots@ =~= m.thread_slots@);
                assert((self.snapshot_mgr->0).thread_local_states@ =~= m.thread_local_states@);
            }
        }
    }
}

/// Only keys within the limit are present.
pub proof fn lemma_found_key(c: Core, p: Params, k: Seq<u8>)
    requires
        c.wf(p),
        c.find(k) is Some,
    ensures
        k.len() <= p.key_max,
        (c.find(k)->0).key == k,
        k.len() + (c.find(k)->0).value.len() <= p.rec_max,
{
    c.sk.lemma_route_valid(c.pages.len(), p, c.root, k);
    let s = c.pages[c.leaf_of(k)];
    assert(s.ok(p));
    if leaf_node::lookup(s.top(), k) is Some {
        let i = leaf_node::lemma_lookup_some(s.top(), k);
        assert(s.top()[i].key.len() <= p.key_max);
    } else {
        let i = leaf_node::lemma_lookup_some(s.below(), k);
        assert(s.below()[i].key.len() <= p.key_max);
    }
}

/// What readers see after a record was stored in what was left of the tree.
proof fn lemma_view_stored_after(before: &BfTree, after: Core, r: RecordView)
    requires
        before.wf(),
        stored_after_eviction(before, after, r),
    ensures
        r.op == OpType::Insert ==> {
            &&& after.view() == before.left().insert(r.key, r.value)
            &&& after.view().submap_of(before@.insert(r.key, r.value))
        },
        r.op == OpType::Delete ==> {
            &&& after.view() == before.left().remove(r.key)
            &&& after.view().submap_of(before@.remove(r.key))
        },
        !before.cache_only || before.has_space() ==> before.left() == before@,
{
    let mid = choose|mid: Core| #[trigger]
        evict::left_over(before, mid) && merge::record_stored(mid, after, r);
    lemma_view_left(before, mid);
    lemma_view_stored(mid, after, r);
    before.lemma_left();
}

/// `after` is what comes of tree `before` when `value` is to be stored under `key`, and
/// `r` is the answer: a key and a value that the tree takes are stored, and logged if
/// there is a log; nothing is done about others.
pub open spec fn insert_done(
    before: &BfTree,
    after: &BfTree,
    key: Seq<u8>,
    value: Seq<u8>,
    r: LeafInsertResult,
) -> bool {
    &&& after.config == before.config
    &&& r == (if before.valid_kv(key, value) {
        LeafInsertResult::Success
    } else {
        LeafInsertResult::InvalidKV
    })
    &&& r is InvalidKV ==> *after == *before
    &&& r is Success ==> {
        &&& after.logged(before, RecordView { key, value, op: OpType::Insert })
        &&& after.inserted(before, key, value)
    }
}

/// `after` is what comes of tree `before` when `key` is to be removed. A key that is too
/// long is in no tree, and is not logged.
pub open spec fn delete_done(before: &BfTree, after: &BfTree, key: Seq<u8>) -> bool {
    &&& after.config == before.config
    &&& if key.len() <= before.config.key_max() {
        after.logged(before, RecordView { key, value: Seq::empty(), op: OpType::Delete })
    } else {
        *after == *before
    }
    &&& after.removed(before, key)
}

impl BfTree {
    /// Whether the page table has room for whatever one operation may add.
    pub fn has_page_room(&self) -> (r: bool)
        requires
            self.wf(),
        ensures
            r == (self.load() + 4 <= PAGE_LIMIT),
            self.cache_only ==> r == (self.model().pages.len() + 4 <= 0x800_0000),
            !self.cache_only ==> r == (self.model().pages.len()
                + self.storage.circular_buffer.entries@.len() + 4 <= 0x800_0000),
    {
        let pages: u64 = self.storage.page_table.peek_next_id();
        let cached: usize = if self.cache_only {
            0
        } else {
            self.storage.circular_buffer.entries.len()
        };
        cached as u64 <= PAGE_LIMIT && cached as u64 + 4 <= PAGE_LIMIT - pages
    }

    /// A key and a value that the tree takes.
    pub open spec fn valid_kv(&self, key: Seq<u8>, value: Seq<u8>) -> bool {
        self.config.valid_kv(key, value)
    }

    /// What the tree holds once `value` is stored under `key` in `before`: that,
    /// and whatever it held before. A tree without a disk that has no space left
    /// forgets the keys of the pages that leave its cache, and no others.
    pub open spec fn inserted(&self, before: &BfTree, key: Seq<u8>, value: Seq<u8>) -> bool {
        &&& self@ == before.left().insert(key, value)
        &&& self@.submap_of(before@.insert(key, value))
        &&& self@.contains_pair(key, value)
        &&& !before.cache_only || before.has_space() ==> self@ == before@.insert(key, value)
    }

    /// What an operation took of the cache if it had space: no more than two pages.
    pub open spec fn fills(&self, before: &BfTree) -> bool {
        before.has_space() ==> self.storage.circular_buffer.used
            <= before.storage.circular_buffer.used + 2 * before.config.leaf_page_size
    }

    /// What the tree holds once `key` is removed from `before`. The record of the
    /// removal is there. What a tree without a disk forgets is as for an insertion.
    pub open spec fn removed(&self, before: &BfTree, key: Seq<u8>) -> bool {
        &&& key.len() <= before.config.key_max() ==> self.model().find(key) == Some(
            RecordView { key, value: Seq::empty(), op: OpType::Delete },
        ) && self@ == before.left().remove(key)
        &&& self@.submap_of(before@.remove(key))
        &&& !before.cache_only || before.has_space() ==> self@ == before@.remove(key)
    }

    /// `r` is the answer to a read of `key`, and `after` is what the reader's
    /// buffer holds of it, having held `before`.
    pub open spec fn answers(
        &self,
        key: Seq<u8>,
        before: Seq<u8>,
        r: LeafReadResult,
        after: Seq<u8>,
    ) -> bool {
        &&& key.len() > self.config.key_max() <==> r is InvalidKey
        &&& r is Found <==> self@.contains_key(key)
        &&& r is Deleted <==> (self.model().find(key) is Some && (self.model().find(key)->0).op
            == OpType::Delete)
        &&& match r {
            LeafReadResult::Found(n) => {
                let value = self@[key];
                &&& n == value.len()
                &&& after == value + before.skip(value.len() as int)
            },
            _ => after == before,
        }
    }

    /// Stores `value` under `key`. A tree without a disk forgets the keys of the
    /// oldest cached pages when its cache is full.
    pub fn insert(&mut self, key: &[u8], value: &[u8]) -> (r: LeafInsertResult)
        requires
            old(self).wf(),
            old(self).admits(),
            old(self).load() + 4 <= PAGE_LIMIT,
            old(self).log_admits(key@.len() + value@.len()),
        ensures
            final(self).wf(),
            final(self).settled(old(self)),
            final(self).admits(),
            final(self).load() <= old(self).load() + 4,
            final(self).fills(old(self)),
            insert_done(&*old(self), &*final(self), key@, value@, r),
            r == (if old(self).valid_kv(key@, value@) {
                LeafInsertResult::Success
            } else {
                LeafInsertResult::InvalidKV
            }),
            r is InvalidKV ==> *final(self) == *old(self),
            r is Success ==> {
                &&& final(self).logged(
                    old(self),
                    RecordView { key: key@, value: value@, op: OpType::Insert },
                )
                &&& final(self).inserted(old(self), key@, value@)
            },
            r is Success <==> key@.len() <= old(self).config.max_fence_len / 2 && old(
                self).config.cb_min_record_size <= key@.len() + value@.len() <= old(
                self).config.cb_max_record_size,
            growth::grown(old(self).model(), final(self).model(), old(self)@.dom().insert(key@)),
    {
        let k_len = key.len();
        let v_len = value.len();
        proof {
            growth::lemma_not_grown(self.model(), self.model(), self@.dom().insert(key@));
        }
        if k_len > self.config.max_fence_len / 2 {
            return LeafInsertResult::InvalidKV;
        }
        if v_len > self.config.cb_max_record_size || k_len + v_len > self.config.cb_max_record_size {
            return LeafInsertResult::InvalidKV;
        }
        if k_len + v_len < self.config.cb_min_record_size {
            return LeafInsertResult::InvalidKV;
        }
        let wal = self.log_write(&WriteOp::make_insert(key, value));
        let rec = LeafRecord {
            key: to_vec(key),
            value: to_vec(value),
            op_type: OpType::Insert,
        };
        let ghost r = rec@;
        let ghost logged = *self;
        self.put_record(rec);
        self.wal = wal;
        proof {
            lemma_view_stored_after(&logged, self.model(), r);
            assert(logged.model() == old(self).model());
            assert(logged.left() =~= old(self).left());
        }
        LeafInsertResult::Success
    }

    /// Removes `key`.
    pub fn delete(&mut self, key: &[u8])
        requires
            old(self).wf(),
            old(self).admits(),
            old(self).load() + 4 <= PAGE_LIMIT,
            old(self).log_admits(key@.len()),
        ensures
            final(self).wf(),
            final(self).settled(old(self)),
            final(self).admits(),
            final(self).load() <= old(self).load() + 4,
            final(self).fills(old(self)),
            delete_done(&*old(self), &*final(self), key@),
            if key@.len() <= old(self).config.key_max() {
                final(self).logged(
                    old(self),
                    RecordView { key: key@, value: Seq::empty(), op: OpType::Delete },
                )
            } else {
                *final(self) == *old(self)
            },
            final(self).removed(old(self), key@),
            key@.len() > old(self).config.max_fence_len / 2 ==> *final(self) == *old(self),
            growth::grown(old(self).model(), final(self).model(), old(self)@.dom().insert(key@)),
    {
        if key.len() > self.config.max_fence_len / 2 {
            proof {
                let c = self.model();
                growth::lemma_not_grown(c, c, self@.dom().insert(key@));
                if c.find(key@) is Some {
                    lemma_found_key(c, self.params(), key@);
                }
                assert(self@.remove(key@) =~= self@);
            }
            return;
        }
        let wal = self.log_write(&WriteOp::make_delete(key));
        let rec = LeafRecord { key: to_vec(key), value: Vec::new(), op_type: OpType::Delete };
        let ghost r = rec@;
        let ghost logged = *self;
        self.put_record(rec);
        self.wal = wal;
        proof {
            lemma_view_stored_after(&logged, self.model(), r);
            assert(logged.model() == old(self).model());
            assert(logged.left() =~= old(self).left());
        }
    }

    /// The record that a search for `key` comes upon.
    fn lookup_record(&self, key: &[u8]) -> (r: Option<&LeafRecord>)
        requires
            self.wf(),
        ensures
            match r {
                Some(rec) => self.model().find(key@) == Some(rec@),
                None => self.model().find(key@) is None,
            },
    {
        let ghost c = self.model();
        let ghost p = self.params();
        let pid = self.find_leaf(key);
        let ghost s = c.pages[pid as int];
        proof {
            assert(s.ok(p));
            assert(s == self.storage.page_table@[pid as int]@);
        }
        match self.storage.page_table.get(pid) {
            PageLocation::Null(_) => None,
            PageLocation::Base(n) => {
                match leaf_node::find(&n.records, key) {
                    Some(i) => Some(&n.records[i]),
                    None => None,
                }
            },
            PageLocation::Full(n) => {
                match leaf_node::find(&n.records, key) {
                    Some(i) => Some(&n.records[i]),
                    None => None,
                }
            },
            PageLocation::Mini(n, b) => {
                match leaf_node::find(&n.records, key) {
                    Some(i) => Some(&n.records[i]),
                    None => match b {
                        None => None,
                        Some(w) => match leaf_node::find(&w.records, key) {
                            Some(i) => Some(&w.records[i]),
                            None => None,
                        },
                    },
                }
            },
        }
    }

    /// The leaf page of `key`.
    fn find_leaf(&self, key: &[u8]) -> (pid: u64)
        requires
            self.wf(),
        ensures
            pid == self.model().leaf_of(key@),
            pid < self.model().pages.len(),
    {
        let ghost c = self.model();
        let ghost p = self.params();
        let ghost np = c.pages.len();
        let mut cur = self.root;
        while cur.is_inner_node_pointer()
            invariant
                self.wf(),
                c == self.model(),
                p == self.params(),
                np == c.pages.len(),
                c.sk.valid(np, cur),
                c.sk.route(cur, key@) == c.leaf_of(key@),
            decreases c.sk.rank(cur),
        {
            let n = self.inners.len();
            assert(cur.inner_no() < n);
            let i: usize = cur.as_inner_node() as usize;
            proof {
                c.sk.lemma_route_step(np, p, cur, key@);
                assert(c.sk.node_ok(np, p, i as int));
                assert(c.sk.nodes[i as int] == self.inners@[i as int]@);
            }
            let j = self.inners[i].lower_bound(key);
            proof {
                model::lemma_child_ix_is(c.sk.nodes[i as int].keys, key@, j as int);
            }
            cur = self.inners[i].get_value(j);
        }
        cur.as_id()
    }

    /// Reads the value of `key` into `out_buffer`.
    pub fn read(&self, key: &[u8], out_buffer: &mut [u8]) -> (r: LeafReadResult)
        requires
            self.wf(),
            self@.contains_key(key@) ==> self@[key@].len() <= old(out_buffer)@.len(),
        ensures
            final(out_buffer)@.len() == old(out_buffer)@.len(),
            self.answers(key@, old(out_buffer)@, r, final(out_buffer)@),
    {
        let ghost c = self.model();
        let ghost p = self.params();
        proof {
            self.config.lemma_params();
            if c.find(key@) is Some {
                lemma_found_key(c, p, key@);
            }
        }
        if key.len() > self.config.max_fence_len / 2 {
            return LeafReadResult::InvalidKey;
        }
        match self.lookup_record(key) {
            None => LeafReadResult::NotFound,
            Some(rec) => match rec.op_type {
                OpType::Insert | OpType::Cache => {
                    assert(self@.contains_key(key@));
                    let n = rec.value.len();
                    copy_into(out_buffer, 0, rec.value.as_slice());
                    assert(out_buffer@ =~= rec.value@ + old(out_buffer)@.skip(n as int));
                    LeafReadResult::Found(n as u32)
                },
                OpType::Delete => LeafReadResult::Deleted,
                OpType::Phantom => LeafReadResult::NotFound,
            },
        }
    }
}

/// What was inserted is what is read back: its length, and its bytes at the
/// front of the reader's buffer.
pub proof fn law_insert_is_read_back(
    before: &BfTree,
    tree: &BfTree,
    key: Seq<u8>,
    value: Seq<u8>,
    buffer: Seq<u8>,
    r: LeafReadResult,
    read: Seq<u8>,
)
    requires
        tree.inserted(before, key, value),
        tree.answers(key, buffer, r, read),
    ensures
        r is Found,
        r->Found_0 == value.len(),
        read == value + buffer.skip(value.len() as int),
{
}

/// What was deleted is answered with `Deleted`, and the reader's buffer is left as
/// it was.
pub proof fn law_delete_is_read_back(
    before: &BfTree,
    tree: &BfTree,
    key: Seq<u8>,
    buffer: Seq<u8>,
    r: LeafReadResult,
    read: Seq<u8>,
)
    requires
        tree.removed(before, key),
        tree.config == before.config,
        tree.answers(key, buffer, r, read),
    ensures
        key.len() <= tree.config.key_max() ==> r is Deleted,
        !(r is Found),
        read == buffer,
{
    if tree@.contains_key(key) {
        assert(before@.remove(key).contains_key(key));
    }
}

/// Neither an insert nor a delete of one key changes what a read of another
/// finds, as long as no key had to be forgotten.
pub proof fn law_other_keys_stay(
    before: &BfTree,
    tree: &BfTree,
    key: Seq<u8>,
    value: Seq<u8>,
    other: Seq<u8>,
    buffer: Seq<u8>,
    r1: LeafReadResult,
    read1: Seq<u8>,
    r2: LeafReadResult,
    read2: Seq<u8>,
)
    requires
        tree.inserted(before, key, value) || tree.removed(before, key),
        !before.cache_only || before.has_space(),
        other != key,
        before.answers(other, buffer, r1, read1),
        tree.answers(other, buffer, r2, read2),
    ensures
        r1 is Found <==> r2 is Found,
        r1 is Found ==> r1 == r2,
        read1 == read2,
{
}

/// A tree without a disk never makes a key up: a key other than the one that
/// was written is found with the value it had, or not at all.
pub proof fn law_nothing_is_made_up(
    before: &BfTree,
    tree: &BfTree,
    key: Seq<u8>,
    value: Seq<u8>,
    other: Seq<u8>,
)
    requires
        tree.inserted(before, key, value) || tree.removed(before, key),
        other != key,
        tree@.contains_key(other),
    ensures
        before@.contains_pair(other, tree@[other]),
{
    if tree.inserted(before, key, value) {
        assert(before@.insert(key, value).contains_key(other));
    } else {
        assert(before@.remove(key).contains_key(other));
    }
}

} // verus!
