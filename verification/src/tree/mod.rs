//! The tree: its parts, what keeps them together, and the few ways in which
//! they change.
use vstd::prelude::*;

use crate::config::Config;
use crate::model;
use crate::model::{Core, PageState, Params, Skeleton};
use crate::nodes::image;
use crate::nodes::image::ImageView;
use crate::nodes::inner_node;
use crate::nodes::inner_node::{InnerNode, InnerView};
use crate::nodes::leaf_node::NO_NEXT_LEVEL;
use crate::nodes::PageID;
use crate::order;
use crate::snapshot;
use crate::snapshot::capture;
use crate::snapshot::{
    CPRSnapShotMgr, CPRSnapshotGuard, Capture, PhaseId, DEFAULT_MAX_SNAPSHOT_THREAD_NUM,
    INVALID_SNAPSHOT_VERSION,
};
use crate::storage;
use crate::storage::{LeafStorage, PageLocation, PAGE_LIMIT};
use crate::wal::log::WriteAheadLog;

pub mod capacity;
pub mod evict;
pub mod growth;
pub mod leaf_ops;
pub mod merge;
pub mod ops;
pub mod promote;
pub mod traverse;

verus! {

/// The height and the key range of each inner node.
pub struct Shape {
    pub levels: Seq<nat>,
    pub ranges: Seq<order::KeyRange>,
}

/// A range index from byte-string keys to byte-string values.
pub struct BfTree {
    pub config: Config,
    pub cache_only: bool,
    pub storage: LeafStorage,
    /// All inner nodes; links lead to positions here.
    pub inners: Vec<InnerNode>,
    pub root: PageID,
    pub snapshot_mgr: Option<CPRSnapShotMgr>,
    /// Where the next draw of the promotion lottery comes from.
    pub lottery: u64,
    /// Where operations are logged.
    pub wal: Option<WriteAheadLog>,
    pub shape: Ghost<Shape>,
}

pub open spec fn node_views(inners: Seq<InnerNode>) -> Seq<InnerView> {
    inners.map_values(|n: InnerNode| n@)
}

/// The coordinator's part of a change to the tree: only captures, and those
/// only while a snapshot asks for them.
pub open spec fn mgr_kept(before: Option<CPRSnapShotMgr>, after: Option<CPRSnapShotMgr>) -> bool {
    match before {
        None => after is None,
        Some(m) => {
            &&& after is Some
            &&& (after->0).only_capture_differs(&m)
            &&& !m.phase().captures() ==> (after->0).capture() == m.capture()
        },
    }
}

/// Versions, captures and the tree agree.
pub open spec fn cpr_ok(c: Core, mgr: Option<CPRSnapShotMgr>, p: Params) -> bool {
    &&& !c.root.spec_is_id() ==> c.root.inner_no() < c.sk.nodes.len()
    &&& forall|i: int|
        0 <= i < c.sk.nodes.len() ==> (#[trigger] c.sk.nodes[i]).version <= present(mgr)
    &&& forall|i: int|
        0 <= i < c.pages.len() ==> (#[trigger] c.pages[i]).version() <= present(mgr)
    &&& mgr matches Some(m) ==> {
        &&& m.wf()
        &&& m.phase().captures() ==> {
            &&& m.version() >= 1
            &&& m.frozen@.wf(p)
            &&& capture::tracks(c, m.capture(), m.frozen@, (m.version() - 1) as u64)
        }
    }
}

/// Page `i` may be changed under the present phase.
pub open spec fn page_free(mgr: Option<CPRSnapShotMgr>, i: int) -> bool {
    mgr matches Some(m) ==> m.phase().captures() ==> capture::page_writable(
        m.frozen@,
        m.capture(),
        i,
    )
}

/// Inner node `i` may be changed under the present phase; if it is the root,
/// the root has been noted.
pub open spec fn node_free(c: Core, mgr: Option<CPRSnapShotMgr>, i: int) -> bool {
    mgr matches Some(m) ==> m.phase().captures() ==> {
        &&& capture::node_writable(m.frozen@, m.capture(), i)
        &&& !c.root.spec_is_id() && c.root.inner_no() == i ==> m.capture().root_id
            == m.frozen@.root.raw
    }
}

/// The version that changes are made under.
pub open spec fn present(mgr: Option<CPRSnapShotMgr>) -> u64 {
    match mgr {
        None => INVALID_SNAPSHOT_VERSION,
        Some(m) => m.version(),
    }
}

/// On disk, a root that is a leaf page is not cached, and the last page of
/// the page table is in use.
pub open spec fn tail_ok(c: Core, p: Params) -> bool {
    !p.cache_only ==> {
        &&& c.root.spec_is_id() ==> c.pages[0] is Base
        &&& !(c.pages.last() is Null)
    }
}

impl BfTree {
    pub open spec fn params(&self) -> Params {
        self.config.params()
    }

    pub open spec fn model(&self) -> Core {
        Core {
            sk: Skeleton {
                nodes: node_views(self.inners@),
                levels: self.shape@.levels,
                ranges: self.shape@.ranges,
            },
            root: self.root,
            pages: storage::states(self.storage.page_table@),
        }
    }

    pub open spec fn parts_ok(&self) -> bool {
        &&& self.config.ok()
        &&& self.cache_only == self.config.cache_only
        &&& self.storage.wf()
        &&& self.storage.circular_buffer.capacity == self.config.cb_size_byte
    }

    pub open spec fn wf(&self) -> bool {
        &&& self.parts_ok()
        &&& self.storage.cached_ok()
        &&& self.model().wf(self.params())
        &&& cpr_ok(self.model(), self.snapshot_mgr, self.params())
        &&& tail_ok(self.model(), self.params())
    }

    /// The guard belongs to an operation that runs now.
    pub open spec fn guard_ok(&self, g: &CPRSnapshotGuard) -> bool {
        match self.snapshot_mgr {
            None => g.phase_id == PhaseId::Rest && g.snapshot_version == INVALID_SNAPSHOT_VERSION,
            Some(m) => {
                &&& g.thread_slot_id < DEFAULT_MAX_SNAPSHOT_THREAD_NUM
                &&& m.thread_slots@[g.thread_slot_id as int]
                &&& g.snapshot_version == m.version()
                &&& g.phase_id == m.phase()
            },
        }
    }

    /// Settings are as in `other`, and the coordinator did nothing but capture.
    pub open spec fn same_settings(&self, other: &BfTree) -> bool {
        &&& self.config == other.config
        &&& self.cache_only == other.cache_only
        &&& self.wal == other.wal
        &&& mgr_kept(other.snapshot_mgr, self.snapshot_mgr)
    }

    /// Nothing but leaf pages, inner nodes and captures differs from `other`.
    pub open spec fn only_core_differs(&self, other: &BfTree) -> bool {
        &&& self.same_settings(other)
        &&& self.storage.circular_buffer == other.storage.circular_buffer
    }

    /// Copies leaf page `pid` to the snapshot in progress, if it has to be
    /// copied before it may be changed.
    pub(crate) fn capture_page(&mut self, g: &CPRSnapshotGuard, pid: u64)
        requires
            old(self).parts_ok(),
            cpr_ok(old(self).model(), old(self).snapshot_mgr, old(self).params()),
            old(self).guard_ok(g),
            pid < old(self).model().pages.len(),
            old(self).model().pages[pid as int].ok(old(self).params()),
        ensures
            final(self).parts_ok(),
            final(self).model() == old(self).model(),
            final(self).inners == old(self).inners,
            final(self).storage == old(self).storage,
            final(self).shape == old(self).shape,
            final(self).only_core_differs(old(self)),
            cpr_ok(final(self).model(), final(self).snapshot_mgr, final(self).params()),
            final(self).guard_ok(g),
            page_free(final(self).snapshot_mgr, pid as int),
            forall|i: int| #[trigger]
                page_free(old(self).snapshot_mgr, i) ==> page_free(final(self).snapshot_mgr, i),
            forall|i: int| #[trigger]
                node_free(old(self).model(), old(self).snapshot_mgr, i) ==> node_free(
                    old(self).model(),
                    final(self).snapshot_mgr,
                    i,
                ),
    {
        let ghost c = self.model();
        let ghost p = self.params();
        proof {
            self.config.lemma_params();
        }
        match g.phase_id {
            PhaseId::Rest | PhaseId::Prepare => {
                return;
            },
            PhaseId::InProgress | PhaseId::Sweep => {},
        }
        assert(self.storage.page_table@[pid as int]@ == c.pages[pid as int]);
        let version = self.storage.page_table.get(pid).version();
        if version >= g.snapshot_version {
            assert(capture::page_tracked(
                c,
                (self.snapshot_mgr->0).capture(),
                (self.snapshot_mgr->0).frozen@,
                ((self.snapshot_mgr->0).version() - 1) as u64,
                pid as int,
            ));
            return;
        }
        let id = PageID::from_id(pid);
        let is_root = self.root.is_id() && self.root.raw == pid;
        let root = self.root;
        match &mut self.snapshot_mgr {
            None => {},
            Some(mgr) => {
                let ghost f = mgr.frozen@;
                let ghost v = (mgr.version() - 1) as u64;
                let ghost start = mgr.capture();
                let ghost m0 = *mgr;
                assert(capture::page_tracked(c, start, f, v, pid as int));
                assert(c.pages[pid as int] == f.pages[pid as int]);
                match self.storage.page_table.get(pid) {
                    PageLocation::Null(_) => {
                        let none: Vec<u8> = Vec::new();
                        mgr.snapshot_mini_page(id, none.as_slice(), 0, g.thread_slot_id);
                        proof {
                            let off = choose|off: usize|
                                #![trigger snapshot::entry_added(start.mini, g.thread_slot_id as int, (id, off))]
                                off == snapshot::NULL_PAGE_LOCATION_OFFSET && mgr.capture()
                                    == (Capture {
                                    mini: snapshot::entry_added(
                                        start.mini,
                                        g.thread_slot_id as int,
                                        (id, off),
                                    ),
                                    mini_size: snapshot::entry_added(
                                        start.mini_size,
                                        g.thread_slot_id as int,
                                        (id, 0usize),
                                    ),
                                    ..start
                                });
                            capture::lemma_capture_mini(
                                f,
                                start,
                                mgr.capture(),
                                g.thread_slot_id as int,
                                pid as int,
                                none@,
                                0,
                                off,
                            );
                        }
                    },
                    PageLocation::Base(n) => {
                        proof {
                            lemma_page_image(n@, p);
                            image::lemma_image_round_trip(n@);
                        }
                        let bytes = n.as_image();
                        mgr.snapshot_base_page(id, bytes.as_slice(), n.node_size, g.thread_slot_id);
                        proof {
                            lemma_base_noted(f, start, mgr.capture(), g.thread_slot_id as int, pid as int, id, bytes@);
                        }
                    },
                    PageLocation::Full(n) => {
                        proof {
                            lemma_page_image(n@, p);
                            image::lemma_image_round_trip(
                                ImageView { link: NO_NEXT_LEVEL, ..n@ },
                            );
                        }
                        let bytes = n.as_plain_image();
                        mgr.snapshot_base_page(id, bytes.as_slice(), n.node_size, g.thread_slot_id);
                        proof {
                            lemma_base_noted(f, start, mgr.capture(), g.thread_slot_id as int, pid as int, id, bytes@);
                        }
                    },
                    PageLocation::Mini(n, b) => {
                        proof {
                            lemma_page_image(n@, p);
                            image::lemma_image_round_trip(n@);
                        }
                        let bytes = n.as_image();
                        mgr.snapshot_mini_page(id, bytes.as_slice(), n.node_size, g.thread_slot_id);
                        let ghost next = mgr.capture();
                        proof {
                            let off = choose|off: usize|
                                #![trigger snapshot::entry_added(start.mini, g.thread_slot_id as int, (id, off))]
                                snapshot::page_written(
                                    Capture {
                                        mini: snapshot::entry_added(
                                            start.mini,
                                            g.thread_slot_id as int,
                                            (id, off),
                                        ),
                                        mini_size: snapshot::entry_added(
                                            start.mini_size,
                                            g.thread_slot_id as int,
                                            (id, n.node_size),
                                        ),
                                        ..start
                                    },
                                    next,
                                    bytes@,
                                    off,
                                );
                            capture::lemma_capture_mini(
                                f,
                                start,
                                next,
                                g.thread_slot_id as int,
                                pid as int,
                                bytes@,
                                n.node_size,
                                off,
                            );
                            capture::lemma_tracks_grows(c, start, next, f, v);
                        }
                        match b {
                            None => {},
                            Some(w) => {
                                proof {
                                    lemma_page_image(w@, p);
                                    image::lemma_image_round_trip(w@);
                                }
                                let below = w.as_image();
                                mgr.snapshot_base_page(
                                    id,
                                    below.as_slice(),
                                    w.node_size,
                                    g.thread_slot_id,
                                );
                                proof {
                                    lemma_base_noted(f, next, mgr.capture(), g.thread_slot_id as int, pid as int, id, below@);
                                }
                            },
                        }
                    },
                }
                let ghost done = mgr.capture();
                assert(capture::page_writable(f, done, pid as int));
                proof {
                    assert(capture::capture_grows(f, start, done));
                    capture::lemma_tracks_grows(c, start, done, f, v);
                }
                if is_root {
                    mgr.snapshot_root_page(root);
                    proof {
                        assert(mgr.capture() =~= done);
                    }
                }
            },
        }
    }

    /// Copies inner node `i` to the snapshot in progress, if it has to be
    /// copied before it may be changed.
    pub(crate) fn capture_node(&mut self, g: &CPRSnapshotGuard, i: usize)
        requires
            old(self).parts_ok(),
            cpr_ok(old(self).model(), old(self).snapshot_mgr, old(self).params()),
            old(self).guard_ok(g),
            i < old(self).inners@.len(),
            i < 0x7fff_ffff_ffff_ffff,
            old(self).inners@[i as int]@.shaped(),
            old(self).inners@[i as int]@.fits(),
        ensures
            final(self).parts_ok(),
            final(self).model() == old(self).model(),
            final(self).inners == old(self).inners,
            final(self).storage == old(self).storage,
            final(self).shape == old(self).shape,
            final(self).only_core_differs(old(self)),
            cpr_ok(final(self).model(), final(self).snapshot_mgr, final(self).params()),
            final(self).guard_ok(g),
            node_free(final(self).model(), final(self).snapshot_mgr, i as int),
            forall|k: int| #[trigger]
                page_free(old(self).snapshot_mgr, k) ==> page_free(final(self).snapshot_mgr, k),
            forall|k: int| #[trigger]
                node_free(old(self).model(), old(self).snapshot_mgr, k) ==> node_free(
                    old(self).model(),
                    final(self).snapshot_mgr,
                    k,
                ),
    {
        let ghost c = self.model();
        match g.phase_id {
            PhaseId::Rest | PhaseId::Prepare => {
                return;
            },
            PhaseId::InProgress | PhaseId::Sweep => {},
        }
        assert(c.sk.nodes[i as int] == self.inners@[i as int]@);
        let version = self.inners[i].get_clean_snapshot_version();
        if version >= g.snapshot_version {
            assert(capture::node_tracked(
                c,
                (self.snapshot_mgr->0).capture(),
                (self.snapshot_mgr->0).frozen@,
                ((self.snapshot_mgr->0).version() - 1) as u64,
                i as int,
            ));
            return;
        }
        let id = PageID::from_pointer(i);
        let root = self.root;
        let is_root = root.raw == id.raw;
        match &mut self.snapshot_mgr {
            None => {},
            Some(mgr) => {
                let ghost f = mgr.frozen@;
                let ghost v = (mgr.version() - 1) as u64;
                let ghost start = mgr.capture();
                assert(capture::node_tracked(c, start, f, v, i as int));
                let node = &self.inners[i];
                proof {
                    inner_node::lemma_inner_round_trip(node@, node.version_lock);
                }
                mgr.snapshot_inner_node(id, node, g.thread_slot_id);
                let ghost done = mgr.capture();
                proof {
                    let bytes = image::image_bytes(
                        inner_node::inner_image(node@, node.version_lock),
                    );
                    let off = choose|off: usize|
                        #![trigger snapshot::entry_added(start.inner, g.thread_slot_id as int, (id, off))]
                        snapshot::page_written(
                            Capture {
                                inner: snapshot::entry_added(
                                    start.inner,
                                    g.thread_slot_id as int,
                                    (id, off),
                                ),
                                ..start
                            },
                            done,
                            bytes,
                            off,
                        );
                    capture::lemma_capture_inner(
                        f,
                        start,
                        done,
                        g.thread_slot_id as int,
                        i as int,
                        bytes,
                        off,
                    );
                    capture::lemma_tracks_grows(c, start, done, f, v);
                }
                if is_root {
                    mgr.snapshot_root_page(root);
                    let ghost last = mgr.capture();
                    proof {
                        assert(capture::capture_grows(f, done, last));
                        lemma_tracks_root_noted(c, done, last, f, v);
                    }
                }
            },
        }
    }

    /// Puts `loc` in the place of leaf page `pid`, which may be changed.
    pub(crate) fn put_page(&mut self, pid: u64, loc: PageLocation) -> (r: PageLocation)
        requires
            old(self).parts_ok(),
            cpr_ok(old(self).model(), old(self).snapshot_mgr, old(self).params()),
            pid < old(self).model().pages.len(),
            page_free(old(self).snapshot_mgr, pid as int),
            loc@.version() == present(old(self).snapshot_mgr),
        ensures
            final(self).parts_ok(),
            final(self).model() == old(self).model().with_page(pid as int, loc@),
            r == old(self).storage.page_table@[pid as int],
            final(self).storage.page_table@ == old(self).storage.page_table@.update(
                pid as int,
                loc,
            ),
            final(self).inners == old(self).inners,
            final(self).shape == old(self).shape,
            final(self).root == old(self).root,
            final(self).snapshot_mgr == old(self).snapshot_mgr,
            final(self).only_core_differs(old(self)),
            cpr_ok(final(self).model(), final(self).snapshot_mgr, final(self).params()),
    {
        let ghost c = self.model();
        let ghost mgr = self.snapshot_mgr;
        let ghost p = self.params();
        let r = self.storage.page_table.replace(pid, loc);
        assert(self.model().pages =~= c.pages.update(pid as int, loc@));
        proof {
            lemma_cpr_set_page(c, mgr, p, pid as int, loc@);
            assert(self.model() =~= c.with_page(pid as int, loc@));
        }
        r
    }

    /// Adds a leaf page.
    pub(crate) fn push_page(&mut self, loc: PageLocation) -> (pid: u64)
        requires
            old(self).parts_ok(),
            cpr_ok(old(self).model(), old(self).snapshot_mgr, old(self).params()),
            old(self).model().pages.len() < PAGE_LIMIT,
            loc@.version() == present(old(self).snapshot_mgr),
        ensures
            final(self).parts_ok(),
            pid == old(self).model().pages.len(),
            final(self).model() == (Core {
                pages: old(self).model().pages.push(loc@),
                ..old(self).model()
            }),
            final(self).storage.page_table@ == old(self).storage.page_table@.push(loc),
            final(self).inners == old(self).inners,
            final(self).shape == old(self).shape,
            final(self).root == old(self).root,
            final(self).snapshot_mgr == old(self).snapshot_mgr,
            final(self).only_core_differs(old(self)),
            cpr_ok(final(self).model(), final(self).snapshot_mgr, final(self).params()),
    {
        let ghost c = self.model();
        let (pid, _) = self.storage.page_table.insert(loc);
        assert(self.model().pages =~= c.pages.push(loc@));
        proof {
            match &self.snapshot_mgr {
                None => {},
                Some(m) => {
                    if m.phase().captures() {
                        capture::lemma_tracks_push_page(
                            c,
                            m.capture(),
                            m.frozen@,
                            (m.version() - 1) as u64,
                            loc@,
                        );
                    }
                },
            }
        }
        pid
    }

    /// Inner node `i` has been changed under `version`.
    proof fn lemma_node_changed(before: &BfTree, after: &BfTree, i: int)
        requires
            before.parts_ok(),
            cpr_ok(before.model(), before.snapshot_mgr, before.params()),
            0 <= i < before.inners@.len(),
            node_free(before.model(), before.snapshot_mgr, i),
            after.storage == before.storage,
            after.root == before.root,
            after.snapshot_mgr == before.snapshot_mgr,
            after.config == before.config,
            after.inners@.len() == before.inners@.len(),
            forall|k: int|
                0 <= k < before.inners@.len() && k != i ==> #[trigger] after.inners@[k]
                    == before.inners@[k],
            after.inners@[i]@.version == present(before.snapshot_mgr),
        ensures
            cpr_ok(after.model(), after.snapshot_mgr, after.params()),
    {
        let c = before.model();
        let c2 = after.model();
        let mgr = before.snapshot_mgr;
        assert forall|k: int| 0 <= k < c2.sk.nodes.len() implies (#[trigger] c2.sk.nodes[k]).version
            <= present(mgr) by {
            if k != i {
                assert(after.inners@[k] == before.inners@[k]);
                assert(c.sk.nodes[k].version <= present(mgr));
            }
        }
        assert forall|k: int| 0 <= k < c2.pages.len() implies (#[trigger] c2.pages[k]).version()
            <= present(mgr) by {
            assert(c.pages[k].version() <= present(mgr));
        }
        match mgr {
            None => {},
            Some(m) => {
                if m.phase().captures() {
                    assert forall|k: int| 0 <= k < c.sk.nodes.len() && k != i implies #[trigger] c2.sk.nodes[k]
                        == c.sk.nodes[k] by {
                        assert(after.inners@[k] == before.inners@[k]);
                    }
                    capture::lemma_tracks_set_node(
                        c,
                        c2,
                        m.capture(),
                        m.frozen@,
                        (m.version() - 1) as u64,
                        i,
                    );
                }
            },
        }
        assert(cpr_ok(c2, after.snapshot_mgr, after.params()));
    }

    /// Adds the separator `key` and a link above it to inner node `i`, which
    /// may be changed and has room; `key` belongs to slot `j`.
    pub(crate) fn add_child(
        &mut self,
        i: usize,
        key: &[u8],
        child: PageID,
        version: u64,
        Ghost(j): Ghost<int>,
    )
        requires
            old(self).parts_ok(),
            cpr_ok(old(self).model(), old(self).snapshot_mgr, old(self).params()),
            i < old(self).inners@.len(),
            node_free(old(self).model(), old(self).snapshot_mgr, i as int),
            version == present(old(self).snapshot_mgr),
            old(self).inners@[i as int]@.shaped(),
            old(self).inners@[i as int]@.fits(),
            inner_node::INNER_FIXED_SIZE + inner_node::keys_size(
                old(self).inners@[i as int]@.keys,
            ) + inner_node::SEPARATOR_OVERHEAD + key@.len() <= inner_node::INNER_NODE_SIZE,
            inner_node::is_child_of(old(self).inners@[i as int]@.keys, key@, j),
            j > 0 ==> old(self).inners@[i as int]@.keys[j - 1] != key@,
        ensures
            final(self).parts_ok(),
            final(self).inners@.len() == old(self).inners@.len(),
            final(self).model() == (Core {
                sk: Skeleton {
                    nodes: old(self).model().sk.nodes.update(
                        i as int,
                        InnerView {
                            version,
                            ..old(self).model().sk.nodes[i as int].with_child(j, key@, child)
                        },
                    ),
                    ..old(self).model().sk
                },
                ..old(self).model()
            }),
            final(self).storage == old(self).storage,
            final(self).shape == old(self).shape,
            final(self).root == old(self).root,
            final(self).snapshot_mgr == old(self).snapshot_mgr,
            final(self).only_core_differs(old(self)),
            cpr_ok(final(self).model(), final(self).snapshot_mgr, final(self).params()),
    {
        let ghost before = *self;
        let node = &mut self.inners[i];
        let ghost n0 = node@;
        let done = node.insert(key, child);
        node.snapshot_version = version;
        proof {
            let q = choose|q: int| #[trigger]
                inner_node::is_child_of(n0.keys, key@, q) && {
                    if q > 0 && n0.keys[q - 1] == key@ {
                        done && node@ == (InnerView {
                            version,
                            children: n0.children.update(q, child),
                            ..n0
                        })
                    } else if inner_node::INNER_FIXED_SIZE + inner_node::keys_size(n0.keys)
                        + inner_node::SEPARATOR_OVERHEAD + key@.len()
                        <= inner_node::INNER_NODE_SIZE {
                        done && node@ == (InnerView {
                            version,
                            ..n0.with_child(q, key@, child)
                        })
                    } else {
                        !done
                    }
                };
            model::lemma_child_ix_is(n0.keys, key@, q);
            model::lemma_child_ix_is(n0.keys, key@, j);
        }
        proof {
            assert(self.model().sk.nodes =~= before.model().sk.nodes.update(
                i as int,
                InnerView { version, ..n0.with_child(j, key@, child) },
            ));
            Self::lemma_node_changed(&before, &*self, i as int);
        }
    }

    /// Keeps the lower half of inner node `b` in its place, and returns the
    /// separator in the middle and the upper half.
    pub(crate) fn cut_node(&mut self, b: usize, version: u64) -> (r: (Vec<u8>, InnerNode))
        requires
            old(self).parts_ok(),
            cpr_ok(old(self).model(), old(self).snapshot_mgr, old(self).params()),
            b < old(self).inners@.len(),
            node_free(old(self).model(), old(self).snapshot_mgr, b as int),
            version == present(old(self).snapshot_mgr),
            old(self).inners@[b as int]@.shaped(),
            old(self).inners@[b as int]@.fits(),
            old(self).inners@[b as int]@.keys.len() >= 3,
        ensures
            final(self).parts_ok(),
            final(self).inners@.len() == old(self).inners@.len(),
            ({
                let v = old(self).inners@[b as int]@;
                let m = (v.keys.len() / 2) as int;
                &&& r.0@ == v.keys[m]
                &&& r.1@ == (InnerView {
                    version,
                    root: false,
                    keys: v.keys.skip(m + 1),
                    children: v.children.skip(m + 1),
                    ..v
                })
                &&& final(self).model() == (Core {
                    sk: Skeleton {
                        nodes: old(self).model().sk.nodes.update(
                            b as int,
                            InnerView {
                                version,
                                keys: v.keys.take(m),
                                children: v.children.take(m + 1),
                                ..v
                            },
                        ),
                        ..old(self).model().sk
                    },
                    ..old(self).model()
                })
            }),
            final(self).storage == old(self).storage,
            final(self).shape == old(self).shape,
            final(self).root == old(self).root,
            final(self).snapshot_mgr == old(self).snapshot_mgr,
            final(self).only_core_differs(old(self)),
            cpr_ok(final(self).model(), final(self).snapshot_mgr, final(self).params()),
    {
        let ghost before = *self;
        let ghost v = self.inners@[b as int]@;
        let ghost m = (v.keys.len() / 2) as int;
        let r = self.inners[b].split(version);
        proof {
            assert(self.model().sk.nodes =~= before.model().sk.nodes.update(
                b as int,
                InnerView {
                    version,
                    keys: v.keys.take(m),
                    children: v.children.take(m + 1),
                    ..v
                },
            ));
            Self::lemma_node_changed(&before, &*self, b as int);
        }
        r
    }

    /// Takes the mark of the root from inner node `i`.
    pub(crate) fn unmark_root(&mut self, i: usize, version: u64)
        requires
            old(self).parts_ok(),
            cpr_ok(old(self).model(), old(self).snapshot_mgr, old(self).params()),
            i < old(self).inners@.len(),
            node_free(old(self).model(), old(self).snapshot_mgr, i as int),
            version == present(old(self).snapshot_mgr),
        ensures
            final(self).parts_ok(),
            final(self).inners@.len() == old(self).inners@.len(),
            final(self).model() == (Core {
                sk: Skeleton {
                    nodes: old(self).model().sk.nodes.update(
                        i as int,
                        InnerView { version, root: false, ..old(self).model().sk.nodes[i as int] },
                    ),
                    ..old(self).model().sk
                },
                ..old(self).model()
            }),
            final(self).storage == old(self).storage,
            final(self).shape == old(self).shape,
            final(self).root == old(self).root,
            final(self).snapshot_mgr == old(self).snapshot_mgr,
            final(self).only_core_differs(old(self)),
            cpr_ok(final(self).model(), final(self).snapshot_mgr, final(self).params()),
    {
        let ghost before = *self;
        let node = &mut self.inners[i];
        let ghost n0 = node@;
        node.set_root(false);
        node.snapshot_version = version;
        proof {
            assert(self.model().sk.nodes =~= before.model().sk.nodes.update(
                i as int,
                InnerView { version, root: false, ..n0 },
            ));
            Self::lemma_node_changed(&before, &*self, i as int);
        }
    }

    /// Adds an inner node.
    pub(crate) fn push_node(&mut self, node: InnerNode)
        requires
            old(self).parts_ok(),
            cpr_ok(old(self).model(), old(self).snapshot_mgr, old(self).params()),
            node@.version == present(old(self).snapshot_mgr),
        ensures
            final(self).parts_ok(),
            final(self).inners@ == old(self).inners@.push(node),
            final(self).model() == (Core {
                sk: Skeleton {
                    nodes: old(self).model().sk.nodes.push(node@),
                    ..old(self).model().sk
                },
                ..old(self).model()
            }),
            final(self).storage == old(self).storage,
            final(self).shape == old(self).shape,
            final(self).root == old(self).root,
            final(self).snapshot_mgr == old(self).snapshot_mgr,
            final(self).only_core_differs(old(self)),
            cpr_ok(final(self).model(), final(self).snapshot_mgr, final(self).params()),
    {
        let ghost c = self.model();
        self.inners.push(node);
        let ghost c2 = self.model();
        assert(c2.sk.nodes =~= c.sk.nodes.push(node@));
        proof {
            match &self.snapshot_mgr {
                None => {},
                Some(m) => {
                    if m.phase().captures() {
                        capture::lemma_tracks_push_node(
                            c,
                            c2,
                            m.capture(),
                            m.frozen@,
                            (m.version() - 1) as u64,
                        );
                    }
                },
            }
        }
    }

    /// Makes inner node number `no` the root; the old root has been noted.
    pub(crate) fn set_root(&mut self, root: PageID)
        requires
            old(self).parts_ok(),
            cpr_ok(old(self).model(), old(self).snapshot_mgr, old(self).params()),
            !root.spec_is_id(),
            root.inner_no() < old(self).inners@.len(),
            old(self).inners@[root.inner_no()]@.version == present(old(self).snapshot_mgr),
            old(self).snapshot_mgr matches Some(m) ==> m.phase().captures()
                ==> m.capture().root_id == m.frozen@.root.raw,
        ensures
            final(self).parts_ok(),
            final(self).model() == (Core { root, ..old(self).model() }),
            final(self).inners == old(self).inners,
            final(self).storage == old(self).storage,
            final(self).shape == old(self).shape,
            final(self).snapshot_mgr == old(self).snapshot_mgr,
            final(self).only_core_differs(old(self)),
            cpr_ok(final(self).model(), final(self).snapshot_mgr, final(self).params()),
    {
        let ghost c = self.model();
        self.root = root;
        proof {
            match &self.snapshot_mgr {
                None => {},
                Some(m) => {
                    if m.phase().captures() {
                        assert(c.sk.nodes[root.inner_no()] == self.inners@[root.inner_no()]@);
                        capture::lemma_tracks_set_root(
                            c,
                            m.capture(),
                            m.frozen@,
                            (m.version() - 1) as u64,
                            root,
                        );
                    }
                },
            }
        }
    }
}

/// A page that satisfies its limits has an image.
pub proof fn lemma_page_image(v: ImageView, p: Params)
    requires
        p.ok(),
        model::whole_ok(v, p) || model::delta_ok(v, p),
    ensures
        v.fits(),
        (ImageView { link: NO_NEXT_LEVEL, ..v }).fits(),
        v.size > 0,
{
    inner_node::lemma_count(v.records);
    assert forall|i: int| 0 <= i < v.records.len() implies (#[trigger] v.records[i]).fits() by {
        assert(v.records[i].key.len() <= p.key_max);
    }
}

/// Heights and ranges have no part in snapshots.
pub(crate) proof fn lemma_cpr_shape(c: Core, c2: Core, mgr: Option<CPRSnapShotMgr>, p: Params)
    requires
        cpr_ok(c, mgr, p),
        c2.sk.nodes == c.sk.nodes,
        c2.pages == c.pages,
        c2.root == c.root,
    ensures
        cpr_ok(c2, mgr, p),
{
    match mgr {
        None => {},
        Some(m) => {
            if m.phase().captures() {
                let cap = m.capture();
                let f = m.frozen@;
                let v = (m.version() - 1) as u64;
                assert forall|i: int| 0 <= i < c2.sk.nodes.len() implies #[trigger] capture::node_tracked(
                    c2,
                    cap,
                    f,
                    v,
                    i,
                ) by {
                    assert(capture::node_tracked(c, cap, f, v, i));
                }
                assert forall|i: int| 0 <= i < c2.pages.len() implies #[trigger] capture::page_tracked(
                    c2,
                    cap,
                    f,
                    v,
                    i,
                ) by {
                    assert(capture::page_tracked(c, cap, f, v, i));
                }
            }
        },
    }
}

/// A page that may be changed, changed under the present version.
proof fn lemma_cpr_set_page(
    c: Core,
    mgr: Option<CPRSnapShotMgr>,
    p: Params,
    i: int,
    s: PageState,
)
    requires
        cpr_ok(c, mgr, p),
        0 <= i < c.pages.len(),
        page_free(mgr, i),
        s.version() == present(mgr),
    ensures
        cpr_ok(c.with_page(i, s), mgr, p),
{
    let c2 = c.with_page(i, s);
    assert forall|k: int| 0 <= k < c2.pages.len() implies (#[trigger] c2.pages[k]).version()
        <= present(mgr) by {
        assert(c.pages[k].version() <= present(mgr));
    }
    match mgr {
        None => {},
        Some(m) => {
            if m.phase().captures() {
                capture::lemma_tracks_set_page(
                    c,
                    m.capture(),
                    m.frozen@,
                    (m.version() - 1) as u64,
                    i,
                    s,
                );
            }
        },
    }
}

/// Noting the root keeps the snapshot in step.
pub(crate) proof fn lemma_tracks_root_noted(c: Core, before: Capture, after: Capture, f: Core, v: u64)
    requires
        capture::tracks(c, before, f, v),
        after == (Capture { root_id: f.root.raw, ..before }),
    ensures
        capture::tracks(c, after, f, v),
{
    assert forall|i: int| 0 <= i < c.sk.nodes.len() implies #[trigger] capture::node_tracked(
        c,
        after,
        f,
        v,
        i,
    ) by {
        assert(capture::node_tracked(c, before, f, v, i));
    }
    assert forall|i: int| 0 <= i < c.pages.len() implies #[trigger] capture::page_tracked(
        c,
        after,
        f,
        v,
        i,
    ) by {
        assert(capture::page_tracked(c, before, f, v, i));
    }
}

proof fn lemma_base_noted(
    f: Core,
    before: Capture,
    after: Capture,
    tid: int,
    i: int,
    id: PageID,
    bytes: Seq<u8>,
)
    requires
        0 <= tid < DEFAULT_MAX_SNAPSHOT_THREAD_NUM,
        before.full || capture::entries_ok(f, before),
        before.base.len() == DEFAULT_MAX_SNAPSHOT_THREAD_NUM,
        0 <= i < f.pages.len(),
        i < 0x7fff_ffff_ffff_ffff,
        id == PageID::leaf(i),
        capture::base_image(f.pages[i]) matches Some(v) && bytes.len() == v.size
            && image::parse_image(bytes) == Some(v),
        exists|offset: usize|
            #![trigger snapshot::entry_added(before.base, tid, (id, offset))]
            snapshot::page_written(
                Capture {
                    base: snapshot::entry_added(before.base, tid, (id, offset)),
                    ..before
                },
                after,
                bytes,
                offset,
            ),
    ensures
        capture::capture_grows(f, before, after),
        after.full || capture::has_entry(after.base, PageID::leaf(i)),
        after.root_id == before.root_id,
        after.mini == before.mini,
        after.mini_size == before.mini_size,
{
    let offset = choose|offset: usize|
        #![trigger snapshot::entry_added(before.base, tid, (id, offset))]
        snapshot::page_written(
            Capture { base: snapshot::entry_added(before.base, tid, (id, offset)), ..before },
            after,
            bytes,
            offset,
        );
    capture::lemma_capture_base(f, before, after, tid, i, bytes, offset);
}

} // verus!
