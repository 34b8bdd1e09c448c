//! The sweep over the tree, which captures the pages that no operation did.
use vstd::prelude::*;

use crate::model;
use crate::model::{Core, PageState};
use crate::nodes::image;
use crate::nodes::image::ImageView;
use crate::nodes::inner_node;
use crate::nodes::inner_node::INNER_NODE_SIZE;
use crate::nodes::leaf_node::NO_NEXT_LEVEL;
use crate::nodes::{PageID, DISK_PAGE_SIZE};
use crate::snapshot;
use crate::snapshot::capture;
use crate::snapshot::{
    Capture, PhaseId, DEFAULT_MAX_SNAPSHOT_THREAD_NUM, NULL_PAGE_LOCATION_OFFSET,
};
use crate::storage::{PageLocation, PAGE_LIMIT};
use crate::tree;
use crate::tree::traverse;
use crate::tree::BfTree;

verus! {

/// Where the sweep put pages.
pub struct SweepLists {
    pub inner: Vec<(PageID, usize)>,
    pub mini: Vec<(PageID, usize)>,
    pub mini_size: Vec<(PageID, usize)>,
    pub base: Vec<(PageID, usize)>,
}

/// The view of [SweepLists].
#[verifier::ext_equal]
pub struct Lists {
    pub inner: Seq<(PageID, usize)>,
    pub mini: Seq<(PageID, usize)>,
    pub mini_size: Seq<(PageID, usize)>,
    pub base: Seq<(PageID, usize)>,
}

impl View for SweepLists {
    type V = Lists;

    open spec fn view(&self) -> Lists {
        Lists {
            inner: self.inner@,
            mini: self.mini@,
            mini_size: self.mini_size@,
            base: self.base@,
        }
    }
}

impl Lists {
    pub open spec fn none() -> Lists {
        Lists {
            inner: Seq::empty(),
            mini: Seq::empty(),
            mini_size: Seq::empty(),
            base: Seq::empty(),
        }
    }
}

pub open spec fn listed(l: Seq<(PageID, usize)>, id: PageID) -> bool {
    exists|i: int| 0 <= i < l.len() && (#[trigger] l[i]).0 == id
}

/// The pages of a list, in its order.
pub open spec fn ids(l: Seq<(PageID, usize)>) -> Seq<PageID> {
    l.map_values(|e: (PageID, usize)| e.0)
}

/// The inner nodes below `version` among the first `n`.
pub open spec fn nodes_below(c: Core, version: u64, n: nat) -> Seq<PageID>
    decreases n,
{
    if n == 0 {
        Seq::empty()
    } else {
        let front = nodes_below(c, version, (n - 1) as nat);
        if c.sk.nodes[n - 1].version < version {
            front.push(PageID::inner(n - 1))
        } else {
            front
        }
    }
}

/// The leaf pages below `version` among the first `n` of which there is a page
/// on disk.
pub open spec fn bases_below(c: Core, version: u64, n: nat) -> Seq<PageID>
    decreases n,
{
    if n == 0 {
        Seq::empty()
    } else {
        let front = bases_below(c, version, (n - 1) as nat);
        if c.pages[n - 1].version() < version && capture::base_image(c.pages[n - 1]) is Some {
            front.push(PageID::leaf(n - 1))
        } else {
            front
        }
    }
}

/// The mini-pages below `version` among the first `n` leaf pages; without a
/// disk, evicted pages count too.
pub open spec fn minis_below(c: Core, cache_only: bool, version: u64, n: nat) -> Seq<PageID>
    decreases n,
{
    if n == 0 {
        Seq::empty()
    } else {
        let front = minis_below(c, cache_only, version, (n - 1) as nat);
        let s = c.pages[n - 1];
        if s.version() < version && (s is Mini || (s is Null && cache_only)) {
            front.push(PageID::leaf(n - 1))
        } else {
            front
        }
    }
}

/// The lists of leaf pages name exactly those below `version` among the first
/// `n`.
pub open spec fn leaves_listed(
    c: Core,
    cache_only: bool,
    version: u64,
    n: nat,
    l: Lists,
) -> bool {
    &&& ids(l.base) == bases_below(c, version, n)
    &&& ids(l.mini) == minis_below(c, cache_only, version, n)
    &&& ids(l.mini_size) == ids(l.mini)
}

/// The lists name exactly the nodes and pages of the tree that are below
/// `version`.
pub open spec fn lists_exact(c: Core, cache_only: bool, version: u64, l: Lists) -> bool {
    &&& ids(l.inner) == nodes_below(c, version, c.sk.nodes.len())
    &&& leaves_listed(c, cache_only, version, c.pages.len(), l)
}

proof fn lemma_ids_push(l: Seq<(PageID, usize)>, e: (PageID, usize))
    ensures
        ids(l.push(e)) == ids(l).push(e.0),
{
    assert(ids(l.push(e)) =~= ids(l).push(e.0));
}

/// All places in the lists are right.
pub open spec fn lists_ok(f: Core, data: Seq<u8>, l: Lists) -> bool {
    &&& l.mini.len() == l.mini_size.len()
    &&& forall|i: int|
        0 <= i < l.inner.len() ==> capture::inner_entry_ok(f, data, #[trigger] l.inner[i])
    &&& forall|i: int|
        0 <= i < l.base.len() ==> capture::base_entry_ok(f, data, #[trigger] l.base[i])
    &&& forall|i: int|
        0 <= i < l.mini.len() ==> capture::mini_entry_ok(
            f,
            data,
            #[trigger] l.mini[i],
            l.mini_size[i],
        )
}

/// What was captured and what was swept is right.
pub open spec fn sweeping(f: Core, cap: Capture, l: Lists) -> bool {
    cap.full || (capture::entries_ok(f, cap) && lists_ok(f, cap.data, l))
}

pub open spec fn kept(
    local: Seq<Seq<(PageID, usize)>>,
    l: Seq<(PageID, usize)>,
    id: PageID,
) -> bool {
    capture::has_entry(local, id) || listed(l, id)
}

/// Everything that makes up page `i` of the frozen tree has a place.
pub open spec fn page_kept(f: Core, cap: Capture, l: Lists, i: int, cache_only: bool) -> bool {
    let id = PageID::leaf(i);
    match f.pages[i] {
        PageState::Null(_) => cache_only ==> kept(cap.mini, l.mini, id),
        PageState::Mini(_, None) => kept(cap.mini, l.mini, id),
        PageState::Mini(_, Some(_)) => kept(cap.mini, l.mini, id) && kept(cap.base, l.base, id),
        _ => kept(cap.base, l.base, id),
    }
}

/// The whole frozen tree has been copied.
pub open spec fn swept(f: Core, cap: Capture, l: Lists, cache_only: bool) -> bool {
    &&& sweeping(f, cap, l)
    &&& cap.root_id == f.root.raw
    &&& cap.full || {
        &&& forall|i: int|
            0 <= i < f.sk.nodes.len() ==> kept(cap.inner, l.inner, #[trigger] PageID::inner(i))
        &&& forall|i: int|
            0 <= i < f.pages.len() ==> #[trigger] page_kept(f, cap, l, i, cache_only)
    }
}

/// A page added to the file keeps everything in order.
proof fn lemma_page_added(
    f: Core,
    before: Capture,
    after: Capture,
    bytes: Seq<u8>,
    off: usize,
    l: Lists,
)
    requires
        snapshot::page_written(before, after, bytes, off),
        sweeping(f, before, l),
    ensures
        sweeping(f, after, l),
        capture::capture_grows(f, before, after),
        after.root_id == before.root_id,
        after.inner == before.inner,
        after.base == before.base,
        after.mini == before.mini,
        after.mini_size == before.mini_size,
        !after.full ==> {
            &&& DISK_PAGE_SIZE <= off
            &&& off + bytes.len() <= after.data.len()
            &&& after.data.subrange(off as int, off + bytes.len()) == bytes
            &&& off + bytes.len() <= usize::MAX
        },
{
    if !after.full {
        capture::lemma_file_grows(before, after, bytes, off);
        assert(capture::entries_ok(f, after)) by {
            assert forall|s: int, i: int|
                #![trigger after.mini[s][i]]
                0 <= s < DEFAULT_MAX_SNAPSHOT_THREAD_NUM && 0 <= i
                    < after.mini[s].len() implies capture::mini_entry_ok(
                f,
                after.data,
                after.mini[s][i],
                after.mini_size[s][i],
            ) by {
                assert(capture::mini_entry_ok(
                    f,
                    before.data,
                    before.mini[s][i],
                    before.mini_size[s][i],
                ));
            }
            assert forall|s: int, i: int|
                #![trigger after.base[s][i]]
                0 <= s < DEFAULT_MAX_SNAPSHOT_THREAD_NUM && 0 <= i
                    < after.base[s].len() implies capture::base_entry_ok(
                f,
                after.data,
                after.base[s][i],
            ) by {
                assert(capture::base_entry_ok(f, before.data, before.base[s][i]));
            }
            assert forall|s: int, i: int|
                #![trigger after.inner[s][i]]
                0 <= s < DEFAULT_MAX_SNAPSHOT_THREAD_NUM && 0 <= i
                    < after.inner[s].len() implies capture::inner_entry_ok(
                f,
                after.data,
                after.inner[s][i],
            ) by {
                assert(capture::inner_entry_ok(f, before.data, before.inner[s][i]));
            }
        }
    }
}

/// If there was room for `n` bytes, at most as many were written.
pub open spec fn fits(before: Capture, after: Capture, n: nat) -> bool {
    !before.full && before.next_offset + n <= usize::MAX ==> !after.full && after.next_offset
        <= before.next_offset + n
}

/// The room that a sweep takes at most.
pub open spec fn sweep_room(nodes: nat, pages: nat) -> nat {
    nodes * INNER_NODE_SIZE as nat + pages * 65536
}

/// The tree's part in a sweep: nothing but the captures changes.
pub open spec fn only_swept(before: &BfTree, after: &BfTree) -> bool {
    &&& after.wf()
    &&& after.model() == before.model()
    &&& after.config == before.config
    &&& after.cache_only == before.cache_only
    &&& after.storage == before.storage
    &&& after.inners == before.inners
    &&& after.shape == before.shape
    &&& after.root == before.root
    &&& after.wal == before.wal
    &&& before.snapshot_mgr is Some
    &&& after.snapshot_mgr is Some
    &&& (after.snapshot_mgr->0).only_capture_differs(&(before.snapshot_mgr->0))
}

impl BfTree {
    /// Copies a page image to the snapshot file.
    fn sweep_page(&mut self, bytes: Vec<u8>, Ghost(l): Ghost<Lists>) -> (off: usize)
        requires
            old(self).wf(),
            old(self).snapshot_mgr is Some,
            (old(self).snapshot_mgr->0).phase() == PhaseId::Sweep,
            sweeping(
                (old(self).snapshot_mgr->0).frozen@,
                (old(self).snapshot_mgr->0).capture(),
                l,
            ),
        ensures
            only_swept(&*old(self), &*final(self)),
            snapshot::page_written(
                (old(self).snapshot_mgr->0).capture(),
                (final(self).snapshot_mgr->0).capture(),
                bytes@,
                off,
            ),
            sweeping(
                (old(self).snapshot_mgr->0).frozen@,
                (final(self).snapshot_mgr->0).capture(),
                l,
            ),
    {
        let ghost c = self.model();
        let ghost m0 = self.snapshot_mgr->0;
        let ghost f = m0.frozen@;
        let mut off: usize = 0;
        match &mut self.snapshot_mgr {
            None => {},
            Some(mgr) => {
                let ghost before = mgr.capture();
                off = mgr.snapshot_page(bytes.as_slice(), bytes.len());
                proof {
                    lemma_page_added(f, before, mgr.capture(), bytes@, off, l);
                    capture::lemma_tracks_grows(
                        c,
                        before,
                        mgr.capture(),
                        f,
                        (m0.version() - 1) as u64,
                    );
                }
            },
        }
        assert(self.model() == c);
        off
    }

    /// Copies all inner nodes below `version` to the snapshot file.
    fn sweep_inners(&mut self, version: u64, lists: &mut SweepLists)
        requires
            old(self).wf(),
            old(self).snapshot_mgr is Some,
            (old(self).snapshot_mgr->0).phase() == PhaseId::Sweep,
            version == (old(self).snapshot_mgr->0).version(),
            old(lists)@ == Lists::none(),
        ensures
            only_swept(&*old(self), &*final(self)),
            ({
                let f = (old(self).snapshot_mgr->0).frozen@;
                let cap = (final(self).snapshot_mgr->0).capture();
                &&& sweeping(f, cap, final(lists)@)
                &&& cap.full || forall|i: int|
                    0 <= i < f.sk.nodes.len() ==> kept(
                        cap.inner,
                        final(lists)@.inner,
                        #[trigger] PageID::inner(i),
                    )
            }),
            final(lists)@ == (Lists { inner: final(lists)@.inner, ..Lists::none() }),
            ids(final(lists)@.inner) == nodes_below(
                old(self).model(),
                version,
                old(self).model().sk.nodes.len(),
            ),
            (final(self).snapshot_mgr->0).capture().root_id
                == (old(self).snapshot_mgr->0).capture().root_id,
            fits(
                (old(self).snapshot_mgr->0).capture(),
                (final(self).snapshot_mgr->0).capture(),
                old(self).model().sk.nodes.len() * INNER_NODE_SIZE as nat,
            ),
    {
        let ghost c = self.model();
        let ghost p = self.params();
        let ghost m0 = self.snapshot_mgr->0;
        let ghost f = m0.frozen@;
        let ghost v = (version - 1) as u64;
        let ghost before = *self;
        let n = self.inners.len();
        proof {
            self.config.lemma_params();
            model::lemma_total_keys_min(c.sk.nodes);
        }
        let mut i: usize = 0;
        assert(ids(lists@.inner) =~= nodes_below(c, version, 0));
        while i < n
            invariant
                i <= n,
                n == self.inners@.len(),
                n < PAGE_LIMIT,
                p.ok(),
                p == self.params(),
                only_swept(&before, &*self),
                before == *old(self),
                c == before.model(),
                m0 == before.snapshot_mgr->0,
                m0.phase() == PhaseId::Sweep,
                f == m0.frozen@,
                version == m0.version(),
                v == (version - 1) as u64,
                version >= 1,
                sweeping(f, (self.snapshot_mgr->0).capture(), lists@),
                lists@ == (Lists { inner: lists@.inner, ..Lists::none() }),
                ids(lists@.inner) == nodes_below(c, version, i as nat),
                (self.snapshot_mgr->0).capture().root_id == m0.capture().root_id,
                n == c.sk.nodes.len(),
                fits(
                    m0.capture(),
                    (self.snapshot_mgr->0).capture(),
                    i as nat * INNER_NODE_SIZE as nat,
                ),
                (self.snapshot_mgr->0).capture().full || forall|j: int|
                    0 <= j < i && j < f.sk.nodes.len() ==> kept(
                        (self.snapshot_mgr->0).capture().inner,
                        lists@.inner,
                        #[trigger] PageID::inner(j),
                    ),
            decreases n - i,
        {
            let ghost cap0 = (self.snapshot_mgr->0).capture();
            proof {
                assert(c.sk.nodes[i as int] == self.inners@[i as int]@);
                assert(capture::tracks(c, cap0, f, v));
                assert(capture::node_tracked(c, cap0, f, v, i as int));
                traverse::lemma_node_fits(c.sk, c.pages.len(), p, i as int);
            }
            if self.inners[i].get_clean_snapshot_version() < version {
                let node = &self.inners[i];
                proof {
                    inner_node::lemma_inner_round_trip(node@, node.version_lock);
                }
                let bytes = node.as_image();
                let ghost img = bytes@;
                let off = self.sweep_page(bytes, Ghost(lists@));
                let ghost cap1 = (self.snapshot_mgr->0).capture();
                let ghost l0 = lists@;
                let id = PageID::from_pointer(i);
                proof {
                    lemma_page_added(f, cap0, cap1, img, off, l0);
                }
                lists.inner.push((id, off));
                proof {
                    assert(lists@.inner == l0.inner.push((id, off)));
                    if !cap1.full {
                        assert(capture::inner_entry_ok(f, cap1.data, (id, off)));
                    }
                    lemma_listed_push(l0.inner, (id, off));
                    lemma_ids_push(l0.inner, (id, off));
                }
            } else {
                assert(capture::node_writable(f, cap0, i as int));
            }
            i += 1;
        }
    }
}

pub proof fn lemma_listed_push(l: Seq<(PageID, usize)>, e: (PageID, usize))
    ensures
        listed(l.push(e), e.0),
        forall|id: PageID| #[trigger] listed(l, id) ==> listed(l.push(e), id),
{
    assert(l.push(e)[l.len() as int] == e);
    assert forall|id: PageID| #[trigger] listed(l, id) implies listed(l.push(e), id) by {
        let i = choose|i: int| 0 <= i < l.len() && (#[trigger] l[i]).0 == id;
        assert(l.push(e)[i] == l[i]);
    }
}

/// One more place of a mini-page.
proof fn lemma_mini_listed(
    f: Core,
    data: Seq<u8>,
    l: Lists,
    l2: Lists,
    e: (PageID, usize),
    z: (PageID, usize),
)
    requires
        lists_ok(f, data, l),
        capture::mini_entry_ok(f, data, e, z),
        l2 == (Lists { mini: l.mini.push(e), mini_size: l.mini_size.push(z), ..l }),
    ensures
        lists_ok(f, data, l2),
{
    assert forall|i: int| 0 <= i < l2.mini.len() implies capture::mini_entry_ok(
        f,
        data,
        #[trigger] l2.mini[i],
        l2.mini_size[i],
    ) by {
        if i < l.mini.len() {
            assert(capture::mini_entry_ok(f, data, l.mini[i], l.mini_size[i]));
        }
    }
}

/// One more place of a page on disk.
proof fn lemma_base_listed(f: Core, data: Seq<u8>, l: Lists, l2: Lists, e: (PageID, usize))
    requires
        lists_ok(f, data, l),
        capture::base_entry_ok(f, data, e),
        l2 == (Lists { base: l.base.push(e), ..l }),
    ensures
        lists_ok(f, data, l2),
{
    assert forall|i: int| 0 <= i < l2.base.len() implies capture::base_entry_ok(
        f,
        data,
        #[trigger] l2.base[i],
    ) by {
        if i < l.base.len() {
            assert(capture::base_entry_ok(f, data, l.base[i]));
        }
    }
}

/// Nothing but leaf places and bytes of the file were added.
pub open spec fn leaves_added(cap: Capture, l: Lists, cap2: Capture, l2: Lists) -> bool {
    &&& cap2.inner == cap.inner
    &&& cap2.base == cap.base
    &&& cap2.mini == cap.mini
    &&& cap2.root_id == cap.root_id
    &&& cap.full ==> cap2.full
    &&& l2.inner == l.inner
    &&& forall|id: PageID| #[trigger] listed(l.mini, id) ==> listed(l2.mini, id)
    &&& forall|id: PageID| #[trigger] listed(l.base, id) ==> listed(l2.base, id)
}

/// More lists keep what was kept.
proof fn lemma_kept_more(f: Core, cap: Capture, l: Lists, cap2: Capture, l2: Lists, cache_only: bool)
    requires
        leaves_added(cap, l, cap2, l2),
    ensures
        forall|i: int| #[trigger]
            page_kept(f, cap, l, i, cache_only) ==> page_kept(f, cap2, l2, i, cache_only),
{
}

impl BfTree {
    /// Copies the image of a page on disk to the snapshot file.
    fn sweep_base(
        &mut self,
        id: PageID,
        bytes: Vec<u8>,
        lists: &mut SweepLists,
        Ghost(v): Ghost<ImageView>,
    )
        requires
            old(self).wf(),
            old(self).snapshot_mgr is Some,
            (old(self).snapshot_mgr->0).phase() == PhaseId::Sweep,
            sweeping(
                (old(self).snapshot_mgr->0).frozen@,
                (old(self).snapshot_mgr->0).capture(),
                old(lists)@,
            ),
            id.spec_is_id(),
            id.raw < (old(self).snapshot_mgr->0).frozen@.pages.len(),
            capture::base_image((old(self).snapshot_mgr->0).frozen@.pages[id.raw as int]) == Some(
                v,
            ),
            bytes@.len() == v.size,
            v.size <= 32768,
            image::parse_image(bytes@) == Some(v),
        ensures
            only_swept(&*old(self), &*final(self)),
            sweeping(
                (old(self).snapshot_mgr->0).frozen@,
                (final(self).snapshot_mgr->0).capture(),
                final(lists)@,
            ),
            leaves_added(
                (old(self).snapshot_mgr->0).capture(),
                old(lists)@,
                (final(self).snapshot_mgr->0).capture(),
                final(lists)@,
            ),
            listed(final(lists)@.base, id),
            ids(final(lists)@.base) == ids(old(lists)@.base).push(id),
            final(lists)@ == (Lists { base: final(lists)@.base, ..old(lists)@ }),
            fits(
                (old(self).snapshot_mgr->0).capture(),
                (final(self).snapshot_mgr->0).capture(),
                32768,
            ),
    {
        let ghost f = (self.snapshot_mgr->0).frozen@;
        let ghost cap0 = (self.snapshot_mgr->0).capture();
        let ghost l0 = lists@;
        let ghost img = bytes@;
        let off = self.sweep_page(bytes, Ghost(l0));
        let ghost cap1 = (self.snapshot_mgr->0).capture();
        lists.base.push((id, off));
        proof {
            lemma_page_added(f, cap0, cap1, img, off, l0);
            if !cap1.full {
                lemma_base_listed(f, cap1.data, l0, lists@, (id, off));
            }
            lemma_listed_push(l0.base, (id, off));
            lemma_ids_push(l0.base, (id, off));
        }
    }

    /// Copies a mini-page to the snapshot file.
    fn sweep_mini(
        &mut self,
        id: PageID,
        bytes: Vec<u8>,
        lists: &mut SweepLists,
        Ghost(v): Ghost<ImageView>,
    )
        requires
            old(self).wf(),
            old(self).snapshot_mgr is Some,
            (old(self).snapshot_mgr->0).phase() == PhaseId::Sweep,
            sweeping(
                (old(self).snapshot_mgr->0).frozen@,
                (old(self).snapshot_mgr->0).capture(),
                old(lists)@,
            ),
            id.spec_is_id(),
            id.raw < (old(self).snapshot_mgr->0).frozen@.pages.len(),
            (old(self).snapshot_mgr->0).frozen@.pages[id.raw as int] is Mini,
            (old(self).snapshot_mgr->0).frozen@.pages[id.raw as int]->Mini_0 == v,
            bytes@.len() == v.size,
            v.size <= 32768,
            v.size > 0,
            image::parse_image(bytes@) == Some(v),
        ensures
            only_swept(&*old(self), &*final(self)),
            sweeping(
                (old(self).snapshot_mgr->0).frozen@,
                (final(self).snapshot_mgr->0).capture(),
                final(lists)@,
            ),
            leaves_added(
                (old(self).snapshot_mgr->0).capture(),
                old(lists)@,
                (final(self).snapshot_mgr->0).capture(),
                final(lists)@,
            ),
            listed(final(lists)@.mini, id),
            ids(final(lists)@.mini) == ids(old(lists)@.mini).push(id),
            ids(final(lists)@.mini_size) == ids(old(lists)@.mini_size).push(id),
            final(lists)@.base == old(lists)@.base,
            fits(
                (old(self).snapshot_mgr->0).capture(),
                (final(self).snapshot_mgr->0).capture(),
                32768,
            ),
    {
        let ghost f = (self.snapshot_mgr->0).frozen@;
        let ghost cap0 = (self.snapshot_mgr->0).capture();
        let ghost l0 = lists@;
        let ghost img = bytes@;
        let size = bytes.len();
        let off = self.sweep_page(bytes, Ghost(l0));
        let ghost cap1 = (self.snapshot_mgr->0).capture();
        lists.mini.push((id, off));
        lists.mini_size.push((id, size));
        proof {
            lemma_page_added(f, cap0, cap1, img, off, l0);
            if !cap1.full {
                lemma_mini_listed(f, cap1.data, l0, lists@, (id, off), (id, size));
            }
            lemma_listed_push(l0.mini, (id, off));
            lemma_ids_push(l0.mini, (id, off));
            lemma_ids_push(l0.mini_size, (id, size));
        }
    }

    /// Copies leaf page `pid`, which is below the snapshot's new version, to the
    /// snapshot file.
    fn sweep_leaf(&mut self, pid: u64, lists: &mut SweepLists)
        requires
            old(self).wf(),
            old(self).snapshot_mgr is Some,
            (old(self).snapshot_mgr->0).phase() == PhaseId::Sweep,
            pid < old(self).model().pages.len(),
            old(self).model().pages[pid as int].version() < (old(self).snapshot_mgr->0).version(),
            sweeping(
                (old(self).snapshot_mgr->0).frozen@,
                (old(self).snapshot_mgr->0).capture(),
                old(lists)@,
            ),
        ensures
            only_swept(&*old(self), &*final(self)),
            sweeping(
                (old(self).snapshot_mgr->0).frozen@,
                (final(self).snapshot_mgr->0).capture(),
                final(lists)@,
            ),
            leaves_added(
                (old(self).snapshot_mgr->0).capture(),
                old(lists)@,
                (final(self).snapshot_mgr->0).capture(),
                final(lists)@,
            ),
            pid < (old(self).snapshot_mgr->0).frozen@.pages.len(),
            page_kept(
                (old(self).snapshot_mgr->0).frozen@,
                (final(self).snapshot_mgr->0).capture(),
                final(lists)@,
                pid as int,
                old(self).cache_only,
            ),
            leaves_listed(
                old(self).model(),
                old(self).cache_only,
                (old(self).snapshot_mgr->0).version(),
                pid as nat,
                old(lists)@,
            ) ==> leaves_listed(
                old(self).model(),
                old(self).cache_only,
                (old(self).snapshot_mgr->0).version(),
                pid as nat + 1,
                final(lists)@,
            ),
            fits(
                (old(self).snapshot_mgr->0).capture(),
                (final(self).snapshot_mgr->0).capture(),
                65536,
            ),
    {
        let ghost c = self.model();
        let ghost p = self.params();
        let ghost m0 = self.snapshot_mgr->0;
        let ghost f = m0.frozen@;
        let ghost v = (m0.version() - 1) as u64;
        let ghost cap0 = m0.capture();
        let ghost l0 = lists@;
        let ghost s = c.pages[pid as int];
        let id = PageID::from_id(pid);
        proof {
            self.config.lemma_params();
            assert(capture::page_tracked(c, cap0, f, v, pid as int));
            assert(s == f.pages[pid as int]);
            assert(s.ok(p));
            assert(s == self.storage.page_table@[pid as int]@);
        }
        match self.storage.page_table.get(pid) {
            PageLocation::Null(_) => {
                if self.cache_only {
                    lists.mini.push((id, NULL_PAGE_LOCATION_OFFSET));
                    lists.mini_size.push((id, 0));
                    proof {
                        lemma_listed_push(l0.mini, (id, NULL_PAGE_LOCATION_OFFSET));
                        lemma_ids_push(l0.mini, (id, NULL_PAGE_LOCATION_OFFSET));
                        lemma_ids_push(l0.mini_size, (id, 0));
                        if !cap0.full {
                            lemma_mini_listed(
                                f,
                                cap0.data,
                                l0,
                                lists@,
                                (id, NULL_PAGE_LOCATION_OFFSET),
                                (id, 0),
                            );
                        }
                    }
                }
            },
            PageLocation::Base(n) => {
                proof {
                    tree::lemma_page_image(n@, p);
                    image::lemma_image_round_trip(n@);
                }
                let bytes = n.as_image();
                let ghost view = n@;
                self.sweep_base(id, bytes, lists, Ghost(view));
            },
            PageLocation::Full(n) => {
                // Kept as a page on disk, which it stands for.
                let ghost plain = ImageView { link: NO_NEXT_LEVEL, ..n@ };
                proof {
                    tree::lemma_page_image(n@, p);
                    image::lemma_image_round_trip(plain);
                }
                let bytes = n.as_plain_image();
                self.sweep_base(id, bytes, lists, Ghost(plain));
            },
            PageLocation::Mini(n, b) => {
                proof {
                    tree::lemma_page_image(n@, p);
                    image::lemma_image_round_trip(n@);
                }
                let bytes = n.as_image();
                let ghost view = n@;
                // In disk-mode, the base page of the mini-page is part of the snapshot as well.
                match b {
                    None => {
                        self.sweep_mini(id, bytes, lists, Ghost(view));
                    },
                    Some(w) => {
                        proof {
                            tree::lemma_page_image(w@, p);
                            image::lemma_image_round_trip(w@);
                        }
                        let below = w.as_image();
                        let ghost base = w@;
                        self.sweep_mini(id, bytes, lists, Ghost(view));
                        self.sweep_base(id, below, lists, Ghost(base));
                    },
                }
            },
        }
    }

    /// Copies all leaf pages below `version` to the snapshot file, and returns
    /// the number of leaf pages.
    fn sweep_leaves(&mut self, version: u64, lists: &mut SweepLists) -> (count: usize)
        requires
            old(self).wf(),
            old(self).snapshot_mgr is Some,
            (old(self).snapshot_mgr->0).phase() == PhaseId::Sweep,
            version == (old(self).snapshot_mgr->0).version(),
            sweeping(
                (old(self).snapshot_mgr->0).frozen@,
                (old(self).snapshot_mgr->0).capture(),
                old(lists)@,
            ),
            old(lists)@ == (Lists { inner: old(lists)@.inner, ..Lists::none() }),
        ensures
            only_swept(&*old(self), &*final(self)),
            leaves_listed(
                old(self).model(),
                old(self).cache_only,
                version,
                old(self).model().pages.len(),
                final(lists)@,
            ),
            count == old(self).model().pages.len(),
            ({
                let f = (old(self).snapshot_mgr->0).frozen@;
                let cap = (final(self).snapshot_mgr->0).capture();
                &&& sweeping(f, cap, final(lists)@)
                &&& cap.full || forall|i: int|
                    0 <= i < f.pages.len() ==> #[trigger] page_kept(
                        f,
                        cap,
                        final(lists)@,
                        i,
                        old(self).cache_only,
                    )
                &&& cap.inner == (old(self).snapshot_mgr->0).capture().inner
                &&& cap.root_id == (old(self).snapshot_mgr->0).capture().root_id
                &&& (old(self).snapshot_mgr->0).capture().full ==> cap.full
            }),
            final(lists)@.inner == old(lists)@.inner,
            fits(
                (old(self).snapshot_mgr->0).capture(),
                (final(self).snapshot_mgr->0).capture(),
                old(self).model().pages.len() * 65536,
            ),
    {
        let ghost c = self.model();
        let ghost m0 = self.snapshot_mgr->0;
        let ghost f = m0.frozen@;
        let ghost v = (version - 1) as u64;
        let ghost before = *self;
        let n: u64 = self.storage.page_table.peek_next_id();
        let mut pid: u64 = 0;
        assert(leaves_listed(c, self.cache_only, version, 0, lists@)) by {
            assert(ids(Seq::empty()) =~= Seq::empty());
        }
        while pid < n
            invariant
                pid <= n,
                n == c.pages.len(),
                n <= PAGE_LIMIT,
                only_swept(&before, &*self),
                before == *old(self),
                c == before.model(),
                m0 == before.snapshot_mgr->0,
                m0.phase() == PhaseId::Sweep,
                f == m0.frozen@,
                version == m0.version(),
                v == (version - 1) as u64,
                version >= 1,
                sweeping(f, (self.snapshot_mgr->0).capture(), lists@),
                lists@.inner == old(lists)@.inner,
                leaves_listed(c, self.cache_only, version, pid as nat, lists@),
                (self.snapshot_mgr->0).capture().inner == m0.capture().inner,
                (self.snapshot_mgr->0).capture().root_id == m0.capture().root_id,
                m0.capture().full ==> (self.snapshot_mgr->0).capture().full,
                fits(m0.capture(), (self.snapshot_mgr->0).capture(), pid as nat * 65536),
                (self.snapshot_mgr->0).capture().full || forall|j: int|
                    0 <= j < pid && j < f.pages.len() ==> #[trigger] page_kept(
                        f,
                        (self.snapshot_mgr->0).capture(),
                        lists@,
                        j,
                        self.cache_only,
                    ),
            decreases n - pid,
        {
            let ghost cap0 = (self.snapshot_mgr->0).capture();
            let ghost l0 = lists@;
            proof {
                assert(capture::tracks(c, cap0, f, v));
                assert(capture::page_tracked(c, cap0, f, v, pid as int));
                assert(c.pages[pid as int] == self.storage.page_table@[pid as int]@);
            }
            if self.storage.page_table.get(pid).version() < version {
                self.sweep_leaf(pid, lists);
                proof {
                    lemma_kept_more(
                        f,
                        cap0,
                        l0,
                        (self.snapshot_mgr->0).capture(),
                        lists@,
                        self.cache_only,
                    );
                }
            } else {
                assert(capture::page_writable(f, cap0, pid as int));
                assert(cap0.full || pid >= f.pages.len() || page_kept(
                    f,
                    cap0,
                    lists@,
                    pid as int,
                    self.cache_only,
                ));
            }
            proof {
                let cap1 = (self.snapshot_mgr->0).capture();
                if !cap1.full {
                    assert forall|j: int|
                        0 <= j < pid + 1 && j < f.pages.len() implies #[trigger] page_kept(
                        f,
                        cap1,
                        lists@,
                        j,
                        self.cache_only,
                    ) by {
                        if j < pid {
                            assert(page_kept(f, cap0, l0, j, self.cache_only));
                        }
                    }
                }
            }
            pid += 1;
        }
        n as usize
    }

    /// Notes the root, unless an operation did so.
    fn sweep_root(&mut self, version: u64)
        requires
            old(self).wf(),
            old(self).snapshot_mgr is Some,
            (old(self).snapshot_mgr->0).phase() == PhaseId::Sweep,
            version == (old(self).snapshot_mgr->0).version(),
        ensures
            only_swept(&*old(self), &*final(self)),
            (final(self).snapshot_mgr->0).capture() == (Capture {
                root_id: (old(self).snapshot_mgr->0).frozen@.root.raw,
                ..(old(self).snapshot_mgr->0).capture()
            }),
    {
        let ghost c = self.model();
        let ghost m0 = self.snapshot_mgr->0;
        let ghost f = m0.frozen@;
        let ghost v = (version - 1) as u64;
        let root = self.root;
        if root.is_inner_node_pointer() {
            let n = self.inners.len();
            assert(root.inner_no() < n);
            assert(capture::root_tracked(c, m0.capture(), f, v));
            let no = root.as_inner_node() as usize;
            assert(c.sk.nodes[no as int] == self.inners@[no as int]@);
            if self.inners[no].get_clean_snapshot_version() < version {
                match &mut self.snapshot_mgr {
                    None => {},
                    Some(mgr) => {
                        mgr.snapshot_root_page(root);
                        proof {
                            tree::lemma_tracks_root_noted(c, m0.capture(), mgr.capture(), f, v);
                        }
                    },
                }
                assert(self.model() == c);
            }
        }
    }

    /// Copies all pages below `version`, the ones that no operation has copied
    /// yet, to the snapshot file, and returns the number of leaf pages. The
    /// lists name these pages and no others.
    pub(crate) fn sweep(&mut self, version: u64, lists: &mut SweepLists) -> (count: usize)
        requires
            old(self).wf(),
            old(self).snapshot_mgr is Some,
            (old(self).snapshot_mgr->0).phase() == PhaseId::Sweep,
            version == (old(self).snapshot_mgr->0).version(),
            old(lists)@ == Lists::none(),
        ensures
            only_swept(&*old(self), &*final(self)),
            count == old(self).model().pages.len(),
            swept(
                (old(self).snapshot_mgr->0).frozen@,
                (final(self).snapshot_mgr->0).capture(),
                final(lists)@,
                old(self).cache_only,
            ),
            lists_exact(old(self).model(), old(self).cache_only, version, final(lists)@),
            fits(
                (old(self).snapshot_mgr->0).capture(),
                (final(self).snapshot_mgr->0).capture(),
                sweep_room(old(self).model().sk.nodes.len(), old(self).model().pages.len()),
            ),
    {
        self.sweep_root(version);
        self.sweep_inners(version, lists);
        self.sweep_leaves(version, lists)
    }
}

} // verus!
