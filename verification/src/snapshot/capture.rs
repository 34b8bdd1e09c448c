//! What it means that a snapshot in progress follows the tree: every page of
//! the frozen tree is still in its place, or has been copied to the file.
use vstd::prelude::*;

use crate::fs;
use crate::model::{Core, PageState};
use crate::nodes::image;
use crate::nodes::image::ImageView;
use crate::nodes::inner_node;
use crate::nodes::inner_node::{InnerView, INNER_NODE_SIZE};
use crate::nodes::leaf_node::NO_NEXT_LEVEL;
use crate::nodes::{PageID, DISK_PAGE_SIZE};
use crate::snapshot;
use crate::snapshot::{Capture, DEFAULT_MAX_SNAPSHOT_THREAD_NUM, NULL_PAGE_LOCATION_OFFSET};

verus! {

/// Some slot noted a place for `id`.
pub open spec fn has_entry(m: Seq<Seq<(PageID, usize)>>, id: PageID) -> bool {
    exists|s: int, i: int|
        #![trigger m[s][i]]
        0 <= s < m.len() && 0 <= i < m[s].len() && m[s][i].0 == id
}

/// The file holds inner node `n` at `off`.
pub open spec fn inner_at(data: Seq<u8>, off: int, n: InnerView) -> bool {
    &&& DISK_PAGE_SIZE <= off
    &&& off + INNER_NODE_SIZE <= data.len()
    &&& inner_node::parse_inner(data.subrange(off, off + INNER_NODE_SIZE)) == Some(n)
}

/// The file holds page `v` at `off`.
pub open spec fn page_at(data: Seq<u8>, off: int, v: ImageView) -> bool {
    &&& DISK_PAGE_SIZE <= off
    &&& off + v.size <= data.len()
    &&& image::parse_image(data.subrange(off, off + v.size)) == Some(v)
}

/// What is kept of a page on disk: a cached whole page is kept as one.
pub open spec fn base_image(s: PageState) -> Option<ImageView> {
    match s {
        PageState::Null(_) => None,
        PageState::Base(v) => Some(v),
        PageState::Full(v) => Some(ImageView { link: NO_NEXT_LEVEL, ..v }),
        PageState::Mini(_, b) => b,
    }
}

pub open spec fn inner_entry_ok(f: Core, data: Seq<u8>, e: (PageID, usize)) -> bool {
    &&& !e.0.spec_is_id()
    &&& e.0.inner_no() < f.sk.nodes.len()
    &&& inner_at(data, e.1 as int, f.sk.nodes[e.0.inner_no()])
}

pub open spec fn base_entry_ok(f: Core, data: Seq<u8>, e: (PageID, usize)) -> bool {
    &&& e.0.spec_is_id()
    &&& e.0.raw < f.pages.len()
    &&& base_image(f.pages[e.0.raw as int]) matches Some(v) && page_at(data, e.1 as int, v)
}

pub open spec fn mini_entry_ok(
    f: Core,
    data: Seq<u8>,
    e: (PageID, usize),
    z: (PageID, usize),
) -> bool {
    &&& e.0.spec_is_id()
    &&& e.0.raw < f.pages.len()
    &&& z.0 == e.0
    &&& match f.pages[e.0.raw as int] {
        PageState::Null(_) => e.1 == NULL_PAGE_LOCATION_OFFSET && z.1 == 0,
        PageState::Mini(v, _) => z.1 == v.size && page_at(data, e.1 as int, v) && e.1
            != NULL_PAGE_LOCATION_OFFSET,
        _ => false,
    }
}

/// All places that were noted are right.
pub open spec fn entries_ok(f: Core, cap: Capture) -> bool {
    let n = DEFAULT_MAX_SNAPSHOT_THREAD_NUM;
    &&& cap.inner.len() == n
    &&& cap.base.len() == n
    &&& cap.mini.len() == n
    &&& cap.mini_size.len() == n
    &&& cap.data.len() <= cap.next_offset
    &&& DISK_PAGE_SIZE <= cap.next_offset
    &&& forall|s: int, i: int|
        #![trigger cap.inner[s][i]]
        0 <= s < n && 0 <= i < cap.inner[s].len() ==> inner_entry_ok(f, cap.data, cap.inner[s][i])
    &&& forall|s: int, i: int|
        #![trigger cap.base[s][i]]
        0 <= s < n && 0 <= i < cap.base[s].len() ==> base_entry_ok(f, cap.data, cap.base[s][i])
    &&& forall|s: int| 0 <= s < n ==> (#[trigger] cap.mini[s]).len() == cap.mini_size[s].len()
    &&& forall|s: int, i: int|
        #![trigger cap.mini[s][i]]
        0 <= s < n && 0 <= i < cap.mini[s].len() ==> mini_entry_ok(
            f,
            cap.data,
            cap.mini[s][i],
            cap.mini_size[s][i],
        )
}

/// Everything that makes up page `i` of the frozen tree has been copied.
pub open spec fn page_captured(f: Core, cap: Capture, i: int) -> bool {
    let id = PageID::leaf(i);
    match f.pages[i] {
        PageState::Null(_) => has_entry(cap.mini, id),
        PageState::Mini(_, None) => has_entry(cap.mini, id),
        PageState::Mini(_, Some(_)) => has_entry(cap.mini, id) && has_entry(cap.base, id),
        _ => has_entry(cap.base, id),
    }
}

/// Inner node `i` may be changed: it is new, or has been copied.
pub open spec fn node_writable(f: Core, cap: Capture, i: int) -> bool {
    cap.full || i >= f.sk.nodes.len() || has_entry(cap.inner, PageID::inner(i))
}

/// Leaf page `i` may be changed: it is new, or has been copied.
pub open spec fn page_writable(f: Core, cap: Capture, i: int) -> bool {
    cap.full || i >= f.pages.len() || page_captured(f, cap, i)
}

/// Node `i` is untouched since version `v`, or may be changed.
pub open spec fn node_tracked(c: Core, cap: Capture, f: Core, v: u64, i: int) -> bool {
    if c.sk.nodes[i].version <= v {
        i < f.sk.nodes.len() && c.sk.nodes[i] == f.sk.nodes[i]
    } else {
        node_writable(f, cap, i)
    }
}

pub open spec fn page_tracked(c: Core, cap: Capture, f: Core, v: u64, i: int) -> bool {
    if c.pages[i].version() <= v {
        i < f.pages.len() && c.pages[i] == f.pages[i]
    } else {
        page_writable(f, cap, i)
    }
}

/// The root of the frozen tree is known, or still in place.
pub open spec fn root_tracked(c: Core, cap: Capture, f: Core, v: u64) -> bool {
    if c.root == f.root {
        &&& cap.root_id == 0 || cap.root_id == f.root.raw
        &&& !c.root.spec_is_id() && c.sk.nodes[c.root.inner_no()].version > v ==> cap.root_id
            == f.root.raw
    } else {
        &&& cap.root_id == f.root.raw
        &&& !c.root.spec_is_id()
        &&& c.sk.nodes[c.root.inner_no()].version > v
    }
}

/// The snapshot of tree `f`, frozen at version `v`, follows tree `c`.
pub open spec fn tracks(c: Core, cap: Capture, f: Core, v: u64) -> bool {
    &&& f.sk.nodes.len() <= c.sk.nodes.len()
    &&& f.pages.len() <= c.pages.len()
    &&& cap.full || entries_ok(f, cap)
    &&& forall|i: int| 0 <= i < c.sk.nodes.len() ==> #[trigger] node_tracked(c, cap, f, v, i)
    &&& forall|i: int| 0 <= i < c.pages.len() ==> #[trigger] page_tracked(c, cap, f, v, i)
    &&& root_tracked(c, cap, f, v)
}

pub proof fn lemma_entry_added(
    m: Seq<Seq<(PageID, usize)>>,
    tid: int,
    e: (PageID, usize),
)
    requires
        0 <= tid < m.len(),
    ensures
        has_entry(snapshot::entry_added(m, tid, e), e.0),
        forall|id: PageID| #[trigger]
            has_entry(m, id) ==> has_entry(snapshot::entry_added(m, tid, e), id),
        forall|s: int, i: int|
            #![trigger snapshot::entry_added(m, tid, e)[s][i]]
            0 <= s < m.len() && 0 <= i < snapshot::entry_added(m, tid, e)[s].len() ==> if s == tid
                && i == m[s].len() {
                snapshot::entry_added(m, tid, e)[s][i] == e
            } else {
                0 <= i < m[s].len() && snapshot::entry_added(m, tid, e)[s][i] == m[s][i]
            },
{
    let m2 = snapshot::entry_added(m, tid, e);
    assert(m2[tid][m[tid].len() as int] == e);
    assert forall|id: PageID| #[trigger] has_entry(m, id) implies has_entry(m2, id) by {
        let (s, i) = choose|s: int, i: int|
            #![trigger m[s][i]]
            0 <= s < m.len() && 0 <= i < m[s].len() && m[s][i].0 == id;
        assert(m2[s][i] == m[s][i]);
    }
}

/// What the file held stays when a page is added.
pub proof fn lemma_file_grows(before: Capture, after: Capture, bytes: Seq<u8>, off: usize)
    requires
        snapshot::page_written(before, after, bytes, off),
        before.data.len() <= before.next_offset,
        DISK_PAGE_SIZE <= before.next_offset,
        !after.full,
    ensures
        DISK_PAGE_SIZE <= after.next_offset,
        after.data.len() <= after.next_offset,
        off + bytes.len() <= after.data.len(),
        off == before.next_offset,
        after.data.subrange(off as int, off + bytes.len()) == bytes,
        forall|o: int, n: InnerView| #[trigger]
            inner_at(before.data, o, n) ==> inner_at(after.data, o, n),
        forall|o: int, v: ImageView| #[trigger]
            page_at(before.data, o, v) ==> page_at(after.data, o, v),
{
    fs::law_read_after_write(before.data, off as int, bytes);
    assert forall|o: int, n: InnerView| #[trigger] inner_at(before.data, o, n) implies inner_at(
        after.data,
        o,
        n,
    ) by {
        fs::lemma_append_keeps(before.data, off as int, bytes, o, o + INNER_NODE_SIZE);
    }
    assert forall|o: int, v: ImageView| #[trigger] page_at(before.data, o, v) implies page_at(
        after.data,
        o,
        v,
    ) by {
        fs::lemma_append_keeps(before.data, off as int, bytes, o, o + v.size);
    }
}

/// Adding places and pages keeps what could be changed changeable.
pub open spec fn capture_grows(f: Core, before: Capture, after: Capture) -> bool {
    &&& before.full ==> after.full
    &&& forall|i: int| #[trigger] node_writable(f, before, i) ==> node_writable(f, after, i)
    &&& forall|i: int| #[trigger] page_writable(f, before, i) ==> page_writable(f, after, i)
    &&& (before.full || entries_ok(f, before)) ==> (after.full || entries_ok(f, after))
}

pub proof fn lemma_capture_inner(
    f: Core,
    before: Capture,
    after: Capture,
    tid: int,
    i: int,
    bytes: Seq<u8>,
    off: usize,
)
    requires
        0 <= tid < DEFAULT_MAX_SNAPSHOT_THREAD_NUM,
        before.full || entries_ok(f, before),
        before.inner.len() == DEFAULT_MAX_SNAPSHOT_THREAD_NUM,
        0 <= i < f.sk.nodes.len(),
        i < 0x7fff_ffff_ffff_ffff,
        bytes.len() == INNER_NODE_SIZE,
        inner_node::parse_inner(bytes) == Some(f.sk.nodes[i]),
        snapshot::page_written(
            Capture {
                inner: snapshot::entry_added(before.inner, tid, (PageID::inner(i), off)),
                ..before
            },
            after,
            bytes,
            off,
        ),
    ensures
        capture_grows(f, before, after),
        node_writable(f, after, i),
        after.root_id == before.root_id,
{
    let e = (PageID::inner(i), off);
    assert(!e.0.spec_is_id() && e.0.inner_no() == i);
    let noted = Capture { inner: snapshot::entry_added(before.inner, tid, e), ..before };
    lemma_entry_added(before.inner, tid, e);
    if !after.full {
        lemma_file_grows(noted, after, bytes, off);
        assert(entries_ok(f, after)) by {
            assert forall|s: int, j: int|
                #![trigger after.inner[s][j]]
                0 <= s < DEFAULT_MAX_SNAPSHOT_THREAD_NUM && 0 <= j
                    < after.inner[s].len() implies inner_entry_ok(
                f,
                after.data,
                after.inner[s][j],
            ) by {
                if s == tid && j == before.inner[s].len() {
                } else {
                    assert(after.inner[s][j] == before.inner[s][j]);
                }
            }
        }
    }
}

pub proof fn lemma_capture_base(
    f: Core,
    before: Capture,
    after: Capture,
    tid: int,
    i: int,
    bytes: Seq<u8>,
    off: usize,
)
    requires
        0 <= tid < DEFAULT_MAX_SNAPSHOT_THREAD_NUM,
        before.full || entries_ok(f, before),
        before.base.len() == DEFAULT_MAX_SNAPSHOT_THREAD_NUM,
        0 <= i < f.pages.len(),
        i < 0x7fff_ffff_ffff_ffff,
        base_image(f.pages[i]) matches Some(v) && bytes.len() == v.size && image::parse_image(bytes)
            == Some(v),
        snapshot::page_written(
            Capture {
                base: snapshot::entry_added(before.base, tid, (PageID::leaf(i), off)),
                ..before
            },
            after,
            bytes,
            off,
        ),
    ensures
        capture_grows(f, before, after),
        after.full || has_entry(after.base, PageID::leaf(i)),
        after.root_id == before.root_id,
        after.mini == before.mini,
        after.mini_size == before.mini_size,
{
    let e = (PageID::leaf(i), off);
    assert(e.0.spec_is_id() && e.0.raw == i);
    let noted = Capture { base: snapshot::entry_added(before.base, tid, e), ..before };
    lemma_entry_added(before.base, tid, e);
    if !after.full {
        lemma_file_grows(noted, after, bytes, off);
        assert(entries_ok(f, after)) by {
            assert forall|s: int, j: int|
                #![trigger after.base[s][j]]
                0 <= s < DEFAULT_MAX_SNAPSHOT_THREAD_NUM && 0 <= j
                    < after.base[s].len() implies base_entry_ok(f, after.data, after.base[s][j]) by {
                if s == tid && j == before.base[s].len() {
                } else {
                    assert(after.base[s][j] == before.base[s][j]);
                }
            }
        }
    }
    assert forall|k: int| #[trigger] page_writable(f, before, k) implies page_writable(
        f,
        after,
        k,
    ) by {}
}

pub proof fn lemma_capture_mini(
    f: Core,
    before: Capture,
    after: Capture,
    tid: int,
    i: int,
    bytes: Seq<u8>,
    size: usize,
    off: usize,
)
    requires
        0 <= tid < DEFAULT_MAX_SNAPSHOT_THREAD_NUM,
        before.full || entries_ok(f, before),
        before.mini.len() == DEFAULT_MAX_SNAPSHOT_THREAD_NUM,
        before.mini_size.len() == DEFAULT_MAX_SNAPSHOT_THREAD_NUM,
        0 <= i < f.pages.len(),
        i < 0x7fff_ffff_ffff_ffff,
        bytes.len() == size,
        match f.pages[i] {
            PageState::Null(_) => size == 0,
            PageState::Mini(v, _) => size > 0 && size == v.size && image::parse_image(bytes)
                == Some(v),
            _ => false,
        },
        ({
            let noted = Capture {
                mini: snapshot::entry_added(before.mini, tid, (PageID::leaf(i), off)),
                mini_size: snapshot::entry_added(before.mini_size, tid, (PageID::leaf(i), size)),
                ..before
            };
            if size == 0 {
                off == NULL_PAGE_LOCATION_OFFSET && after == noted
            } else {
                snapshot::page_written(noted, after, bytes, off)
            }
        }),
    ensures
        capture_grows(f, before, after),
        after.full || has_entry(after.mini, PageID::leaf(i)),
        after.root_id == before.root_id,
        after.base == before.base,
{
    let e = (PageID::leaf(i), off);
    let z = (PageID::leaf(i), size);
    assert(e.0.spec_is_id() && e.0.raw == i);
    let noted = Capture {
        mini: snapshot::entry_added(before.mini, tid, e),
        mini_size: snapshot::entry_added(before.mini_size, tid, z),
        ..before
    };
    lemma_entry_added(before.mini, tid, e);
    lemma_entry_added(before.mini_size, tid, z);
    if !after.full {
        if size != 0 {
            lemma_file_grows(noted, after, bytes, off);
        }
        assert(entries_ok(f, after)) by {
            assert forall|s: int| 0 <= s < DEFAULT_MAX_SNAPSHOT_THREAD_NUM implies (
            #[trigger] after.mini[s]).len() == after.mini_size[s].len() by {
                assert(before.mini[s].len() == before.mini_size[s].len());
            }
            assert forall|s: int, j: int|
                #![trigger after.mini[s][j]]
                0 <= s < DEFAULT_MAX_SNAPSHOT_THREAD_NUM && 0 <= j
                    < after.mini[s].len() implies mini_entry_ok(
                f,
                after.data,
                after.mini[s][j],
                after.mini_size[s][j],
            ) by {
                assert(before.mini[s].len() == before.mini_size[s].len());
                if s == tid && j == before.mini[s].len() {
                    assert(after.mini[s][j] == e);
                    assert(after.mini_size[s][j] == z);
                } else {
                    assert(after.mini[s][j] == before.mini[s][j]);
                    assert(after.mini_size[s][j] == before.mini_size[s][j]);
                }
            }
        }
    }
    assert forall|k: int| #[trigger] page_writable(f, before, k) implies page_writable(
        f,
        after,
        k,
    ) by {}
}

/// Tracking survives whatever the capture adds.
pub proof fn lemma_tracks_grows(c: Core, before: Capture, after: Capture, f: Core, v: u64)
    requires
        tracks(c, before, f, v),
        capture_grows(f, before, after),
        after.root_id == before.root_id,
    ensures
        tracks(c, after, f, v),
{
    assert forall|i: int| 0 <= i < c.sk.nodes.len() implies #[trigger] node_tracked(
        c,
        after,
        f,
        v,
        i,
    ) by {
        assert(node_tracked(c, before, f, v, i));
    }
    assert forall|i: int| 0 <= i < c.pages.len() implies #[trigger] page_tracked(
        c,
        after,
        f,
        v,
        i,
    ) by {
        assert(page_tracked(c, before, f, v, i));
    }
}

/// A page that may be changed, changed under the new version.
pub proof fn lemma_tracks_set_page(c: Core, cap: Capture, f: Core, v: u64, i: int, s: PageState)
    requires
        tracks(c, cap, f, v),
        0 <= i < c.pages.len(),
        page_writable(f, cap, i),
        s.version() > v,
    ensures
        tracks(c.with_page(i, s), cap, f, v),
{
    let c2 = c.with_page(i, s);
    assert forall|k: int| 0 <= k < c2.pages.len() implies #[trigger] page_tracked(
        c2,
        cap,
        f,
        v,
        k,
    ) by {
        assert(page_tracked(c, cap, f, v, k));
    }
    assert forall|k: int| 0 <= k < c2.sk.nodes.len() implies #[trigger] node_tracked(
        c2,
        cap,
        f,
        v,
        k,
    ) by {
        assert(node_tracked(c, cap, f, v, k));
    }
}

/// A new page, made under the new version.
pub proof fn lemma_tracks_push_page(c: Core, cap: Capture, f: Core, v: u64, s: PageState)
    requires
        tracks(c, cap, f, v),
        s.version() > v,
    ensures
        tracks(Core { pages: c.pages.push(s), ..c }, cap, f, v),
{
    let c2 = Core { pages: c.pages.push(s), ..c };
    assert forall|k: int| 0 <= k < c2.pages.len() implies #[trigger] page_tracked(
        c2,
        cap,
        f,
        v,
        k,
    ) by {
        if k < c.pages.len() {
            assert(page_tracked(c, cap, f, v, k));
        }
    }
    assert forall|k: int| 0 <= k < c2.sk.nodes.len() implies #[trigger] node_tracked(
        c2,
        cap,
        f,
        v,
        k,
    ) by {
        assert(node_tracked(c, cap, f, v, k));
    }
}

/// An inner node that may be changed, changed under the new version.
pub proof fn lemma_tracks_set_node(c: Core, c2: Core, cap: Capture, f: Core, v: u64, i: int)
    requires
        tracks(c, cap, f, v),
        0 <= i < c.sk.nodes.len(),
        node_writable(f, cap, i),
        c2.sk.nodes.len() == c.sk.nodes.len(),
        forall|k: int|
            0 <= k < c.sk.nodes.len() && k != i ==> #[trigger] c2.sk.nodes[k] == c.sk.nodes[k],
        c2.sk.nodes[i].version > v,
        c2.pages == c.pages,
        c2.root == c.root,
        !c.root.spec_is_id() ==> c.root.inner_no() < c.sk.nodes.len(),
        !c.root.spec_is_id() && c.root.inner_no() == i && c.root == f.root ==> cap.root_id
            == f.root.raw,
    ensures
        tracks(c2, cap, f, v),
{
    assert forall|k: int| 0 <= k < c2.pages.len() implies #[trigger] page_tracked(
        c2,
        cap,
        f,
        v,
        k,
    ) by {
        assert(page_tracked(c, cap, f, v, k));
    }
    assert forall|k: int| 0 <= k < c2.sk.nodes.len() implies #[trigger] node_tracked(
        c2,
        cap,
        f,
        v,
        k,
    ) by {
        assert(node_tracked(c, cap, f, v, k));
        if k != i {
            assert(c2.sk.nodes[k] == c.sk.nodes[k]);
        }
    }
    if !c.root.spec_is_id() && c.root.inner_no() != i {
        assert(c2.sk.nodes[c.root.inner_no()] == c.sk.nodes[c.root.inner_no()]);
    }
}

/// A new inner node, made under the new version.
pub proof fn lemma_tracks_push_node(c: Core, c2: Core, cap: Capture, f: Core, v: u64)
    requires
        tracks(c, cap, f, v),
        c2.sk.nodes.len() == c.sk.nodes.len() + 1,
        forall|k: int| 0 <= k < c.sk.nodes.len() ==> #[trigger] c2.sk.nodes[k] == c.sk.nodes[k],
        c2.sk.nodes[c.sk.nodes.len() as int].version > v,
        c2.pages == c.pages,
        c2.root == c.root,
        !c.root.spec_is_id() ==> c.root.inner_no() < c.sk.nodes.len(),
    ensures
        tracks(c2, cap, f, v),
{
    assert forall|k: int| 0 <= k < c2.pages.len() implies #[trigger] page_tracked(
        c2,
        cap,
        f,
        v,
        k,
    ) by {
        assert(page_tracked(c, cap, f, v, k));
    }
    assert forall|k: int| 0 <= k < c2.sk.nodes.len() implies #[trigger] node_tracked(
        c2,
        cap,
        f,
        v,
        k,
    ) by {
        if k < c.sk.nodes.len() {
            assert(node_tracked(c, cap, f, v, k));
            assert(c2.sk.nodes[k] == c.sk.nodes[k]);
        }
    }
    if !c.root.spec_is_id() {
        assert(c2.sk.nodes[c.root.inner_no()] == c.sk.nodes[c.root.inner_no()]);
    }
}

/// A new root, made under the new version.
pub proof fn lemma_tracks_set_root(c: Core, cap: Capture, f: Core, v: u64, root: PageID)
    requires
        tracks(c, cap, f, v),
        cap.root_id == f.root.raw,
        !root.spec_is_id(),
        root.inner_no() < c.sk.nodes.len(),
        c.sk.nodes[root.inner_no()].version > v,
    ensures
        tracks(Core { root, ..c }, cap, f, v),
{
    let c2 = Core { root, ..c };
    assert forall|k: int| 0 <= k < c2.pages.len() implies #[trigger] page_tracked(
        c2,
        cap,
        f,
        v,
        k,
    ) by {
        assert(page_tracked(c, cap, f, v, k));
    }
    assert forall|k: int| 0 <= k < c2.sk.nodes.len() implies #[trigger] node_tracked(
        c2,
        cap,
        f,
        v,
        k,
    ) by {
        assert(node_tracked(c, cap, f, v, k));
    }
}

/// At the moment the new version begins, the tree itself is the frozen tree.
pub proof fn lemma_tracks_start(c: Core, cap: Capture, v: u64)
    requires
        forall|i: int| 0 <= i < c.sk.nodes.len() ==> (#[trigger] c.sk.nodes[i]).version <= v,
        forall|i: int| 0 <= i < c.pages.len() ==> (#[trigger] c.pages[i]).version() <= v,
        cap.inner == snapshot::empty_mappings(),
        cap.base == snapshot::empty_mappings(),
        cap.mini == snapshot::empty_mappings(),
        cap.mini_size == snapshot::empty_mappings(),
        cap.root_id == 0,
        cap.data.len() <= cap.next_offset,
        DISK_PAGE_SIZE <= cap.next_offset,
        !c.root.spec_is_id() ==> c.root.inner_no() < c.sk.nodes.len(),
    ensures
        tracks(c, cap, c, v),
{
    assert(entries_ok(c, cap)) by {
        assert forall|s: int| 0 <= s < DEFAULT_MAX_SNAPSHOT_THREAD_NUM implies (
        #[trigger] cap.mini[s]).len() == cap.mini_size[s].len() by {}
    }
}

} // verus!
