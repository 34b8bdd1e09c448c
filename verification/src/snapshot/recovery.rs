//! Bringing a tree back from its snapshot file.
use vstd::prelude::*;

use crate::circular_buffer::CircularBuffer;
use crate::codec::copy_range;
use crate::config;
use crate::config::{Config, StorageBackend, WalConfig};
use crate::error::ConfigError;
use crate::model;
use crate::model::{Core, PageState, Params, Skeleton};
use crate::nodes::image;
use crate::nodes::image::ImageView;
use crate::nodes::inner_node;
use crate::nodes::inner_node::{InnerNode, InnerView, INNER_NODE_SIZE};
use crate::nodes::leaf_node::{LeafNode, NO_NEXT_LEVEL};
use crate::nodes::{PageID, INNER_ID_BASE, INVALID_DISK_OFFSET};
use crate::snapshot::capture;
use crate::snapshot::finalize;
use crate::snapshot::meta;
use crate::snapshot::meta::{read_vec_from_offset, BfTreeMeta};
use crate::snapshot::places;
use crate::snapshot::sound_nodes;
use crate::snapshot::sound_nodes::find_shape;
use crate::snapshot::sound_pages;
use crate::snapshot::{CPRSnapShotMgr, PhaseId, INVALID_SNAPSHOT_VERSION};
use crate::storage;
use crate::storage::{LeafStorage, PageLocation, PAGE_LIMIT};
use crate::tree;
use crate::tree::{BfTree, Shape};
use crate::utils::mapping_table::MappingTable;
use crate::wal::log::WriteAheadLog;

verus! {

/// What a mini-page of page `i` links to.
pub open spec fn mini_link(i: int, cache_only: bool) -> u64 {
    if cache_only {
        NO_NEXT_LEVEL
    } else {
        i as u64
    }
}

/// What becomes of page `i` of a tree that is brought back.
pub open spec fn restored_page(s: PageState, i: int, cache_only: bool) -> PageState {
    match s {
        PageState::Null(_) => PageState::Null(0),
        PageState::Base(v) => PageState::Base(v),
        PageState::Full(v) => PageState::Base(ImageView { link: NO_NEXT_LEVEL, ..v }),
        PageState::Mini(v, b) => PageState::Mini(
            ImageView { link: mini_link(i, cache_only), ..v },
            b,
        ),
    }
}

/// The pages of a tree that is brought back, `n` of them.
pub open spec fn restored_pages(f: Seq<PageState>, n: nat, cache_only: bool) -> Seq<PageState> {
    Seq::new(
        n,
        |i: int|
            if i < f.len() {
                restored_page(f[i], i, cache_only)
            } else {
                PageState::Null(0)
            },
    )
}

pub open spec fn restored(f: Core, n: nat, cache_only: bool) -> Core {
    Core { pages: restored_pages(f.pages, n, cache_only), ..f }
}

proof fn lemma_more_pages(sk: Skeleton, n: nat, m: nat, p: Params)
    requires
        sk.ok(n, p),
        n <= m <= 0x7fff_ffff_ffff_ffff,
    ensures
        sk.ok(m, p),
{
    assert forall|i: int| 0 <= i < sk.nodes.len() implies #[trigger] sk.node_ok(m, p, i) by {
        assert(sk.node_ok(n, p, i));
        assert forall|j: int| 0 <= j < sk.nodes[i].children.len() implies sk.child_ok(
            m,
            i,
            #[trigger] sk.nodes[i].children[j],
            j,
        ) by {
            assert(sk.child_ok(n, i, sk.nodes[i].children[j], j));
        }
    }
}

/// A tree that is brought back is in order and holds what it held.
proof fn lemma_restored(f: Core, n: nat, p: Params, v: u64)
    requires
        finalize::frozen_ok(f, p, v),
        f.pages.len() <= n <= PAGE_LIMIT,
        !p.cache_only ==> n == f.pages.len(),
    ensures
        finalize::frozen_ok(restored(f, n, p.cache_only), p, v),
        restored(f, n, p.cache_only).view() == f.view(),
{
    let c = restored(f, n, p.cache_only);
    let np = f.pages.len();
    lemma_more_pages(f.sk, np, n, p);
    assert forall|k: Seq<u8>| #[trigger] c.leaf_of(k) == f.leaf_of(k) && 0 <= f.leaf_of(k)
        < np by {
        f.sk.lemma_route_valid(np, p, f.root, k);
    }
    assert forall|i: int| 0 <= i < c.pages.len() implies (#[trigger] c.pages[i]).ok(p)
        && c.pages[i].version() <= v by {
        if i < np {
            assert(f.pages[i].ok(p));
            assert(f.pages[i].version() <= v);
        }
    }
    assert forall|i: int, k: Seq<u8>|
        #![trigger c.pages[i].holds_key(k)]
        0 <= i < c.pages.len() && c.pages[i].holds_key(k) implies c.leaf_of(k) == i by {
        if i < np {
            assert(f.pages[i].ok(p));
            assert(f.pages[i].holds_key(k));
        }
    }
    if !p.cache_only {
        assert forall|i: int, k: Seq<u8>|
            #![trigger c.pages[i].fence().contains(k)]
            0 <= i < c.pages.len() && !(c.pages[i] is Null) implies (c.pages[i].fence().contains(k)
            <==> c.leaf_of(k) == i) by {
            assert(f.pages[i].ok(p));
            assert(f.pages[i].fence() == c.pages[i].fence());
            assert(f.pages[i].fence().contains(k) <==> f.leaf_of(k) == i);
        }
        assert forall|k: Seq<u8>| !(c.pages[#[trigger] c.leaf_of(k)] is Null) by {
            assert(!(f.pages[f.leaf_of(k)] is Null));
        }
    }
    assert forall|k: Seq<u8>| #[trigger] c.find(k) == f.find(k) by {
        let i = f.leaf_of(k);
        assert(c.leaf_of(k) == i);
        assert(f.pages[i].ok(p));
    }
    assert(c.view() =~= f.view());
}

/// Heights do not matter for searches.
proof fn lemma_route_same(a: Skeleton, b: Skeleton, na: nat, nb: nat, p: Params, x: PageID, k: Seq<u8>)
    requires
        a.ok(na, p),
        b.ok(nb, p),
        a.nodes == b.nodes,
        a.valid(na, x),
        b.valid(nb, x),
    ensures
        a.route(x, k) == b.route(x, k),
    decreases a.rank(x),
{
    if !x.spec_is_id() {
        a.lemma_route_step(na, p, x, k);
        b.lemma_route_step(nb, p, x, k);
        let n = a.nodes[x.inner_no()];
        lemma_route_same(a, b, na, nb, p, n.children[model::child_ix(n.keys, k)], k);
    }
}

/// Two trees with the same nodes, root and pages hold the same.
proof fn lemma_same_view(a: Core, b: Core, p: Params)
    requires
        a.wf(p),
        b.wf(p),
        a.sk.nodes == b.sk.nodes,
        a.root == b.root,
        a.pages == b.pages,
    ensures
        a.view() == b.view(),
{
    assert forall|k: Seq<u8>| #[trigger] a.find(k) == b.find(k) by {
        lemma_route_same(a.sk, b.sk, a.pages.len(), b.pages.len(), p, a.root, k);
    }
    assert(a.view() =~= b.view());
}

/// The page image of `size` bytes at `off`, if there is one.
pub open spec fn image_at(b: Seq<u8>, off: u64, size: u64) -> Option<ImageView> {
    if off + size <= b.len() {
        image::parse_image(b.subrange(off as int, off + size))
    } else {
        None
    }
}

/// Reads a leaf page from the file.
fn read_page(b: &[u8], off: u64, size: u64) -> (r: Option<LeafNode>)
    ensures
        r is Some <==> image_at(b@, off, size) is Some,
        r matches Some(n) ==> n@ == (ImageView { flags: 0, ..image_at(b@, off, size)->0 }),
{
    let len = b.len();
    if size > len as u64 || off > len as u64 - size {
        return None;
    }
    let from: usize = off as usize;
    let bytes = copy_range(b, from, from + size as usize);
    LeafNode::from_image(bytes.as_slice())
}

/// The inner node at `off`, if there is one.
pub open spec fn node_at(b: Seq<u8>, off: u64) -> Option<InnerView> {
    if off + INNER_NODE_SIZE <= b.len() {
        inner_node::parse_inner(b.subrange(off as int, off + INNER_NODE_SIZE))
    } else {
        None
    }
}

/// A list of inner nodes that all are where it says; node number `root` and
/// no other is marked as the root.
pub open spec fn nodes_readable(b: Seq<u8>, l: Seq<(u64, u64)>, root: int) -> bool {
    forall|i: int|
        0 <= i < l.len() ==> {
            &&& (#[trigger] l[i]).0 == INNER_ID_BASE + i
            &&& node_at(b, l[i].1) matches Some(n) && n.root == (i == root)
        }
}

/// Reads the inner nodes from the file.
fn load_inners(b: &[u8], l: &Vec<(u64, u64)>, root: u64) -> (r: Option<Vec<InnerNode>>)
    ensures
        r is Some <==> nodes_readable(b@, l@, root as int),
        r matches Some(v) ==> {
            &&& v@.len() == l@.len()
            &&& forall|i: int|
                0 <= i < l@.len() ==> (#[trigger] v@[i])@ == (InnerView {
                    disk_offset: INVALID_DISK_OFFSET,
                    ..node_at(b@, l@[i].1)->0
                })
        },
{
    let len = b.len();
    let n = l.len();
    let mut v: Vec<InnerNode> = Vec::new();
    let mut i: usize = 0;
    while i < n
        invariant
            i <= n,
            n == l@.len(),
            len == b@.len(),
            v@.len() == i,
            forall|j: int|
                0 <= j < i ==> {
                    &&& (#[trigger] l@[j]).0 == INNER_ID_BASE + j
                    &&& node_at(b@, l@[j].1) matches Some(m) && m.root == (j == root)
                },
            forall|j: int|
                0 <= j < i ==> (#[trigger] v@[j])@ == (InnerView {
                    disk_offset: INVALID_DISK_OFFSET,
                    ..node_at(b@, l@[j].1)->0
                }),
        decreases n - i,
    {
        let (id, off) = l[i];
        assert(l@[i as int] == (id, off));
        if id < INNER_ID_BASE || id - INNER_ID_BASE != i as u64 {
            return None;
        }
        if len < INNER_NODE_SIZE || off > (len - INNER_NODE_SIZE) as u64 {
            return None;
        }
        let from: usize = off as usize;
        let bytes = copy_range(b, from, from + INNER_NODE_SIZE);
        match InnerNode::build_from_slice(bytes.as_slice()) {
            None => {
                return None;
            },
            Some(mut node) => {
                if node.is_root() != (i as u64 == root) {
                    return None;
                }
                // No need for disk offset of a inner node.
                node.set_disk_offset(INVALID_DISK_OFFSET);
                v.push(node);
            },
        }
        i += 1;
    }
    Some(v)
}

/// What page `i` is after the pages on disk have been read.
pub open spec fn base_loaded(
    b: Seq<u8>,
    l: Seq<(u64, u64)>,
    size: u64,
    i: int,
    s: PageState,
) -> bool {
    if places::has_id(l, i as u64) {
        exists|j: int|
            0 <= j < l.len() && (#[trigger] l[j]).0 == i && s == PageState::Base(
                ImageView { flags: 0, ..image_at(b, l[j].1, size)->0 },
            )
    } else {
        s == PageState::Null(0)
    }
}

/// A list of pages on disk that all are where it says.
pub open spec fn bases_readable(b: Seq<u8>, l: Seq<(u64, u64)>, size: u64) -> bool {
    &&& places::ascending(l)
    &&& forall|j: int|
        0 <= j < l.len() ==> (#[trigger] l[j]).0 < PAGE_LIMIT && image_at(
            b,
            l[j].1,
            size,
        ) is Some
}

/// Reads the pages on disk into a page table without gaps: a page number that
/// is not in the list stands for an empty page.
fn load_base_pages(b: &[u8], l: &Vec<(u64, u64)>, size: u64) -> (r: Option<
    MappingTable<PageLocation>,
>)
    ensures
        r is Some <==> bases_readable(b@, l@, size),
        r matches Some(t) ==> {
            &&& t.wf()
            &&& t.capacity() == PAGE_LIMIT
            &&& t@.len() == if l@.len() == 0 {
                0
            } else {
                l@.last().0 + 1
            }
            &&& forall|i: int|
                0 <= i < t@.len() ==> base_loaded(b@, l@, size, i, (#[trigger] t@[i])@)
        },
{
    let n = l.len();
    let mut table: MappingTable<PageLocation> = MappingTable::default();
    let mut j: usize = 0;
    while j < n
        invariant
            j <= n,
            n == l@.len(),
            table.wf(),
            table.capacity() == PAGE_LIMIT,
            places::ascending(l@.take(j as int)),
            forall|x: int|
                0 <= x < j ==> (#[trigger] l@[x]).0 < PAGE_LIMIT && image_at(
                    b@,
                    l@[x].1,
                    size,
                ) is Some,
            table@.len() == if j == 0 {
                0
            } else {
                l@[j - 1].0 + 1
            },
            forall|i: int|
                0 <= i < table@.len() ==> base_loaded(
                    b@,
                    l@.take(j as int),
                    size,
                    i,
                    (#[trigger] table@[i])@,
                ),
        decreases n - j,
    {
        let (id, off) = l[j];
        let ghost front = l@.take(j as int);
        let ghost more = l@.take(j + 1);
        let ghost t0 = table@;
        proof {
            assert(l@[j as int] == (id, off));
            assert(more =~= front.push((id, off)));
            if j > 0 {
                assert(front[j - 1] == l@[j - 1]);
            }
            assert forall|i: int| 0 <= i < t0.len() implies base_loaded(
                b@,
                more,
                size,
                i,
                (#[trigger] t0[i])@,
            ) && i != id || id < t0.len() by {
                if id >= t0.len() {
                    lemma_base_more(b@, front, (id, off), size, i, t0[i]@);
                }
            }
        }
        if id < table.peek_next_id() || id >= PAGE_LIMIT {
            proof {
                if bases_readable(b@, l@, size) && j > 0 {
                    assert(l@[j - 1].0 < l@[j as int].0);
                }
            }
            return None;
        }
        // Pages between two listed ones are empty.
        while table.peek_next_id() < id
            invariant
                table.wf(),
                table.capacity() == PAGE_LIMIT,
                id < PAGE_LIMIT,
                t0.len() <= table@.len() <= id,
                table@.subrange(0, t0.len() as int) == t0,
                forall|i: int|
                    t0.len() <= i < table@.len() ==> (#[trigger] table@[i])@ == PageState::Null(0),
            decreases id - table@.len(),
        {
            let ghost before = table@;
            let (_id, _) = table.insert(PageLocation::Null(0));
            assert(table@.subrange(0, t0.len() as int) =~= before.subrange(0, t0.len() as int));
        }
        let ghost t1 = table@;
        let page = match read_page(b, off, size) {
            None => {
                return None;
            },
            Some(page) => page,
        };
        let (_id, _) = table.insert(PageLocation::Base(page));
        proof {
            assert forall|x: int, y: int| 0 <= x < y < more.len() implies (#[trigger] more[x]).0 < (
            #[trigger] more[y]).0 by {
                if y == j {
                    assert(more[x] == front[x]);
                    if x < j - 1 {
                        assert(front[x].0 < front[j - 1].0);
                    }
                } else {
                    assert(more[x] == front[x] && more[y] == front[y]);
                }
            }
            assert forall|i: int| 0 <= i < table@.len() implies base_loaded(
                b@,
                more,
                size,
                i,
                (#[trigger] table@[i])@,
            ) by {
                if i < t0.len() {
                    assert(table@[i] == t1[i]);
                    assert(t1.subrange(0, t0.len() as int)[i] == t1[i]);
                    assert(t0[i] == t1[i]);
                } else if i < id {
                    assert(table@[i] == t1[i]);
                    if places::has_id(more, i as u64) {
                        let x = choose|x: int| 0 <= x < more.len() && (#[trigger] more[x]).0 == i;
                        if x < j {
                            assert(front[x] == more[x]);
                            if x < j - 1 {
                                assert(front[x].0 < front[j - 1].0);
                            }
                        }
                        assert(false);
                    }
                } else {
                    assert(more[j as int].0 == id);
                    assert(places::has_id(more, i as u64));
                }
            }
        }
        j += 1;
    }
    assert(l@.take(n as int) =~= l@);
    Some(table)
}

proof fn lemma_base_more(
    b: Seq<u8>,
    front: Seq<(u64, u64)>,
    e: (u64, u64),
    size: u64,
    i: int,
    s: PageState,
)
    requires
        base_loaded(b, front, size, i, s),
        0 <= i < e.0,
    ensures
        base_loaded(b, front.push(e), size, i, s),
{
    let more = front.push(e);
    if places::has_id(front, i as u64) {
        let j = choose|j: int|
            0 <= j < front.len() && (#[trigger] front[j]).0 == i && s == PageState::Base(
                ImageView { flags: 0, ..image_at(b, front[j].1, size)->0 },
            );
        assert(more[j] == front[j]);
        assert(places::has_id(more, i as u64));
    } else if places::has_id(more, i as u64) {
        let x = choose|x: int| 0 <= x < more.len() && (#[trigger] more[x]).0 == i as u64;
        if x < front.len() {
            assert(front[x] == more[x]);
        }
    }
}

/// The entry stands for an empty page.
pub open spec fn skipped(e: (u64, u64)) -> bool {
    e.1 == u64::MAX
}

/// What page `i`, which was `before`, is after the mini-pages have been read.
pub open spec fn mini_loaded(
    b: Seq<u8>,
    l: Seq<(u64, u64)>,
    z: Seq<(u64, u64)>,
    cache_only: bool,
    i: int,
    before: PageState,
    after: PageState,
) -> bool {
    if exists|j: int|
        0 <= j < l.len() && (#[trigger] l[j]).0 == i && !skipped(l[j]) {
        exists|j: int|
            0 <= j < l.len() && (#[trigger] l[j]).0 == i && !skipped(l[j]) && after
                == mini_over(image_at(b, l[j].1, z[j].1)->0, i, cache_only, before)
    } else {
        after == before
    }
}

/// Mini-page `v` of page `i` over what is there.
pub open spec fn mini_over(
    v: ImageView,
    i: int,
    cache_only: bool,
    before: PageState,
) -> PageState {
    PageState::Mini(
        ImageView { flags: 0, link: mini_link(i, cache_only), ..v },
        match before {
            PageState::Base(w) => Some(w),
            _ => None,
        },
    )
}

/// A mini-page can be put over what is there.
pub open spec fn can_hold_mini(s: PageState, cache_only: bool) -> bool {
    if cache_only {
        s is Null
    } else {
        s is Base
    }
}

/// Lists of mini-pages and sizes that all are where they say.
pub open spec fn minis_readable(
    b: Seq<u8>,
    l: Seq<(u64, u64)>,
    z: Seq<(u64, u64)>,
    cache_only: bool,
    pages: Seq<PageState>,
) -> bool {
    &&& z.len() == l.len()
    &&& places::ascending(l)
    &&& forall|j: int| 0 <= j < l.len() ==> mini_readable(b, #[trigger] l[j], z[j], cache_only, pages)
}

pub open spec fn mini_readable(
    b: Seq<u8>,
    e: (u64, u64),
    z: (u64, u64),
    cache_only: bool,
    pages: Seq<PageState>,
) -> bool {
    &&& e.0 < pages.len()
    &&& z.0 == e.0
    &&& skipped(e) || (image_at(b, e.1, z.1) is Some && can_hold_mini(
        pages[e.0 as int],
        cache_only,
    ))
}

/// The bytes that the listed mini-pages take in the cache.
pub open spec fn mini_bytes(l: Seq<(u64, u64)>, z: Seq<(u64, u64)>) -> nat
    decreases l.len(),
{
    if l.len() == 0 {
        0
    } else {
        mini_bytes(l.drop_last(), z.drop_last()) + if skipped(l.last()) {
            0
        } else {
            z.last().1 as nat
        }
    }
}

proof fn lemma_mini_bytes_take(l: Seq<(u64, u64)>, z: Seq<(u64, u64)>, n: int)
    requires
        l.len() == z.len(),
        0 <= n <= l.len(),
    ensures
        mini_bytes(l.take(n), z.take(n)) <= mini_bytes(l, z),
    decreases l.len(),
{
    if n == l.len() {
        assert(l.take(n) =~= l);
        assert(z.take(n) =~= z);
    } else {
        lemma_mini_bytes_take(l.drop_last(), z.drop_last(), n);
        assert(l.drop_last().take(n) =~= l.take(n));
        assert(z.drop_last().take(n) =~= z.take(n));
    }
}

/// One more entry of the lists is done.
proof fn lemma_mini_step(
    b: Seq<u8>,
    l: Seq<(u64, u64)>,
    z: Seq<(u64, u64)>,
    cache_only: bool,
    e: (u64, u64),
    ez: (u64, u64),
    i: int,
    start: PageState,
    before: PageState,
    after: PageState,
)
    requires
        l.len() == z.len(),
        mini_loaded(b, l, z, cache_only, i, start, before),
        forall|j: int| 0 <= j < l.len() ==> (#[trigger] l[j]).0 < e.0,
        e.0 == i && !skipped(e) ==> after == mini_over(
            image_at(b, e.1, ez.1)->0,
            i,
            cache_only,
            before,
        ),
        !(e.0 == i && !skipped(e)) ==> after == before,
    ensures
        mini_loaded(b, l.push(e), z.push(ez), cache_only, i, start, after),
        e.0 == i ==> before == start,
{
    let l2 = l.push(e);
    let z2 = z.push(ez);
    let n = l.len() as int;
    assert(l2[n] == e && z2[n] == ez);
    if e.0 == i {
        assert forall|j: int| 0 <= j < l.len() implies (#[trigger] l[j]).0 != i by {}
        assert(before == start);
        if !skipped(e) {
            assert(l2[n].0 == i);
        } else {
            assert forall|j: int| 0 <= j < l2.len() implies !((#[trigger] l2[j]).0 == i && !skipped(l2[j])) by {
                if j < n {
                    assert(l2[j] == l[j]);
                }
            }
        }
    } else if exists|j: int|
        0 <= j < l.len() && (#[trigger] l[j]).0 == i && !skipped(l[j]) {
        let j = choose|j: int|
            0 <= j < l.len() && (#[trigger] l[j]).0 == i && !skipped(l[j]) && before
                == mini_over(image_at(b, l[j].1, z[j].1)->0, i, cache_only, start);
        assert(l2[j] == l[j] && z2[j] == z[j]);
    } else {
        assert forall|j: int| 0 <= j < l2.len() implies !((#[trigger] l2[j]).0 == i && !skipped(l2[j])) by {
            if j < n {
                assert(l2[j] == l[j]);
            }
        }
    }
}

/// Reads the mini-pages, makes room for them in the cache, and puts each over
/// the page that it belongs to.
fn load_minis(
    b: &[u8],
    l: &Vec<(u64, u64)>,
    z: &Vec<(u64, u64)>,
    cache_only: bool,
    table: &mut MappingTable<PageLocation>,
    buffer: &mut CircularBuffer,
) -> (r: Result<(), ConfigError>)
    requires
        old(table).wf(),
        old(table).capacity() == PAGE_LIMIT,
        old(buffer).wf(),
    ensures
        final(table).wf(),
        final(table).capacity() == PAGE_LIMIT,
        final(buffer).wf(),
        final(buffer).capacity == old(buffer).capacity,
        r matches Err(e) ==> no_storage(e),
        !minis_readable(b@, l@, z@, cache_only, storage::states(old(table)@)) ==> r is Err,
        minis_readable(b@, l@, z@, cache_only, storage::states(old(table)@)) ==> {
            &&& r is Ok <==> old(buffer).used + mini_bytes(l@, z@) <= old(
                buffer).capacity
            &&& r is Err ==> r->Err_0 == ConfigError::CircularBufferSize
        },
        r is Ok ==> {
            &&& final(table)@.len() == old(table)@.len()
            &&& forall|i: int|
                0 <= i < final(table)@.len() ==> mini_loaded(
                    b@,
                    l@,
                    z@,
                    cache_only,
                    i,
                    old(table)@[i]@,
                    (#[trigger] final(table)@[i])@,
                )
            &&& forall|i: int|
                0 <= i < final(table)@.len() && (#[trigger] final(table)@[i])@ is Mini && !(old(
                    table)@[i]@ is Mini) ==> final(buffer).has(
                    i as u64,
                    final(table)@[i]@.size(),
                )
            &&& final(buffer).entries@.len() <= old(buffer).entries@.len() + l@.len()
            &&& final(buffer).used == old(buffer).used + mini_bytes(l@, z@)
        },
{
    let n = l.len();
    let ghost start = table@;
    let ghost states = storage::states(start);
    let ghost readable = minis_readable(b@, l@, z@, cache_only, states);
    if z.len() != n {
        return Err(ConfigError::SnapshotFileInvalid);
    }
    let count = table.peek_next_id();
    let mut j: usize = 0;
    assert(l@.take(0) =~= Seq::<(u64, u64)>::empty());
    assert(z@.take(0) =~= Seq::<(u64, u64)>::empty());
    while j < n
        invariant
            j <= n,
            n == l@.len(),
            n == z@.len(),
            start == old(table)@,
            states == storage::states(start),
            readable == minis_readable(b@, l@, z@, cache_only, states),
            table.wf(),
            table.capacity() == PAGE_LIMIT,
            table@.len() == start.len(),
            count == start.len(),
            buffer.wf(),
            buffer.capacity == old(buffer).capacity,
            buffer.used == old(buffer).used + mini_bytes(l@.take(j as int), z@.take(j as int)),
            buffer.entries@.len() <= old(buffer).entries@.len() + j,
            places::ascending(l@.take(j as int)),
            forall|x: int|
                0 <= x < j ==> mini_readable(b@, #[trigger] l@[x], z@[x], cache_only, states),
            forall|i: int|
                0 <= i < table@.len() ==> mini_loaded(
                    b@,
                    l@.take(j as int),
                    z@.take(j as int),
                    cache_only,
                    i,
                    start[i]@,
                    (#[trigger] table@[i])@,
                ),
            forall|i: int|
                0 <= i < table@.len() && (#[trigger] table@[i])@ is Mini && !(start[i]@ is Mini)
                    ==> buffer.has(i as u64, table@[i]@.size()),
        decreases n - j,
    {
        let (pid, off) = l[j];
        let (same, size) = z[j];
        let ghost front = l@.take(j as int);
        let ghost zfront = z@.take(j as int);
        let ghost before = table@;
        proof {
            assert(l@[j as int] == (pid, off));
            assert(z@[j as int] == (same, size));
            assert(l@.take(j + 1) =~= front.push((pid, off)));
            assert(z@.take(j + 1) =~= zfront.push((same, size)));
            assert(l@.take(j + 1).drop_last() =~= front);
            assert(z@.take(j + 1).drop_last() =~= zfront);
            if j > 0 {
                assert(front[j - 1] == l@[j - 1]);
            }
            if readable {
                assert(mini_readable(b@, l@[j as int], z@[j as int], cache_only, states));
                if j > 0 {
                    assert(l@[j - 1].0 < l@[j as int].0);
                }
            }
        }
        if pid >= count || same != pid || (j > 0 && l[j - 1].0 >= pid) {
            return Err(ConfigError::SnapshotFileInvalid);
        }
        proof {
            assert forall|x: int| 0 <= x < front.len() implies (#[trigger] front[x]).0 < pid by {
                if x < j - 1 {
                    assert(front[x].0 < front[j - 1].0);
                }
            }
            assert forall|x: int, y: int| 0 <= x < y < j + 1 implies (#[trigger] l@.take(
                j + 1,
            )[x]).0 < (#[trigger] l@.take(j + 1)[y]).0 by {
                assert(l@.take(j + 1)[x] == front[x]);
                if y < j {
                    assert(l@.take(j + 1)[y] == front[y]);
                }
            }
        }
        if off == u64::MAX {
            // Empty pages are in the page table already.
            proof {
                assert forall|i: int| 0 <= i < table@.len() implies mini_loaded(
                    b@,
                    l@.take(j + 1),
                    z@.take(j + 1),
                    cache_only,
                    i,
                    start[i]@,
                    (#[trigger] table@[i])@,
                ) by {
                    lemma_mini_step(
                        b@,
                        front,
                        zfront,
                        cache_only,
                        (pid, off),
                        (same, size),
                        i,
                        start[i]@,
                        before[i]@,
                        table@[i]@,
                    );
                }
            }
            j += 1;
            continue ;
        }
        proof {
            lemma_mini_step(
                b@,
                front,
                zfront,
                cache_only,
                (pid, off),
                (same, size),
                pid as int,
                start[pid as int]@,
                before[pid as int]@,
                mini_over(
                    image_at(b@, off, size)->0,
                    pid as int,
                    cache_only,
                    before[pid as int]@,
                ),
            );
            assert(states[pid as int] == start[pid as int]@);
        }
        let fits_kind = match table.get(pid) {
            PageLocation::Null(_) => cache_only,
            PageLocation::Base(_) => !cache_only,
            _ => false,
        };
        if !fits_kind {
            return Err(ConfigError::SnapshotFileInvalid);
        }
        let mut page = match read_page(b, off, size) {
            None => {
                return Err(ConfigError::SnapshotFileInvalid);
            },
            Some(page) => page,
        };
        let len = b.len();
        assert(size <= len);
        // Make room for the mini-page in the cache.
        if buffer.alloc_page(pid, size as usize).is_err() {
            proof {
                lemma_mini_bytes_take(l@, z@, j + 1);
            }
            return Err(ConfigError::CircularBufferSize);
        }
        page.next_level = if cache_only {
            NO_NEXT_LEVEL
        } else {
            pid
        };
        let under = table.replace(pid, PageLocation::Null(0));
        let loc = match under {
            PageLocation::Base(base) => PageLocation::Mini(page, Some(base)),
            _ => PageLocation::Mini(page, None),
        };
        let _none = table.replace(pid, loc);
        proof {
            let after = table@;
            assert(after =~= before.update(pid as int, loc));
            assert forall|i: int| 0 <= i < after.len() implies mini_loaded(
                b@,
                l@.take(j + 1),
                z@.take(j + 1),
                cache_only,
                i,
                start[i]@,
                (#[trigger] after[i])@,
            ) by {
                lemma_mini_step(
                    b@,
                    front,
                    zfront,
                    cache_only,
                    (pid, off),
                    (same, size),
                    i,
                    start[i]@,
                    before[i]@,
                    after[i]@,
                );
            }
        }
        j += 1;
    }
    assert(l@.take(n as int) =~= l@);
    assert(z@.take(n as int) =~= z@);
    Ok(())
}

/// The lists tell the sizes of the mini-pages among `pages`.
pub open spec fn sizes_listed(
    l: Seq<(u64, u64)>,
    z: Seq<(u64, u64)>,
    pages: Seq<PageState>,
) -> bool {
    &&& l.len() == z.len()
    &&& places::ascending(l)
    &&& forall|j: int|
        0 <= j < l.len() ==> (#[trigger] l[j]).0 < pages.len() && match pages[l[j].0 as int] {
            PageState::Mini(v, _) => !skipped(l[j]) && z[j].1 == v.size,
            _ => skipped(l[j]),
        }
    &&& forall|i: int|
        0 <= i < pages.len() && #[trigger] pages[i] is Mini ==> places::has_id(l, i as u64)
}

proof fn lemma_mini_total(l: Seq<(u64, u64)>, z: Seq<(u64, u64)>, pages: Seq<PageState>)
    requires
        sizes_listed(l, z, pages),
        pages.len() <= PAGE_LIMIT,
    ensures
        mini_bytes(l, z) == model::mini_total(pages),
    decreases pages.len(),
{
    if pages.len() == 0 {
        if l.len() > 0 {
            assert(l[0].0 < pages.len());
        }
    } else {
        let n = pages.len() - 1;
        let front = pages.drop_last();
        if l.len() > 0 && l.last().0 == n {
            let l2 = l.drop_last();
            let z2 = z.drop_last();
            assert(l[l.len() - 1].0 < pages.len());
            assert forall|j: int| 0 <= j < l2.len() implies (#[trigger] l2[j]).0 < front.len()
                && match front[l2[j].0 as int] {
                PageState::Mini(v, _) => !skipped(l2[j]) && z2[j].1 == v.size,
                _ => skipped(l2[j]),
            } by {
                assert(l2[j] == l[j] && z2[j] == z[j]);
                assert(l[j].0 < l[l.len() - 1].0);
                assert(front[l[j].0 as int] == pages[l[j].0 as int]);
            }
            assert forall|i: int| 0 <= i < front.len() && #[trigger] front[i] is Mini implies places::has_id(
                l2,
                i as u64,
            ) by {
                assert(pages[i] is Mini);
                let j = choose|j: int| 0 <= j < l.len() && (#[trigger] l[j]).0 == i as u64;
                assert(l2[j] == l[j]);
            }
            assert(places::ascending(l2)) by {
                assert forall|x: int, y: int| 0 <= x < y < l2.len() implies (#[trigger] l2[x]).0 < (
                #[trigger] l2[y]).0 by {
                    assert(l2[x] == l[x] && l2[y] == l[y]);
                }
            }
            lemma_mini_total(l2, z2, front);
        } else {
            assert(!(pages[n] is Mini)) by {
                if pages[n] is Mini {
                    let j = choose|j: int| 0 <= j < l.len() && (#[trigger] l[j]).0 == n as u64;
                    if j < l.len() - 1 {
                        assert(l[j].0 < l[l.len() - 1].0);
                        assert(l[l.len() - 1].0 < pages.len());
                    }
                }
            }
            assert forall|j: int| 0 <= j < l.len() implies (#[trigger] l[j]).0 < front.len()
                && match front[l[j].0 as int] {
                PageState::Mini(v, _) => !skipped(l[j]) && z[j].1 == v.size,
                _ => skipped(l[j]),
            } by {
                assert(l[l.len() - 1].0 < pages.len());
                if j < l.len() - 1 {
                    assert(l[j].0 < l[l.len() - 1].0);
                }
                assert(front[l[j].0 as int] == pages[l[j].0 as int]);
            }
            assert forall|i: int| 0 <= i < front.len() && #[trigger] front[i] is Mini implies places::has_id(
                l,
                i as u64,
            ) by {
                assert(pages[i] is Mini);
            }
            lemma_mini_total(l, z, front);
        }
    }
}

/// The inner nodes of a snapshot file can be read.
proof fn lemma_nodes_of(b: Seq<u8>, f: Core, p: Params, l: Seq<(u64, u64)>)
    requires
        f.wf(p),
        finalize::inner_list_ok(b, f, l),
        !f.root.spec_is_id(),
    ensures
        nodes_readable(b, l, f.root.inner_no()),
        forall|i: int|
            0 <= i < l.len() ==> f.sk.nodes[i] == (InnerView {
                disk_offset: INVALID_DISK_OFFSET,
                ..node_at(b, (#[trigger] l[i]).1)->0
            }),
{
    assert forall|i: int| 0 <= i < l.len() implies {
        &&& (#[trigger] l[i]).0 == INNER_ID_BASE + i
        &&& node_at(b, l[i].1) == Some(f.sk.nodes[i])
        &&& f.sk.nodes[i].root == (i == f.root.inner_no())
        &&& f.sk.nodes[i].disk_offset == INVALID_DISK_OFFSET
    } by {
        assert(capture::inner_at(b, l[i].1 as int, f.sk.nodes[i]));
        assert(f.sk.node_ok(f.pages.len(), p, i));
    }
}

/// What page `s` is when its mini-page has not been read yet.
pub open spec fn base_state(s: PageState) -> PageState {
    match capture::base_image(s) {
        Some(v) => PageState::Base(v),
        None => PageState::Null(0),
    }
}

/// The pages on disk of a snapshot file can be read.
proof fn lemma_bases_of(b: Seq<u8>, f: Core, p: Params, v: u64, l: Seq<(u64, u64)>)
    requires
        finalize::frozen_ok(f, p, v),
        !p.cache_only,
        finalize::base_list_ok(b, f, l),
    ensures
        bases_readable(b, l, p.page as u64),
        l.len() > 0,
        l.last().0 + 1 == f.pages.len(),
        forall|i: int, s: PageState|
            0 <= i < f.pages.len() && #[trigger] base_loaded(b, l, p.page as u64, i, s) ==> s
                == base_state(f.pages[i]),
{
    let size = p.page as u64;
    assert forall|j: int| 0 <= j < l.len() implies (#[trigger] l[j]).0 < PAGE_LIMIT && image_at(
        b,
        l[j].1,
        size,
    ) == capture::base_image(f.pages[l[j].0 as int]) && capture::base_image(
        f.pages[l[j].0 as int],
    ) is Some && (capture::base_image(f.pages[l[j].0 as int])->0).flags == 0 by {
        assert(finalize::base_place_ok(b, f, l[j]));
        assert(f.pages[l[j].0 as int].ok(p));
    }
    let n = f.pages.len() - 1;
    assert(f.pages[n].ok(p));
    assert(capture::base_image(f.pages[n]) is Some);
    assert(places::has_id(l, n as u64));
    let j = choose|j: int| 0 <= j < l.len() && (#[trigger] l[j]).0 == n as u64;
    let last = l.len() - 1;
    assert(finalize::base_place_ok(b, f, l[last]));
    if j < last {
        assert(l[j].0 < l[last].0);
    }
    assert forall|i: int, s: PageState|
        0 <= i < f.pages.len() && #[trigger] base_loaded(b, l, size, i, s) implies s == base_state(
        f.pages[i],
    ) by {
        if places::has_id(l, i as u64) {
            let j = choose|j: int|
                0 <= j < l.len() && (#[trigger] l[j]).0 == i && s == PageState::Base(
                    ImageView { flags: 0, ..image_at(b, l[j].1, size)->0 },
                );
            assert(image_at(b, l[j].1, size) == capture::base_image(f.pages[l[j].0 as int]));
        } else {
            assert(capture::base_image(f.pages[i]) is None);
        }
    }
}

/// The mini-pages of a snapshot file can be read.
proof fn lemma_minis_of(
    b: Seq<u8>,
    f: Core,
    p: Params,
    v: u64,
    l: Seq<(u64, u64)>,
    z: Seq<(u64, u64)>,
    pages: Seq<PageState>,
)
    requires
        finalize::frozen_ok(f, p, v),
        finalize::mini_list_ok(b, f, l, z),
        f.pages.len() <= pages.len(),
        forall|i: int|
            0 <= i < pages.len() ==> #[trigger] pages[i] == if i < f.pages.len() {
                base_state(f.pages[i])
            } else {
                PageState::Null(0)
            },
    ensures
        minis_readable(b, l, z, p.cache_only, pages),
        mini_bytes(l, z) == model::mini_total(f.pages),
        l.len() <= f.pages.len(),
        forall|i: int, s: PageState|
            0 <= i < pages.len() && #[trigger] mini_loaded(
                b,
                l,
                z,
                p.cache_only,
                i,
                pages[i],
                s,
            ) ==> s == restored_pages(f.pages, pages.len(), p.cache_only)[i],
{
    assert forall|j: int| 0 <= j < l.len() implies mini_readable(
        b,
        #[trigger] l[j],
        z[j],
        p.cache_only,
        pages,
    ) && match f.pages[l[j].0 as int] {
        PageState::Mini(v, _) => !skipped(l[j]) && z[j].1 == v.size && image_at(
            b,
            l[j].1,
            z[j].1,
        ) == Some(v) && v.flags == 0,
        _ => skipped(l[j]),
    } by {
        assert(finalize::mini_place_ok(b, f, l[j], z[j]));
        let i = l[j].0 as int;
        assert(f.pages[i].ok(p));
        assert(pages[i] == base_state(f.pages[i]));
    }
    assert(sizes_listed(l, z, f.pages));
    lemma_mini_total(l, z, f.pages);
    lemma_ascending_len(l, f.pages.len());
    assert forall|i: int, s: PageState|
        0 <= i < pages.len() && #[trigger] mini_loaded(
            b,
            l,
            z,
            p.cache_only,
            i,
            pages[i],
            s,
        ) implies s == restored_pages(f.pages, pages.len(), p.cache_only)[i] by {
        assert(pages[i] == if i < f.pages.len() {
            base_state(f.pages[i])
        } else {
            PageState::Null(0)
        });
        if exists|j: int| 0 <= j < l.len() && (#[trigger] l[j]).0 == i && !skipped(l[j]) {
            let j = choose|j: int|
                0 <= j < l.len() && (#[trigger] l[j]).0 == i && !skipped(l[j]) && s == mini_over(
                    image_at(b, l[j].1, z[j].1)->0,
                    i,
                    p.cache_only,
                    pages[i],
                );
            assert(f.pages[i] is Mini);
            assert(f.pages[i].ok(p));
            assert(s =~= restored_page(f.pages[i], i, p.cache_only));
        } else if i < f.pages.len() {
            if f.pages[i] is Mini {
                let j = choose|j: int| 0 <= j < l.len() && (#[trigger] l[j]).0 == i as u64;
                assert(!skipped(l[j]));
            }
        }
    }
}

/// An ascending list of numbers below `n` has at most `n` entries.
proof fn lemma_ascending_len(l: Seq<(u64, u64)>, n: nat)
    requires
        places::ascending(l),
        forall|j: int| 0 <= j < l.len() ==> (#[trigger] l[j]).0 < n,
    ensures
        l.len() <= n,
    decreases n,
{
    if l.len() > 0 {
        let front = l.drop_last();
        let last = l[l.len() - 1];
        assert forall|j: int| 0 <= j < front.len() implies (#[trigger] front[j]).0 < n - 1 by {
            assert(front[j] == l[j]);
            assert(l[j].0 < l[l.len() - 1].0);
        }
        assert(places::ascending(front)) by {
            assert forall|x: int, y: int| 0 <= x < y < front.len() implies (#[trigger] front[x]).0 < (
            #[trigger] front[y]).0 by {
                assert(front[x] == l[x] && front[y] == l[y]);
            }
        }
        lemma_ascending_len(front, (n - 1) as nat);
    }
}

/// File `b`, whose header is `m`, holds tree `f` as of version `v`.
pub open spec fn file_of(b: Seq<u8>, m: BfTreeMeta, f: Core, p: Params, v: u64) -> bool {
    &&& finalize::frozen_ok(f, p, v)
    &&& finalize::lists_hold(b, m, f)
    &&& m.root_id == f.root.raw
    &&& p.cache_only ==> f.pages.len() <= m.leaf_page_num <= PAGE_LIMIT
}

/// The number of pages of a tree that is brought back. A cache-only tree may
/// have more than it had: pages that came about during the snapshot are there,
/// and empty.
pub open spec fn page_count(m: BfTreeMeta, f: Core) -> nat {
    if m.cache_only {
        m.leaf_page_num as nat
    } else {
        f.pages.len()
    }
}

/// What the pages are before the mini-pages have been read.
pub open spec fn table_restored(f: Core, m: BfTreeMeta, pages: Seq<PageState>) -> bool {
    &&& f.pages.len() <= pages.len() <= PAGE_LIMIT
    &&& pages.len() == page_count(m, f)
    &&& forall|i: int|
        0 <= i < pages.len() ==> #[trigger] pages[i] == if i < f.pages.len() {
            base_state(f.pages[i])
        } else {
            PageState::Null(0)
        }
}

/// A page table with `n` empty pages.
fn empty_pages(n: u64) -> (r: Option<MappingTable<PageLocation>>)
    ensures
        r is Some <==> n <= PAGE_LIMIT,
        r matches Some(t) ==> {
            &&& t.wf()
            &&& t.capacity() == PAGE_LIMIT
            &&& t@.len() == n
            &&& forall|i: int| 0 <= i < n ==> (#[trigger] t@[i])@ == PageState::Null(0)
        },
{
    if n > PAGE_LIMIT {
        return None;
    }
    let mut table: MappingTable<PageLocation> = MappingTable::default();
    let mut i: u64 = 0;
    while i < n
        invariant
            i <= n,
            n <= PAGE_LIMIT,
            table.wf(),
            table.capacity() == PAGE_LIMIT,
            table@.len() == i,
            forall|j: int| 0 <= j < i ==> (#[trigger] table@[j])@ == PageState::Null(0),
        decreases n - i,
    {
        let (_id, _) = table.insert(PageLocation::Null(0));
        i += 1;
    }
    Some(table)
}

/// Reads a list of a file; one without entries lies nowhere.
fn read_list(b: &[u8], offset: u64, size: u64) -> (r: Option<Vec<(u64, u64)>>)
    ensures
        r is Some <==> size == 0 || finalize::list_within(b@, offset, size),
        r matches Some(v) ==> v@ == finalize::listed_at(b@, offset, size),
{
    if size == 0 {
        let none: Vec<(u64, u64)> = Vec::new();
        assert(none@ =~= finalize::listed_at(b@, offset, size));
        return Some(none);
    }
    read_vec_from_offset(b, offset, size)
}

/// The page table without the mini-pages. A tree on disk has it from its
/// pages on disk; the pages of a cache-only tree are empty.
fn restore_table(b: &[u8], meta: &BfTreeMeta, config: &Config) -> (r: Option<
    MappingTable<PageLocation>,
>)
    requires
        config.ok(),
        config.cache_only == meta.cache_only,
    ensures
        r matches Some(t) ==> {
            &&& t.wf()
            &&& t.capacity() == PAGE_LIMIT
            &&& t@.len() <= PAGE_LIMIT
            &&& forall|i: int| 0 <= i < t@.len() ==> !(#[trigger] t@[i])@.is_cached()
        },
        forall|f: Core, v: u64| #[trigger]
            file_of(b@, *meta, f, config.params(), v) ==> (r matches Some(t) && table_restored(
                f,
                *meta,
                storage::states(t@),
            )),
{
    let ghost p = config.params();
    if config.cache_only {
        let r = empty_pages(meta.leaf_page_num);
        proof {
            assert forall|f: Core, v: u64| #[trigger] file_of(b@, *meta, f, p, v) implies (
            r matches Some(t) && table_restored(f, *meta, storage::states(t@))) by {
                let pages = storage::states((r->0)@);
                assert forall|i: int| 0 <= i < pages.len() implies #[trigger] pages[i] == if i
                    < f.pages.len() {
                    base_state(f.pages[i])
                } else {
                    PageState::Null(0)
                } by {
                    assert((r->0)@[i]@ == PageState::Null(0));
                    if i < f.pages.len() {
                        assert(f.pages[i].ok(p));
                    }
                }
            }
        }
        return r;
    }
    let l = match read_list(b, meta.base_offset, meta.base_size) {
        None => {
            return None;
        },
        Some(l) => l,
    };
    let size = config.leaf_page_size as u64;
    let r = load_base_pages(b, &l, size);
    proof {
        if r is Some {
            assert forall|i: int| 0 <= i < (r->0)@.len() implies !(#[trigger] (
            r->0)@[i])@.is_cached() by {
                assert(base_loaded(b@, l@, size, i, (r->0)@[i]@));
            }
        }
        assert forall|f: Core, v: u64| #[trigger] file_of(b@, *meta, f, p, v) implies (
        r matches Some(t) && table_restored(f, *meta, storage::states(t@))) by {
            lemma_bases_of(b@, f, p, v, l@);
            let pages = storage::states((r->0)@);
            assert forall|i: int| 0 <= i < pages.len() implies #[trigger] pages[i] == if i
                < f.pages.len() {
                base_state(f.pages[i])
            } else {
                PageState::Null(0)
            } by {
                assert(base_loaded(b@, l@, size, i, (r->0)@[i]@));
            }
        }
    }
    r
}

/// Leaf pages are not there as they should be, or find no room in the page cache.
pub open spec fn no_storage(e: ConfigError) -> bool {
    e == ConfigError::SnapshotFileInvalid || e == ConfigError::CircularBufferSize
}

/// What the leaf pages and the page cache are when tree `f` has been brought
/// back.
pub open spec fn storage_restored(f: Core, m: BfTreeMeta, st: LeafStorage) -> bool {
    let n = st.page_table@.len();
    &&& st.cached_ok()
    &&& f.pages.len() <= n <= PAGE_LIMIT
    &&& n == page_count(m, f)
    &&& storage::states(st.page_table@) == restored_pages(f.pages, n, m.cache_only)
    &&& st.circular_buffer.entries@.len() <= f.pages.len()
    &&& st.circular_buffer.used == model::mini_total(f.pages)
}

/// The leaf pages and the page cache.
fn restore_storage(b: &[u8], meta: &BfTreeMeta, config: &Config) -> (r: Result<
    LeafStorage,
    ConfigError,
>)
    requires
        config.ok(),
        config.cache_only == meta.cache_only,
    ensures
        r matches Err(e) ==> no_storage(e),
        r matches Ok(st) ==> {
            &&& st.wf()
            &&& st.cached_ok()
            &&& st.circular_buffer.capacity == config.cb_size_byte
        },
        forall|f: Core, v: u64| #[trigger]
            file_of(b@, *meta, f, config.params(), v) ==> {
                &&& r is Ok <==> model::mini_total(f.pages) <= config.cb_size_byte
                &&& r is Err ==> r->Err_0 == ConfigError::CircularBufferSize
                &&& r matches Ok(st) ==> storage_restored(f, *meta, st)
            },
{
    let ghost p = config.params();
    let table = restore_table(b, meta, config);
    let minis = read_list(b, meta.mini_offset, meta.mini_size);
    let sizes = read_list(b, meta.mini_size_offset, meta.mini_size_size);
    match (table, minis, sizes) {
        (Some(mut page_table), Some(l), Some(z)) => {
            let mut circular_buffer = CircularBuffer::new(config.cb_size_byte);
            let ghost before = storage::states(page_table@);
            let ghost t0 = page_table@;
            let loaded = load_minis(
                b,
                &l,
                &z,
                config.cache_only,
                &mut page_table,
                &mut circular_buffer,
            );
            let r = match loaded {
                Err(e) => Err(e),
                Ok(_) => Ok(LeafStorage { page_table, circular_buffer }),
            };
            proof {
                if r is Ok {
                    let st = r->Ok_0;
                    assert forall|i: int|
                        0 <= i < st.page_table@.len() && (
                        #[trigger] st.page_table@[i])@.is_cached() implies st.circular_buffer.has(
                        i as u64,
                        st.page_table@[i]@.size(),
                    ) by {
                        assert(!t0[i]@.is_cached());
                        assert(mini_loaded(
                            b@,
                            l@,
                            z@,
                            config.cache_only,
                            i,
                            t0[i]@,
                            st.page_table@[i]@,
                        ));
                    }
                }
                assert forall|f: Core, v: u64| #[trigger] file_of(b@, *meta, f, p, v) implies {
                    &&& r is Ok <==> model::mini_total(f.pages) <= config.cb_size_byte
                    &&& r is Err ==> r->Err_0 == ConfigError::CircularBufferSize
                    &&& r matches Ok(st) ==> storage_restored(f, *meta, st)
                } by {
                    lemma_minis_of(b@, f, p, v, l@, z@, before);
                    if r is Ok {
                        let st = r->Ok_0;
                        let after = storage::states(st.page_table@);
                        assert forall|i: int| 0 <= i < after.len() implies #[trigger] after[i]
                            == restored_pages(f.pages, after.len(), config.cache_only)[i] by {
                            assert(after[i] == st.page_table@[i]@);
                            assert(before[i] == t0[i]@);
                            assert(mini_loaded(
                                b@,
                                l@,
                                z@,
                                config.cache_only,
                                i,
                                before[i],
                                after[i],
                            ));
                        }
                        assert(after =~= restored_pages(
                            f.pages,
                            after.len(),
                            config.cache_only,
                        ));
                    }
                }
            }
            r
        },
        _ => Err(ConfigError::SnapshotFileInvalid),
    }
}

/// The inner nodes.
fn restore_inners(b: &[u8], meta: &BfTreeMeta) -> (r: Option<Vec<InnerNode>>)
    ensures
        forall|f: Core, p: Params, v: u64| #[trigger]
            file_of(b@, *meta, f, p, v) ==> (r matches Some(nodes) && tree::node_views(nodes@)
                == f.sk.nodes),
{
    let root = PageID { raw: meta.root_id };
    if root.is_id() {
        let none: Vec<InnerNode> = Vec::new();
        proof {
            assert forall|f: Core, p: Params, v: u64| #[trigger]
                file_of(b@, *meta, f, p, v) implies tree::node_views(none@) == f.sk.nodes by {
                assert(tree::node_views(none@) =~= f.sk.nodes);
            }
        }
        return Some(none);
    }
    let l = match read_list(b, meta.inner_offset, meta.inner_size) {
        None => {
            return None;
        },
        Some(l) => l,
    };
    let r = load_inners(b, &l, root.as_inner_node());
    proof {
        assert forall|f: Core, p: Params, v: u64| #[trigger]
            file_of(b@, *meta, f, p, v) implies (r matches Some(nodes) && tree::node_views(nodes@)
            == f.sk.nodes) by {
            lemma_nodes_of(b@, f, p, l@);
            let nodes = tree::node_views((r->0)@);
            assert forall|i: int| 0 <= i < nodes.len() implies #[trigger] nodes[i]
                == f.sk.nodes[i] by {
                assert((r->0)@[i]@ == (InnerView {
                    disk_offset: INVALID_DISK_OFFSET,
                    ..node_at(b@, l@[i].1)->0
                }));
            }
            assert(nodes =~= f.sk.nodes);
        }
    }
    r
}

/// The configuration of a tree that is brought back.
pub open spec fn recovered_config(
    config: Config,
    v: u64,
    use_snapshot: bool,
    buffer_size: Option<usize>,
    wal_config: Option<WalConfig>,
) -> Config {
    Config {
        storage_backend: if config.cache_only {
            StorageBackend::Memory
        } else {
            StorageBackend::Std
        },
        snapshot_backend: StorageBackend::Std,
        use_snapshot,
        snapshot_version: v,
        cb_size_byte: match buffer_size {
            Some(n) => n,
            None => config.cb_size_byte,
        },
        write_ahead_log: wal_config,
        ..config
    }
}

/// A log to go on with: its configuration and the file that it finds.
pub open spec fn log_ok(wal: Option<(WalConfig, Vec<u8>)>) -> bool {
    wal matches Some((w, log_file)) ==> w.ok() && log_file@.len() + w.segment_size <= usize::MAX
}

pub open spec fn log_config(wal: Option<(WalConfig, Vec<u8>)>) -> Option<WalConfig> {
    match wal {
        None => None,
        Some((w, _)) => Some(w),
    }
}

/// The file starts with a header that tells its length.
pub open spec fn has_header(b: Seq<u8>) -> bool {
    meta::parse_meta(b) matches Some(m) && m.file_size == b.len()
}

/// The page table goes as far as the last page that list `l` of a file names. A page
/// is what the file has at the place that the list gives, and empty if the list
/// does not name it; a mini-page may be over it.
pub open spec fn pages_as_listed(
    b: Seq<u8>,
    l: Seq<(u64, u64)>,
    size: u64,
    pages: Seq<PageState>,
) -> bool {
    &&& l.len() > 0
    &&& pages.len() == l.last().0 + 1
    &&& forall|i: int|
        0 <= i < pages.len() ==> match #[trigger] pages[i] {
            PageState::Mini(_, under) => under matches Some(w) && base_loaded(
                b,
                l,
                size,
                i,
                PageState::Base(w),
            ),
            s => base_loaded(b, l, size, i, s),
        }
}

proof fn lemma_as_listed(b: Seq<u8>, m: BfTreeMeta, f: Core, p: Params, v: u64)
    requires
        file_of(b, m, f, p, v),
        !p.cache_only,
    ensures
        pages_as_listed(
            b,
            finalize::listed_at(b, m.base_offset, m.base_size),
            p.page as u64,
            restored_pages(f.pages, f.pages.len(), false),
        ),
{
    let l = finalize::listed_at(b, m.base_offset, m.base_size);
    let size = p.page as u64;
    let pages = restored_pages(f.pages, f.pages.len(), false);
    lemma_bases_of(b, f, p, v, l);
    assert forall|i: int| 0 <= i < pages.len() implies match #[trigger] pages[i] {
        PageState::Mini(_, under) => under matches Some(w) && base_loaded(
            b,
            l,
            size,
            i,
            PageState::Base(w),
        ),
        s => base_loaded(b, l, size, i, s),
    } by {
        let s = lemma_base_exists(b, l, size, i);
        assert(s == base_state(f.pages[i]));
        assert(f.pages[i].ok(p));
    }
}

/// Tree `t` is tree `f`, brought back with configuration `config`.
pub open spec fn recovered(
    b: Seq<u8>,
    t: &BfTree,
    m: BfTreeMeta,
    f: Core,
    config: Config,
    wal: Option<(WalConfig, Vec<u8>)>,
) -> bool {
    &&& t.wf()
    &&& t@ == f.view()
    &&& t.config == config
    &&& t.model().root == f.root
    &&& t.model().sk.nodes == f.sk.nodes
    &&& t.model().pages == restored_pages(f.pages, page_count(m, f), config.cache_only)
    &&& !config.cache_only ==> pages_as_listed(
        b,
        finalize::listed_at(b, m.base_offset, m.base_size),
        config.leaf_page_size as u64,
        t.model().pages,
    )
    &&& t.storage.circular_buffer.used == model::mini_total(f.pages)
    &&& begins(t, wal)
}

/// Nothing goes on in tree `t`, whose log, if it has one, goes on with `wal`.
pub open spec fn begins(t: &BfTree, wal: Option<(WalConfig, Vec<u8>)>) -> bool {
    &&& match wal {
        None => t.wal is None,
        Some((w, log_file)) => t.wal is Some && (t.wal->0).resumes(w, log_file@),
    }
    &&& t.snapshot_mgr is Some <==> t.config.use_snapshot
    &&& t.snapshot_mgr matches Some(m) ==> {
        &&& m.phase() == PhaseId::Rest
        &&& m.version() == t.config.snapshot_version
        &&& !m.snapshot_in_progress
        &&& !m.pause_snapshot
        &&& m.idle()
        &&& m.admits()
    }
}

/// Whatever comes out of a file with header `m` is a tree, of which nothing more may be
/// known, with the configuration that the header tells.
pub open spec fn comes_out(
    t: &BfTree,
    m: BfTreeMeta,
    use_snapshot: bool,
    buffer_size: Option<usize>,
    wal: Option<(WalConfig, Vec<u8>)>,
) -> bool {
    let told = config::config_of(m);
    &&& t.wf()
    &&& t.config == recovered_config(
        told,
        told.snapshot_version,
        use_snapshot,
        buffer_size,
        log_config(wal),
    )
    &&& begins(t, wal)
}

/// No tree comes out of file `b`, for reason `e`: the file has no header, or one that
/// tells no configuration or one that is not in order, or what stands behind the header
/// makes up no tree or finds no room in the page cache.
pub open spec fn refused(
    b: Seq<u8>,
    use_snapshot: bool,
    buffer_size: Option<usize>,
    wal_config: Option<WalConfig>,
    e: ConfigError,
) -> bool {
    let m = meta::parse_meta(b)->0;
    let told = config::config_of(m);
    let c = recovered_config(told, told.snapshot_version, use_snapshot, buffer_size, wal_config);
    if !has_header(b) || !finalize::settings_match(m, told) {
        e == ConfigError::SnapshotFileInvalid
    } else if !c.ok() {
        e == c.first_error()
    } else {
        no_storage(e)
    }
}

/// What recovery makes of file `b`: a tree or an error, and of the snapshot of a tree that
/// tree, whenever its cached pages find room.
pub open spec fn comes_back(
    b: Seq<u8>,
    use_snapshot: bool,
    buffer_size: Option<usize>,
    wal: Option<(WalConfig, Vec<u8>)>,
    r: Result<BfTree, ConfigError>,
) -> bool {
    &&& !has_header(b) ==> r is Err
    &&& match r {
        Ok(t) => comes_out(&t, meta::parse_meta(b)->0, use_snapshot, buffer_size, wal),
        Err(e) => refused(b, use_snapshot, buffer_size, log_config(wal), e),
    }
    &&& forall|f: Core, config: Config, v: u64| #[trigger]
        finalize::holds(b, f, config, v) ==> {
            let c = recovered_config(config, v, use_snapshot, buffer_size, log_config(wal));
            &&& r is Ok <==> c.ok() && model::mini_total(f.pages) <= c.cb_size_byte
            &&& r is Err ==> r->Err_0 == ConfigError::CircularBufferSize
            &&& r matches Ok(t) ==> recovered(b, &t, meta::parse_meta(b)->0, f, c, wal)
            &&& c.cb_size_byte >= config.cb_size_byte ==> r is Ok
        }
}

/// Inner nodes, a root and leaf pages are those of tree `f`, of version `v`, brought back.
pub open spec fn makes_up(
    f: Core,
    p: Params,
    v: u64,
    nodes: Seq<InnerView>,
    root: PageID,
    pages: Seq<PageState>,
) -> bool {
    &&& finalize::frozen_ok(f, p, v)
    &&& f.pages.len() <= pages.len() <= PAGE_LIMIT
    &&& !p.cache_only ==> pages.len() == f.pages.len()
    &&& nodes == f.sk.nodes
    &&& root == f.root
    &&& pages == restored_pages(f.pages, pages.len(), p.cache_only)
}

/// What makes up a tree has its shape.
proof fn lemma_known_shape(
    f: Core,
    p: Params,
    v: u64,
    nodes: Seq<InnerView>,
    root: PageID,
    pages: Seq<PageState>,
)
    requires
        makes_up(f, p, v, nodes, root, pages),
    ensures
        sound_nodes::shape_fits(
            nodes,
            Shape { levels: f.sk.levels, ranges: f.sk.ranges },
            root,
            pages,
            p,
        ),
{
    let n = pages.len();
    let s = Shape { levels: f.sk.levels, ranges: f.sk.ranges };
    lemma_restored(f, n, p, v);
    assert(sound_nodes::core_of(nodes, s, root, pages) =~= restored(f, n, p.cache_only));
}

/// What makes up a tree is in order, and the same tree whatever its shape.
proof fn lemma_known_sound(f: Core, c: Core, p: Params, v: u64)
    requires
        makes_up(f, p, v, c.sk.nodes, c.root, c.pages),
        c.shape_ok(p),
        c.counts_ok(),
    ensures
        forall|limit: u64| limit >= v ==> #[trigger] sound_pages::sound(c, p, limit),
        c.view() == f.view(),
{
    let n = c.pages.len();
    let c0 = restored(f, n, p.cache_only);
    lemma_restored(f, n, p, v);
    assert forall|k: Seq<u8>| #[trigger] c.leaf_of(k) == c0.leaf_of(k) by {
        lemma_route_same(c.sk, c0.sk, n, n, p, c.root, k);
    }
    model::lemma_pages_kept(c0, c, p);
}

/// The version that changes to a tree with this configuration are made under at first.
pub open spec fn first_version(config: Config) -> u64 {
    if config.use_snapshot {
        config.snapshot_version
    } else {
        INVALID_SNAPSHOT_VERSION
    }
}

/// Puts a tree together, if its parts make up one.
fn assemble(
    config: Config,
    inners: Vec<InnerNode>,
    root: PageID,
    storage: LeafStorage,
    wal: Option<(WalConfig, Vec<u8>)>,
) -> (r: Option<BfTree>)
    requires
        config.ok(),
        storage.wf(),
        storage.cached_ok(),
        storage.circular_buffer.capacity == config.cb_size_byte,
        log_ok(wal),
    ensures
        r matches Some(t) ==> {
            &&& t.wf()
            &&& t.config == config
            &&& t.model().sk.nodes == tree::node_views(inners@)
            &&& t.model().root == root
            &&& t.storage == storage
            &&& begins(&t, wal)
        },
        forall|f: Core, v: u64| #[trigger]
            makes_up(
                f,
                config.params(),
                v,
                tree::node_views(inners@),
                root,
                storage::states(storage.page_table@),
            ) && v <= first_version(config) ==> (r matches Some(t) && t@ == f.view()),
{
    let ghost p = config.params();
    let ghost nodes = tree::node_views(inners@);
    let ghost pages = storage::states(storage.page_table@);
    let shape = match find_shape(
        &inners,
        root,
        storage.page_table.peek_next_id() as usize,
        &config,
        Ghost(pages),
    ) {
        None => {
            proof {
                assert forall|f: Core, v: u64| #[trigger]
                    makes_up(f, p, v, nodes, root, pages) implies false by {
                    lemma_known_shape(f, p, v, nodes, root, pages);
                }
            }
            return None;
        },
        Some(shape) => shape,
    };
    let (snapshot_mgr, limit): (Option<CPRSnapShotMgr>, u64) = if config.use_snapshot {
        (Some(CPRSnapShotMgr::new(config.snapshot_version)), config.snapshot_version)
    } else {
        (None, INVALID_SNAPSHOT_VERSION)
    };
    let log = match wal {
        None => None,
        Some((w, log_file)) => Some(WriteAheadLog::new(w, log_file)),
    };
    let t = BfTree {
        config,
        cache_only: config.cache_only,
        storage,
        inners,
        root,
        snapshot_mgr,
        lottery: 0x5851_f42d_4c95_7f2d,
        wal: log,
        shape,
    };
    let ghost c = t.model();
    proof {
        assert(c == sound_nodes::core_of(nodes, shape@, root, pages));
        assert forall|f: Core, v: u64| #[trigger]
            makes_up(f, p, v, nodes, root, pages) && v <= limit implies sound_pages::sound(
            c,
            p,
            limit,
        ) && t@ == f.view() by {
            lemma_known_sound(f, c, p, v);
        }
    }
    if !t.is_sound(limit) {
        return None;
    }
    proof {
        config.lemma_params();
        assert(tree::cpr_ok(c, t.snapshot_mgr, p));
    }
    Some(t)
}

/// Reads a snapshot file and puts the tree together.
#[verifier::spinoff_prover]
#[verifier::rlimit(60)]
fn bring_back(
    b: &[u8],
    use_snapshot: bool,
    buffer_size: Option<usize>,
    wal: Option<(WalConfig, Vec<u8>)>,
) -> (r: Result<BfTree, ConfigError>)
    requires
        log_ok(wal),
    ensures
        !has_header(b@) ==> r is Err,
        match r {
            Ok(t) => comes_out(&t, meta::parse_meta(b@)->0, use_snapshot, buffer_size, wal),
            Err(e) => refused(b@, use_snapshot, buffer_size, log_config(wal), e),
        },
        forall|f: Core, config: Config, v: u64| #[trigger]
            finalize::holds(b@, f, config, v) ==> {
                let c = recovered_config(config, v, use_snapshot, buffer_size, log_config(wal));
                &&& r is Ok <==> c.ok() && model::mini_total(f.pages) <= c.cb_size_byte
                &&& r is Err ==> r->Err_0 == ConfigError::CircularBufferSize
                &&& r matches Ok(t) ==> recovered(b@, &t, meta::parse_meta(b@)->0, f, c, wal)
                &&& c.cb_size_byte >= config.cb_size_byte ==> r is Ok
            },
{
    let bf_meta = match BfTreeMeta::from_bytes(b) {
        None => {
            return Err(ConfigError::SnapshotFileInvalid);
        },
        Some(m) => m,
    };
    if bf_meta.file_size != b.len() as u64 {
        return Err(ConfigError::SnapshotFileInvalid);
    }
    let mut config = match Config::new_from_snapshot(&bf_meta) {
        None => {
            return Err(ConfigError::SnapshotFileInvalid);
        },
        Some(c) => c,
    };
    if !config.cache_only {
        config.storage_backend = StorageBackend::Std;
    }
    config.use_snapshot = use_snapshot;
    match buffer_size {
        Some(size) => {
            config.cb_size_byte = size;
        },
        None => {},
    }
    config.write_ahead_log = match &wal {
        None => None,
        Some((w, _)) => Some(*w),
    };
    let ghost p = config.params();
    proof {
        assert forall|f: Core, c0: Config, v: u64| #[trigger]
            finalize::holds(b@, f, c0, v) implies {
            &&& config == recovered_config(
                c0,
                v,
                use_snapshot,
                buffer_size,
                log_config(wal),
            )
            &&& c0.params() == p
            &&& config.ok() || config.first_error() == ConfigError::CircularBufferSize
            &&& file_of(b@, bf_meta, f, p, v)
        } by {}
    }
    match config.validate() {
        Err(e) => {
            return Err(e);
        },
        Ok(_) => {},
    }
    let inners = match restore_inners(b, &bf_meta) {
        None => {
            proof {
                assert forall|f: Core, c0: Config, v: u64| #[trigger]
                    finalize::holds(b@, f, c0, v) implies false by {
                    assert(file_of(b@, bf_meta, f, p, v));
                }
            }
            return Err(ConfigError::SnapshotFileInvalid);
        },
        Some(inners) => inners,
    };
    let storage = match restore_storage(b, &bf_meta, &config) {
        Err(e) => {
            proof {
                assert forall|f: Core, c0: Config, v: u64| #[trigger]
                    finalize::holds(b@, f, c0, v) implies model::mini_total(f.pages)
                    > config.cb_size_byte && e == ConfigError::CircularBufferSize by {
                    assert(file_of(b@, bf_meta, f, p, v));
                }
            }
            return Err(e);
        },
        Ok(storage) => storage,
    };
    let root = PageID { raw: bf_meta.root_id };
    let ghost nodes = tree::node_views(inners@);
    let ghost pages = storage::states(storage.page_table@);
    let ghost used = storage.circular_buffer.used;
    proof {
        assert forall|f: Core, c0: Config, v: u64| #[trigger]
            finalize::holds(b@, f, c0, v) implies makes_up(f, p, v, nodes, root, pages) && v
            <= first_version(config) && used == model::mini_total(f.pages) && pages.len()
            == page_count(bf_meta, f) by {
            assert(file_of(b@, bf_meta, f, p, v));
        }
    }
    let t = match assemble(config, inners, root, storage, wal) {
        None => {
            proof {
                assert forall|f: Core, c0: Config, v: u64| #[trigger]
                    finalize::holds(b@, f, c0, v) implies false by {
                    assert(makes_up(f, p, v, nodes, root, pages));
                }
            }
            return Err(ConfigError::SnapshotFileInvalid);
        },
        Some(t) => t,
    };
    proof {
        assert forall|f: Core, c0: Config, v: u64| #[trigger]
            finalize::holds(b@, f, c0, v) implies model::mini_total(f.pages) <= config.cb_size_byte
            && recovered(b@, &t, bf_meta, f, config, wal) by {
            assert(file_of(b@, bf_meta, f, p, v));
            assert(makes_up(f, p, v, nodes, root, pages));
            if !p.cache_only {
                lemma_as_listed(b@, bf_meta, f, p, v);
            }
        }
    }
    Ok(t)
}

impl CPRSnapShotMgr {
    /// Brings a tree back from its snapshot file `b`.
    ///
    /// Most of the configuration comes from the file. The caller specifies
    /// whether the new tree will also support snapshots, a size for its page
    /// cache other than that of the snapshot, and its write-ahead log. The
    /// mini-pages of the snapshot are cached again, so a smaller page cache may
    /// fail to hold them. A file that has the header of a snapshot and is none gives
    /// some tree, or an error.
    pub fn new_from_snapshot(
        b: &[u8],
        use_snapshot: bool,
        buffer_size: Option<usize>,
        wal: Option<(WalConfig, Vec<u8>)>,
    ) -> (r: Result<BfTree, ConfigError>)
        requires
            log_ok(wal),
        ensures
            comes_back(b@, use_snapshot, buffer_size, wal, r),
            r matches Ok(t) ==> (buffer_size matches Some(n)
                ==> t.storage.circular_buffer.capacity == n),
            !has_header(b@) ==> r is Err,
            match r {
                Ok(t) => comes_out(
                    &t,
                    meta::parse_meta(b@)->0,
                    use_snapshot,
                    buffer_size,
                    wal,
                ),
                Err(e) => refused(b@, use_snapshot, buffer_size, log_config(wal), e),
            },
            forall|f: Core, config: Config, v: u64| #[trigger]
                finalize::holds(b@, f, config, v) ==> {
                    let c = recovered_config(config, v, use_snapshot, buffer_size, log_config(wal));
                    &&& r is Ok <==> c.ok() && model::mini_total(f.pages) <= c.cb_size_byte
                    &&& r is Err ==> r->Err_0 == ConfigError::CircularBufferSize
                    &&& r matches Ok(t) ==> recovered(b@, &t, meta::parse_meta(b@)->0, f, c, wal)
                    &&& c.cb_size_byte >= config.cb_size_byte ==> r is Ok
                },
    {
        bring_back(b, use_snapshot, buffer_size, wal)
    }
}

impl BfTree {
    /// Brings a tree back from a snapshot.
    pub fn new_from_cpr_snapshot(
        b: &[u8],
        use_snapshot: bool,
        buffer_size: Option<usize>,
        wal: Option<(WalConfig, Vec<u8>)>,
    ) -> (r: Result<BfTree, ConfigError>)
        requires
            log_ok(wal),
        ensures
            comes_back(b@, use_snapshot, buffer_size, wal, r),
            r matches Ok(t) ==> (buffer_size matches Some(n)
                ==> t.storage.circular_buffer.capacity == n),
            !has_header(b@) ==> r is Err,
            match r {
                Ok(t) => comes_out(
                    &t,
                    meta::parse_meta(b@)->0,
                    use_snapshot,
                    buffer_size,
                    wal,
                ),
                Err(e) => refused(b@, use_snapshot, buffer_size, log_config(wal), e),
            },
            forall|f: Core, config: Config, v: u64| #[trigger]
                finalize::holds(b@, f, config, v) ==> {
                    let c = recovered_config(config, v, use_snapshot, buffer_size, log_config(wal));
                    &&& r is Ok <==> c.ok() && model::mini_total(f.pages) <= c.cb_size_byte
                    &&& r is Err ==> r->Err_0 == ConfigError::CircularBufferSize
                    &&& r matches Ok(t) ==> recovered(b@, &t, meta::parse_meta(b@)->0, f, c, wal)
                    &&& c.cb_size_byte >= config.cb_size_byte ==> r is Ok
                },
    {
        CPRSnapShotMgr::new_from_snapshot(b, use_snapshot, buffer_size, wal)
    }
}

/// The page that a list of base pages leads to.
proof fn lemma_base_exists(b: Seq<u8>, l: Seq<(u64, u64)>, size: u64, i: int) -> (s: PageState)
    requires
        0 <= i <= u64::MAX,
    ensures
        base_loaded(b, l, size, i, s),
{
    if places::has_id(l, i as u64) {
        let j = choose|j: int| 0 <= j < l.len() && (#[trigger] l[j]).0 == i as u64;
        PageState::Base(ImageView { flags: 0, ..image_at(b, l[j].1, size)->0 })
    } else {
        PageState::Null(0)
    }
}

/// The page that a list of mini pages leads to.
proof fn lemma_mini_exists(
    b: Seq<u8>,
    l: Seq<(u64, u64)>,
    z: Seq<(u64, u64)>,
    cache_only: bool,
    i: int,
    before: PageState,
) -> (s: PageState)
    ensures
        mini_loaded(b, l, z, cache_only, i, before, s),
{
    if exists|j: int| 0 <= j < l.len() && (#[trigger] l[j]).0 == i && !skipped(l[j]) {
        let j = choose|j: int| 0 <= j < l.len() && (#[trigger] l[j]).0 == i && !skipped(l[j]);
        mini_over(image_at(b, l[j].1, z[j].1)->0, i, cache_only, before)
    } else {
        before
    }
}

/// The base pages of a tree, as a file has them.
pub open spec fn bases(f: Core, n: nat) -> Seq<PageState> {
    Seq::new(
        n,
        |i: int|
            if i < f.pages.len() {
                base_state(f.pages[i])
            } else {
                PageState::Null(0)
            },
    )
}

proof fn lemma_one_page_table(b: Seq<u8>, m: BfTreeMeta, f: Core, g: Core, p: Params, v: u64)
    requires
        file_of(b, m, f, p, v),
        file_of(b, m, g, p, v),
        m.cache_only == p.cache_only,
        p.page <= 32768,
    ensures
        page_count(m, f) == page_count(m, g),
        bases(f, page_count(m, f)) == bases(g, page_count(m, f)),
{
    let n = page_count(m, f);
    if p.cache_only {
        assert forall|i: int| 0 <= i < n implies bases(f, n)[i] == #[trigger] bases(g, n)[i] by {
            if i < f.pages.len() {
                assert(f.pages[i].ok(p));
            }
            if i < g.pages.len() {
                assert(g.pages[i].ok(p));
            }
        }
    } else {
        let l = finalize::listed_at(b, m.base_offset, m.base_size);
        lemma_bases_of(b, f, p, v, l);
        lemma_bases_of(b, g, p, v, l);
        assert forall|i: int| 0 <= i < n implies bases(f, n)[i] == #[trigger] bases(g, n)[i] by {
            let s = lemma_base_exists(b, l, p.page as u64, i);
            assert(s == base_state(f.pages[i]));
            assert(s == base_state(g.pages[i]));
        }
    }
    assert(bases(f, n) =~= bases(g, n));
}

proof fn lemma_one_tree(b: Seq<u8>, m: BfTreeMeta, f: Core, g: Core, p: Params, v: u64)
    requires
        file_of(b, m, f, p, v),
        file_of(b, m, g, p, v),
        m.cache_only == p.cache_only,
        p.page <= 32768,
    ensures
        f.view() == g.view(),
{
    let n = page_count(m, f);
    let pages = bases(f, n);
    lemma_one_page_table(b, m, f, g, p, v);
    let l = finalize::listed_at(b, m.mini_offset, m.mini_size);
    let z = finalize::listed_at(b, m.mini_size_offset, m.mini_size_size);
    lemma_minis_of(b, f, p, v, l, z, pages);
    lemma_minis_of(b, g, p, v, l, z, pages);
    let rf = restored(f, n, p.cache_only);
    let rg = restored(g, n, p.cache_only);
    assert forall|i: int| 0 <= i < n implies rf.pages[i] == #[trigger] rg.pages[i] by {
        let s = lemma_mini_exists(b, l, z, p.cache_only, i, pages[i]);
        assert(mini_loaded(b, l, z, p.cache_only, i, pages[i], s));
    }
    assert(rf.pages =~= rg.pages);
    if !f.root.spec_is_id() {
        let il = finalize::listed_at(b, m.inner_offset, m.inner_size);
        lemma_nodes_of(b, f, p, il);
        lemma_nodes_of(b, g, p, il);
        assert forall|i: int| 0 <= i < il.len() implies f.sk.nodes[i] == #[trigger] g.sk.nodes[i] by {
            assert(il[i].0 == INNER_ID_BASE + i);
        }
    }
    assert(f.sk.nodes =~= g.sk.nodes);
    lemma_restored(f, n, p, v);
    lemma_restored(g, n, p, v);
    lemma_same_view(rf, rg, p);
}

/// A file is the snapshot of one tree: what it holds settles the version, the
/// keys and their values, and how many pages there are.
pub proof fn law_a_file_holds_one_tree(
    b: Seq<u8>,
    f: Core,
    f_config: Config,
    f_version: u64,
    g: Core,
    g_config: Config,
    g_version: u64,
)
    requires
        finalize::holds(b, f, f_config, f_version),
        finalize::holds(b, g, g_config, g_version),
    ensures
        f.view() == g.view(),
        f_version == g_version,
        page_count(meta::parse_meta(b)->0, f) == page_count(meta::parse_meta(b)->0, g),
{
    let m = meta::parse_meta(b)->0;
    let p = f_config.params();
    assert(g_config.params() == p);
    assert(file_of(b, m, f, p, f_version));
    assert(file_of(b, m, g, p, f_version));
    lemma_one_page_table(b, m, f, g, p, f_version);
    lemma_one_tree(b, m, f, g, p, f_version);
}

} // verus!
