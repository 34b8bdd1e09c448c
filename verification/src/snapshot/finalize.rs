//! The snapshot file: what it holds, and how it is finished.
use vstd::prelude::*;

use crate::config::Config;
use crate::fs::MemoryVfs;
use crate::model;
use crate::model::{Core, PageState, Params};
use crate::nodes::{PageID, DISK_PAGE_SIZE, INNER_ID_BASE};
use crate::snapshot;
use crate::snapshot::capture;
use crate::snapshot::meta;
use crate::snapshot::meta::{align_to_sector_size, serialize_vec_to_disk, BfTreeMeta, META_SIZE};
use crate::snapshot::places;
use crate::snapshot::places::{first_places, table_list};
use crate::snapshot::run;
use crate::snapshot::run::SweepLists;
use crate::snapshot::{CPRSnapShotMgr, Capture};
use crate::storage::PAGE_LIMIT;
use crate::tree;

verus! {

/// What holds of a tree that a snapshot of version `v` is taken of.
pub open spec fn frozen_ok(f: Core, p: Params, v: u64) -> bool {
    &&& f.wf(p)
    &&& tree::tail_ok(f, p)
    &&& f.pages.len() <= PAGE_LIMIT
    &&& forall|i: int| 0 <= i < f.sk.nodes.len() ==> (#[trigger] f.sk.nodes[i]).version <= v
    &&& forall|i: int| 0 <= i < f.pages.len() ==> (#[trigger] f.pages[i]).version() <= v
}

/// The list leads to all inner nodes, in order.
pub open spec fn inner_list_ok(b: Seq<u8>, f: Core, l: Seq<(u64, u64)>) -> bool {
    &&& l.len() == f.sk.nodes.len()
    &&& forall|i: int|
        0 <= i < l.len() ==> {
            &&& (#[trigger] l[i]).0 == INNER_ID_BASE + i
            &&& capture::inner_at(b, l[i].1 as int, f.sk.nodes[i])
        }
}

pub open spec fn base_place_ok(b: Seq<u8>, f: Core, e: (u64, u64)) -> bool {
    &&& e.0 < f.pages.len()
    &&& capture::base_image(f.pages[e.0 as int]) matches Some(v) && capture::page_at(
        b,
        e.1 as int,
        v,
    )
}

/// The list leads to all pages on disk, by ascending page number.
pub open spec fn base_list_ok(b: Seq<u8>, f: Core, l: Seq<(u64, u64)>) -> bool {
    &&& places::ascending(l)
    &&& forall|j: int| 0 <= j < l.len() ==> base_place_ok(b, f, #[trigger] l[j])
    &&& forall|i: int|
        0 <= i < f.pages.len() && capture::base_image(#[trigger] f.pages[i]) is Some
            ==> places::has_id(l, i as u64)
}

pub open spec fn mini_place_ok(b: Seq<u8>, f: Core, e: (u64, u64), z: (u64, u64)) -> bool {
    &&& e.0 < f.pages.len()
    &&& z.0 == e.0
    &&& match f.pages[e.0 as int] {
        PageState::Null(_) => e.1 == u64::MAX && z.1 == 0,
        PageState::Mini(v, _) => e.1 != u64::MAX && z.1 == v.size && capture::page_at(
            b,
            e.1 as int,
            v,
        ),
        _ => false,
    }
}

/// The list leads to all mini-pages, by ascending page number, and `z` tells
/// their sizes. Evicted pages may be in the list as well.
pub open spec fn mini_list_ok(
    b: Seq<u8>,
    f: Core,
    l: Seq<(u64, u64)>,
    z: Seq<(u64, u64)>,
) -> bool {
    &&& z.len() == l.len()
    &&& places::ascending(l)
    &&& forall|j: int| 0 <= j < l.len() ==> mini_place_ok(b, f, #[trigger] l[j], z[j])
    &&& forall|i: int|
        0 <= i < f.pages.len() && #[trigger] f.pages[i] is Mini ==> places::has_id(l, i as u64)
}

/// All evicted pages of a tree without a disk are in the list.
pub open spec fn evicted_listed(f: Core, l: Seq<(u64, u64)>, cache_only: bool) -> bool {
    cache_only ==> forall|i: int|
        0 <= i < f.pages.len() && #[trigger] f.pages[i] is Null ==> places::has_id(l, i as u64)
}

/// The header tells the settings of the tree.
pub open spec fn settings_match(m: BfTreeMeta, config: Config) -> bool {
    &&& m.cache_only == config.cache_only
    &&& m.cb_size_byte == config.cb_size_byte
    &&& m.read_promotion_rate == config.read_promotion_rate
    &&& m.scan_promotion_rate == config.scan_promotion_rate
    &&& m.cb_min_record_size == config.cb_min_record_size
    &&& m.cb_max_record_size == config.cb_max_record_size
    &&& m.leaf_page_size == config.leaf_page_size
    &&& m.cb_max_key_len == config.cb_max_key_len
    &&& m.max_fence_len == config.max_fence_len
    &&& m.cb_copy_on_access_ratio == config.cb_copy_on_access_ratio
    &&& m.read_record_cache == config.read_record_cache
    &&& m.max_mini_page_size == config.max_mini_page_size
    &&& m.mini_page_binary_search == config.mini_page_binary_search
    &&& m.write_load_full_page == config.write_load_full_page
}

pub open spec fn list_within(b: Seq<u8>, offset: u64, size: u64) -> bool {
    size % 16 == 0 && offset + size <= b.len()
}

pub open spec fn listed_at(b: Seq<u8>, offset: u64, size: u64) -> Seq<(u64, u64)> {
    meta::list_at(b, offset as int, (size / 16) as nat)
}

/// The lists that a header leads to describe tree `f`.
pub open spec fn lists_hold(b: Seq<u8>, m: BfTreeMeta, f: Core) -> bool {
    &&& list_within(b, m.inner_offset, m.inner_size)
    &&& list_within(b, m.mini_offset, m.mini_size)
    &&& list_within(b, m.mini_size_offset, m.mini_size_size)
    &&& list_within(b, m.base_offset, m.base_size)
    &&& inner_list_ok(b, f, listed_at(b, m.inner_offset, m.inner_size))
    &&& mini_list_ok(
        b,
        f,
        listed_at(b, m.mini_offset, m.mini_size),
        listed_at(b, m.mini_size_offset, m.mini_size_size),
    )
    &&& evicted_listed(f, listed_at(b, m.mini_offset, m.mini_size), m.cache_only)
    &&& base_list_ok(b, f, listed_at(b, m.base_offset, m.base_size))
}

/// Where the last list that is not empty ends, with its padding. The lists
/// follow each other in this order: inner nodes, mini-pages, their sizes, pages
/// on disk.
pub open spec fn lists_end(m: BfTreeMeta) -> int {
    if m.base_size > 0 {
        m.base_offset + meta::aligned(m.base_size as nat)
    } else if m.mini_size_size > 0 {
        m.mini_size_offset + meta::aligned(m.mini_size_size as nat)
    } else if m.mini_size > 0 {
        m.mini_offset + meta::aligned(m.mini_size as nat)
    } else if m.inner_size > 0 {
        m.inner_offset + meta::aligned(m.inner_size as nat)
    } else {
        META_SIZE as int
    }
}

/// File `b` is finished from what operations captured and what the sweep listed,
/// when the tree had `inners` inner nodes and `leaves` leaf pages.
pub open spec fn finished(
    b: Seq<u8>,
    cap: Capture,
    l: run::Lists,
    inners: nat,
    leaves: nat,
    cache_only: bool,
) -> bool {
    &&& body_kept(cap.data, b)
    &&& meta::parse_meta(b) matches Some(m) && {
        &&& listed_at(b, m.inner_offset, m.inner_size) == places::listing(
            cap.inner,
            l.inner,
            INNER_ID_BASE,
            inners,
        )
        &&& listed_at(b, m.mini_offset, m.mini_size) == places::listing(
            cap.mini,
            l.mini,
            0,
            leaves,
        )
        &&& listed_at(b, m.mini_size_offset, m.mini_size_size) == places::listing(
            cap.mini_size,
            l.mini_size,
            0,
            leaves,
        )
        &&& listed_at(b, m.base_offset, m.base_size) == places::listing(
            cap.base,
            l.base,
            0,
            leaves,
        )
        &&& m.leaf_page_num == if cache_only {
            leaves
        } else {
            places::listing(cap.base, l.base, 0, leaves).len()
        }
        &&& m.file_size == lists_end(m)
    }
}

/// File `b` is a snapshot of tree `f`, whose settings are `config`, as of
/// version `v`.
pub open spec fn holds(b: Seq<u8>, f: Core, config: Config, v: u64) -> bool {
    &&& config.ok()
    &&& v < snapshot::SNAPSHOT_STATE_VERSION_NUM
    &&& frozen_ok(f, config.params(), v)
    &&& model::mini_total(f.pages) <= config.cb_size_byte
    &&& meta::parse_meta(b) matches Some(m) && {
        &&& m.file_size == b.len()
        &&& m.root_id == f.root.raw
        &&& m.snapshot_version == v
        &&& settings_match(m, config)
        &&& if config.cache_only {
            f.pages.len() <= m.leaf_page_num <= PAGE_LIMIT
        } else {
            m.leaf_page_num == m.base_size / 16
        }
        &&& lists_hold(b, m, f)
    }
}

/// Everything from the second disk page on is as it was.
pub open spec fn body_kept(before: Seq<u8>, after: Seq<u8>) -> bool {
    &&& before.len() <= after.len()
    &&& forall|i: int| DISK_PAGE_SIZE <= i < before.len() ==> #[trigger] after[i] == before[i]
}

proof fn lemma_body_range(before: Seq<u8>, after: Seq<u8>, from: int, to: int)
    requires
        body_kept(before, after),
        DISK_PAGE_SIZE <= from <= to <= before.len(),
    ensures
        after.subrange(from, to) == before.subrange(from, to),
{
    assert(after.subrange(from, to) =~= before.subrange(from, to));
}

/// Pages stay in their places.
proof fn lemma_body_lists(
    before: Seq<u8>,
    after: Seq<u8>,
    f: Core,
    inner: Seq<(u64, u64)>,
    mini: Seq<(u64, u64)>,
    sizes: Seq<(u64, u64)>,
    base: Seq<(u64, u64)>,
)
    requires
        body_kept(before, after),
        inner_list_ok(before, f, inner),
        mini_list_ok(before, f, mini, sizes),
        base_list_ok(before, f, base),
    ensures
        inner_list_ok(after, f, inner),
        mini_list_ok(after, f, mini, sizes),
        base_list_ok(after, f, base),
{
    assert forall|i: int| 0 <= i < inner.len() implies {
        &&& (#[trigger] inner[i]).0 == INNER_ID_BASE + i
        &&& capture::inner_at(after, inner[i].1 as int, f.sk.nodes[i])
    } by {
        let off = inner[i].1 as int;
        assert(capture::inner_at(before, off, f.sk.nodes[i]));
        lemma_body_range(
            before,
            after,
            off,
            off + crate::nodes::inner_node::INNER_NODE_SIZE,
        );
    }
    assert forall|j: int| 0 <= j < mini.len() implies mini_place_ok(
        after,
        f,
        #[trigger] mini[j],
        sizes[j],
    ) by {
        assert(mini_place_ok(before, f, mini[j], sizes[j]));
        match f.pages[mini[j].0 as int] {
            PageState::Mini(v, _) => {
                lemma_body_range(before, after, mini[j].1 as int, mini[j].1 + v.size);
            },
            _ => {},
        }
    }
    assert forall|j: int| 0 <= j < base.len() implies base_place_ok(
        after,
        f,
        #[trigger] base[j],
    ) by {
        assert(base_place_ok(before, f, base[j]));
        let v = capture::base_image(f.pages[base[j].0 as int])->0;
        lemma_body_range(before, after, base[j].1 as int, base[j].1 + v.size);
    }
}

proof fn lemma_body_list(before: Seq<u8>, after: Seq<u8>, off: int, n: nat)
    requires
        body_kept(before, after),
        DISK_PAGE_SIZE <= off,
        off + 16 * n <= before.len(),
    ensures
        meta::list_at::<(u64, u64)>(after, off, n) == meta::list_at::<(u64, u64)>(before, off, n),
{
    assert forall|i: int| 0 <= i < n implies meta::list_at::<(u64, u64)>(after, off, n)[i]
        == meta::list_at::<(u64, u64)>(before, off, n)[i] by {
        lemma_body_range(before, after, off + 16 * i, off + 16 * i + 8);
        lemma_body_range(before, after, off + 16 * i + 8, off + 16 * i + 16);
    }
    assert(meta::list_at::<(u64, u64)>(after, off, n) =~= meta::list_at::<(u64, u64)>(
        before,
        off,
        n,
    ));
}

/// All places for inner nodes are for nodes of the frozen tree.
proof fn lemma_inner_within(f: Core, cap: Capture, l: run::Lists, n: nat)
    requires
        capture::entries_ok(f, cap),
        run::lists_ok(f, cap.data, l),
        f.sk.nodes.len() <= n,
    ensures
        forall|s: int|
            0 <= s < cap.inner.len() ==> places::within(#[trigger] cap.inner[s], INNER_ID_BASE, n),
        places::within(l.inner, INNER_ID_BASE, n),
        forall|e: (PageID, usize)| #[trigger]
            places::noted(cap.inner, l.inner, e) ==> capture::inner_entry_ok(f, cap.data, e),
{
    assert forall|s: int| 0 <= s < cap.inner.len() implies places::within(
        #[trigger] cap.inner[s],
        INNER_ID_BASE,
        n,
    ) by {
        assert forall|i: int| 0 <= i < cap.inner[s].len() implies INNER_ID_BASE <= (
        #[trigger] cap.inner[s][i]).0.raw < INNER_ID_BASE + n by {
            assert(capture::inner_entry_ok(f, cap.data, cap.inner[s][i]));
        }
    }
}

proof fn lemma_base_within(f: Core, cap: Capture, l: run::Lists, n: nat)
    requires
        capture::entries_ok(f, cap),
        run::lists_ok(f, cap.data, l),
        f.pages.len() <= n,
    ensures
        forall|s: int| 0 <= s < cap.base.len() ==> places::within(#[trigger] cap.base[s], 0, n),
        places::within(l.base, 0, n),
        forall|e: (PageID, usize)| #[trigger]
            places::noted(cap.base, l.base, e) ==> capture::base_entry_ok(f, cap.data, e),
{
    assert forall|s: int| 0 <= s < cap.base.len() implies places::within(
        #[trigger] cap.base[s],
        0,
        n,
    ) by {
        assert forall|i: int| 0 <= i < cap.base[s].len() implies 0 <= (
        #[trigger] cap.base[s][i]).0.raw < 0 + n by {
            assert(capture::base_entry_ok(f, cap.data, cap.base[s][i]));
        }
    }
}

/// What a size that was noted for a page tells.
pub open spec fn size_ok(f: Core, z: (PageID, usize)) -> bool {
    match f.pages[z.0.raw as int] {
        PageState::Null(_) => z.1 == 0,
        PageState::Mini(v, _) => z.1 == v.size,
        _ => false,
    }
}

/// What a place that was noted for a mini-page tells.
pub open spec fn mini_ok(f: Core, data: Seq<u8>, e: (PageID, usize)) -> bool {
    &&& e.0.raw < f.pages.len()
    &&& match f.pages[e.0.raw as int] {
        PageState::Null(_) => e.1 == snapshot::NULL_PAGE_LOCATION_OFFSET,
        PageState::Mini(v, _) => capture::page_at(data, e.1 as int, v) && e.1
            != snapshot::NULL_PAGE_LOCATION_OFFSET,
        _ => false,
    }
}

proof fn lemma_mini_within(f: Core, cap: Capture, l: run::Lists, n: nat)
    requires
        capture::entries_ok(f, cap),
        run::lists_ok(f, cap.data, l),
        f.pages.len() <= n,
    ensures
        forall|s: int| 0 <= s < cap.mini.len() ==> places::within(#[trigger] cap.mini[s], 0, n),
        forall|s: int|
            0 <= s < cap.mini_size.len() ==> places::within(#[trigger] cap.mini_size[s], 0, n),
        places::within(l.mini, 0, n),
        places::within(l.mini_size, 0, n),
        forall|e: (PageID, usize)| #[trigger]
            places::noted(cap.mini, l.mini, e) ==> mini_ok(f, cap.data, e),
        forall|z: (PageID, usize)| #[trigger]
            places::noted(cap.mini_size, l.mini_size, z) ==> size_ok(f, z),
        forall|id: PageID|
            run::kept(cap.mini, l.mini, id) <==> #[trigger] run::kept(
                cap.mini_size,
                l.mini_size,
                id,
            ),
{
    assert forall|s: int| 0 <= s < cap.mini.len() implies places::within(
        #[trigger] cap.mini[s],
        0,
        n,
    ) by {
        assert forall|i: int| 0 <= i < cap.mini[s].len() implies 0 <= (
        #[trigger] cap.mini[s][i]).0.raw < 0 + n by {
            assert(capture::mini_entry_ok(f, cap.data, cap.mini[s][i], cap.mini_size[s][i]));
        }
    }
    assert forall|s: int| 0 <= s < cap.mini_size.len() implies places::within(
        #[trigger] cap.mini_size[s],
        0,
        n,
    ) by {
        assert(cap.mini[s].len() == cap.mini_size[s].len());
        assert forall|i: int| 0 <= i < cap.mini_size[s].len() implies 0 <= (
        #[trigger] cap.mini_size[s][i]).0.raw < 0 + n by {
            assert(capture::mini_entry_ok(f, cap.data, cap.mini[s][i], cap.mini_size[s][i]));
        }
    }
    assert forall|i: int| 0 <= i < l.mini_size.len() implies 0 <= (
    #[trigger] l.mini_size[i]).0.raw < 0 + n by {
        assert(capture::mini_entry_ok(f, cap.data, l.mini[i], l.mini_size[i]));
    }
    assert forall|i: int| 0 <= i < l.mini.len() implies 0 <= (#[trigger] l.mini[i]).0.raw < 0
        + n by {
        assert(capture::mini_entry_ok(f, cap.data, l.mini[i], l.mini_size[i]));
    }
    assert forall|e: (PageID, usize)| #[trigger]
        places::noted(cap.mini, l.mini, e) implies mini_ok(f, cap.data, e) by {
        if exists|i: int| 0 <= i < l.mini.len() && #[trigger] l.mini[i] == e {
            let i = choose|i: int| 0 <= i < l.mini.len() && #[trigger] l.mini[i] == e;
            assert(capture::mini_entry_ok(f, cap.data, l.mini[i], l.mini_size[i]));
        }
    }
    assert forall|z: (PageID, usize)| #[trigger]
        places::noted(cap.mini_size, l.mini_size, z) implies size_ok(f, z) by {
        if exists|i: int| 0 <= i < l.mini_size.len() && #[trigger] l.mini_size[i] == z {
            let i = choose|i: int| 0 <= i < l.mini_size.len() && #[trigger] l.mini_size[i] == z;
            assert(capture::mini_entry_ok(f, cap.data, l.mini[i], l.mini_size[i]));
        } else {
            let (s, i) = choose|s: int, i: int|
                #![trigger cap.mini_size[s][i]]
                0 <= s < cap.mini_size.len() && 0 <= i < cap.mini_size[s].len()
                    && cap.mini_size[s][i] == z;
            assert(cap.mini[s].len() == cap.mini_size[s].len());
            assert(capture::mini_entry_ok(f, cap.data, cap.mini[s][i], cap.mini_size[s][i]));
        }
    }
    assert forall|id: PageID|
        run::kept(cap.mini, l.mini, id) <==> #[trigger] run::kept(
            cap.mini_size,
            l.mini_size,
            id,
        ) by {
        lemma_mini_sizes(f, cap, l, id);
    }
}

/// A page has a place if and only if it has a size.
proof fn lemma_mini_sizes(f: Core, cap: Capture, l: run::Lists, id: PageID)
    requires
        capture::entries_ok(f, cap),
        run::lists_ok(f, cap.data, l),
    ensures
        run::kept(cap.mini, l.mini, id) <==> run::kept(cap.mini_size, l.mini_size, id),
{
    if capture::has_entry(cap.mini, id) {
        let (s, i) = choose|s: int, i: int|
            #![trigger cap.mini[s][i]]
            0 <= s < cap.mini.len() && 0 <= i < cap.mini[s].len() && cap.mini[s][i].0 == id;
        assert(capture::mini_entry_ok(f, cap.data, cap.mini[s][i], cap.mini_size[s][i]));
        assert(cap.mini_size[s][i].0 == id);
    }
    if run::listed(l.mini, id) {
        let i = choose|i: int| 0 <= i < l.mini.len() && (#[trigger] l.mini[i]).0 == id;
        assert(capture::mini_entry_ok(f, cap.data, l.mini[i], l.mini_size[i]));
        assert(l.mini_size[i].0 == id);
    }
    if capture::has_entry(cap.mini_size, id) {
        let (s, i) = choose|s: int, i: int|
            #![trigger cap.mini_size[s][i]]
            0 <= s < cap.mini_size.len() && 0 <= i < cap.mini_size[s].len()
                && cap.mini_size[s][i].0 == id;
        assert(cap.mini[s].len() == cap.mini_size[s].len());
        assert(capture::mini_entry_ok(f, cap.data, cap.mini[s][i], cap.mini_size[s][i]));
        assert(cap.mini[s][i].0 == id);
    }
    if run::listed(l.mini_size, id) {
        let i = choose|i: int| 0 <= i < l.mini_size.len() && (#[trigger] l.mini_size[i]).0 == id;
        assert(capture::mini_entry_ok(f, cap.data, l.mini[i], l.mini_size[i]));
        assert(l.mini[i].0 == id);
    }
}

impl CPRSnapShotMgr {
    /// The list of inner nodes.
    fn inner_list(&self, lists: &SweepLists, count: usize) -> (r: Vec<(u64, u64)>)
        requires
            self.wf(),
            !self.capture().full,
            run::sweeping(self.frozen@, self.capture(), lists@),
            forall|i: int|
                0 <= i < self.frozen@.sk.nodes.len() ==> run::kept(
                    self.capture().inner,
                    lists@.inner,
                    #[trigger] PageID::inner(i),
                ),
            self.frozen@.sk.nodes.len() <= count <= PAGE_LIMIT,
        ensures
            inner_list_ok(self.capture().data, self.frozen@, r@),
            r@ == places::listing(
                self.capture().inner,
                lists@.inner,
                INNER_ID_BASE,
                count as nat,
            ),
            r@.len() <= count,
    {
        let ghost f = self.frozen@;
        let ghost cap = self.capture();
        let ghost m = f.sk.nodes.len();
        proof {
            lemma_inner_within(f, cap, lists@, count as nat);
            assert forall|s: int| 0 <= s < self.thread_local_inner_mappings@.len() implies places::within(
                #[trigger] self.thread_local_inner_mappings@[s]@,
                INNER_ID_BASE,
                count as nat,
            ) by {
                assert(cap.inner[s] == self.thread_local_inner_mappings@[s]@);
            }
        }
        let table = first_places(
            &self.thread_local_inner_mappings,
            &lists.inner,
            INNER_ID_BASE,
            count,
        );
        let r = table_list(&table, INNER_ID_BASE);
        proof {
            assert forall|i: int| 0 <= i < table@.len() implies (#[trigger] table@[i] is Some <==> i
                < m) by {
                if i < m {
                    assert(places::nth(INNER_ID_BASE, i) == PageID::inner(i));
                }
                if table@[i] is Some {
                    assert(places::noted(
                        cap.inner,
                        lists@.inner,
                        (places::nth(INNER_ID_BASE, i), table@[i]->0),
                    ));
                }
            }
            places::lemma_places_dense(table@, INNER_ID_BASE, m);
            assert forall|i: int| 0 <= i < r@.len() implies {
                &&& (#[trigger] r@[i]).0 == INNER_ID_BASE + i
                &&& capture::inner_at(cap.data, r@[i].1 as int, f.sk.nodes[i])
            } by {
                let e = (places::nth(INNER_ID_BASE, i), table@[i]->0);
                assert(table@[i] is Some);
                assert(places::noted(cap.inner, lists@.inner, e));
                assert(capture::inner_entry_ok(f, cap.data, e));
                assert(e.1 < usize::MAX);
            }
        }
        r
    }

    /// The list of pages on disk.
    fn base_list(&self, lists: &SweepLists, count: usize) -> (r: Vec<(u64, u64)>)
        requires
            self.wf(),
            !self.capture().full,
            run::sweeping(self.frozen@, self.capture(), lists@),
            forall|i: int|
                0 <= i < self.frozen@.pages.len() && capture::base_image(
                    #[trigger] self.frozen@.pages[i],
                ) is Some ==> run::kept(self.capture().base, lists@.base, PageID::leaf(i)),
            self.frozen@.pages.len() <= count <= PAGE_LIMIT,
        ensures
            base_list_ok(self.capture().data, self.frozen@, r@),
            r@ == places::listing(self.capture().base, lists@.base, 0, count as nat),
            r@.len() <= count,
    {
        let ghost f = self.frozen@;
        let ghost cap = self.capture();
        proof {
            lemma_base_within(f, cap, lists@, count as nat);
            assert forall|s: int| 0 <= s < self.thread_local_base_mappings@.len() implies places::within(
                #[trigger] self.thread_local_base_mappings@[s]@,
                0,
                count as nat,
            ) by {
                assert(cap.base[s] == self.thread_local_base_mappings@[s]@);
            }
        }
        let table = first_places(&self.thread_local_base_mappings, &lists.base, 0, count);
        let r = table_list(&table, 0);
        proof {
            places::lemma_places(table@, 0);
            assert forall|j: int| 0 <= j < r@.len() implies base_place_ok(
                cap.data,
                f,
                #[trigger] r@[j],
            ) by {
                let i = r@[j].0 as int;
                let e = (places::nth(0, i), table@[i]->0);
                assert(table@[i] is Some);
                assert(places::noted(cap.base, lists@.base, e));
                assert(capture::base_entry_ok(f, cap.data, e));
                assert(e.1 < usize::MAX);
            }
            assert forall|i: int|
                0 <= i < f.pages.len() && capture::base_image(
                    #[trigger] f.pages[i],
                ) is Some implies places::has_id(r@, i as u64) by {
                assert(places::nth(0, i) == PageID::leaf(i));
                assert(table@[i] is Some);
            }
        }
        r
    }

    /// The list of mini-pages, and the list of their sizes.
    fn mini_lists(&self, lists: &SweepLists, count: usize) -> (r: (
        Vec<(u64, u64)>,
        Vec<(u64, u64)>,
    ))
        requires
            self.wf(),
            !self.capture().full,
            run::sweeping(self.frozen@, self.capture(), lists@),
            forall|i: int|
                0 <= i < self.frozen@.pages.len() && #[trigger] self.frozen@.pages[i] is Mini
                    ==> run::kept(self.capture().mini, lists@.mini, PageID::leaf(i)),
            self.frozen@.pages.len() <= count <= PAGE_LIMIT,
        ensures
            mini_list_ok(self.capture().data, self.frozen@, r.0@, r.1@),
            r.0@ == places::listing(self.capture().mini, lists@.mini, 0, count as nat),
            r.1@ == places::listing(self.capture().mini_size, lists@.mini_size, 0, count as nat),
            r.0@.len() <= count,
            forall|i: int|
                0 <= i < count && run::kept(
                    self.capture().mini,
                    lists@.mini,
                    #[trigger] PageID::leaf(i),
                ) ==> places::has_id(r.0@, i as u64),
    {
        let ghost f = self.frozen@;
        let ghost cap = self.capture();
        proof {
            lemma_mini_within(f, cap, lists@, count as nat);
            assert forall|s: int| 0 <= s < self.thread_local_mini_mappings@.len() implies places::within(
                #[trigger] self.thread_local_mini_mappings@[s]@,
                0,
                count as nat,
            ) by {
                assert(cap.mini[s] == self.thread_local_mini_mappings@[s]@);
            }
            assert forall|s: int|
                0 <= s < self.thread_local_mini_size_mappings@.len() implies places::within(
                #[trigger] self.thread_local_mini_size_mappings@[s]@,
                0,
                count as nat,
            ) by {
                assert(cap.mini_size[s] == self.thread_local_mini_size_mappings@[s]@);
            }
        }
        let table = first_places(&self.thread_local_mini_mappings, &lists.mini, 0, count);
        let sizes = first_places(&self.thread_local_mini_size_mappings, &lists.mini_size, 0, count);
        let r = table_list(&table, 0);
        let z = table_list(&sizes, 0);
        proof {
            places::lemma_places(table@, 0);
            places::lemma_places(sizes@, 0);
            assert forall|i: int| 0 <= i < table@.len() implies (#[trigger] table@[i] is Some <==> sizes@[i] is Some) by {
                assert(run::kept(cap.mini, lists@.mini, places::nth(0, i)) <==> run::kept(
                    cap.mini_size,
                    lists@.mini_size,
                    places::nth(0, i),
                ));
                assert(sizes@[i] is Some <==> run::kept(
                    cap.mini_size,
                    lists@.mini_size,
                    places::nth(0, i),
                ));
            }
            places::lemma_places_parallel(table@, sizes@, 0);
            assert forall|j: int| 0 <= j < r@.len() implies mini_place_ok(
                cap.data,
                f,
                #[trigger] r@[j],
                z@[j],
            ) by {
                let i = r@[j].0 as int;
                let e = (places::nth(0, i), table@[i]->0);
                let g = (places::nth(0, i), sizes@[i]->0);
                assert(z@[j].0 == r@[j].0);
                assert(table@[i] is Some);
                assert(sizes@[i] is Some);
                assert(places::noted(cap.mini, lists@.mini, e));
                assert(places::noted(cap.mini_size, lists@.mini_size, g));
                assert(mini_ok(f, cap.data, e));
                assert(size_ok(f, g));
            }
            assert forall|i: int|
                0 <= i < count && run::kept(
                    cap.mini,
                    lists@.mini,
                    #[trigger] PageID::leaf(i),
                ) implies places::has_id(r@, i as u64) by {
                assert(places::nth(0, i) == PageID::leaf(i));
                assert(table@[i] is Some);
            }
            assert forall|i: int|
                0 <= i < f.pages.len() && #[trigger] f.pages[i] is Mini implies places::has_id(
                r@,
                i as u64,
            ) by {
                assert(run::kept(cap.mini, lists@.mini, PageID::leaf(i)));
            }
        }
        (r, z)
    }
}

/// A list lies in file `b` behind the first disk page, or is empty.
pub open spec fn list_written(b: Seq<u8>, offset: u64, size: u64, l: Seq<(u64, u64)>) -> bool {
    &&& size == 16 * l.len()
    &&& offset + size <= b.len()
    &&& l.len() > 0 ==> DISK_PAGE_SIZE <= offset && meta::list_at::<(u64, u64)>(
        b,
        offset as int,
        l.len(),
    ) == l
    &&& l.len() == 0 ==> offset == 0
}

proof fn lemma_list_kept(
    before: Seq<u8>,
    after: Seq<u8>,
    offset: u64,
    size: u64,
    l: Seq<(u64, u64)>,
)
    requires
        body_kept(before, after),
        list_written(before, offset, size, l),
    ensures
        list_written(after, offset, size, l),
        list_within(after, offset, size),
        listed_at(after, offset, size) == l,
{
    if l.len() > 0 {
        lemma_body_list(before, after, offset as int, l.len());
    }
    assert(listed_at(after, offset, size) =~= l);
}

proof fn lemma_grown_body(before: Seq<u8>, after: Seq<u8>)
    requires
        meta::file_grows(before, after),
    ensures
        body_kept(before, after),
{
}

/// The room that the four lists take at most.
pub open spec fn lists_room(inners: nat, leaves: nat) -> nat {
    meta::list_room(16 * inners) + 3 * meta::list_room(16 * leaves)
}

/// Appends one list to the file. Returns its place, its size, and where the
/// file ends then; `end` is where it ended before.
fn append_list(v: &Vec<(u64, u64)>, vfs: &mut MemoryVfs, end: u64) -> (r: (u64, u64, u64))
    requires
        old(vfs).wf(),
    ensures
        final(vfs).wf(),
        old(vfs).full ==> final(vfs).full,
        !final(vfs).full ==> {
            &&& body_kept(old(vfs).data@, final(vfs).data@)
            &&& list_written(final(vfs).data@, r.0, r.1, v@)
            &&& v@.len() > 0 ==> r.2 == final(vfs).data@.len() && r.2 == r.0 + meta::aligned(
                r.1 as nat,
            )
            &&& v@.len() == 0 ==> r.2 == end && final(vfs).data@ == old(vfs).data@
        },
        final(vfs).next_offset <= old(vfs).next_offset + meta::list_room(16 * v@.len()),
        !old(vfs).full && old(vfs).next_offset + meta::list_room(16 * v@.len()) <= usize::MAX
            ==> !final(vfs).full,
{
    let ghost before = vfs.data@;
    let (offset, size) = serialize_vec_to_disk(v, vfs);
    if vfs.full {
        return (0, 0, 0);
    }
    proof {
        if v@.len() > 0 {
            lemma_grown_body(before, vfs.data@);
        }
    }
    let file_end: u64 = if offset != 0 {
        let n = vfs.data.len();
        assert(offset + meta::aligned(size as nat) == n);
        (offset + align_to_sector_size(size)) as u64
    } else {
        end
    };
    (offset as u64, size as u64, file_end)
}

impl CPRSnapShotMgr {
    /// Forgets the snapshot that was taken, and returns its file.
    fn take_file(&mut self) -> (r: MemoryVfs)
        requires
            old(self).wf(),
        ensures
            final(self).wf(),
            final(self).capture() == (Capture {
                inner: snapshot::empty_mappings(),
                base: snapshot::empty_mappings(),
                mini: snapshot::empty_mappings(),
                mini_size: snapshot::empty_mappings(),
                root_id: 0,
                data: Seq::empty(),
                next_offset: DISK_PAGE_SIZE,
                full: false,
            }),
            final(self).only_capture_differs(old(self)),
            r == old(self).vfs,
    {
        self.reset();
        let mut vfs = MemoryVfs::open();
        std::mem::swap(&mut vfs, &mut self.vfs);
        vfs
    }

    /// Finishes the snapshot file and returns its bytes, or nothing if there
    /// was no room for it. The coordinator is ready for another snapshot then.
    pub(crate) fn finalize(
        &mut self,
        snapshot_version: u64,
        lists: &SweepLists,
        inner_count: usize,
        leaf_count: usize,
        config: &Config,
    ) -> (r: Option<Vec<u8>>)
        requires
            old(self).wf(),
            config.ok(),
            snapshot_version < snapshot::SNAPSHOT_STATE_VERSION_NUM,
            frozen_ok(old(self).frozen@, config.params(), snapshot_version),
            model::mini_total(old(self).frozen@.pages) <= config.cb_size_byte,
            run::swept(old(self).frozen@, old(self).capture(), lists@, config.cache_only),
            old(self).frozen@.sk.nodes.len() <= inner_count <= PAGE_LIMIT,
            old(self).frozen@.pages.len() <= leaf_count <= PAGE_LIMIT,
        ensures
            final(self).wf(),
            final(self).only_capture_differs(old(self)),
            final(self).capture() == (Capture {
                inner: snapshot::empty_mappings(),
                base: snapshot::empty_mappings(),
                mini: snapshot::empty_mappings(),
                mini_size: snapshot::empty_mappings(),
                root_id: 0,
                data: Seq::empty(),
                next_offset: DISK_PAGE_SIZE,
                full: false,
            }),
            r matches Some(b) ==> holds(b@, old(self).frozen@, *config, snapshot_version)
                && finished(
                b@,
                old(self).capture(),
                lists@,
                inner_count as nat,
                leaf_count as nat,
                config.cache_only,
            ),
            old(self).capture().full ==> r is None,
            !old(self).capture().full && old(self).capture().next_offset + lists_room(
                inner_count as nat,
                leaf_count as nat,
            ) <= usize::MAX ==> r is Some,
    {
        let ghost f = self.frozen@;
        let ghost cap = self.capture();
        if self.vfs.full {
            let _file = self.take_file();
            return None;
        }
        proof {
            lemma_all_kept(f, cap, lists@, config.cache_only, config.params());
        }
        let inner = self.inner_list(lists, inner_count);
        let (mini, mini_size) = self.mini_lists(lists, leaf_count);
        let base = self.base_list(lists, leaf_count);
        proof {
            lemma_some_page(f, cap, lists@, config.params(), config.cache_only, mini@, base@);
            assert(evicted_listed(f, mini@, config.cache_only)) by {
                assert forall|i: int|
                    config.cache_only && 0 <= i < f.pages.len()
                        && #[trigger] f.pages[i] is Null implies places::has_id(
                    mini@,
                    i as u64,
                ) by {
                    assert(run::kept(cap.mini, lists@.mini, PageID::leaf(i)));
                }
            }
        }
        let root_id = self.root_id;
        let mut vfs = self.take_file();
        let ghost d0 = vfs.data@;
        let (inner_offset, inner_bytes, end1) = append_list(&inner, &mut vfs, META_SIZE as u64);
        let ghost d1 = vfs.data@;
        let (mini_offset, mini_bytes, end2) = append_list(&mini, &mut vfs, end1);
        let ghost d2 = vfs.data@;
        let (size_offset, size_bytes, end3) = append_list(&mini_size, &mut vfs, end2);
        let ghost d3 = vfs.data@;
        let (base_offset, base_bytes, file_size) = append_list(&base, &mut vfs, end3);
        let ghost d4 = vfs.data@;
        if vfs.full {
            return None;
        }
        let leaf_page_num: u64 = if config.cache_only {
            leaf_count as u64
        } else {
            base.len() as u64
        };
        let metadata = BfTreeMeta {
            root_id,
            inner_offset,
            inner_size: inner_bytes,
            mini_offset,
            mini_size: mini_bytes,
            mini_size_offset: size_offset,
            mini_size_size: size_bytes,
            base_offset,
            base_size: base_bytes,
            file_size,
            leaf_page_num,
            cb_size_byte: config.cb_size_byte as u64,
            snapshot_version,
            cache_only: config.cache_only,
            read_promotion_rate: config.read_promotion_rate as u64,
            scan_promotion_rate: config.scan_promotion_rate as u64,
            cb_min_record_size: config.cb_min_record_size as u64,
            cb_max_record_size: config.cb_max_record_size as u64,
            leaf_page_size: config.leaf_page_size as u64,
            cb_max_key_len: config.cb_max_key_len as u64,
            max_fence_len: config.max_fence_len as u64,
            cb_copy_on_access_ratio: config.cb_copy_on_access_ratio,
            read_record_cache: config.read_record_cache,
            max_mini_page_size: config.max_mini_page_size as u64,
            mini_page_binary_search: config.mini_page_binary_search,
            write_load_full_page: config.write_load_full_page,
        };
        let header = metadata.as_bytes();
        vfs.write(0, header.as_slice());
        proof {
            let b = vfs.data@;
            assert(file_size == d4.len() && d4.len() > DISK_PAGE_SIZE);
            assert(b.subrange(0, META_SIZE as int) =~= header@);
            meta::lemma_meta_round_trip(metadata, b);
            assert(body_kept(d4, b));
            assert(body_kept(d0, b) && body_kept(d1, b) && body_kept(d2, b) && body_kept(d3, b)) by {
                lemma_body_chain(d3, d4, b);
                lemma_body_chain(d2, d3, b);
                lemma_body_chain(d1, d2, b);
                lemma_body_chain(d0, d1, b);
            }
            lemma_list_kept(d1, b, inner_offset, inner_bytes, inner@);
            lemma_list_kept(d2, b, mini_offset, mini_bytes, mini@);
            lemma_list_kept(d3, b, size_offset, size_bytes, mini_size@);
            lemma_list_kept(d4, b, base_offset, base_bytes, base@);
            lemma_body_lists(d0, b, f, inner@, mini@, mini_size@, base@);
        }
        Some(vfs.data)
    }
}

proof fn lemma_body_chain(a: Seq<u8>, b: Seq<u8>, c: Seq<u8>)
    requires
        body_kept(a, b),
        body_kept(b, c),
    ensures
        body_kept(a, c),
{
    assert forall|i: int| DISK_PAGE_SIZE <= i < a.len() implies #[trigger] c[i] == a[i] by {
        assert(b[i] == a[i]);
    }
}

/// Every page of a swept tree has its places.
proof fn lemma_all_kept(f: Core, cap: Capture, l: run::Lists, cache_only: bool, p: Params)
    requires
        run::swept(f, cap, l, cache_only),
        !cap.full,
        f.wf(p),
    ensures
        forall|i: int|
            0 <= i < f.sk.nodes.len() ==> run::kept(cap.inner, l.inner, #[trigger] PageID::inner(i)),
        forall|i: int|
            0 <= i < f.pages.len() && capture::base_image(#[trigger] f.pages[i]) is Some
                ==> run::kept(cap.base, l.base, PageID::leaf(i)),
        forall|i: int|
            0 <= i < f.pages.len() && #[trigger] f.pages[i] is Mini ==> run::kept(
                cap.mini,
                l.mini,
                PageID::leaf(i),
            ),
        cache_only ==> forall|i: int|
            0 <= i < f.pages.len() && #[trigger] f.pages[i] is Null ==> run::kept(
                cap.mini,
                l.mini,
                PageID::leaf(i),
            ),
{
    assert forall|i: int|
        cache_only && 0 <= i < f.pages.len() && #[trigger] f.pages[i] is Null implies run::kept(
        cap.mini,
        l.mini,
        PageID::leaf(i),
    ) by {
        assert(run::page_kept(f, cap, l, i, cache_only));
    }
    assert forall|i: int|
        0 <= i < f.pages.len() && capture::base_image(#[trigger] f.pages[i]) is Some implies run::kept(
        cap.base,
        l.base,
        PageID::leaf(i),
    ) by {
        assert(run::page_kept(f, cap, l, i, cache_only));
    }
    assert forall|i: int| 0 <= i < f.pages.len() && #[trigger] f.pages[i] is Mini implies run::kept(
        cap.mini,
        l.mini,
        PageID::leaf(i),
    ) by {
        assert(run::page_kept(f, cap, l, i, cache_only));
    }
}

/// No tree is without a page that has a place.
proof fn lemma_some_page(
    f: Core,
    cap: Capture,
    l: run::Lists,
    p: Params,
    cache_only: bool,
    mini: Seq<(u64, u64)>,
    base: Seq<(u64, u64)>,
)
    requires
        run::swept(f, cap, l, cache_only),
        !cap.full,
        f.wf(p),
        tree::tail_ok(f, p),
        p.cache_only == cache_only,
        f.pages.len() <= PAGE_LIMIT,
        base_list_ok(cap.data, f, base),
        forall|i: int|
            0 <= i < f.pages.len() && run::kept(cap.mini, l.mini, #[trigger] PageID::leaf(i))
                ==> places::has_id(mini, i as u64),
    ensures
        mini.len() + base.len() > 0,
{
    let i = f.pages.len() - 1;
    assert(f.pages.len() > 0);
    assert(run::page_kept(f, cap, l, i, cache_only));
    assert(f.pages[i].ok(p));
    if cache_only {
        assert(run::kept(cap.mini, l.mini, PageID::leaf(i)));
        assert(places::has_id(mini, i as u64));
    } else {
        assert(capture::base_image(f.pages[i]) is Some);
        assert(places::has_id(base, i as u64));
    }
}

} // verus!
