//! What a tree is, mathematically: inner nodes that route keys to leaf pages,
//! and leaf pages that hold records. Every operation of the tree is described
//! by what it does to this model.
use vstd::prelude::*;

use crate::nodes::image;
use crate::nodes::image::{ImageView, RecordView};
use crate::nodes::inner_node;
use crate::nodes::inner_node::InnerView;
use crate::nodes::leaf_node;
use crate::nodes::{PageID, INVALID_DISK_OFFSET};
use crate::order;

verus! {

/// The limits that a configuration sets on pages and nodes.
pub struct Params {
    /// The greatest length of a key.
    pub key_max: nat,
    /// The greatest number of separators in an inner node.
    pub fanout: nat,
    /// The size of a leaf page.
    pub page: nat,
    /// The bytes of a leaf page that records may take.
    pub cap: nat,
    /// The greatest length of a key and its value together.
    pub rec_max: nat,
    /// Whether leaf pages live in the cache alone.
    pub cache_only: bool,
}

impl Params {
    pub open spec fn ok(self) -> bool {
        &&& 3 <= self.fanout
        &&& inner_node::INNER_FIXED_SIZE + self.fanout * (inner_node::SEPARATOR_OVERHEAD
            + self.key_max) <= inner_node::INNER_NODE_SIZE
        &&& 2 * (image::KV_META_SIZE + self.rec_max) <= self.cap
        &&& image::PAGE_HEADER_SIZE + 2 * self.key_max + self.cap <= self.page
        &&& self.page <= 32768
        &&& self.key_max <= self.rec_max
    }

    /// The bytes of a cached delta page that records may take.
    pub open spec fn mini_cap(self) -> nat {
        if self.cache_only {
            self.cap
        } else {
            self.cap / 2
        }
    }
}

/// What the page table says of one leaf page.
#[verifier::ext_equal]
pub enum PageState {
    /// Nothing is stored; the number is the version at which that came about.
    Null(u64),
    /// The page on disk.
    Base(ImageView),
    /// A cached copy that stands for the whole page.
    Full(ImageView),
    /// A cached delta, over the page on disk where there is one.
    Mini(ImageView, Option<ImageView>),
}

impl PageState {
    pub open spec fn version(self) -> u64 {
        match self {
            PageState::Null(v) => v,
            PageState::Base(p) => p.version,
            PageState::Full(p) => p.version,
            PageState::Mini(p, _) => p.version,
        }
    }

    /// The records that are looked at first.
    pub open spec fn top(self) -> Seq<RecordView> {
        match self {
            PageState::Null(_) => Seq::empty(),
            PageState::Base(p) => p.records,
            PageState::Full(p) => p.records,
            PageState::Mini(p, _) => p.records,
        }
    }

    /// The records under a delta.
    pub open spec fn below(self) -> Seq<RecordView> {
        match self {
            PageState::Mini(_, Some(b)) => b.records,
            _ => Seq::empty(),
        }
    }

    pub open spec fn find(self, k: Seq<u8>) -> Option<RecordView> {
        leaf_node::overlay(self.top(), self.below(), k)
    }

    pub open spec fn holds_key(self, k: Seq<u8>) -> bool {
        leaf_node::has_key(self.top(), k) || leaf_node::has_key(self.below(), k)
    }

    /// The size of a cached page.
    pub open spec fn size(self) -> nat {
        match self {
            PageState::Full(p) => p.size,
            PageState::Mini(p, _) => p.size,
            _ => 0,
        }
    }

    pub open spec fn is_cached(self) -> bool {
        self is Full || self is Mini
    }

    /// The keys that the page's fences admit.
    pub open spec fn fence(self) -> order::KeyRange {
        match self {
            PageState::Null(_) => order::KeyRange::nothing(),
            PageState::Base(p) => fence_of(p),
            PageState::Full(p) => fence_of(p),
            PageState::Mini(_, Some(b)) => fence_of(b),
            PageState::Mini(p, None) => fence_of(p),
        }
    }

    pub open spec fn ok(self, p: Params) -> bool {
        match self {
            PageState::Null(_) => true,
            PageState::Base(v) => !p.cache_only && whole_ok(v, p),
            PageState::Full(v) => !p.cache_only && whole_ok(v, p),
            PageState::Mini(v, b) => {
                &&& b is None <==> p.cache_only
                &&& delta_ok(v, p)
                &&& b matches Some(w) ==> whole_ok(w, p) && w.version <= v.version
            },
        }
    }
}

/// The range between a page's fences; an empty upper fence is no bound.
pub open spec fn fence_of(v: ImageView) -> order::KeyRange {
    order::KeyRange {
        lo: v.low,
        hi: if v.high.len() == 0 {
            None
        } else {
            Some(v.high)
        },
    }
}

/// A page that stands for all keys of its range.
pub open spec fn whole_ok(v: ImageView, p: Params) -> bool {
    &&& v.flags == 0
    &&& v.size == p.page
    &&& v.low.len() <= p.key_max
    &&& v.high.len() <= p.key_max
    &&& leaf_node::sorted(v.records)
    &&& leaf_node::bounded(v.records, p.key_max, p.rec_max)
    &&& image::recs_size(v.records) <= p.cap
}

/// A cached delta page.
pub open spec fn delta_ok(v: ImageView, p: Params) -> bool {
    &&& v.flags == 0
    &&& v.low.len() == 0
    &&& v.high.len() == 0
    &&& image::PAGE_HEADER_SIZE + image::recs_size(v.records) <= v.size <= p.page
    &&& v.records.len() > 0
    &&& leaf_node::sorted(v.records)
    &&& leaf_node::bounded(v.records, p.key_max, p.rec_max)
    &&& image::recs_size(v.records) <= p.mini_cap()
}

/// The inner nodes, and for each its height and the keys it is responsible
/// for.
#[verifier::ext_equal]
pub struct Skeleton {
    pub nodes: Seq<InnerView>,
    pub levels: Seq<nat>,
    pub ranges: Seq<order::KeyRange>,
}

/// The keys of slot `j` of an inner node.
pub open spec fn slot_range(
    keys: Seq<Seq<u8>>,
    range: order::KeyRange,
    j: int,
) -> order::KeyRange {
    order::KeyRange {
        lo: if j == 0 {
            range.lo
        } else {
            keys[j - 1]
        },
        hi: if j == keys.len() {
            range.hi
        } else {
            Some(keys[j])
        },
    }
}

/// The slot of an inner node with the separators `keys` that `k` belongs to.
pub open spec fn child_ix(keys: Seq<Seq<u8>>, k: Seq<u8>) -> int {
    choose|p: int| inner_node::is_child_of(keys, k, p)
}

impl Skeleton {
    /// The height of what a link leads to: zero for a leaf page.
    pub open spec fn rank(self, x: PageID) -> nat {
        if x.spec_is_id() || x.inner_no() >= self.levels.len() {
            0
        } else {
            self.levels[x.inner_no()]
        }
    }

    /// The leaf page that key `k` belongs to, seen from `x`.
    pub open spec fn route(self, x: PageID, k: Seq<u8>) -> int
        decreases self.rank(x),
    {
        if x.spec_is_id() {
            x.raw as int
        } else if x.inner_no() >= self.nodes.len() {
            -1
        } else {
            let n = self.nodes[x.inner_no()];
            let c = n.children[child_ix(n.keys, k)];
            if self.rank(c) < self.rank(x) {
                self.route(c, k)
            } else {
                -1
            }
        }
    }

    /// A link that leads somewhere.
    pub open spec fn valid(self, npages: nat, x: PageID) -> bool {
        if x.spec_is_id() {
            x.raw < npages
        } else {
            x.inner_no() < self.levels.len()
        }
    }

    pub open spec fn node_ok(self, npages: nat, p: Params, i: int) -> bool {
        let n = self.nodes[i];
        &&& n.shaped()
        &&& inner_node::keys_bounded(n.keys, p.key_max)
        &&& n.keys.len() <= p.fanout
        &&& n.disk_offset == INVALID_DISK_OFFSET
        &&& self.levels[i] >= 1
        &&& n.leaf_children == (self.levels[i] == 1)
        &&& forall|j: int|
            0 <= j < n.keys.len() ==> self.ranges[i].cuts(#[trigger] n.keys[j])
        &&& forall|j: int|
            0 <= j < n.children.len() ==> self.child_ok(npages, i, #[trigger] n.children[j], j)
    }

    pub open spec fn child_ok(self, npages: nat, i: int, c: PageID, j: int) -> bool {
        &&& self.valid(npages, c)
        &&& self.rank(c) + 1 == self.levels[i]
        &&& !c.spec_is_id() ==> self.ranges[c.inner_no()] == slot_range(
            self.nodes[i].keys,
            self.ranges[i],
            j,
        )
    }

    /// No two slots lead to the same place.
    pub open spec fn links_apart(self) -> bool {
        forall|i: int, j: int, i2: int, j2: int|
            #![trigger self.nodes[i].children[j], self.nodes[i2].children[j2]]
            0 <= i < self.nodes.len() && 0 <= j < self.nodes[i].children.len() && 0 <= i2
                < self.nodes.len() && 0 <= j2 < self.nodes[i2].children.len()
                && self.nodes[i].children[j] == self.nodes[i2].children[j2] ==> i == i2 && j == j2
    }

    pub open spec fn ok(self, npages: nat, p: Params) -> bool {
        &&& self.levels.len() == self.nodes.len()
        &&& self.ranges.len() == self.nodes.len()
        &&& self.nodes.len() <= 0x7fff_ffff_ffff_ffff
        &&& npages <= 0x7fff_ffff_ffff_ffff
        &&& forall|i: int| 0 <= i < self.nodes.len() ==> #[trigger] self.node_ok(npages, p, i)
        &&& self.links_apart()
    }

    pub open spec fn root_ok(self, npages: nat, root: PageID) -> bool {
        &&& self.valid(npages, root)
        &&& root.spec_is_id() ==> root.raw == 0 && self.nodes.len() == 0
        &&& !root.spec_is_id() ==> self.ranges[root.inner_no()] == order::KeyRange::full()
        &&& forall|i: int|
            0 <= i < self.nodes.len() ==> (#[trigger] self.nodes[i]).root == (!root.spec_is_id()
                && root.inner_no() == i)
        &&& forall|i: int, j: int|
            #![trigger self.nodes[i].children[j]]
            0 <= i < self.nodes.len() && 0 <= j < self.nodes[i].children.len()
                ==> self.nodes[i].children[j] != root
    }
}

/// The separators of all inner nodes together.
pub open spec fn total_keys(nodes: Seq<InnerView>) -> nat
    decreases nodes.len(),
{
    if nodes.len() == 0 {
        0
    } else {
        total_keys(nodes.drop_last()) + nodes.last().keys.len()
    }
}

/// The bytes of all mini-pages.
pub open spec fn mini_total(pages: Seq<PageState>) -> nat
    decreases pages.len(),
{
    if pages.len() == 0 {
        0
    } else {
        mini_total(pages.drop_last()) + match pages.last() {
            PageState::Mini(v, _) => v.size,
            _ => 0,
        }
    }
}

/// Inner nodes, the root, and leaf pages.
#[verifier::ext_equal]
pub struct Core {
    pub sk: Skeleton,
    pub root: PageID,
    pub pages: Seq<PageState>,
}

impl Core {
    /// The leaf page of key `k`.
    pub open spec fn leaf_of(self, k: Seq<u8>) -> int {
        self.sk.route(self.root, k)
    }

    /// The record that a search for `k` comes upon.
    pub open spec fn find(self, k: Seq<u8>) -> Option<RecordView> {
        self.pages[self.leaf_of(k)].find(k)
    }

    /// The keys that are present, with their values.
    pub open spec fn view(self) -> Map<Seq<u8>, Seq<u8>> {
        Map::new(
            |k: Seq<u8>| leaf_node::live(self.find(k)) is Some,
            |k: Seq<u8>| self.find(k)->0.value,
        )
    }

    pub open spec fn shape_ok(self, p: Params) -> bool {
        &&& self.sk.ok(self.pages.len(), p)
        &&& self.sk.root_ok(self.pages.len(), self.root)
    }

    /// There are fewer inner nodes than leaf pages.
    pub open spec fn counts_ok(self) -> bool {
        &&& forall|i: int|
            0 <= i < self.sk.nodes.len() ==> (#[trigger] self.sk.nodes[i]).keys.len() >= 1
        &&& total_keys(self.sk.nodes) + 1 <= self.pages.len()
    }

    pub open spec fn pages_ok(self, p: Params) -> bool {
        &&& forall|i: int| 0 <= i < self.pages.len() ==> (#[trigger] self.pages[i]).ok(p)
        &&& forall|i: int, k: Seq<u8>|
            #![trigger self.pages[i].holds_key(k)]
            0 <= i < self.pages.len() && self.pages[i].holds_key(k) ==> self.leaf_of(k) == i
        &&& !p.cache_only ==> forall|i: int, k: Seq<u8>|
            #![trigger self.pages[i].fence().contains(k)]
            0 <= i < self.pages.len() && !(self.pages[i] is Null) ==> (self.pages[i].fence().contains(
                k,
            ) <==> self.leaf_of(k) == i)
        &&& !p.cache_only ==> forall|k: Seq<u8>| !(self.pages[#[trigger] self.leaf_of(k)] is Null)
    }

    pub open spec fn wf(self, p: Params) -> bool {
        &&& p.ok()
        &&& self.shape_ok(p)
        &&& self.counts_ok()
        &&& self.pages_ok(p)
    }

    pub open spec fn with_page(self, i: int, s: PageState) -> Core {
        Core { pages: self.pages.update(i, s), ..self }
    }
}

pub proof fn lemma_child_ix_is(keys: Seq<Seq<u8>>, k: Seq<u8>, p: int)
    requires
        inner_node::is_child_of(keys, k, p),
    ensures
        child_ix(keys, k) == p,
{
    let q = child_ix(keys, k);
    assert(inner_node::is_child_of(keys, k, q));
    order::lemma_lex_order();
    if p < q {
        assert(order::lex_le(keys[p], k));
        assert(order::lex_lt(k, keys[p]));
    } else if q < p {
        assert(order::lex_le(keys[q], k));
        assert(order::lex_lt(k, keys[q]));
    }
}

/// Every key belongs to a slot.
pub proof fn lemma_child_ix(keys: Seq<Seq<u8>>, k: Seq<u8>)
    requires
        inner_node::keys_sorted(keys),
    ensures
        inner_node::is_child_of(keys, k, child_ix(keys, k)),
    decreases keys.len(),
{
    order::lemma_lex_order();
    if keys.len() == 0 {
        assert(inner_node::is_child_of(keys, k, 0));
    } else if order::lex_lt(k, keys.last()) {
        let front = keys.drop_last();
        lemma_child_ix(front, k);
        let q = child_ix(front, k);
        assert forall|i: int| 0 <= i < q implies order::lex_le(#[trigger] keys[i], k) by {
            assert(front[i] == keys[i]);
        }
        assert forall|i: int| q <= i < keys.len() implies order::lex_lt(k, #[trigger] keys[i]) by {
            if i < front.len() {
                assert(front[i] == keys[i]);
            }
        }
        assert(inner_node::is_child_of(keys, k, q));
    } else {
        assert(inner_node::is_child_of(keys, k, keys.len() as int));
    }
}

impl Skeleton {
    /// A search goes from an inner node to one of its children.
    pub proof fn lemma_route_step(self, npages: nat, p: Params, x: PageID, k: Seq<u8>)
        requires
            self.ok(npages, p),
            self.valid(npages, x),
            !x.spec_is_id(),
        ensures
            ({
                let n = self.nodes[x.inner_no()];
                let j = child_ix(n.keys, k);
                &&& 0 <= j < n.children.len()
                &&& inner_node::is_child_of(n.keys, k, j)
                &&& self.valid(npages, n.children[j])
                &&& self.rank(n.children[j]) + 1 == self.rank(x)
                &&& n.children[j].spec_is_id() <==> self.rank(x) == 1
                &&& self.route(x, k) == self.route(n.children[j], k)
            }),
    {
        let i = x.inner_no();
        assert(self.node_ok(npages, p, i));
        let n = self.nodes[i];
        lemma_child_ix(n.keys, k);
        let j = child_ix(n.keys, k);
        let c = n.children[j];
        assert(self.child_ok(npages, i, c, j));
        if !c.spec_is_id() {
            assert(self.node_ok(npages, p, c.inner_no()));
        }
    }

    /// Every search ends at a leaf page.
    pub proof fn lemma_route_valid(self, npages: nat, p: Params, x: PageID, k: Seq<u8>)
        requires
            self.ok(npages, p),
            self.valid(npages, x),
        ensures
            0 <= self.route(x, k) < npages,
        decreases self.rank(x),
    {
        if !x.spec_is_id() {
            self.lemma_route_step(npages, p, x, k);
            let n = self.nodes[x.inner_no()];
            self.lemma_route_valid(npages, p, n.children[child_ix(n.keys, k)], k);
        }
    }

    /// Searches do not change where links, separators and heights do not.
    pub proof fn lemma_route_frame(
        self,
        other: Skeleton,
        npages: nat,
        p: Params,
        x: PageID,
        k: Seq<u8>,
    )
        requires
            self.ok(npages, p),
            self.valid(npages, x),
            other.nodes.len() >= self.nodes.len(),
            other.levels.len() == other.nodes.len(),
            forall|i: int|
                0 <= i < self.nodes.len() ==> (#[trigger] other.nodes[i]).keys
                    == self.nodes[i].keys && other.nodes[i].children == self.nodes[i].children,
            forall|i: int|
                0 <= i < self.nodes.len() ==> #[trigger] other.levels[i] == self.levels[i],
        ensures
            other.route(x, k) == self.route(x, k),
        decreases self.rank(x),
    {
        if !x.spec_is_id() {
            self.lemma_route_step(npages, p, x, k);
            let n = self.nodes[x.inner_no()];
            let c = n.children[child_ix(n.keys, k)];
            assert(other.nodes[x.inner_no()].keys == n.keys);
            assert(other.levels[x.inner_no()] == self.levels[x.inner_no()]);
            if !c.spec_is_id() {
                assert(other.levels[c.inner_no()] == self.levels[c.inner_no()]);
            }
            self.lemma_route_frame(other, npages, p, c, k);
        }
    }
}

pub proof fn lemma_total_keys_update(nodes: Seq<InnerView>, i: int, n: InnerView)
    requires
        0 <= i < nodes.len(),
    ensures
        total_keys(nodes.update(i, n)) + nodes[i].keys.len() == total_keys(nodes) + n.keys.len(),
    decreases nodes.len(),
{
    let front = nodes.drop_last();
    if i == nodes.len() - 1 {
        assert(nodes.update(i, n).drop_last() =~= front);
    } else {
        assert(nodes.update(i, n).drop_last() =~= front.update(i, n));
        lemma_total_keys_update(front, i, n);
    }
}

pub proof fn lemma_total_keys_push(nodes: Seq<InnerView>, n: InnerView)
    ensures
        total_keys(nodes.push(n)) == total_keys(nodes) + n.keys.len(),
{
    assert(nodes.push(n).drop_last() =~= nodes);
}

/// Nodes with a separator each are no more than separators.
pub proof fn lemma_total_keys_min(nodes: Seq<InnerView>)
    requires
        forall|i: int| 0 <= i < nodes.len() ==> (#[trigger] nodes[i]).keys.len() >= 1,
    ensures
        nodes.len() <= total_keys(nodes),
    decreases nodes.len(),
{
    if nodes.len() > 0 {
        let front = nodes.drop_last();
        assert forall|i: int| 0 <= i < front.len() implies (#[trigger] front[i]).keys.len() >= 1 by {
            assert(front[i] == nodes[i]);
        }
        lemma_total_keys_min(front);
        assert(nodes[nodes.len() - 1].keys.len() >= 1);
    }
}

/// Leaf pages are as good as before where neither they nor searches changed.
pub proof fn lemma_pages_kept(before: Core, after: Core, p: Params)
    requires
        before.pages_ok(p),
        after.pages == before.pages,
        forall|k: Seq<u8>| #[trigger] after.leaf_of(k) == before.leaf_of(k),
    ensures
        after.pages_ok(p),
        forall|k: Seq<u8>| #[trigger] after.find(k) == before.find(k),
        after.view() == before.view(),
{
    assert forall|i: int, k: Seq<u8>|
        #![trigger after.pages[i].holds_key(k)]
        0 <= i < after.pages.len() && after.pages[i].holds_key(k) implies after.leaf_of(k) == i by {
        assert(before.pages[i].holds_key(k));
    }
    if !p.cache_only {
        assert forall|i: int, k: Seq<u8>|
            #![trigger after.pages[i].fence().contains(k)]
            0 <= i < after.pages.len() && !(after.pages[i] is Null) implies (
        after.pages[i].fence().contains(k) <==> after.leaf_of(k) == i) by {
            assert(before.pages[i].fence().contains(k) <==> before.leaf_of(k) == i);
        }
        assert forall|k: Seq<u8>| !(after.pages[#[trigger] after.leaf_of(k)] is Null) by {
            assert(!(before.pages[before.leaf_of(k)] is Null));
        }
    }
    assert(after.view() =~= before.view());
}

} // verus!
