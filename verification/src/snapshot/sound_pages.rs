//! Looking over the leaf pages that come out of a file: whether each holds what searches
//! look for there.
use vstd::prelude::*;

use crate::config::Config;
use crate::model;
use crate::model::{Core, Params};
use crate::nodes::image;
use crate::nodes::image::{LeafRecord, RecordView, KV_META_SIZE, PAGE_HEADER_SIZE};
use crate::nodes::leaf_node;
use crate::nodes::leaf_node::LeafNode;
use crate::nodes::PageID;
use crate::order;
use crate::order::{key_eq, key_lt};
use crate::storage::PageLocation;
use crate::tree;
use crate::tree::traverse;
use crate::tree::BfTree;

verus! {

proof fn lemma_size_grows(rs: Seq<RecordView>, n: int)
    requires
        0 <= n <= rs.len(),
    ensures
        image::recs_size(rs.take(n)) <= image::recs_size(rs),
    decreases rs.len(),
{
    if n == rs.len() {
        assert(rs.take(n) =~= rs);
    } else {
        assert(rs.drop_last().take(n) =~= rs.take(n));
        lemma_size_grows(rs.drop_last(), n);
    }
}

/// Records in order, within the limits, that take no more than `cap` bytes.
pub open spec fn records_sound(
    rs: Seq<RecordView>,
    key_max: nat,
    rec_max: nat,
    cap: nat,
) -> bool {
    &&& leaf_node::sorted(rs)
    &&& leaf_node::bounded(rs, key_max, rec_max)
    &&& image::recs_size(rs) <= cap
}

fn are_records_sound(rs: &Vec<LeafRecord>, key_max: usize, rec_max: usize, cap: usize) -> (r: bool)
    requires
        key_max <= rec_max,
        rec_max <= 32768,
        cap <= 32768,
    ensures
        r == records_sound(
            image::recs(rs@),
            key_max as nat,
            rec_max as nat,
            cap as nat,
        ),
{
    let ghost all = image::recs(rs@);
    let mut used: usize = 0;
    let mut i: usize = 0;
    assert(all.take(0) =~= Seq::empty());
    while i < rs.len()
        invariant
            all == image::recs(rs@),
            i <= rs@.len(),
            key_max <= rec_max,
            rec_max <= 32768,
            cap <= 32768,
            used <= cap,
            used == image::recs_size(all.take(i as int)),
            leaf_node::sorted(all.take(i as int)),
            leaf_node::bounded(all.take(i as int), key_max as nat, rec_max as nat),
        decreases rs@.len() - i,
    {
        let rec = &rs[i];
        let ghost front = all.take(i as int);
        let ghost next = all.take(i + 1);
        proof {
            assert(all[i as int] == rec@);
            assert(next =~= front.push(rec@));
            assert(next.drop_last() =~= front);
            lemma_size_grows(all, i + 1);
        }
        if rec.key.len() > key_max || rec.value.len() > rec_max - rec.key.len() {
            return false;
        }
        if i > 0 {
            assert(all[i - 1] == rs@[i - 1]@);
            if !key_lt(rs[i - 1].key.as_slice(), rec.key.as_slice()) {
                return false;
            }
        }
        let size: usize = KV_META_SIZE + rec.key.len() + rec.value.len();
        if size > cap - used {
            return false;
        }
        used = used + size;
        proof {
            order::lemma_lex_order();
            assert forall|a: int, b: int|
                0 <= a < b < next.len() implies order::lex_lt(
                (#[trigger] next[a]).key,
                (#[trigger] next[b]).key,
            ) by {
                if b < front.len() {
                    assert(next[a] == front[a] && next[b] == front[b]);
                } else if a < i - 1 {
                    assert(order::lex_lt(front[a].key, front[i - 1].key));
                }
            }
        }
        i += 1;
    }
    assert(all.take(i as int) =~= all);
    true
}

fn is_whole_sound(n: &LeafNode, config: &Config) -> (r: bool)
    requires
        config.ok(),
    ensures
        r == model::whole_ok(n@, config.params()),
{
    proof {
        config.lemma_params();
    }
    let key_max: usize = config.max_fence_len / 2;
    n.node_size == config.leaf_page_size && n.low_fence.len() <= key_max && n.high_fence.len()
        <= key_max && are_records_sound(
        &n.records,
        key_max,
        config.cb_max_record_size,
        config.record_capacity(),
    )
}

fn is_delta_sound(n: &LeafNode, config: &Config) -> (r: bool)
    requires
        config.ok(),
    ensures
        r == model::delta_ok(n@, config.params()),
{
    proof {
        config.lemma_params();
    }
    let key_max: usize = config.max_fence_len / 2;
    let whole: usize = config.record_capacity();
    let cap: usize = if config.cache_only {
        whole
    } else {
        whole / 2
    };
    let ghost rs = image::recs(n.records@);
    if n.low_fence.len() > 0 || n.high_fence.len() > 0 || n.records.len() == 0 || n.node_size
        > config.leaf_page_size || n.node_size < PAGE_HEADER_SIZE {
        return false;
    }
    let room: usize = n.node_size - PAGE_HEADER_SIZE;
    let least: usize = if room < cap {
        room
    } else {
        cap
    };
    assert(rs.len() == n.records@.len());
    are_records_sound(&n.records, key_max, config.cb_max_record_size, least)
}

/// Decides whether what the page table says of a leaf page is in order.
fn is_page_sound(l: &PageLocation, config: &Config) -> (r: bool)
    requires
        config.ok(),
    ensures
        r == l@.ok(config.params()),
{
    match l {
        PageLocation::Null(_) => true,
        PageLocation::Base(n) => !config.cache_only && is_whole_sound(n, config),
        PageLocation::Full(n) => !config.cache_only && is_whole_sound(n, config),
        PageLocation::Mini(n, None) => config.cache_only && is_delta_sound(n, config),
        PageLocation::Mini(n, Some(b)) => !config.cache_only && is_delta_sound(n, config)
            && is_whole_sound(b, config) && b.snapshot_version <= n.snapshot_version,
    }
}

/// The keys from `low` on, up to `high` if that is not empty.
pub open spec fn between(low: Seq<u8>, high: Seq<u8>) -> order::KeyRange {
    order::KeyRange {
        lo: low,
        hi: if high.len() == 0 {
            None
        } else {
            Some(high)
        },
    }
}

/// Searches in the tree end at leaf pages.
pub open spec fn searchable(t: &BfTree) -> bool {
    &&& t.parts_ok()
    &&& t.model().shape_ok(t.params())
    &&& t.model().counts_ok()
}

/// Exactly the keys of range `r` belong to page `i`.
pub open spec fn has_range(c: Core, i: int, r: order::KeyRange) -> bool {
    forall|k: Seq<u8>| #[trigger] c.leaf_of(k) == i <==> r.contains(k)
}

impl BfTree {
    /// The leaf page of `key`, and the bounds of its keys; an empty upper bound is none.
    fn reach(&self, key: &[u8]) -> (r: (u64, Vec<u8>, Vec<u8>))
        requires
            searchable(self),
        ensures
            r.0 < self.model().pages.len(),
            self.model().leaf_of(key@) == r.0,
            between(r.1@, r.2@).contains(key@),
            has_range(self.model(), r.0 as int, between(r.1@, r.2@)),
    {
        let ghost c = self.model();
        let ghost p = self.params();
        let ghost np = c.pages.len();
        if self.root.is_id() {
            assert forall|k: Seq<u8>| #[trigger] c.leaf_of(k) == 0 <==> between(
                Seq::empty(),
                Seq::empty(),
            ).contains(k) by {
                order::lemma_lex_empty_least(k);
            }
            assert(c.leaf_of(key@) == 0);
            return (self.root.as_id(), Vec::new(), Vec::new());
        }
        let mut low: Vec<u8> = Vec::new();
        let mut high: Vec<u8> = Vec::new();
        assert(c.root.inner_no() < self.inners.len());
        let mut cur: usize = self.root.as_inner_node() as usize;
        proof {
            traverse::lemma_owns_root(c, p);
            assert(c.sk.ranges[cur as int].contains(key@));
        }
        loop
            invariant
                searchable(self),
                c == self.model(),
                p == self.params(),
                np == c.pages.len(),
                cur < self.inners@.len(),
                traverse::owns(
                    c.sk,
                    np,
                    c.root,
                    PageID::inner(cur as int),
                    c.sk.ranges[cur as int],
                ),
                c.sk.ranges[cur as int] == between(low@, high@),
                between(low@, high@).contains(key@),
            decreases c.sk.levels[cur as int],
        {
            let ghost x = PageID::inner(cur as int);
            let ghost keys = c.sk.nodes[cur as int].keys;
            proof {
                assert(c.sk.node_ok(np, p, cur as int));
                assert(c.sk.nodes[cur as int] == self.inners@[cur as int]@);
                assert(!x.spec_is_id() && x.inner_no() == cur);
            }
            let j = self.inners[cur].lower_bound(key);
            let child = self.inners[cur].get_value(j);
            let ghost r = model::slot_range(keys, c.sk.ranges[cur as int], j as int);
            proof {
                assert(c.sk.child_ok(np, cur as int, child, j as int));
                traverse::lemma_owns_child(c.sk, np, p, c.root, x, j as int);
                assert(r.contains(key@));
            }
            if j > 0 {
                low = self.inners[cur].get_full_key(j);
            }
            if j < self.inners[cur].keys.len() {
                high = self.inners[cur].get_full_key(j + 1);
                assert(c.sk.ranges[cur as int].cuts(keys[j as int]));
            }
            assert(r == between(low@, high@));
            if child.is_id() {
                proof {
                    traverse::lemma_leaf_owned(c, p, child, r, key@);
                }
                return (child.as_id(), low, high);
            }
            proof {
                assert(c.sk.node_ok(np, p, child.inner_no()));
                assert(PageID::inner(child.inner_no()) == child);
            }
            assert(child.inner_no() < self.inners.len());
            cur = child.as_inner_node() as usize;
        }
    }

    /// Which leaf pages searches end at.
    fn reached_pages(&self) -> (r: Vec<bool>)
        requires
            searchable(self),
        ensures
            r@.len() == self.model().pages.len(),
            forall|i: int|
                0 <= i < r@.len() ==> (#[trigger] r@[i] <==> is_reached(self.model(), i)),
    {
        let ghost c = self.model();
        let ghost np = c.pages.len() as int;
        let mut r: Vec<bool> = Vec::new();
        let n = self.storage.page_table.peek_next_id();
        let mut i: u64 = 0;
        while i < n
            invariant
                i <= n,
                r@.len() == i,
                forall|j: int| 0 <= j < i ==> !#[trigger] r@[j],
            decreases n - i,
        {
            r.push(false);
            i += 1;
        }
        let ghost mut seen: Set<int> = Set::empty();
        let mut at: Vec<u8> = Vec::new();
        proof {
            vstd::set_lib::lemma_int_range(0, np);
            order::lemma_lex_order();
            assert forall|k: Seq<u8>| !order::lex_lt(k, at@) by {
                order::lemma_lex_empty_least(k);
            }
        }
        loop
            invariant_except_break
                forall|k: Seq<u8>|
                    #![trigger c.leaf_of(k)]
                    order::lex_lt(k, at@) <==> seen.contains(c.leaf_of(k)),
            invariant
                searchable(self),
                c == self.model(),
                np == c.pages.len(),
                r@.len() == np,
                seen.subset_of(vstd::set_lib::set_int_range(0, np)),
                vstd::set_lib::set_int_range(0, np).finite(),
                vstd::set_lib::set_int_range(0, np).len() == np,
                forall|j: int| 0 <= j < np ==> (#[trigger] r@[j] <==> seen.contains(j)),
                forall|j: int| #[trigger] seen.contains(j) ==> is_reached(c, j),
            ensures
                forall|k: Seq<u8>| seen.contains(#[trigger] c.leaf_of(k)),
            decreases np - seen.len(),
        {
            let (pid, low, high) = self.reach(at.as_slice());
            let ghost before = seen;
            let ghost range = between(low@, high@);
            proof {
                order::lemma_lex_order();
                assert(c.leaf_of(at@) == pid);
                assert(!seen.contains(pid as int));
                seen = seen.insert(pid as int);
                vstd::set_lib::lemma_len_subset(before, vstd::set_lib::set_int_range(0, np));
                vstd::set_lib::lemma_len_subset(seen, vstd::set_lib::set_int_range(0, np));
            }
            assert(pid < r.len());
            r.set(pid as usize, true);
            if high.len() == 0 {
                proof {
                    assert forall|k: Seq<u8>| seen.contains(#[trigger] c.leaf_of(k)) by {
                        if !order::lex_lt(k, at@) {
                            assert(range.contains(k));
                        }
                    }
                }
                break;
            }
            proof {
                assert forall|k: Seq<u8>|
                    #![trigger c.leaf_of(k)]
                    order::lex_lt(k, high@) <==> seen.contains(c.leaf_of(k)) by {
                    if order::lex_lt(k, at@) {
                        assert(before.contains(c.leaf_of(k)));
                    } else if order::lex_lt(k, high@) {
                        assert(range.contains(k));
                    } else {
                        assert(!range.contains(k));
                        assert(!before.contains(c.leaf_of(k)));
                    }
                }
            }
            at = high;
        }
        proof {
            assert forall|i: int| 0 <= i < np && is_reached(c, i) implies seen.contains(i) by {
                let k = choose|k: Seq<u8>| #[trigger] c.leaf_of(k) == i;
                assert(seen.contains(c.leaf_of(k)));
            }
        }
        r
    }

    /// Decides whether exactly the keys from `low` up to `high` belong to page `i`.
    fn is_fence_sound(&self, low: &Vec<u8>, high: &Vec<u8>, i: u64, reached: bool) -> (r: bool)
        requires
            searchable(self),
            reached <==> is_reached(self.model(), i as int),
        ensures
            r == has_range(self.model(), i as int, between(low@, high@)),
    {
        let ghost c = self.model();
        let ghost fence = between(low@, high@);
        let (pid, lo, hi) = self.reach(low.as_slice());
        let ghost range = between(lo@, hi@);
        proof {
            order::lemma_lex_order();
            assert(c.leaf_of(low@) == pid);
        }
        if pid != i {
            let empty = high.len() > 0 && !key_lt(low.as_slice(), high.as_slice());
            proof {
                if empty {
                    assert forall|k: Seq<u8>| !fence.contains(k) by {}
                    if has_range(c, i as int, fence) && is_reached(c, i as int) {
                        let k = choose|k: Seq<u8>| #[trigger] c.leaf_of(k) == i;
                        assert(fence.contains(k));
                    }
                } else {
                    assert(fence.contains(low@));
                }
            }
            return empty && !reached;
        }
        let same = key_eq(lo.as_slice(), low.as_slice()) && key_eq(hi.as_slice(), high.as_slice());
        proof {
            if has_range(c, i as int, fence) {
                assert forall|k: Seq<u8>| fence.contains(k) <==> range.contains(k) by {
                    assert(c.leaf_of(k) == i <==> fence.contains(k));
                }
                assert(fence.contains(low@));
                assert(range.contains(lo@));
                assert(fence.contains(lo@));
                assert(lo@ == low@);
                if hi@ != high@ {
                    if hi@.len() == 0 && high@.len() == 0 {
                        assert(hi@ =~= high@);
                    } else if hi@.len() == 0 || (high@.len() > 0 && order::lex_lt(high@, hi@)) {
                        assert(range.contains(high@) && !fence.contains(high@));
                    } else {
                        assert(fence.contains(hi@) && !range.contains(hi@));
                    }
                }
            }
        }
        same
    }

    /// Decides whether all records belong to page `i`.
    fn are_records_placed(&self, rs: &Vec<LeafRecord>, i: u64) -> (r: bool)
        requires
            searchable(self),
        ensures
            r == all_belong(self.model(), image::recs(rs@), i as int),
    {
        let ghost c = self.model();
        let ghost all = image::recs(rs@);
        let mut j: usize = 0;
        while j < rs.len()
            invariant
                searchable(self),
                c == self.model(),
                all == image::recs(rs@),
                j <= rs@.len(),
                forall|a: int| 0 <= a < j ==> c.leaf_of((#[trigger] all[a]).key) == i,
            decreases rs@.len() - j,
        {
            assert(all[j as int] == rs@[j as int]@);
            let (pid, _, _) = self.reach(rs[j].key.as_slice());
            if pid != i {
                assert(leaf_node::has_key(all, all[j as int].key));
                return false;
            }
            j += 1;
        }
        true
    }

    /// Decides whether page `i` is in order and where it belongs.
    fn is_page_placed(&self, i: u64, reached: bool) -> (r: bool)
        requires
            searchable(self),
            i < self.model().pages.len(),
            reached <==> is_reached(self.model(), i as int),
        ensures
            r == placed(self.model(), self.params(), i as int),
    {
        let ghost c = self.model();
        let ghost s = c.pages[i as int];
        let l = self.storage.page_table.get(i);
        assert(s == l@);
        if !is_page_sound(l, &self.config) {
            return false;
        }
        let (top, below): (bool, bool) = match l {
            PageLocation::Null(_) => (true, true),
            PageLocation::Base(n) => (self.are_records_placed(&n.records, i), true),
            PageLocation::Full(n) => (self.are_records_placed(&n.records, i), true),
            PageLocation::Mini(n, None) => (self.are_records_placed(&n.records, i), true),
            PageLocation::Mini(n, Some(b)) => (
                self.are_records_placed(&n.records, i),
                self.are_records_placed(&b.records, i),
            ),
        };
        proof {
            assert(top == all_belong(c, s.top(), i as int));
            assert(below == all_belong(c, s.below(), i as int));
            if top && below {
                assert forall|k: Seq<u8>| #[trigger] s.holds_key(k) implies c.leaf_of(k) == i by {}
            }
            if placed(c, self.params(), i as int) {
                assert forall|k: Seq<u8>| #[trigger]
                    leaf_node::has_key(s.top(), k) implies c.leaf_of(k) == i by {
                    assert(s.holds_key(k));
                }
                assert forall|k: Seq<u8>| #[trigger]
                    leaf_node::has_key(s.below(), k) implies c.leaf_of(k) == i by {
                    assert(s.holds_key(k));
                }
            }
        }
        if !top || !below {
            return false;
        }
        match l {
            PageLocation::Null(_) => true,
            PageLocation::Base(n) => self.is_fence_sound(&n.low_fence, &n.high_fence, i, reached),
            PageLocation::Full(n) => self.is_fence_sound(&n.low_fence, &n.high_fence, i, reached),
            PageLocation::Mini(_, None) => true,
            PageLocation::Mini(_, Some(b)) => self.is_fence_sound(
                &b.low_fence,
                &b.high_fence,
                i,
                reached,
            ),
        }
    }

    /// Decides whether the leaf pages are in order, and no node and no page is of a
    /// version after `limit`.
    pub(crate) fn is_sound(&self, limit: u64) -> (r: bool)
        requires
            searchable(self),
        ensures
            r == sound(self.model(), self.params(), limit),
    {
        let ghost c = self.model();
        let ghost p = self.params();
        let cache_only = self.config.cache_only;
        let n = self.storage.page_table.peek_next_id();
        proof {
            lemma_pages_placed(c, p);
        }
        let mut j: usize = 0;
        while j < self.inners.len()
            invariant
                c == self.model(),
                j <= self.inners@.len(),
                forall|a: int| 0 <= a < j ==> (#[trigger] c.sk.nodes[a]).version <= limit,
            decreases self.inners@.len() - j,
        {
            assert(c.sk.nodes[j as int] == self.inners@[j as int]@);
            if self.inners[j].snapshot_version > limit {
                return false;
            }
            j += 1;
        }
        let reached = self.reached_pages();
        let mut i: u64 = 0;
        while i < n
            invariant
                searchable(self),
                c == self.model(),
                p == self.params(),
                cache_only == p.cache_only,
                n == c.pages.len(),
                i <= n,
                reached@.len() == n,
                forall|a: int|
                    0 <= a < n ==> (#[trigger] reached@[a] <==> is_reached(c, a)),
                c.pages_ok(p) <==> all_placed(c, p),
                forall|a: int| 0 <= a < i ==> (#[trigger] c.pages[a]).version() <= limit,
                forall|a: int| 0 <= a < i ==> #[trigger] placed(c, p, a),
                forall|a: int|
                    0 <= a < i && !p.cache_only && is_reached(c, a) ==> !(#[trigger] c.pages[a] is Null),
            decreases n - i,
        {
            let l = self.storage.page_table.get(i);
            assert(c.pages[i as int] == l@);
            if l.version() > limit {
                return false;
            }
            assert(i < reached.len());
            let there = reached[i as usize];
            if !self.is_page_placed(i, there) {
                return false;
            }
            if !cache_only && there {
                if let PageLocation::Null(_) = l {
                    return false;
                }
            }
            i += 1;
        }
        if !cache_only {
            if self.root.is_id() {
                assert(c.pages[0] == self.storage.page_table@[0]@);
                match self.storage.page_table.get(0) {
                    PageLocation::Base(_) => {},
                    _ => {
                        return false;
                    },
                }
            }
            assert(c.pages.last() == self.storage.page_table@[n - 1]@);
            if let PageLocation::Null(_) = self.storage.page_table.get(n - 1) {
                return false;
            }
        }
        true
    }
}

/// Page `i` is in order, and its records and its fences are where searches look for
/// them.
pub open spec fn placed(c: Core, p: Params, i: int) -> bool {
    let s = c.pages[i];
    &&& s.ok(p)
    &&& forall|k: Seq<u8>| #[trigger] s.holds_key(k) ==> c.leaf_of(k) == i
    &&& !p.cache_only && !(s is Null) ==> has_range(c, i, s.fence())
}

/// All pages are placed, and searches end at none that is empty, if there is a disk.
pub open spec fn all_placed(c: Core, p: Params) -> bool {
    &&& forall|i: int| 0 <= i < c.pages.len() ==> #[trigger] placed(c, p, i)
    &&& forall|i: int|
        0 <= i < c.pages.len() && !p.cache_only && is_reached(c, i)
            ==> !(#[trigger] c.pages[i] is Null)
}

/// The leaf pages are in order, and no node and no page is of a version after `limit`.
pub open spec fn sound(c: Core, p: Params, limit: u64) -> bool {
    &&& c.pages_ok(p)
    &&& tree::tail_ok(c, p)
    &&& forall|i: int| 0 <= i < c.sk.nodes.len() ==> (#[trigger] c.sk.nodes[i]).version <= limit
    &&& forall|i: int| 0 <= i < c.pages.len() ==> (#[trigger] c.pages[i]).version() <= limit
}

proof fn lemma_pages_placed(c: Core, p: Params)
    requires
        c.shape_ok(p),
    ensures
        c.pages_ok(p) <==> all_placed(c, p),
{
    assert forall|k: Seq<u8>| 0 <= #[trigger] c.leaf_of(k) < c.pages.len() by {
        c.sk.lemma_route_valid(c.pages.len(), p, c.root, k);
    }
    if c.pages_ok(p) {
        assert forall|i: int| 0 <= i < c.pages.len() implies #[trigger] placed(c, p, i) by {
            let s = c.pages[i];
            assert forall|k: Seq<u8>| #[trigger] s.holds_key(k) implies c.leaf_of(k) == i by {
                assert(c.pages[i].holds_key(k));
            }
            if !p.cache_only && !(s is Null) {
                assert forall|k: Seq<u8>| #[trigger] c.leaf_of(k) == i <==> s.fence().contains(k) by {
                    assert(c.pages[i].fence().contains(k) <==> c.leaf_of(k) == i);
                }
            }
        }
        assert forall|i: int|
            0 <= i < c.pages.len() && !p.cache_only && is_reached(c, i) implies !(
        #[trigger] c.pages[i] is Null) by {
            let k = choose|k: Seq<u8>| #[trigger] c.leaf_of(k) == i;
            assert(!(c.pages[c.leaf_of(k)] is Null));
        }
    }
    if all_placed(c, p) {
        assert forall|i: int| 0 <= i < c.pages.len() implies (#[trigger] c.pages[i]).ok(p) by {
            assert(placed(c, p, i));
        }
        assert forall|i: int, k: Seq<u8>|
            #![trigger c.pages[i].holds_key(k)]
            0 <= i < c.pages.len() && c.pages[i].holds_key(k) implies c.leaf_of(k) == i by {
            assert(placed(c, p, i));
        }
        if !p.cache_only {
            assert forall|i: int, k: Seq<u8>|
                #![trigger c.pages[i].fence().contains(k)]
                0 <= i < c.pages.len() && !(c.pages[i] is Null) implies (
            c.pages[i].fence().contains(k) <==> c.leaf_of(k) == i) by {
                assert(placed(c, p, i));
            }
            assert forall|k: Seq<u8>| !(c.pages[#[trigger] c.leaf_of(k)] is Null) by {
                assert(is_reached(c, c.leaf_of(k)));
            }
        }
    }
}

/// Searches for the keys of records `rs` end at page `i`.
pub open spec fn all_belong(c: Core, rs: Seq<RecordView>, i: int) -> bool {
    forall|k: Seq<u8>| #[trigger] leaf_node::has_key(rs, k) ==> c.leaf_of(k) == i
}

/// Some search ends at page `i`.
pub open spec fn is_reached(c: Core, i: int) -> bool {
    exists|k: Seq<u8>| #[trigger] c.leaf_of(k) == i
}

} // verus!
