//! What is done to single leaf pages: storing a record, merging a delta into
//! the page below, moving between disk and cache, cutting a page in two.
use vstd::prelude::*;

use crate::model;
use crate::model::{Core, PageState, Params};
use crate::nodes::image;
use crate::nodes::image::{LeafRecord, RecordView, PAGE_HEADER_SIZE};
use crate::nodes::leaf_node;
use crate::nodes::leaf_node::{upsert, LeafNode, NO_NEXT_LEVEL};
use crate::nodes::PageID;
use crate::order;
use crate::reshape;
use crate::snapshot::CPRSnapshotGuard;
use crate::storage::{PageLocation, PAGE_LIMIT};
use crate::tree;
use crate::tree::traverse;
use crate::tree::traverse::Descent;
use crate::tree::BfTree;

verus! {

/// A record within the limits.
pub open spec fn rec_ok(r: RecordView, p: Params) -> bool {
    r.key.len() <= p.key_max && r.key.len() + r.value.len() <= p.rec_max
}

/// Putting `s` in the place of page `i` keeps everything in order.
pub open spec fn fits_place(c: Core, p: Params, i: int, s: PageState) -> bool {
    &&& s.ok(p)
    &&& forall|k: Seq<u8>| #[trigger] s.find(k) is Some ==> c.leaf_of(k) == i
    &&& !p.cache_only ==> !(c.pages[i] is Null) && !(s is Null) && s.fence() == c.pages[i].fence()
}

/// Only what searches find on page `i` changes when the page does.
pub proof fn lemma_set_page(c: Core, p: Params, i: int, s: PageState)
    requires
        c.wf(p),
        0 <= i < c.pages.len(),
        fits_place(c, p, i, s),
    ensures
        c.with_page(i, s).wf(p),
        forall|k: Seq<u8>| #[trigger] c.with_page(i, s).leaf_of(k) == c.leaf_of(k),
        forall|k: Seq<u8>| #[trigger]
            c.with_page(i, s).find(k) == if c.leaf_of(k) == i {
                s.find(k)
            } else {
                c.find(k)
            },
{
    let c2 = c.with_page(i, s);
    assert forall|x: int, k: Seq<u8>|
        #![trigger c2.pages[x].holds_key(k)]
        0 <= x < c2.pages.len() && c2.pages[x].holds_key(k) implies c2.leaf_of(k) == x by {
        if x == i {
            assert(s.find(k) is Some);
        } else {
            assert(c.pages[x].holds_key(k));
        }
    }
    if !p.cache_only {
        assert forall|x: int, k: Seq<u8>|
            #![trigger c2.pages[x].fence().contains(k)]
            0 <= x < c2.pages.len() && !(c2.pages[x] is Null) implies (
        c2.pages[x].fence().contains(k) <==> c2.leaf_of(k) == x) by {
            assert(c.pages[x].fence().contains(k) <==> c.leaf_of(k) == x);
        }
        assert forall|k: Seq<u8>| !(c2.pages[#[trigger] c2.leaf_of(k)] is Null) by {
            c.sk.lemma_route_valid(c.pages.len(), p, c.root, k);
            assert(!(c.pages[c.leaf_of(k)] is Null));
        }
    }
    assert forall|k: Seq<u8>| #[trigger] c2.find(k) == if c.leaf_of(k) == i {
        s.find(k)
    } else {
        c.find(k)
    } by {
        c.sk.lemma_route_valid(c.pages.len(), p, c.root, k);
    }
}

pub proof fn lemma_upsert_bounded(
    rs: Seq<RecordView>,
    q: int,
    r: RecordView,
    key_max: nat,
    max: nat,
)
    requires
        leaf_node::bounded(rs, key_max, max),
        0 <= q <= rs.len(),
        r.key.len() <= key_max,
        r.key.len() + r.value.len() <= max,
    ensures
        leaf_node::bounded(leaf_node::upsert_at(rs, q, r), key_max, max),
        leaf_node::upsert_at(rs, q, r).len() > 0,
{
    let out = leaf_node::upsert_at(rs, q, r);
    assert forall|i: int| 0 <= i < out.len() implies (#[trigger] out[i]).key.len() <= key_max
        && out[i].key.len() + out[i].value.len() <= max by {
        if q < rs.len() && rs[q].key == r.key {
            if i != q {
                assert(out[i] == rs[i]);
            }
        } else if i < q {
            assert(out[i] == rs[i]);
        } else if i > q {
            assert(out[i] == rs[i - 1]);
        }
    }
}

/// A cut of leaf page `pid` at `mid` into `left` and `right` keeps everything
/// in order.
pub open spec fn fits_cut(
    c: Core,
    p: Params,
    pid: int,
    mid: Seq<u8>,
    left: PageState,
    right: PageState,
) -> bool {
    &&& left.ok(p)
    &&& right.ok(p)
    &&& mid.len() <= p.key_max
    &&& forall|k: Seq<u8>| #[trigger]
        left.find(k) is Some ==> c.leaf_of(k) == pid && order::lex_lt(k, mid)
    &&& forall|k: Seq<u8>| #[trigger]
        right.find(k) is Some ==> c.leaf_of(k) == pid && order::lex_le(mid, k)
    &&& !p.cache_only ==> {
        &&& !(c.pages[pid] is Null)
        &&& !(left is Null)
        &&& !(right is Null)
        &&& left.fence() == c.pages[pid].fence().below(mid)
        &&& right.fence() == c.pages[pid].fence().from(mid)
    }
}

/// The tree after a cut.
pub open spec fn cut_model(
    c: Core,
    i: int,
    j: int,
    pid: int,
    mid: Seq<u8>,
    left: PageState,
    right: PageState,
    version: u64,
) -> Core {
    Core {
        sk: reshape::leaf_cut(c.sk, i, j, mid, c.pages.len() as int, version),
        pages: c.pages.update(pid, left).push(right),
        ..c
    }
}

pub proof fn lemma_cut_page(
    c: Core,
    p: Params,
    i: int,
    j: int,
    pid: int,
    mid: Seq<u8>,
    left: PageState,
    right: PageState,
    version: u64,
)
    requires
        p.ok(),
        c.shape_ok(p),
        c.pages_ok(p),
        model::total_keys(c.sk.nodes) + 1 <= c.pages.len(),
        forall|x: int|
            0 <= x < c.sk.nodes.len() && x != i ==> (#[trigger] c.sk.nodes[x]).keys.len() >= 1,
        c.pages.len() < PAGE_LIMIT,
        0 <= i < c.sk.nodes.len(),
        c.sk.levels[i] == 1,
        0 <= j < c.sk.nodes[i].children.len(),
        c.sk.nodes[i].children[j] == PageID::leaf(pid),
        0 <= pid < c.pages.len(),
        c.sk.nodes[i].keys.len() < p.fanout,
        !c.root.spec_is_id(),
        model::slot_range(c.sk.nodes[i].keys, c.sk.ranges[i], j).cuts(mid),
        forall|k: Seq<u8>|
            #![trigger c.leaf_of(k)]
            c.leaf_of(k) == pid <==> model::slot_range(
                c.sk.nodes[i].keys,
                c.sk.ranges[i],
                j,
            ).contains(k),
        fits_cut(c, p, pid, mid, left, right),
    ensures
        ({
            let c2 = cut_model(c, i, j, pid, mid, left, right, version);
            &&& c2.wf(p)
            &&& forall|k: Seq<u8>| #[trigger]
                c2.leaf_of(k) == if c.leaf_of(k) == pid && order::lex_le(mid, k) {
                    c.pages.len() as int
                } else {
                    c.leaf_of(k)
                }
            &&& forall|k: Seq<u8>| #[trigger]
                c2.find(k) == if c.leaf_of(k) == pid {
                    if order::lex_lt(k, mid) {
                        left.find(k)
                    } else {
                        right.find(k)
                    }
                } else {
                    c.find(k)
                }
        }),
{
    let np = c.pages.len();
    let q = np as int;
    let c2 = cut_model(c, i, j, pid, mid, left, right, version);
    assert(c.sk.node_ok(np, p, i));
    reshape::lemma_slot_in_range(c.sk.nodes[i].keys, c.sk.ranges[i], j, mid);
    reshape::lemma_leaf_cut(c.sk, np, p, i, j, mid, version);
    assert(c2.sk.root_ok(c2.pages.len(), c2.root));
    assert(c2.shape_ok(p));
    order::lemma_lex_order();
    assert(PageID::leaf(pid).raw == pid);
    assert forall|k: Seq<u8>| #[trigger]
        c2.leaf_of(k) == if c.leaf_of(k) == pid && order::lex_le(mid, k) {
        q
    } else {
        c.leaf_of(k)
    } by {}
    assert forall|k: Seq<u8>| 0 <= #[trigger] c.leaf_of(k) < np by {
        c.sk.lemma_route_valid(np, p, c.root, k);
    }
    assert forall|x: int, k: Seq<u8>|
        #![trigger c2.pages[x].holds_key(k)]
        0 <= x < c2.pages.len() && c2.pages[x].holds_key(k) implies c2.leaf_of(k) == x by {
        if x == pid {
            assert(left.find(k) is Some);
        } else if x == q {
            assert(right.find(k) is Some);
        } else {
            assert(c.pages[x].holds_key(k));
        }
    }
    if !p.cache_only {
        assert forall|x: int, k: Seq<u8>|
            #![trigger c2.pages[x].fence().contains(k)]
            0 <= x < c2.pages.len() && !(c2.pages[x] is Null) implies (
        c2.pages[x].fence().contains(k) <==> c2.leaf_of(k) == x) by {
            if x < np {
                assert(c.pages[x].fence().contains(k) <==> c.leaf_of(k) == x);
            }
            let whole = c.pages[pid].fence();
            assert(whole.contains(k) <==> c.leaf_of(k) == pid);
            // The cut lies within the page.
            assert(c.leaf_of(mid) == pid);
            assert(whole.contains(mid));
            if x == pid {
                assert(left.fence() == whole.below(mid));
            }
            if x == q {
                assert(right.fence() == whole.from(mid));
            }
        }
        assert forall|k: Seq<u8>| !(c2.pages[#[trigger] c2.leaf_of(k)] is Null) by {
            assert(!(c.pages[c.leaf_of(k)] is Null));
        }
    }
    assert(c2.counts_ok()) by {
        assert forall|x: int| 0 <= x < c2.sk.nodes.len() implies (
        #[trigger] c2.sk.nodes[x]).keys.len() >= 1 by {
            if x != i {
                assert(c2.sk.nodes[x] == c.sk.nodes[x]);
            }
        }
    }
    assert forall|x: int| 0 <= x < c2.pages.len() implies (#[trigger] c2.pages[x]).ok(p) by {
        if x < np && x != pid {
            assert(c.pages[x].ok(p));
        }
    }
    assert forall|k: Seq<u8>| #[trigger] c2.find(k) == if c.leaf_of(k) == pid {
        if order::lex_lt(k, mid) {
            left.find(k)
        } else {
            right.find(k)
        }
    } else {
        c.find(k)
    } by {
        assert(0 <= c.leaf_of(k) < np);
    }
}

/// The size of a cached page that has to hold `used` bytes: the next multiple of
/// 256 above, so that records can be added, but no more than a whole page.
pub open spec fn cached_size(used: nat, page: nat) -> nat {
    let rounded = (used / 256 + 1) * 256;
    if rounded < page {
        rounded
    } else {
        page
    }
}

/// The size of a cached page that has to hold `used` bytes.
pub fn cache_page_size(used: usize, page: usize) -> (r: usize)
    requires
        used <= page <= 32768,
    ensures
        r == cached_size(used as nat, page as nat),
        used <= r <= page,
        r == page || (r % 256 == 0 && used < r <= used + 256),
{
    let rounded: usize = (used / 256 + 1) * 256;
    if rounded < page {
        rounded
    } else {
        page
    }
}

impl BfTree {
    /// The cached pages are known when page `pid` has become `loc`.
    pub open spec fn cached_with(&self, pid: u64, s: PageState) -> bool {
        &&& s.is_cached() ==> self.storage.circular_buffer.has(pid, s.size())
        &&& forall|i: int|
            0 <= i < self.storage.page_table@.len() && i != pid && (
            #[trigger] self.storage.page_table@[i])@.is_cached()
                ==> self.storage.circular_buffer.has(
                i as u64,
                self.storage.page_table@[i]@.size(),
            )
    }

    /// Everything but the page cache's knowledge of page `pid` is in order.
    pub open spec fn wf_but_cached(&self) -> bool {
        &&& self.parts_ok()
        &&& self.model().wf(self.params())
        &&& tree::cpr_ok(self.model(), self.snapshot_mgr, self.params())
        &&& tree::tail_ok(self.model(), self.params())
    }

    /// Puts `loc` in the place of leaf page `pid`.
    pub(crate) fn replace_leaf(&mut self, g: &CPRSnapshotGuard, pid: u64, loc: PageLocation)
        requires
            old(self).wf_but_cached(),
            old(self).guard_ok(g),
            pid < old(self).model().pages.len(),
            fits_place(old(self).model(), old(self).params(), pid as int, loc@),
            old(self).cached_with(pid, loc@),
            loc@.version() == g.snapshot_version,
            old(self).root.spec_is_id() && !old(self).cache_only ==> loc@ is Base,
        ensures
            final(self).wf(),
            final(self).guard_ok(g),
            final(self).model() == old(self).model().with_page(pid as int, loc@),
            final(self).storage.page_table@ == old(self).storage.page_table@.update(
                pid as int,
                loc,
            ),
            final(self).only_core_differs(old(self)),
            final(self).inners == old(self).inners,
    {
        let ghost c = self.model();
        let ghost p = self.params();
        proof {
            lemma_set_page(c, p, pid as int, loc@);
            assert(c.pages[pid as int].ok(p));
        }
        self.capture_page(g, pid);
        let _old = self.put_page(pid, loc);
    }

    /// Cuts leaf page `d.pid` at `mid`; the lower part becomes `left`, and
    /// `right` becomes a new leaf page.
    pub(crate) fn split_leaf(
        &mut self,
        g: &CPRSnapshotGuard,
        d: &Descent,
        mid: &[u8],
        left: PageLocation,
        right: PageLocation,
        Ghost(key): Ghost<Seq<u8>>,
    )
        requires
            old(self).wf_but_cached(),
            old(self).guard_ok(g),
            d.ok(old(self).model(), key),
            d.parent matches Some((i, _)) ==> old(self).model().sk.nodes[i as int].keys.len()
                < old(self).params().fanout,
            old(self).model().pages.len() < PAGE_LIMIT,
            d.range(old(self).model()).cuts(mid@),
            fits_cut(
                old(self).model(),
                old(self).params(),
                d.pid as int,
                mid@,
                left@,
                right@,
            ),
            old(self).cached_with(d.pid, left@),
            right@.is_cached() ==> old(self).storage.circular_buffer.has(
                old(self).model().pages.len() as u64,
                right@.size(),
            ),
            left@.version() == g.snapshot_version,
            right@.version() == g.snapshot_version,
        ensures
            final(self).wf(),
            final(self).guard_ok(g),
            final(self).only_core_differs(old(self)),
            !final(self).root.spec_is_id(),
            final(self).model().pages == old(self).model().pages.update(
                d.pid as int,
                left@,
            ).push(right@),
            forall|k: Seq<u8>| #[trigger]
                final(self).model().leaf_of(k) == if old(self).model().leaf_of(k) == d.pid
                    && order::lex_le(mid@, k) {
                    old(self).model().pages.len() as int
                } else {
                    old(self).model().leaf_of(k)
                },
            forall|k: Seq<u8>| #[trigger]
                final(self).model().find(k) == if old(self).model().leaf_of(k) == d.pid {
                    if order::lex_lt(k, mid@) {
                        left@.find(k)
                    } else {
                        right@.find(k)
                    }
                } else {
                    old(self).model().find(k)
                },
    {
        let ghost c0 = self.model();
        let ghost p = self.params();
        let ghost np = c0.pages.len();
        let version = g.snapshot_version;
        let pid = d.pid;
        let ghost r = d.range(c0);
        proof {
            self.config.lemma_params();
            model::lemma_total_keys_min(c0.sk.nodes);
        }
        let (i, j): (usize, usize) = match d.parent {
            Some((i, j)) => (i, j),
            None => {
                let ghost root0 = self.root;
                self.grow_root(g);
                proof {
                    reshape::lemma_grown(c0.sk, np, p, root0, version);
                    let c1 = self.model();
                    assert forall|k: Seq<u8>| #[trigger] c1.leaf_of(k) == c0.leaf_of(k) by {}
                    model::lemma_pages_kept(c0, c1, p);
                    assert(model::slot_range(
                        c1.sk.nodes[c0.sk.nodes.len() as int].keys,
                        c1.sk.ranges[c0.sk.nodes.len() as int],
                        0,
                    ) =~= order::KeyRange::full());
                }
                (self.inners.len() - 1, 0)
            },
        };
        let ghost c = self.model();
        proof {
            assert(c.pages == c0.pages);
            assert forall|k: Seq<u8>| #[trigger] c.leaf_of(k) == c0.leaf_of(k) by {}
            assert(fits_cut(c, p, pid as int, mid@, left@, right@)) by {
                assert forall|k: Seq<u8>| #[trigger] left@.find(k) is Some implies c.leaf_of(k)
                    == pid && order::lex_lt(k, mid@) by {
                    assert(c0.leaf_of(k) == pid);
                }
                assert forall|k: Seq<u8>| #[trigger] right@.find(k) is Some implies c.leaf_of(k)
                    == pid && order::lex_le(mid@, k) by {
                    assert(c0.leaf_of(k) == pid);
                }
            }
            lemma_cut_page(
                c,
                p,
                i as int,
                j as int,
                pid as int,
                mid@,
                left@,
                right@,
                version,
            );
            traverse::lemma_node_fits(c.sk, np, p, i as int);
            assert(c.sk.nodes[i as int] == self.inners@[i as int]@);
            assert(c.sk.node_ok(np, p, i as int));
            reshape::lemma_cut_slot(c.sk.nodes[i as int].keys, c.sk.ranges[i as int], j as int, mid@);
            order::lemma_lex_irreflexive(mid@);
            assert(c.pages[pid as int].ok(p));
        }
        self.capture_page(g, pid);
        self.capture_node(g, i);
        let _old = self.put_page(pid, left);
        let q = self.push_page(right);
        assert(self.inners@[i as int]@ == c.sk.nodes[i as int]);
        self.add_child(i, mid, PageID::from_id(q), version, Ghost(j as int));
        proof {
            let c2 = cut_model(c, i as int, j as int, pid as int, mid@, left@, right@, version);
            assert(self.model().sk.nodes =~= c2.sk.nodes);
            assert(self.model().pages =~= c2.pages);
            assert(self.model() =~= c2);
            assert(self.storage.cached_ok()) by {
                assert forall|x: int|
                    0 <= x < self.storage.page_table@.len() && (
                    #[trigger] self.storage.page_table@[x])@.is_cached() implies self.storage.circular_buffer.has(
                x as u64,
                self.storage.page_table@[x]@.size(),
            ) by {
                    if x < np && x != pid {
                        assert(self.storage.page_table@[x]
                            == old(self).storage.page_table@[x]);
                    }
                }
            }
        }
    }
}

/// A page's records after `r` was stored, and what that does to searches.
pub proof fn lemma_stored(
    before: Seq<RecordView>,
    after: Seq<RecordView>,
    r: RecordView,
    p: Params,
    max: nat,
)
    requires
        leaf_node::sorted(before),
        leaf_node::bounded(before, p.key_max, p.rec_max),
        rec_ok(r, p),
        image::recs_size(before) + r.size() <= max,
        exists|q: int|
            after == #[trigger] leaf_node::upsert_at(before, q, r) && leaf_node::is_lower_bound(
                before,
                r.key,
                q,
            ),
    ensures
        leaf_node::sorted(after),
        leaf_node::bounded(after, p.key_max, p.rec_max),
        image::recs_size(after) <= max,
        after.len() > 0,
        forall|k: Seq<u8>| #[trigger]
            leaf_node::lookup(after, k) == if k == r.key {
                Some(r)
            } else {
                leaf_node::lookup(before, k)
            },
{
    let q = choose|q: int|
        after == #[trigger] leaf_node::upsert_at(before, q, r) && leaf_node::is_lower_bound(
            before,
            r.key,
            q,
        );
    leaf_node::lemma_upsert(before, q, r);
    lemma_upsert_bounded(before, q, r, p.key_max, p.rec_max);
}

/// One record by itself.
proof fn lemma_single(r: RecordView)
    ensures
        leaf_node::sorted(seq![r]),
        image::recs_size(seq![r]) == r.size(),
        forall|k: Seq<u8>| #[trigger]
            leaf_node::lookup(seq![r], k) == if k == r.key {
                Some(r)
            } else {
                None
            },
{
    leaf_node::lemma_recs_size_one(r);
    assert forall|k: Seq<u8>| #[trigger] leaf_node::lookup(seq![r], k) == if k == r.key {
        Some(r)
    } else {
        None
    } by {
        if k == r.key {
            leaf_node::lemma_lookup_is(seq![r], k, 0);
        }
    }
}

impl BfTree {
    /// Stores a record in a page that stands for all its keys and has room.
    pub(crate) fn store_whole(&mut self, g: &CPRSnapshotGuard, pid: u64, rec: LeafRecord)
        requires
            old(self).wf(),
            old(self).guard_ok(g),
            pid < old(self).model().pages.len(),
            old(self).model().leaf_of(rec@.key) == pid,
            rec_ok(rec@, old(self).params()),
            old(self).model().pages[pid as int] is Base || old(self).model().pages[pid as int] is Full,
            image::recs_size(old(self).model().pages[pid as int].top()) + rec@.size()
                <= old(self).params().cap,
        ensures
            final(self).wf(),
            final(self).guard_ok(g),
            final(self).only_core_differs(old(self)),
            final(self).model().pages.len() == old(self).model().pages.len(),
            forall|k: Seq<u8>| #[trigger]
                final(self).model().leaf_of(k) == old(self).model().leaf_of(k),
            forall|k: Seq<u8>| #[trigger]
                final(self).model().find(k) == if k == rec@.key {
                    Some(rec@)
                } else {
                    old(self).model().find(k)
                },
    {
        let ghost c = self.model();
        let ghost p = self.params();
        let ghost s = c.pages[pid as int];
        let version = g.snapshot_version;
        assert(s.ok(p));
        assert(s == self.storage.page_table@[pid as int]@);
        self.capture_page(g, pid);
        let loc = self.put_page(pid, PageLocation::Null(version));
        let new_loc = match loc {
            PageLocation::Base(mut n) => {
                upsert(&mut n.records, rec);
                n.snapshot_version = version;
                PageLocation::Base(n)
            },
            PageLocation::Full(mut n) => {
                upsert(&mut n.records, rec);
                n.snapshot_version = version;
                PageLocation::Full(n)
            },
            other => other,
        };
        proof {
            lemma_stored(s.top(), new_loc@.top(), rec@, p, p.cap);
            assert forall|k: Seq<u8>| #[trigger] new_loc@.find(k) == if k == rec@.key {
                Some(rec@)
            } else {
                s.find(k)
            } by {
                assert(leaf_node::lookup(new_loc@.top(), k) == if k == rec@.key {
                    Some(rec@)
                } else {
                    leaf_node::lookup(s.top(), k)
                });
            }
            assert forall|k: Seq<u8>| #[trigger] new_loc@.find(k) is Some implies c.leaf_of(k)
                == pid by {
                if k != rec@.key {
                    assert(s.find(k) is Some);
                    assert(c.pages[pid as int].holds_key(k));
                }
            }
            assert(!(c.pages[c.leaf_of(rec@.key)] is Null));
            lemma_set_page(c, p, pid as int, new_loc@);
        }
        let _none = self.put_page(pid, new_loc);
        assert(self.model() =~= c.with_page(pid as int, new_loc@));
        assert(self.storage.cached_ok()) by {
            assert forall|x: int|
                0 <= x < self.storage.page_table@.len() && (
                #[trigger] self.storage.page_table@[x])@.is_cached() implies self.storage.circular_buffer.has(
                x as u64,
                self.storage.page_table@[x]@.size(),
            ) by {
                assert(old(self).storage.page_table@[x]@.is_cached());
            }
        }
    }

    /// Stores a record in a cached delta page, which is made if there is none.
    pub(crate) fn store_delta(&mut self, g: &CPRSnapshotGuard, pid: u64, rec: LeafRecord)
        requires
            old(self).wf(),
            old(self).guard_ok(g),
            pid < old(self).model().pages.len(),
            old(self).model().leaf_of(rec@.key) == pid,
            rec_ok(rec@, old(self).params()),
            !(old(self).model().pages[pid as int] is Full),
            old(self).cache_only || !old(self).root.spec_is_id(),
            old(self).model().pages[pid as int] is Mini ==> image::recs_size(
                old(self).model().pages[pid as int].top(),
            ) + rec@.size() <= old(self).params().mini_cap(),
            old(self).storage.circular_buffer.used + old(self).config.leaf_page_size
                <= old(self).storage.circular_buffer.capacity,
        ensures
            final(self).wf(),
            final(self).guard_ok(g),
            final(self).same_settings(old(self)),
            final(self).model().pages.len() == old(self).model().pages.len(),
            final(self).load() <= old(self).load() + 1,
            final(self).storage.circular_buffer.used <= old(self).storage.circular_buffer.used
                + old(self).config.leaf_page_size,
            forall|k: Seq<u8>| #[trigger]
                final(self).model().leaf_of(k) == old(self).model().leaf_of(k),
            forall|k: Seq<u8>| #[trigger]
                final(self).model().find(k) == if k == rec@.key {
                    Some(rec@)
                } else {
                    old(self).model().find(k)
                },
    {
        let ghost c = self.model();
        let ghost p = self.params();
        let ghost s = c.pages[pid as int];
        let version = g.snapshot_version;
        let page = self.config.leaf_page_size;
        let next_level: u64 = if self.cache_only {
            NO_NEXT_LEVEL
        } else {
            pid
        };
        proof {
            self.config.lemma_params();
            assert(s.ok(p));
            assert(s == self.storage.page_table@[pid as int]@);
            assert(2 * rec@.size() <= p.cap);
        }
        self.capture_page(g, pid);
        let loc = self.put_page(pid, PageLocation::Null(version));
        let (records, below): (Vec<LeafRecord>, Option<LeafNode>) = match loc {
            PageLocation::Null(_) => {
                let mut records: Vec<LeafRecord> = Vec::new();
                records.push(rec);
                assert(image::recs(records@) =~= seq![rec@]);
                (records, None)
            },
            PageLocation::Base(n) => {
                let mut records: Vec<LeafRecord> = Vec::new();
                records.push(rec);
                assert(image::recs(records@) =~= seq![rec@]);
                (records, Some(n))
            },
            PageLocation::Full(n) => (n.records, None),
            PageLocation::Mini(n, b) => {
                let mut records = n.records;
                upsert(&mut records, rec);
                (records, b)
            },
        };
        let ghost rs = image::recs(records@);
        proof {
            lemma_single(rec@);
            if s is Mini {
                lemma_stored(s.top(), rs, rec@, p, p.mini_cap());
            }
        }
        let used: usize = PAGE_HEADER_SIZE + leaf_node::size_of_records(&records);
        let size = cache_page_size(used, page);
        self.storage.circular_buffer.dealloc_page(pid);
        let room = self.storage.circular_buffer.alloc_page(pid, size);
        assert(room is Ok);
        let node = LeafNode {
            node_size: size,
            snapshot_version: version,
            lsn: 0,
            next_level,
            low_fence: Vec::new(),
            high_fence: Vec::new(),
            records,
        };
        let new_loc = PageLocation::Mini(node, below);
        proof {
            let t = new_loc@;
            assert(t.top() == rs);
            assert(s is Base ==> t.below() == s.top());
            assert(s is Mini ==> t.below() == s.below());
            assert forall|k: Seq<u8>| #[trigger] t.find(k) == if k == rec@.key {
                Some(rec@)
            } else {
                s.find(k)
            } by {
                assert(leaf_node::lookup(rs, k) == if k == rec@.key {
                    Some(rec@)
                } else if s is Mini {
                    leaf_node::lookup(s.top(), k)
                } else {
                    None
                });
            }
            assert forall|k: Seq<u8>| #[trigger] t.find(k) is Some implies c.leaf_of(k)
                == pid by {
                if k != rec@.key {
                    assert(s.find(k) is Some);
                    assert(c.pages[pid as int].holds_key(k));
                }
            }
            if !p.cache_only {
                assert(!(c.pages[c.leaf_of(rec@.key)] is Null));
            }
            assert(s.version() <= version);
            assert(t.ok(p));
            lemma_set_page(c, p, pid as int, t);
        }
        let _none = self.put_page(pid, new_loc);
        assert(self.model() =~= c.with_page(pid as int, new_loc@));
        assert(self.storage.cached_ok()) by {
            assert forall|x: int|
                0 <= x < self.storage.page_table@.len() && (
                #[trigger] self.storage.page_table@[x])@.is_cached() implies self.storage.circular_buffer.has(
                x as u64,
                self.storage.page_table@[x]@.size(),
            ) by {
                if x != pid {
                    assert(old(self).storage.page_table@[x]@.is_cached());
                    assert(old(self).storage.circular_buffer.has(
                    x as u64,
                    old(self).storage.page_table@[x]@.size(),
                ));
                }
            }
        }
    }
}

} // verus!
