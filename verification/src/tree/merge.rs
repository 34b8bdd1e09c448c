//! Pages that outgrow their room: a delta is merged into the page below it,
//! a page is compacted, or cut in two.
use vstd::prelude::*;

use crate::circular_buffer;
use crate::model;
use crate::model::{Core, PageState, Params};
use crate::nodes::image;
use crate::nodes::image::{LeafRecord, RecordView, PAGE_HEADER_SIZE};
use crate::nodes::leaf_node;
use crate::nodes::leaf_node::{merge_records, size_of_records, split_point, upsert, LeafNode};
use crate::nodes::leaf_node::NO_NEXT_LEVEL;
use crate::order;
use crate::order::to_vec;
use crate::snapshot::CPRSnapshotGuard;
use crate::storage::{PageLocation, PAGE_LIMIT};
use crate::tree::growth;
use crate::tree::leaf_ops;
use crate::tree::leaf_ops::cache_page_size;
use crate::tree::traverse::Descent;
use crate::tree::BfTree;

verus! {

/// What became of a delta page.
#[derive(Debug, Clone, Copy, PartialEq, Eq, Structural)]
pub enum MergeResult {
    /// The page below took all records.
    NoSplit,
    /// The page below was cut in two.
    MergeAndSplit,
}

/// Cuts records that do not fit one page into two parts that do.
pub fn cut_records(records: Vec<LeafRecord>, total: usize, cap: usize) -> (r: (
    Vec<LeafRecord>,
    Vec<u8>,
    Vec<LeafRecord>,
))
    requires
        total == image::recs_size(image::recs(records@)),
        cap < total <= cap + cap / 2,
        forall|i: int| 0 <= i < records@.len() ==> 2 * (#[trigger] records@[i]@).size() <= cap,
    ensures
        exists|m: int|
            #![trigger image::recs(records@).take(m)]
            {
                &&& 0 < m < records@.len()
                &&& image::recs(r.0@) == image::recs(records@).take(m)
                &&& image::recs(r.2@) == image::recs(records@).skip(m)
                &&& r.1@ == image::recs(records@)[m].key
            },
        image::recs_size(image::recs(r.0@)) <= cap,
        image::recs_size(image::recs(r.2@)) <= cap,
{
    let ghost all = image::recs(records@);
    let m = split_point(&records, total, cap);
    let mut left = records;
    let right = left.split_off(m);
    assert(image::recs(left@) =~= all.take(m as int));
    assert(image::recs(right@) =~= all.skip(m as int));
    let mid = to_vec(right[0].key.as_slice());
    assert(mid@ == all[m as int].key);
    (left, mid, right)
}

/// All records of a page lie in the page's range.
proof fn lemma_page_members(c: Core, p: Params, d: &Descent, key: Seq<u8>)
    requires
        c.pages_ok(p),
        d.ok(c, key),
    ensures
        leaf_node::all_in(c.pages[d.pid as int].top(), d.range(c)),
        leaf_node::all_in(c.pages[d.pid as int].below(), d.range(c)),
{
    let s = c.pages[d.pid as int];
    assert forall|i: int| 0 <= i < s.top().len() implies d.range(c).contains(
        (#[trigger] s.top()[i]).key,
    ) by {
        let k = s.top()[i].key;
        assert(c.pages[d.pid as int].holds_key(k));
        assert(c.leaf_of(k) == d.pid);
    }
    assert forall|i: int| 0 <= i < s.below().len() implies d.range(c).contains(
        (#[trigger] s.below()[i]).key,
    ) by {
        let k = s.below()[i].key;
        assert(c.pages[d.pid as int].holds_key(k));
        assert(c.leaf_of(k) == d.pid);
    }
}

/// The record in the middle of a page cuts the page's range, and the parts
/// hold what is below and above it.
proof fn lemma_cut_members(
    all: Seq<RecordView>,
    m: int,
    range: order::KeyRange,
    key_max: nat,
    max: nat,
)
    requires
        leaf_node::sorted(all),
        leaf_node::all_in(all, range),
        leaf_node::bounded(all, key_max, max),
        0 < m < all.len(),
    ensures
        range.cuts(all[m].key),
        all[m].key.len() <= key_max,
        leaf_node::sorted(all.take(m)),
        leaf_node::sorted(all.skip(m)),
        leaf_node::bounded(all.take(m), key_max, max),
        leaf_node::bounded(all.skip(m), key_max, max),
        forall|k: Seq<u8>| #[trigger]
            leaf_node::lookup(all.take(m), k) == if order::lex_lt(k, all[m].key) {
                leaf_node::lookup(all, k)
            } else {
                None
            },
        forall|k: Seq<u8>| #[trigger]
            leaf_node::lookup(all.skip(m), k) == if order::lex_lt(k, all[m].key) {
                None
            } else {
                leaf_node::lookup(all, k)
            },
{
    leaf_node::lemma_cut(all, m);
    order::lemma_lex_order();
    assert(order::lex_lt(all[0].key, all[m].key));
    assert(range.contains(all[0].key));
    assert(range.contains(all[m].key));
    assert forall|i: int| 0 <= i < all.take(m).len() implies (
    #[trigger] all.take(m)[i]).key.len() <= key_max && all.take(m)[i].key.len()
        + all.take(m)[i].value.len() <= max by {
        assert(all.take(m)[i] == all[i]);
    }
    assert forall|i: int| 0 <= i < all.skip(m).len() implies (
    #[trigger] all.skip(m)[i]).key.len() <= key_max && all.skip(m)[i].key.len()
        + all.skip(m)[i].value.len() <= max by {
        assert(all.skip(m)[i] == all[m + i]);
    }
}

impl BfTree {
    /// Merges the delta of leaf page `d.pid` into the page below it, which is
    /// cut in two if it cannot hold all records.
    pub(crate) fn try_merge_mini_page(
        &mut self,
        g: &CPRSnapshotGuard,
        d: &Descent,
        Ghost(key): Ghost<Seq<u8>>,
    ) -> (r: MergeResult)
        requires
            old(self).wf(),
            old(self).guard_ok(g),
            d.ok(old(self).model(), key),
            old(self).model().pages[d.pid as int] is Mini,
            !old(self).cache_only,
            d.parent matches Some((i, _)) && old(self).model().sk.nodes[i as int].keys.len()
                < old(self).params().fanout,
            old(self).model().pages.len() < PAGE_LIMIT,
        ensures
            final(self).wf(),
            final(self).guard_ok(g),
            final(self).same_settings(old(self)),
            final(self).load() <= old(self).load(),
            final(self).storage.circular_buffer.used <= old(self).storage.circular_buffer.used,
            final(self).storage.circular_buffer.entries@.len() + 1
                == old(self).storage.circular_buffer.entries@.len(),
            forall|i: int| #[trigger]
                circular_buffer::first_of(old(self).storage.circular_buffer.entries@, d.pid, i)
                    ==> final(self).storage.circular_buffer.entries@
                    == old(self).storage.circular_buffer.entries@.remove(i),
            forall|k: Seq<u8>| #[trigger]
                leaf_node::live(final(self).model().find(k)) == leaf_node::live(
                    old(self).model().find(k),
                ),
            !final(self).root.spec_is_id(),
            growth::grown(
                old(self).model(),
                final(self).model(),
                old(self).model().view().dom(),
            ),
            final(self).model().pages[d.pid as int] is Base,
            forall|i: int|
                0 <= i < old(self).model().pages.len() && i != d.pid ==> #[trigger] final(
                    self).model().pages[i] == old(self).model().pages[i],
            match r {
                MergeResult::NoSplit => {
                    &&& final(self).model().pages.len() == old(self).model().pages.len()
                    &&& final(self).inners == old(self).inners
                    &&& final(self).shape == old(self).shape
                    &&& final(self).root == old(self).root
                    &&& forall|k: Seq<u8>| #[trigger]
                        final(self).model().leaf_of(k) == old(self).model().leaf_of(k)
                },
                MergeResult::MergeAndSplit => {
                    &&& final(self).model().pages.len() == old(self).model().pages.len() + 1
                    &&& final(self).model().pages[old(self).model().pages.len() as int] is Base
                    &&& forall|k: Seq<u8>| #[trigger]
                        final(self).model().leaf_of(k) == old(self).model().leaf_of(k) || (
                        old(self).model().leaf_of(k) == d.pid && final(self).model().leaf_of(k)
                            == old(self).model().pages.len())
                },
            },
    {
        let ghost c = self.model();
        let ghost p = self.params();
        let ghost s = c.pages[d.pid as int];
        let pid = d.pid;
        let version = g.snapshot_version;
        let page = self.config.leaf_page_size;
        let cap = self.config.record_capacity();
        proof {
            self.config.lemma_params();
            assert(s.ok(p));
            assert(s == self.storage.page_table@[pid as int]@);
            assert(self.storage.page_table@[pid as int]@.is_cached());
            assert(self.storage.circular_buffer.has(
                pid,
                self.storage.page_table@[pid as int]@.size(),
            ));
            lemma_page_members(c, p, d, key);
        }
        let mut merged: Vec<LeafRecord> = Vec::new();
        let mut low: Vec<u8> = Vec::new();
        let mut high: Vec<u8> = Vec::new();
        match self.storage.page_table.get(pid) {
            PageLocation::Mini(n, Some(b)) => {
                merged = merge_records(&n.records, &b.records);
                low = to_vec(b.low_fence.as_slice());
                high = to_vec(b.high_fence.as_slice());
            },
            _ => {},
        }
        let ghost all = image::recs(merged@);
        let ghost w = s->Mini_1->0;
        proof {
            leaf_node::lemma_merged_members(
                all,
                s.top(),
                s.below(),
                d.range(c),
                p.key_max,
                p.rec_max,
            );
            assert forall|k: Seq<u8>| #[trigger] leaf_node::lookup(all, k) == leaf_node::live(
                s.find(k),
            ) by {}
            assert forall|k: Seq<u8>| leaf_node::lookup(all, k) is Some implies #[trigger] c.leaf_of(k)
                == pid by {
                assert(s.find(k) is Some);
                assert(c.pages[pid as int].holds_key(k));
            }
        }
        let total = size_of_records(&merged);
        self.storage.circular_buffer.dealloc_page(pid);
        if total <= cap {
            let node = LeafNode {
                node_size: page,
                snapshot_version: version,
                lsn: 0,
                next_level: NO_NEXT_LEVEL,
                low_fence: low,
                high_fence: high,
                records: merged,
            };
            let loc = PageLocation::Base(node);
            proof {
                let t = loc@;
                assert(t.top() == all);
                assert(t.fence() == s.fence());
                assert forall|k: Seq<u8>| #[trigger] t.find(k) == leaf_node::live(s.find(k)) by {
                    assert(leaf_node::lookup(all, k) == leaf_node::live(s.find(k)));
                }
                assert forall|k: Seq<u8>| #[trigger] t.find(k) is Some implies c.leaf_of(k)
                    == pid by {
                    assert(leaf_node::lookup(all, k) is Some);
                }
                leaf_ops::lemma_set_page(c, p, pid as int, t);
                assert(c == self.model());
                self.lemma_cached_without(old(self), pid);
            }
            self.replace_leaf(g, pid, loc);
            proof {
                growth::lemma_not_grown(c, self.model(), c.view().dom());
            }
            MergeResult::NoSplit
        } else {
            proof {
                assert forall|i: int| 0 <= i < merged@.len() implies 2 * (
                #[trigger] merged@[i]@).size() <= cap by {
                    assert(all[i] == merged@[i]@);
                }
            }
            let (left, mid, right) = cut_records(merged, total, cap);
            let ghost m = choose|m: int|
                #![trigger all.take(m)]
                {
                    &&& 0 < m < all.len()
                    &&& image::recs(left@) == all.take(m)
                    &&& image::recs(right@) == all.skip(m)
                    &&& mid@ == all[m].key
                };
            proof {
                lemma_cut_members(all, m, d.range(c), p.key_max, p.rec_max);
                order::lemma_lex_empty_least(d.range(c).lo);
            }
            let left_node = LeafNode {
                node_size: page,
                snapshot_version: version,
                lsn: 0,
                next_level: NO_NEXT_LEVEL,
                low_fence: low,
                high_fence: to_vec(mid.as_slice()),
                records: left,
            };
            let right_node = LeafNode {
                node_size: page,
                snapshot_version: version,
                lsn: 0,
                next_level: NO_NEXT_LEVEL,
                low_fence: to_vec(mid.as_slice()),
                high_fence: high,
                records: right,
            };
            let left_loc = PageLocation::Base(left_node);
            let right_loc = PageLocation::Base(right_node);
            proof {
                let lt = left_loc@;
                let rt = right_loc@;
                assert(mid@.len() > 0) by {
                    if mid@.len() == 0 {
                        assert(mid@ =~= Seq::<u8>::empty());
                        order::lemma_lex_empty_least(d.range(c).lo);
                    }
                }
                assert(lt.fence() =~= s.fence().below(mid@));
                assert(rt.fence() =~= s.fence().from(mid@));
                order::lemma_lex_order();
                assert forall|k: Seq<u8>| #[trigger] lt.find(k) == (if order::lex_lt(k, mid@) {
                    leaf_node::live(s.find(k))
                } else {
                    None
                }) by {
                    assert(leaf_node::lookup(all.take(m), k) == lt.find(k));
                    assert(leaf_node::lookup(all, k) == leaf_node::live(s.find(k)));
                }
                assert forall|k: Seq<u8>| #[trigger] rt.find(k) == (if order::lex_lt(k, mid@) {
                    None
                } else {
                    leaf_node::live(s.find(k))
                }) by {
                    assert(leaf_node::lookup(all.skip(m), k) == rt.find(k));
                    assert(leaf_node::lookup(all, k) == leaf_node::live(s.find(k)));
                }
                assert forall|k: Seq<u8>| #[trigger] lt.find(k) is Some implies c.leaf_of(k)
                    == pid && order::lex_lt(k, mid@) by {
                    assert(leaf_node::lookup(all, k) is Some);
                }
                assert forall|k: Seq<u8>| #[trigger] rt.find(k) is Some implies c.leaf_of(k)
                    == pid && order::lex_le(mid@, k) by {
                    assert(leaf_node::lookup(all, k) is Some);
                }
                assert(c == self.model());
                self.lemma_cached_without(old(self), pid);
            }
            self.split_leaf(g, d, mid.as_slice(), left_loc, right_loc, Ghost(key));
            proof {
                leaf_node::lemma_lookup_is(all, mid@, m);
                leaf_node::lemma_lookup_is(all, all[0].key, 0);
                assert(leaf_node::live(s.find(mid@)) is Some);
                assert(c.leaf_of(mid@) == pid && c.leaf_of(all[0].key) == pid);
                assert(c.view().dom().contains(mid@));
                growth::lemma_cut_grown(
                    c,
                    self.model(),
                    p,
                    pid as int,
                    mid@,
                    all[0].key,
                    c.view().dom(),
                );
            }
            MergeResult::MergeAndSplit
        }
    }

    /// The page cache has forgotten page `pid` only.
    pub(crate) proof fn lemma_cached_without(&self, before: &BfTree, pid: u64)
        requires
            before.storage.cached_ok(),
            self.storage.page_table == before.storage.page_table,
            forall|x: u64, n: nat|
                x != pid && #[trigger] before.storage.circular_buffer.has(x, n)
                    ==> self.storage.circular_buffer.has(x, n),
            self.storage.page_table@.len() <= PAGE_LIMIT,
        ensures
            forall|i: int|
                0 <= i < self.storage.page_table@.len() && i != pid && (
                #[trigger] self.storage.page_table@[i])@.is_cached()
                    ==> self.storage.circular_buffer.has(
                    i as u64,
                    self.storage.page_table@[i]@.size(),
                ),
    {
        assert forall|i: int|
            0 <= i < self.storage.page_table@.len() && i != pid && (
            #[trigger] self.storage.page_table@[i])@.is_cached() implies self.storage.circular_buffer.has(
            i as u64,
            self.storage.page_table@[i]@.size(),
        ) by {
            assert(before.storage.page_table@[i]@.is_cached());
            assert(before.storage.circular_buffer.has(
                i as u64,
                before.storage.page_table@[i]@.size(),
            ));
        }
    }
}

/// A page with nothing below it that holds `all`.
pub open spec fn plain_page(
    s: PageState,
    p: Params,
    all: Seq<RecordView>,
    low: Seq<u8>,
    high: Seq<u8>,
    version: u64,
) -> bool {
    &&& s.top() == all
    &&& s.below() == Seq::<RecordView>::empty()
    &&& s.version() == version
    &&& s.ok(p)
    &&& if p.cache_only {
        s is Mini
    } else {
        s is Base && s.fence() == (order::KeyRange {
            lo: low,
            hi: if high.len() == 0 {
                None
            } else {
                Some(high)
            },
        })
    }
}

impl BfTree {
    /// A page of this tree that holds `records`: on disk, or in the cache if
    /// there is no disk. Also returns the room that it takes in the cache.
    fn make_page(
        &self,
        records: Vec<LeafRecord>,
        low: Vec<u8>,
        high: Vec<u8>,
        version: u64,
    ) -> (r: (PageLocation, usize))
        requires
            self.config.ok(),
            self.cache_only == self.config.cache_only,
            leaf_node::sorted(image::recs(records@)),
            leaf_node::bounded(
                image::recs(records@),
                self.params().key_max,
                self.params().rec_max,
            ),
            image::recs_size(image::recs(records@)) <= self.params().cap,
            self.cache_only ==> records@.len() > 0,
            low@.len() <= self.params().key_max,
            high@.len() <= self.params().key_max,
        ensures
            plain_page(
                r.0@,
                self.params(),
                image::recs(records@),
                low@,
                high@,
                version,
            ),
            r.1 <= self.config.leaf_page_size,
            r.0@ is Mini ==> r.0@.size() == r.1,
    {
        let page = self.config.leaf_page_size;
        proof {
            self.config.lemma_params();
        }
        if self.cache_only {
            let used: usize = PAGE_HEADER_SIZE + size_of_records(&records);
            let size = cache_page_size(used, page);
            let node = LeafNode {
                node_size: size,
                snapshot_version: version,
                lsn: 0,
                next_level: NO_NEXT_LEVEL,
                low_fence: Vec::new(),
                high_fence: Vec::new(),
                records,
            };
            assert(node@.records.len() == records@.len());
            (PageLocation::Mini(node, None), size)
        } else {
            let node = LeafNode {
                node_size: page,
                snapshot_version: version,
                lsn: 0,
                next_level: NO_NEXT_LEVEL,
                low_fence: low,
                high_fence: high,
                records,
            };
            (PageLocation::Base(node), 0)
        }
    }

    /// The records of leaf page `d.pid` with `rec` stored among them, freed of
    /// dead records where they take more than a page; and the page's fences.
    fn overflow_records(&self, d: &Descent, rec: LeafRecord) -> (r: (
        Vec<LeafRecord>,
        Vec<u8>,
        Vec<u8>,
    ))
        requires
            self.wf(),
            d.ok(self.model(), rec@.key),
            leaf_ops::rec_ok(rec@, self.params()),
            if self.cache_only {
                self.model().pages[d.pid as int] is Mini
            } else {
                self.model().pages[d.pid as int] is Base
            },
        ensures
            ({
                let all = image::recs(r.0@);
                let s = self.model().pages[d.pid as int];
                let p = self.params();
                &&& stands_for(all, s, rec@)
                &&& leaf_node::sorted(all)
                &&& leaf_node::bounded(all, p.key_max, p.rec_max)
                &&& leaf_node::all_in(all, d.range(self.model()))
                &&& image::recs_size(all) <= p.cap + p.cap / 2
                &&& image::recs_size(all) > p.cap ==> only_live(all, rec@.key)
                &&& r.1@.len() <= p.key_max
                &&& r.2@.len() <= p.key_max
                &&& !self.cache_only ==> s.fence() == (order::KeyRange {
                    lo: r.1@,
                    hi: if r.2@.len() == 0 {
                        None
                    } else {
                        Some(r.2@)
                    },
                })
            }),
    {
        let ghost c = self.model();
        let ghost p = self.params();
        let ghost s = c.pages[d.pid as int];
        let pid = d.pid;
        let cap = self.config.record_capacity();
        proof {
            self.config.lemma_params();
            assert(s.ok(p));
            assert(s == self.storage.page_table@[pid as int]@);
            lemma_page_members(c, p, d, rec@.key);
        }
        let mut records: Vec<LeafRecord> = Vec::new();
        let mut low: Vec<u8> = Vec::new();
        let mut high: Vec<u8> = Vec::new();
        match self.storage.page_table.get(pid) {
            PageLocation::Base(n) => {
                records = n.copy_records();
                low = to_vec(n.low_fence.as_slice());
                high = to_vec(n.high_fence.as_slice());
            },
            PageLocation::Mini(n, _) => {
                records = n.copy_records();
            },
            _ => {},
        }
        assert(image::recs(records@) == s.top());
        let used = size_of_records(&records);
        let size: usize = image::KV_META_SIZE + rec.key.len() + rec.value.len();
        if used + size > cap {
            // Dead records go first; what is stored now stays, whatever it is.
            let none: Vec<LeafRecord> = Vec::new();
            let compact = merge_records(&records, &none);
            proof {
                assert(image::recs(none@) =~= Seq::<RecordView>::empty());
                leaf_node::lemma_merged_members(
                    image::recs(compact@),
                    s.top(),
                    image::recs(none@),
                    d.range(c),
                    p.key_max,
                    p.rec_max,
                );
                assert forall|k: Seq<u8>| #[trigger]
                    leaf_node::lookup(image::recs(compact@), k) == leaf_node::live(
                        s.find(k),
                    ) by {
                    assert(leaf_node::lookup(s.top(), k) == s.find(k));
                }
            }
            records = compact;
        }
        let ghost front = image::recs(records@);
        upsert(&mut records, rec);
        let ghost stored = image::recs(records@);
        proof {
            leaf_ops::lemma_stored(
                front,
                stored,
                rec@,
                p,
                image::recs_size(front) + rec@.size(),
            );
            lemma_stored_in(front, stored, rec@, d.range(c));
            assert(2 * rec@.size() <= p.cap);
            assert forall|k: Seq<u8>|
                leaf_node::live(#[trigger] leaf_node::lookup(stored, k)) == leaf_node::live(
                    if k == rec@.key {
                        Some(rec@)
                    } else {
                        s.find(k)
                    },
                ) by {
                assert(leaf_node::live(leaf_node::lookup(front, k)) == leaf_node::live(s.find(k)))
                    by {
                    assert(leaf_node::lookup(s.top(), k) == s.find(k));
                }
            }
        }
        (records, low, high)
    }

    /// Puts a page with `records` in the place of leaf page `d.pid`.
    fn install_page(
        &mut self,
        g: &CPRSnapshotGuard,
        d: &Descent,
        records: Vec<LeafRecord>,
        low: Vec<u8>,
        high: Vec<u8>,
        Ghost(rec): Ghost<RecordView>,
    )
        requires
            old(self).wf(),
            old(self).guard_ok(g),
            d.ok(old(self).model(), rec.key),
            if old(self).cache_only {
                old(self).model().pages[d.pid as int] is Mini
            } else {
                old(self).model().pages[d.pid as int] is Base
            },
            old(self).storage.circular_buffer.used + 2 * old(self).config.leaf_page_size
                <= old(self).storage.circular_buffer.capacity,
            records_fit_page(
                &*old(self),
                d,
                image::recs(records@),
                low@,
                high@,
                rec,
            ),
            image::recs_size(image::recs(records@)) <= old(self).params().cap,
        ensures
            final(self).wf(),
            final(self).guard_ok(g),
            final(self).same_settings(old(self)),
            final(self).load() <= old(self).load() + 1,
            growth::grown(
                old(self).model(),
                final(self).model(),
                old(self).model().view().dom().insert(rec.key),
            ),
            final(self).storage.circular_buffer.used <= old(self).storage.circular_buffer.used
                + 2 * old(self).config.leaf_page_size,
            record_stored(old(self).model(), final(self).model(), rec),
    {
        let ghost c = self.model();
        let ghost p = self.params();
        let ghost s = c.pages[d.pid as int];
        let ghost all = image::recs(records@);
        let pid = d.pid;
        let version = g.snapshot_version;
        self.storage.circular_buffer.dealloc_page(pid);
        proof {
            assert(c == self.model());
            self.lemma_cached_without(old(self), pid);
            lemma_members_belong(c, d, all, rec.key);
        }
        proof {
            let i = leaf_node::lemma_lookup_some(all, rec.key);
            assert(records@.len() == all.len());
        }
        let (loc, size) = self.make_page(records, low, high, version);
        if self.cache_only {
            let room = self.storage.circular_buffer.alloc_page(pid, size);
            assert(room is Ok);
        }
        proof {
            assert(c == self.model());
            assert forall|k: Seq<u8>| #[trigger] loc@.find(k) == leaf_node::lookup(all, k) by {}
            lemma_installed(c, p, d, all, loc@, rec);
            self.lemma_cached_without(old(self), pid);
        }
        self.replace_leaf(g, pid, loc);
        proof {
            growth::lemma_not_grown(c, self.model(), c.view().dom().insert(rec.key));
        }
    }

    /// Cuts `records` in two, and leaf page `d.pid` with them.
    fn install_cut(
        &mut self,
        g: &CPRSnapshotGuard,
        d: &Descent,
        records: Vec<LeafRecord>,
        low: Vec<u8>,
        high: Vec<u8>,
        Ghost(rec): Ghost<RecordView>,
    )
        requires
            old(self).wf(),
            old(self).guard_ok(g),
            d.ok(old(self).model(), rec.key),
            if old(self).cache_only {
                old(self).model().pages[d.pid as int] is Mini
            } else {
                old(self).model().pages[d.pid as int] is Base
            },
            d.parent matches Some((i, _)) ==> old(self).model().sk.nodes[i as int].keys.len()
                < old(self).params().fanout,
            old(self).model().pages.len() < PAGE_LIMIT,
            old(self).storage.circular_buffer.used + 2 * old(self).config.leaf_page_size
                <= old(self).storage.circular_buffer.capacity,
            records_fit_page(
                &*old(self),
                d,
                image::recs(records@),
                low@,
                high@,
                rec,
            ),
            only_live(image::recs(records@), rec.key),
            old(self).params().cap < image::recs_size(image::recs(records@)),
        ensures
            final(self).wf(),
            final(self).guard_ok(g),
            final(self).same_settings(old(self)),
            final(self).load() <= old(self).load() + 3,
            growth::grown(
                old(self).model(),
                final(self).model(),
                old(self).model().view().dom().insert(rec.key),
            ),
            final(self).storage.circular_buffer.used <= old(self).storage.circular_buffer.used
                + 2 * old(self).config.leaf_page_size,
            record_stored(old(self).model(), final(self).model(), rec),
    {
        let ghost c = self.model();
        let ghost p = self.params();
        let ghost s = c.pages[d.pid as int];
        let ghost all = image::recs(records@);
        let pid = d.pid;
        let version = g.snapshot_version;
        let cap = self.config.record_capacity();
        self.storage.circular_buffer.dealloc_page(pid);
        proof {
            self.config.lemma_params();
            assert(c == self.model());
            lemma_members_belong(c, d, all, rec.key);
            assert forall|i: int| 0 <= i < records@.len() implies 2 * (
            #[trigger] records@[i]@).size() <= cap by {
                assert(all[i] == records@[i]@);
            }
        }
        let total = size_of_records(&records);
        let (left, mid, right) = cut_records(records, total, cap);
        let ghost m = choose|m: int|
            #![trigger all.take(m)]
            {
                &&& 0 < m < all.len()
                &&& image::recs(left@) == all.take(m)
                &&& image::recs(right@) == all.skip(m)
                &&& mid@ == all[m].key
            };
        proof {
            lemma_cut_members(all, m, d.range(c), p.key_max, p.rec_max);
            assert(mid@.len() > 0) by {
                if mid@.len() == 0 {
                    assert(mid@ =~= Seq::<u8>::empty());
                    order::lemma_lex_empty_least(d.range(c).lo);
                }
            }
            assert(left@.len() == all.take(m).len());
            assert(right@.len() == all.skip(m).len());
        }
        let q: u64 = self.storage.page_table.peek_next_id();
        let (left_loc, left_size) = self.make_page(left, low, to_vec(mid.as_slice()), version);
        let (right_loc, right_size) = self.make_page(right, to_vec(mid.as_slice()), high, version);
        if self.cache_only {
            let room = self.storage.circular_buffer.alloc_page(pid, left_size);
            assert(room is Ok);
            let room2 = self.storage.circular_buffer.alloc_page(q, right_size);
            assert(room2 is Ok);
        }
        let ghost lt = left_loc@;
        let ghost rt = right_loc@;
        proof {
            assert(c == self.model());
            order::lemma_lex_order();
            if !p.cache_only {
                assert(lt.fence() =~= s.fence().below(mid@));
                assert(rt.fence() =~= s.fence().from(mid@));
            }
            assert forall|k: Seq<u8>| #[trigger] lt.find(k) == (if order::lex_lt(k, mid@) {
                leaf_node::lookup(all, k)
            } else {
                None
            }) by {
                assert(leaf_node::lookup(all.take(m), k) == lt.find(k));
            }
            assert forall|k: Seq<u8>| #[trigger] rt.find(k) == (if order::lex_lt(k, mid@) {
                None
            } else {
                leaf_node::lookup(all, k)
            }) by {
                assert(leaf_node::lookup(all.skip(m), k) == rt.find(k));
            }
            self.lemma_cached_without(old(self), pid);
        }
        self.split_leaf(g, d, mid.as_slice(), left_loc, right_loc, Ghost(rec.key));
        proof {
            leaf_node::lemma_lookup_is(all, mid@, m);
            leaf_node::lemma_lookup_is(all, all[0].key, 0);
            assert(c.leaf_of(mid@) == pid && c.leaf_of(all[0].key) == pid);
            assert(c.view().dom().insert(rec.key).contains(mid@)) by {
                assert(leaf_node::live(leaf_node::lookup(all, mid@)) == leaf_node::live(
                    if mid@ == rec.key {
                        Some(rec)
                    } else {
                        s.find(mid@)
                    },
                ));
            }
            growth::lemma_cut_grown(
                c,
                self.model(),
                p,
                pid as int,
                mid@,
                all[0].key,
                c.view().dom().insert(rec.key),
            );
            assert forall|k: Seq<u8>| #[trigger]
                leaf_node::live(self.model().find(k)) == leaf_node::live(
                    if k == rec.key {
                        Some(rec)
                    } else {
                        c.find(k)
                    },
                ) by {
                assert(leaf_node::live(leaf_node::lookup(all, k)) == leaf_node::live(
                    if k == rec.key {
                        Some(rec)
                    } else {
                        s.find(k)
                    },
                ));
            }
        }
    }

    /// Stores a record in a page that has no room for it: the page is freed of
    /// dead records, and cut in two if that is not enough.
    pub(crate) fn store_overflow(&mut self, g: &CPRSnapshotGuard, d: &Descent, rec: LeafRecord)
        requires
            old(self).wf(),
            old(self).guard_ok(g),
            d.ok(old(self).model(), rec@.key),
            leaf_ops::rec_ok(rec@, old(self).params()),
            if old(self).cache_only {
                old(self).model().pages[d.pid as int] is Mini
            } else {
                old(self).model().pages[d.pid as int] is Base
            },
            d.parent matches Some((i, _)) ==> old(self).model().sk.nodes[i as int].keys.len()
                < old(self).params().fanout,
            old(self).model().pages.len() < PAGE_LIMIT,
            old(self).storage.circular_buffer.used + 2 * old(self).config.leaf_page_size
                <= old(self).storage.circular_buffer.capacity,
        ensures
            final(self).wf(),
            final(self).guard_ok(g),
            final(self).same_settings(old(self)),
            final(self).load() <= old(self).load() + 3,
            growth::grown(
                old(self).model(),
                final(self).model(),
                old(self).model().view().dom().insert(rec@.key),
            ),
            final(self).storage.circular_buffer.used <= old(self).storage.circular_buffer.used
                + 2 * old(self).config.leaf_page_size,
            record_stored(old(self).model(), final(self).model(), rec@),
    {
        let ghost r = rec@;
        let cap = self.config.record_capacity();
        proof {
            self.config.lemma_params();
        }
        let (records, low, high) = self.overflow_records(d, rec);
        if size_of_records(&records) <= cap {
            self.install_page(g, d, records, low, high, Ghost(r));
        } else {
            self.install_cut(g, d, records, low, high, Ghost(r));
        }
    }
}

/// All records but that of `key` are live.
pub open spec fn only_live(all: Seq<RecordView>, key: Seq<u8>) -> bool {
    forall|k: Seq<u8>|
        k != key && #[trigger] leaf_node::lookup(all, k) is Some ==> leaf_node::live(
            leaf_node::lookup(all, k),
        ) is Some
}

/// Searches see of `all` what they saw on page `s`, but for record `r`.
pub open spec fn stands_for(all: Seq<RecordView>, s: PageState, r: RecordView) -> bool {
    &&& leaf_node::lookup(all, r.key) == Some(r)
    &&& forall|k: Seq<u8>|
        leaf_node::live(#[trigger] leaf_node::lookup(all, k)) == leaf_node::live(
            if k == r.key {
                Some(r)
            } else {
                s.find(k)
            },
        )
}

/// Record `r` has been stored, and nothing else changed that readers see.
pub open spec fn record_stored(before: Core, after: Core, r: RecordView) -> bool {
    &&& after.find(r.key) == Some(r)
    &&& forall|k: Seq<u8>|
        leaf_node::live(#[trigger] after.find(k)) == leaf_node::live(
            if k == r.key {
                Some(r)
            } else {
                before.find(k)
            },
        )
}

/// `all` can take the place of the records of leaf page `d.pid`.
pub open spec fn records_fit_page(
    t: &BfTree,
    d: &Descent,
    all: Seq<RecordView>,
    low: Seq<u8>,
    high: Seq<u8>,
    r: RecordView,
) -> bool {
    let s = t.model().pages[d.pid as int];
    let p = t.params();
    &&& stands_for(all, s, r)
    &&& leaf_node::sorted(all)
    &&& leaf_node::bounded(all, p.key_max, p.rec_max)
    &&& leaf_node::all_in(all, d.range(t.model()))
    &&& image::recs_size(all) <= p.cap + p.cap / 2
    &&& low.len() <= p.key_max
    &&& high.len() <= p.key_max
    &&& !t.cache_only ==> s.fence() == (order::KeyRange {
        lo: low,
        hi: if high.len() == 0 {
            None
        } else {
            Some(high)
        },
    })
}

/// Records in a page's range belong to the page.
proof fn lemma_members_belong(c: Core, d: &Descent, all: Seq<RecordView>, key: Seq<u8>)
    requires
        d.ok(c, key),
        leaf_node::all_in(all, d.range(c)),
    ensures
        forall|k: Seq<u8>| #[trigger]
            leaf_node::lookup(all, k) is Some ==> c.leaf_of(k) == d.pid,
{
    assert forall|k: Seq<u8>| #[trigger] leaf_node::lookup(all, k) is Some implies c.leaf_of(k)
        == d.pid by {
        let i = leaf_node::lemma_lookup_some(all, k);
        assert(d.range(c).contains(all[i].key));
    }
}

/// A page that holds `all` stores the record.
proof fn lemma_installed(
    c: Core,
    p: Params,
    d: &Descent,
    all: Seq<RecordView>,
    t: PageState,
    r: RecordView,
)
    requires
        c.wf(p),
        d.ok(c, r.key),
        stands_for(all, c.pages[d.pid as int], r),
        t.ok(p),
        forall|k: Seq<u8>| #[trigger] t.find(k) == leaf_node::lookup(all, k),
        forall|k: Seq<u8>| #[trigger]
            leaf_node::lookup(all, k) is Some ==> c.leaf_of(k) == d.pid,
        !p.cache_only ==> !(c.pages[d.pid as int] is Null) && !(t is Null) && t.fence()
            == c.pages[d.pid as int].fence(),
    ensures
        leaf_ops::fits_place(c, p, d.pid as int, t),
        record_stored(c, c.with_page(d.pid as int, t), r),
{
    assert forall|k: Seq<u8>| #[trigger] t.find(k) is Some implies c.leaf_of(k) == d.pid by {
        assert(leaf_node::lookup(all, k) is Some);
    }
    leaf_ops::lemma_set_page(c, p, d.pid as int, t);
    let c2 = c.with_page(d.pid as int, t);
    assert forall|k: Seq<u8>|
        leaf_node::live(#[trigger] c2.find(k)) == leaf_node::live(
            if k == r.key {
                Some(r)
            } else {
                c.find(k)
            },
        ) by {
        assert(leaf_node::live(leaf_node::lookup(all, k)) == leaf_node::live(
            if k == r.key {
                Some(r)
            } else {
                c.pages[d.pid as int].find(k)
            },
        ));
    }
}

/// A record of the page's range stored in the page keeps to the range.
proof fn lemma_stored_in(
    before: Seq<RecordView>,
    after: Seq<RecordView>,
    r: RecordView,
    range: order::KeyRange,
)
    requires
        leaf_node::all_in(before, range),
        range.contains(r.key),
        exists|q: int|
            after == #[trigger] leaf_node::upsert_at(before, q, r) && leaf_node::is_lower_bound(
                before,
                r.key,
                q,
            ),
    ensures
        leaf_node::all_in(after, range),
{
    let q = choose|q: int|
        after == #[trigger] leaf_node::upsert_at(before, q, r) && leaf_node::is_lower_bound(
            before,
            r.key,
            q,
        );
    assert forall|i: int| 0 <= i < after.len() implies range.contains(
        (#[trigger] after[i]).key,
    ) by {
        if q < before.len() && before[q].key == r.key {
            if i != q {
                assert(after[i] == before[i]);
            }
        } else if i < q {
            assert(after[i] == before[i]);
        } else if i > q {
            assert(after[i] == before[i - 1]);
        }
    }
}

} // verus!
