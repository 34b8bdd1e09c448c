//! Whole pages moving into the cache, and how much of the tree lies ahead of
//! a scan.
use vstd::prelude::*;

use crate::model;
use crate::model::{Core, PageState, Params};
use crate::nodes::image::ImageView;
use crate::order;
use crate::snapshot::CPRSnapshotGuard;
use crate::storage::{PageLocation, PAGE_LIMIT};
use crate::tree;
use crate::tree::leaf_ops;
use crate::tree::BfTree;

verus! {

/// A key from `h` on belongs to leaf page `i`.
pub open spec fn ahead(c: Core, h: Seq<u8>, i: int) -> bool {
    exists|k: Seq<u8>| order::lex_le(h, k) && #[trigger] c.leaf_of(k) == i
}

/// What leaf page `i` adds to the way ahead: deltas have to be merged first.
pub open spec fn share(c: Core, h: Seq<u8>, i: int) -> nat {
    if !ahead(c, h, i) {
        0
    } else if c.pages[i] is Mini {
        2
    } else {
        1
    }
}

/// The leaf pages that lie ahead from `h` on, deltas counted twice.
pub open spec fn way(c: Core, h: Seq<u8>, n: nat) -> nat
    decreases n,
{
    if n == 0 {
        0
    } else {
        way(c, h, (n - 1) as nat) + share(c, h, n - 1)
    }
}

pub open spec fn way_ahead(c: Core, h: Seq<u8>) -> nat {
    way(c, h, c.pages.len())
}

/// Page by page no more, hence altogether no more.
pub proof fn lemma_way_mono(c: Core, h: Seq<u8>, c2: Core, h2: Seq<u8>, n: nat)
    requires
        forall|i: int| 0 <= i < n ==> #[trigger] share(c2, h2, i) <= share(c, h, i),
    ensures
        way(c2, h2, n) <= way(c, h, n),
    decreases n,
{
    if n > 0 {
        lemma_way_mono(c, h, c2, h2, (n - 1) as nat);
        assert(share(c2, h2, n - 1) <= share(c, h, n - 1));
    }
}

/// One page less.
pub proof fn lemma_way_less(c: Core, h: Seq<u8>, c2: Core, h2: Seq<u8>, n: nat, x: int, by: nat)
    requires
        0 <= x < n,
        forall|i: int| 0 <= i < n ==> #[trigger] share(c2, h2, i) <= share(c, h, i),
        share(c2, h2, x) + by <= share(c, h, x),
    ensures
        way(c2, h2, n) + by <= way(c, h, n),
    decreases n,
{
    if x == n - 1 {
        lemma_way_mono(c, h, c2, h2, (n - 1) as nat);
    } else {
        lemma_way_less(c, h, c2, h2, (n - 1) as nat, x, by);
        assert(share(c2, h2, n - 1) <= share(c, h, n - 1));
    }
}

/// Going on from leaf page `x` to the next leaf page shortens the way.
pub proof fn lemma_way_onward(c: Core, p: Params, h: Seq<u8>, h2: Seq<u8>, x: int)
    requires
        c.shape_ok(p),
        order::lex_le(h, h2),
        c.leaf_of(h) == x,
        forall|k: Seq<u8>| #[trigger] c.leaf_of(k) == x ==> order::lex_lt(k, h2),
    ensures
        way_ahead(c, h2) < way_ahead(c, h),
{
    order::lemma_lex_order();
    c.sk.lemma_route_valid(c.pages.len(), p, c.root, h);
    assert forall|i: int| 0 <= i < c.pages.len() implies #[trigger] share(c, h2, i) <= share(
        c,
        h,
        i,
    ) by {
        if ahead(c, h2, i) {
            let k = choose|k: Seq<u8>| order::lex_le(h2, k) && #[trigger] c.leaf_of(k) == i;
            assert(order::lex_le(h, k));
            assert(ahead(c, h, i));
        }
    }
    assert(ahead(c, h, x));
    assert(!ahead(c, h2, x));
    lemma_way_less(c, h, c, h2, c.pages.len(), x, 1);
}

/// The way is as long as before where pages kept their kind and place.
pub proof fn lemma_way_same(c: Core, c2: Core, h: Seq<u8>)
    requires
        c2.pages.len() == c.pages.len(),
        forall|k: Seq<u8>| #[trigger] c2.leaf_of(k) == c.leaf_of(k),
        forall|i: int|
            0 <= i < c.pages.len() && (#[trigger] c2.pages[i]) is Mini ==> c.pages[i] is Mini,
    ensures
        way_ahead(c2, h) <= way_ahead(c, h),
{
    assert forall|i: int| 0 <= i < c.pages.len() implies #[trigger] share(c2, h, i) <= share(
        c,
        h,
        i,
    ) by {
        if ahead(c2, h, i) {
            let k = choose|k: Seq<u8>| order::lex_le(h, k) && #[trigger] c2.leaf_of(k) == i;
            assert(c.leaf_of(k) == i);
            assert(ahead(c, h, i));
            assert(c2.pages[i] is Mini ==> c.pages[i] is Mini);
        }
    }
    lemma_way_mono(c, h, c2, h, c.pages.len());
}

/// Merging a delta does not lengthen the way, even if its page is cut in two.
pub proof fn lemma_way_merged(c: Core, c2: Core, h: Seq<u8>, x: int)
    requires
        0 <= x < c.pages.len(),
        c.pages[x] is Mini,
        !(c2.pages[x] is Mini),
        forall|i: int|
            0 <= i < c.pages.len() && i != x ==> #[trigger] c2.pages[i] == c.pages[i],
        c2.pages.len() == c.pages.len() || c2.pages.len() == c.pages.len() + 1 && !(
        c2.pages[c.pages.len() as int] is Mini),
        forall|k: Seq<u8>| #[trigger]
            c2.leaf_of(k) == c.leaf_of(k) || (c.leaf_of(k) == x && c2.leaf_of(k) == c.pages.len()),
        forall|k: Seq<u8>| 0 <= #[trigger] c.leaf_of(k) < c.pages.len(),
    ensures
        way_ahead(c2, h) <= way_ahead(c, h),
{
    let n = c.pages.len();
    assert forall|i: int| 0 <= i < n implies #[trigger] share(c2, h, i) <= share(c, h, i) by {
        if ahead(c2, h, i) {
            let k = choose|k: Seq<u8>| order::lex_le(h, k) && #[trigger] c2.leaf_of(k) == i;
            assert(c.leaf_of(k) == i);
            assert(ahead(c, h, i));
            if i != x {
                assert(c2.pages[i] == c.pages[i]);
            }
        }
    }
    if c2.pages.len() == n {
        lemma_way_mono(c, h, c2, h, n);
    } else {
        let q = n as int;
        if ahead(c2, h, q) {
            let k = choose|k: Seq<u8>| order::lex_le(h, k) && #[trigger] c2.leaf_of(k) == q;
            assert(c.leaf_of(k) == x);
            assert(ahead(c, h, x));
            lemma_way_less(c, h, c2, h, n, x, 1);
        } else {
            lemma_way_mono(c, h, c2, h, n);
        }
    }
}

/// A page on disk that is changed under version `v`; other pages stay as they are.
pub open spec fn touched(s: PageState, v: u64) -> PageState {
    match s {
        PageState::Base(w) => PageState::Base(ImageView { version: v, ..w }),
        _ => s,
    }
}

impl BfTree {
    /// Draws whether a scan may promote a page to the cache.
    pub(crate) fn should_promote_scan_page(&mut self) -> (r: bool)
        requires
            old(self).wf(),
        ensures
            final(self).wf(),
            final(self).model() == old(self).model(),
            final(self).config == old(self).config,
            final(self).cache_only == old(self).cache_only,
            final(self).wal == old(self).wal,
            final(self).storage == old(self).storage,
            final(self).inners == old(self).inners,
            final(self).snapshot_mgr == old(self).snapshot_mgr,
            old(self).config.scan_promotion_rate == 0 ==> !r,
            old(self).config.scan_promotion_rate >= 100 ==> r,
            r <==> (final(self).lottery / 0x2_0000_0000) % 100
                < old(self).config.scan_promotion_rate,
    {
        let ghost c = self.model();
        self.lottery = self.lottery.wrapping_mul(6364136223846793005).wrapping_add(
            1442695040888963407,
        );
        let draw: u64 = (self.lottery / 0x2_0000_0000) % 100;
        assert(self.model() == c);
        (draw as usize) < self.config.scan_promotion_rate
    }

    /// The cache has room for a whole page.
    pub open spec fn cache_takes_page(&self) -> bool {
        &&& self.load() + 16 <= PAGE_LIMIT
        &&& self.storage.circular_buffer.used + self.config.leaf_page_size
            <= self.storage.circular_buffer.capacity
    }

    /// Copies a page from disk to the cache, as a whole page, if the cache has
    /// room for it.
    pub(crate) fn upgrade_to_full_page(&mut self, g: &CPRSnapshotGuard, pid: u64) -> (r: bool)
        requires
            old(self).wf(),
            old(self).guard_ok(g),
            pid < old(self).model().pages.len(),
            old(self).model().pages[pid as int] is Base,
            !old(self).root.spec_is_id(),
        ensures
            final(self).wf(),
            final(self).guard_ok(g),
            final(self).same_settings(old(self)),
            r == old(self).cache_takes_page(),
            !r ==> *final(self) == *old(self),
            r ==> {
                &&& final(self).model().pages[pid as int] is Full
                &&& final(self).model().pages[pid as int].top()
                    == old(self).model().pages[pid as int].top()
                &&& final(self).model().pages[pid as int].fence()
                    == old(self).model().pages[pid as int].fence()
                &&& final(self).load() == old(self).load() + 1
            },
            final(self).model().pages.len() == old(self).model().pages.len(),
            forall|i: int|
                0 <= i < old(self).model().pages.len() && i != pid ==> #[trigger] final(
                    self).model().pages[i] == old(self).model().pages[i],
            final(self).root == old(self).root,
            forall|k: Seq<u8>| #[trigger]
                final(self).model().leaf_of(k) == old(self).model().leaf_of(k),
            forall|k: Seq<u8>| #[trigger]
                final(self).model().find(k) == old(self).model().find(k),
    {
        let ghost c = self.model();
        let ghost p = self.params();
        let ghost s = c.pages[pid as int];
        let version = g.snapshot_version;
        let pages: u64 = self.storage.page_table.peek_next_id();
        let cached = self.storage.circular_buffer.entries.len();
        if cached as u64 >= PAGE_LIMIT || cached as u64 + 16 > PAGE_LIMIT - pages {
            return false;
        }
        match self.storage.circular_buffer.alloc_page(pid, self.config.leaf_page_size) {
            Err(_) => {
                assert(self.storage == old(self).storage);
                assert(*self == *old(self));
                return false;
            },
            Ok(_) => {},
        }
        proof {
            assert(s.ok(p));
            assert(s == self.storage.page_table@[pid as int]@);
            assert(self.model() == c);
        }
        self.capture_page(g, pid);
        let loc = self.put_page(pid, PageLocation::Null(version));
        let new_loc = match loc {
            PageLocation::Base(mut n) => {
                n.next_level = pid;
                n.snapshot_version = version;
                PageLocation::Full(n)
            },
            other => other,
        };
        proof {
            let t = new_loc@;
            assert forall|k: Seq<u8>| #[trigger] t.find(k) == s.find(k) by {}
            assert forall|k: Seq<u8>| #[trigger] t.find(k) is Some implies c.leaf_of(k)
                == pid by {
                assert(c.pages[pid as int].holds_key(k));
            }
            leaf_ops::lemma_set_page(c, p, pid as int, t);
        }
        let _none = self.put_page(pid, new_loc);
        assert(self.model() =~= c.with_page(pid as int, new_loc@));
        assert(self.storage.cached_ok()) by {
            assert forall|x: int|
                0 <= x < self.storage.page_table@.len() && (
                #[trigger] self.storage.page_table@[x])@.is_cached() implies self.storage.circular_buffer.has(
                x as u64,
                self.storage.page_table@[x]@.size(),
            ) by {
                if x != pid {
                    assert(old(self).storage.page_table@[x]@.is_cached());
                    assert(old(self).storage.circular_buffer.has(
                    x as u64,
                    old(self).storage.page_table@[x]@.size(),
                ));
                }
            }
        }
        true
    }

    /// Marks a page on disk as changed by this operation.
    pub(crate) fn touch_base_page(&mut self, g: &CPRSnapshotGuard, pid: u64)
        requires
            old(self).wf(),
            old(self).guard_ok(g),
            pid < old(self).model().pages.len(),
            old(self).model().pages[pid as int] is Base,
        ensures
            final(self).wf(),
            final(self).guard_ok(g),
            final(self).same_settings(old(self)),
            final(self).load() == old(self).load(),
            final(self).storage.circular_buffer == old(self).storage.circular_buffer,
            final(self).model() == old(self).model().with_page(
                pid as int,
                touched(old(self).model().pages[pid as int], g.snapshot_version),
            ),
            tree::page_free(final(self).snapshot_mgr, pid as int),
            final(self).model().pages[pid as int] is Base,
            final(self).model().pages[pid as int].version() == g.snapshot_version,
            final(self).model().pages[pid as int].top()
                == old(self).model().pages[pid as int].top(),
            final(self).model().pages[pid as int].fence()
                == old(self).model().pages[pid as int].fence(),
            final(self).model().pages.len() == old(self).model().pages.len(),
            forall|i: int|
                0 <= i < old(self).model().pages.len() && i != pid ==> #[trigger] final(
                    self).model().pages[i] == old(self).model().pages[i],
            final(self).root == old(self).root,
            forall|k: Seq<u8>| #[trigger]
                final(self).model().leaf_of(k) == old(self).model().leaf_of(k),
            forall|k: Seq<u8>| #[trigger]
                final(self).model().find(k) == old(self).model().find(k),
    {
        let ghost c = self.model();
        let ghost p = self.params();
        let ghost s = c.pages[pid as int];
        let version = g.snapshot_version;
        proof {
            assert(s.ok(p));
            assert(s == self.storage.page_table@[pid as int]@);
        }
        self.capture_page(g, pid);
        let loc = self.put_page(pid, PageLocation::Null(version));
        let new_loc = match loc {
            PageLocation::Base(mut n) => {
                n.snapshot_version = version;
                PageLocation::Base(n)
            },
            other => other,
        };
        proof {
            let t = new_loc@;
            assert forall|k: Seq<u8>| #[trigger] t.find(k) == s.find(k) by {}
            assert forall|k: Seq<u8>| #[trigger] t.find(k) is Some implies c.leaf_of(k)
                == pid by {
                assert(c.pages[pid as int].holds_key(k));
            }
            leaf_ops::lemma_set_page(c, p, pid as int, t);
        }
        let _none = self.put_page(pid, new_loc);
        assert(self.model() =~= c.with_page(pid as int, new_loc@));
        assert(self.storage.cached_ok()) by {
            assert forall|x: int|
                0 <= x < self.storage.page_table@.len() && (
                #[trigger] self.storage.page_table@[x])@.is_cached() implies self.storage.circular_buffer.has(
                x as u64,
                self.storage.page_table@[x]@.size(),
            ) by {
                assert(old(self).storage.page_table@[x]@.is_cached());
                assert(old(self).storage.circular_buffer.has(
                    x as u64,
                    old(self).storage.page_table@[x]@.size(),
                ));
            }
        }
    }
}

} // verus!
