//! Cached pages going back to disk, or to nothing where there is no disk.
use vstd::prelude::*;

use crate::circular_buffer;
use crate::model::{Core, PageState};
use crate::nodes::image;
use crate::nodes::leaf_node;
use crate::nodes::leaf_node::NO_NEXT_LEVEL;
use crate::order::to_vec;
use crate::snapshot::CPRSnapshotGuard;
use crate::storage::{PageLocation, PAGE_LIMIT};
use crate::tree::growth;
use crate::tree::leaf_ops;
use crate::tree::BfTree;

verus! {

/// Where a leaf page is.
#[derive(Debug, Clone, Copy, PartialEq, Eq, Structural)]
pub enum PageKind {
    Null,
    Base,
    Full,
    Mini,
}

pub open spec fn kind_of(s: PageState) -> PageKind {
    match s {
        PageState::Null(_) => PageKind::Null,
        PageState::Base(_) => PageKind::Base,
        PageState::Full(_) => PageKind::Full,
        PageState::Mini(_, _) => PageKind::Mini,
    }
}

/// Readers see the same.
pub open spec fn same_live(before: Core, after: Core) -> bool {
    forall|k: Seq<u8>|
        leaf_node::live(#[trigger] after.find(k)) == leaf_node::live(before.find(k))
}

pub proof fn lemma_same_live(before: Core, after: Core)
    requires
        same_live(before, after),
    ensures
        after.view() == before.view(),
{
    assert forall|k: Seq<u8>| #[trigger] after.view().dom().contains(k) == before.view().dom().contains(
    k) by {
        assert(leaf_node::live(after.find(k)) == leaf_node::live(before.find(k)));
    }
    assert forall|k: Seq<u8>| after.view().dom().contains(k) implies #[trigger] after.view()[k]
        == before.view()[k] by {
        assert(leaf_node::live(after.find(k)) == leaf_node::live(before.find(k)));
    }
    assert(after.view() =~= before.view());
}

/// Leaf page `pid` is dropped, and nothing else happens.
pub open spec fn page_dropped(before: Core, after: Core, pid: int) -> bool {
    &&& after.pages.len() == before.pages.len()
    &&& forall|k: Seq<u8>| #[trigger] after.leaf_of(k) == before.leaf_of(k)
    &&& forall|i: int|
        0 <= i < before.pages.len() && i != pid ==> #[trigger] after.pages[i] == before.pages[i]
    &&& 0 <= pid < before.pages.len() ==> after.pages[pid] is Null
}

/// What is left of tree `before` when room has been made in its cache: everything,
/// but for what a tree without a disk forgets.
pub open spec fn left_over(before: &BfTree, after: Core) -> bool {
    forall|k: Seq<u8>|
        leaf_node::live(#[trigger] after.find(k)) == if before.forgets(k) {
            None
        } else {
            leaf_node::live(before.model().find(k))
        }
}

impl BfTree {
    /// How many pages leave the cache, the oldest first, before an operation stores
    /// a record: as many as it takes to have room for two more.
    pub open spec fn evicts(&self) -> nat {
        circular_buffer::evictions(
            self.storage.circular_buffer.entries@,
            self.storage.circular_buffer.capacity - 2 * self.config.leaf_page_size,
        )
    }

    /// Key `k` belongs to a page that leaves the cache, and there is no disk.
    pub open spec fn forgets(&self, k: Seq<u8>) -> bool {
        self.cache_only && circular_buffer::among_oldest(
            self.storage.circular_buffer.entries@,
            self.evicts(),
            self.model().leaf_of(k),
        )
    }

    /// The keys that are present and not forgotten when an operation stores a
    /// record.
    pub open spec fn left(&self) -> Map<Seq<u8>, Seq<u8>> {
        Map::new(
            |k: Seq<u8>| self@.contains_key(k) && !self.forgets(k),
            |k: Seq<u8>| self@[k],
        )
    }

    /// What is left is no more than what was there, and all of it if there is a
    /// disk or the cache has space.
    pub proof fn lemma_left(&self)
        requires
            self.wf(),
        ensures
            self.left().submap_of(self@),
            !self.cache_only || self.has_space() ==> self.left() == self@,
    {
        if !self.cache_only || self.has_space() {
            assert forall|k: Seq<u8>| !self.forgets(k) by {}
            assert(self.left() =~= self@);
        }
    }

    /// Where leaf page `pid` is, and the size of its uppermost records.
    pub(crate) fn page_kind(&self, pid: u64) -> (r: (PageKind, usize))
        requires
            self.parts_ok(),
            pid < self.model().pages.len(),
            self.model().pages[pid as int].ok(self.params()),
        ensures
            r.0 == kind_of(self.model().pages[pid as int]),
            r.1 == image::recs_size(self.model().pages[pid as int].top()),
            r.1 <= self.params().cap,
    {
        proof {
            self.config.lemma_params();
            assert(self.model().pages[pid as int] == self.storage.page_table@[pid as int]@);
        }
        match self.storage.page_table.get(pid) {
            PageLocation::Null(_) => (PageKind::Null, 0),
            PageLocation::Base(n) => (PageKind::Base, leaf_node::size_of_records(&n.records)),
            PageLocation::Full(n) => (PageKind::Full, leaf_node::size_of_records(&n.records)),
            PageLocation::Mini(n, _) => (PageKind::Mini, leaf_node::size_of_records(&n.records)),
        }
    }

    /// Writes a cached whole page back to disk.
    pub(crate) fn write_back(&mut self, g: &CPRSnapshotGuard, pid: u64)
        requires
            old(self).wf(),
            old(self).guard_ok(g),
            pid < old(self).model().pages.len(),
            old(self).model().pages[pid as int] is Full,
        ensures
            final(self).wf(),
            final(self).guard_ok(g),
            final(self).same_settings(old(self)),
            final(self).storage.circular_buffer.entries@.len() + 1
                == old(self).storage.circular_buffer.entries@.len(),
            forall|i: int| #[trigger]
                circular_buffer::first_of(old(self).storage.circular_buffer.entries@, pid, i)
                    ==> final(self).storage.circular_buffer.entries@
                    == old(self).storage.circular_buffer.entries@.remove(i),
            final(self).storage.circular_buffer.used <= old(self).storage.circular_buffer.used,
            final(self).model().pages.len() == old(self).model().pages.len(),
            final(self).model().pages[pid as int] is Base,
            final(self).root == old(self).root,
            forall|k: Seq<u8>| #[trigger]
                final(self).model().leaf_of(k) == old(self).model().leaf_of(k),
            forall|k: Seq<u8>| #[trigger]
                final(self).model().find(k) == old(self).model().find(k),
    {
        let ghost c = self.model();
        let ghost p = self.params();
        let ghost s = c.pages[pid as int];
        let version = g.snapshot_version;
        proof {
            assert(s.ok(p));
            assert(s == self.storage.page_table@[pid as int]@);
            assert(self.storage.page_table@[pid as int]@.is_cached());
            assert(self.storage.circular_buffer.has(
                pid,
                self.storage.page_table@[pid as int]@.size(),
            ));
        }
        self.capture_page(g, pid);
        let loc = self.put_page(pid, PageLocation::Null(version));
        let new_loc = match loc {
            PageLocation::Full(mut n) => {
                n.next_level = NO_NEXT_LEVEL;
                n.snapshot_version = version;
                PageLocation::Base(n)
            },
            other => other,
        };
        proof {
            let t = new_loc@;
            assert forall|k: Seq<u8>| #[trigger] t.find(k) == s.find(k) by {}
            assert forall|k: Seq<u8>| #[trigger] t.find(k) is Some implies c.leaf_of(k)
                == pid by {
                assert(c.pages[pid as int].holds_key(k));
            }
            leaf_ops::lemma_set_page(c, p, pid as int, t);
        }
        let _none = self.put_page(pid, new_loc);
        self.storage.circular_buffer.dealloc_page(pid);
        assert(self.model() =~= c.with_page(pid as int, new_loc@));
        assert(self.storage.cached_ok()) by {
            assert forall|x: int|
                0 <= x < self.storage.page_table@.len() && (
                #[trigger] self.storage.page_table@[x])@.is_cached() implies self.storage.circular_buffer.has(
                x as u64,
                self.storage.page_table@[x]@.size(),
            ) by {
                assert(old(self).storage.page_table@[x]@.is_cached());
                assert(old(self).storage.circular_buffer.has(
                    x as u64,
                    old(self).storage.page_table@[x]@.size(),
                ));
            }
        }
    }

    /// Drops a cached page of a tree without a disk.
    fn drop_page(&mut self, g: &CPRSnapshotGuard, pid: u64)
        requires
            old(self).wf(),
            old(self).guard_ok(g),
            pid < old(self).model().pages.len(),
            old(self).model().pages[pid as int] is Mini,
            old(self).cache_only,
        ensures
            final(self).wf(),
            final(self).guard_ok(g),
            final(self).same_settings(old(self)),
            final(self).storage.circular_buffer.entries@.len() + 1
                == old(self).storage.circular_buffer.entries@.len(),
            forall|i: int| #[trigger]
                circular_buffer::first_of(old(self).storage.circular_buffer.entries@, pid, i)
                    ==> final(self).storage.circular_buffer.entries@
                    == old(self).storage.circular_buffer.entries@.remove(i),
            final(self).storage.circular_buffer.used <= old(self).storage.circular_buffer.used,
            final(self).model().pages.len() == old(self).model().pages.len(),
            page_dropped(old(self).model(), final(self).model(), pid as int),
    {
        let ghost c = self.model();
        let ghost p = self.params();
        let loc = PageLocation::Null(g.snapshot_version);
        proof {
            assert(self.storage.page_table@[pid as int]@ == c.pages[pid as int]);
            assert(self.storage.page_table@[pid as int]@.is_cached());
            assert(self.storage.circular_buffer.has(
                pid,
                self.storage.page_table@[pid as int]@.size(),
            ));
            assert forall|k: Seq<u8>| #[trigger] loc@.find(k) is None by {}
            leaf_ops::lemma_set_page(c, p, pid as int, loc@);
        }
        self.storage.circular_buffer.dealloc_page(pid);
        proof {
            assert(c == self.model());
            self.lemma_cached_without(old(self), pid);
        }
        self.replace_leaf(g, pid, loc);
    }

    /// Takes the oldest page out of the cache.
    pub(crate) fn evict_from_circular_buffer(&mut self, g: &CPRSnapshotGuard)
        requires
            old(self).wf(),
            old(self).guard_ok(g),
            old(self).storage.circular_buffer.entries@.len() > 0,
            old(self).cache_only || old(self).model().pages.len() < PAGE_LIMIT,
        ensures
            final(self).wf(),
            final(self).guard_ok(g),
            final(self).same_settings(old(self)),
            final(self).storage.circular_buffer.entries@
                == old(self).storage.circular_buffer.entries@.remove(0),
            ({
                let oldest = old(self).storage.circular_buffer.entries@[0].0 as int;
                oldest < old(self).model().pages.len() ==> !final(
                    self).model().pages[oldest].is_cached()
            }),
            final(self).storage.circular_buffer.used <= old(self).storage.circular_buffer.used,
            final(self).load() <= old(self).load(),
            if old(self).cache_only {
                page_dropped(
                    old(self).model(),
                    final(self).model(),
                    old(self).storage.circular_buffer.entries@[0].0 as int,
                )
            } else {
                same_live(old(self).model(), final(self).model()) && growth::grown(
                    old(self).model(),
                    final(self).model(),
                    old(self)@.dom(),
                )
            },
    {
        let ghost c = self.model();
        let ghost p = self.params();
        proof {
            growth::lemma_not_grown(c, c, c.view().dom());
        }
        let pid: u64 = self.storage.circular_buffer.entries[0].0;
        assert(circular_buffer::first_of(self.storage.circular_buffer.entries@, pid, 0));
        if pid < self.storage.page_table.peek_next_id() {
            assert(c.pages[pid as int].ok(p));
            let (kind, _) = self.page_kind(pid);
            match kind {
                PageKind::Mini => {
                    if self.cache_only {
                        self.drop_page(g, pid);
                    } else {
                        self.evict_mini(g, pid);
                    }
                    return;
                },
                PageKind::Full => {
                    self.write_back(g, pid);
                    proof {
                        growth::lemma_not_grown(c, self.model(), c.view().dom());
                    }
                    return;
                },
                PageKind::Base | PageKind::Null => {},
            }
            assert(!self.storage.page_table@[pid as int]@.is_cached()) by {
                assert(self.storage.page_table@[pid as int]@ == c.pages[pid as int]);
            }
        }
        let _id = self.storage.circular_buffer.pop_oldest();
        assert(self.model() == c);
        assert(self.storage.cached_ok()) by {
            assert forall|x: int|
                0 <= x < self.storage.page_table@.len() && (
                #[trigger] self.storage.page_table@[x])@.is_cached() implies self.storage.circular_buffer.has(
                x as u64,
                self.storage.page_table@[x]@.size(),
            ) by {
                assert(old(self).storage.page_table@[x]@.is_cached());
                assert(old(self).storage.circular_buffer.has(
                    x as u64,
                    old(self).storage.page_table@[x]@.size(),
                ));
            }
        }
    }

    /// Merges a delta page into the page below it.
    fn evict_mini(&mut self, g: &CPRSnapshotGuard, pid: u64)
        requires
            old(self).wf(),
            old(self).guard_ok(g),
            pid < old(self).model().pages.len(),
            old(self).model().pages[pid as int] is Mini,
            !old(self).cache_only,
            old(self).model().pages.len() < PAGE_LIMIT,
        ensures
            final(self).wf(),
            final(self).guard_ok(g),
            final(self).same_settings(old(self)),
            final(self).storage.circular_buffer.entries@.len() + 1
                == old(self).storage.circular_buffer.entries@.len(),
            forall|i: int| #[trigger]
                circular_buffer::first_of(old(self).storage.circular_buffer.entries@, pid, i)
                    ==> final(self).storage.circular_buffer.entries@
                    == old(self).storage.circular_buffer.entries@.remove(i),
            final(self).storage.circular_buffer.used <= old(self).storage.circular_buffer.used,
            final(self).load() <= old(self).load(),
            final(self).model().pages[pid as int] is Base,
            same_live(old(self).model(), final(self).model()),
            growth::grown(old(self).model(), final(self).model(), old(self)@.dom()),
    {
        let ghost c = self.model();
        let ghost p = self.params();
        let ghost s = c.pages[pid as int];
        proof {
            assert(s.ok(p));
            assert(s == self.storage.page_table@[pid as int]@);
            assert(self.storage.page_table@[pid as int]@.is_cached());
            assert(self.storage.circular_buffer.has(
                pid,
                self.storage.page_table@[pid as int]@.size(),
            ));
        }
        let mut key: Vec<u8> = Vec::new();
        match self.storage.page_table.get(pid) {
            PageLocation::Mini(n, _) => {
                assert(s.top().len() == n.records@.len());
                key = to_vec(n.records[0].key.as_slice());
                assert(key@ == s.top()[0].key);
            },
            _ => {},
        }
        assert(c.leaf_of(key@) == pid) by {
            assert(c.pages[pid as int].holds_key(key@));
        }
        let d = self.traverse_to_leaf(g, key.as_slice(), true);
        let ghost c1 = self.model();
        assert forall|k: Seq<u8>| #[trigger] c1.find(k) == c.find(k) by {
            assert(c1.leaf_of(k) == c.leaf_of(k));
        }
        assert(c1.leaf_of(key@) == c.leaf_of(key@));
        let _r = self.try_merge_mini_page(g, &d, Ghost(key@));
        proof {
            lemma_same_live(c, c1);
            growth::lemma_not_grown(c, c1, c.view().dom());
            growth::lemma_grown_twice(c, c1, self.model(), c.view().dom(), c.view().dom());
            assert(c.view().dom().union(c.view().dom()) =~= c.view().dom());
        }
    }

    /// The cache has room for what one operation may add.
    pub open spec fn has_space(&self) -> bool {
        self.storage.circular_buffer.used + 2 * self.config.leaf_page_size
            <= self.storage.circular_buffer.capacity
    }

    /// Makes room for two pages in the cache.
    pub(crate) fn make_room(&mut self, g: &CPRSnapshotGuard)
        requires
            old(self).wf(),
            old(self).guard_ok(g),
            old(self).load() <= PAGE_LIMIT,
        ensures
            final(self).wf(),
            final(self).guard_ok(g),
            final(self).same_settings(old(self)),
            final(self).load() <= old(self).load(),
            left_over(&*old(self), final(self).model()),
            growth::grown(old(self).model(), final(self).model(), old(self)@.dom()),
            final(self).storage.circular_buffer.used + 2 * final(self).config.leaf_page_size
                <= final(self).storage.circular_buffer.capacity,
            old(self).has_space() ==> *final(self) == *old(self),
    {
        let need: usize = 2 * self.config.leaf_page_size;
        let ghost c0 = self.model();
        let ghost entries = self.storage.circular_buffer.entries@;
        let ghost mut n: nat = 0;
        proof {
            assert(entries.skip(0) =~= entries);
            growth::lemma_not_grown(c0, c0, c0.view().dom());
            self.config.lemma_params();
        }
        while self.storage.circular_buffer.capacity - self.storage.circular_buffer.used < need
            invariant
                self.wf(),
                self.guard_ok(g),
                self.same_settings(old(self)),
                self.load() <= old(self).load(),
                old(self).load() <= PAGE_LIMIT,
                need == 2 * self.config.leaf_page_size,
                c0 == old(self).model(),
                entries == old(self).storage.circular_buffer.entries@,
                n <= entries.len(),
                self.storage.circular_buffer.entries@ == entries.skip(n as int),
                self.storage.circular_buffer.capacity == old(self).storage.circular_buffer.capacity,
                old(self).evicts() == n + self.evicts(),
                !old(self).cache_only ==> same_live(c0, self.model()) && growth::grown(
                    c0,
                    self.model(),
                    c0.view().dom(),
                ),
                old(self).cache_only ==> pages_dropped(c0, self.model(), entries, n),
                old(self).has_space() ==> *self == *old(self),
            decreases self.storage.circular_buffer.entries@.len(),
        {
            let ghost mid = self.model();
            if self.storage.circular_buffer.entries.len() == 0 {
                assert(self.storage.circular_buffer.used == 0);
                assert(false);
            }
            self.evict_from_circular_buffer(g);
            proof {
                assert(entries.skip(n as int).remove(0) =~= entries.skip(n as int + 1));
                if old(self).cache_only {
                    lemma_one_more_dropped(c0, mid, self.model(), entries, n);
                } else {
                    assert forall|k: Seq<u8>|
                        leaf_node::live(#[trigger] self.model().find(k)) == leaf_node::live(
                            c0.find(k),
                        ) by {
                        assert(leaf_node::live(mid.find(k)) == leaf_node::live(c0.find(k)));
                    }
                    let keys = c0.view().dom();
                    lemma_same_live(c0, mid);
                    growth::lemma_grown_twice(c0, mid, self.model(), keys, keys);
                    assert(keys.union(keys) =~= keys);
                }
                n = n + 1;
            }
        }
        proof {
            if old(self).cache_only {
                growth::lemma_not_grown(c0, self.model(), c0.view().dom());
                assert forall|k: Seq<u8>|
                    leaf_node::live(#[trigger] self.model().find(k)) == if old(self).forgets(k) {
                        None
                    } else {
                        leaf_node::live(old(self).model().find(k))
                    } by {
                    c0.sk.lemma_route_valid(c0.pages.len(), self.params(), c0.root, k);
                    assert(self.model().leaf_of(k) == c0.leaf_of(k));
                }
            }
        }
    }
}

/// The pages that the `n` oldest entries name are dropped, and nothing else
/// happened.
pub open spec fn pages_dropped(
    before: Core,
    after: Core,
    entries: Seq<(u64, usize)>,
    n: nat,
) -> bool {
    &&& after.pages.len() == before.pages.len()
    &&& forall|k: Seq<u8>| #[trigger] after.leaf_of(k) == before.leaf_of(k)
    &&& forall|i: int|
        0 <= i < before.pages.len() ==> if circular_buffer::among_oldest(entries, n, i) {
            #[trigger] after.pages[i] is Null
        } else {
            after.pages[i] == before.pages[i]
        }
}

proof fn lemma_one_more_dropped(
    before: Core,
    mid: Core,
    after: Core,
    entries: Seq<(u64, usize)>,
    n: nat,
)
    requires
        n < entries.len(),
        pages_dropped(before, mid, entries, n),
        page_dropped(mid, after, entries[n as int].0 as int),
    ensures
        pages_dropped(before, after, entries, n + 1),
{
    assert forall|k: Seq<u8>| #[trigger] after.leaf_of(k) == before.leaf_of(k) by {
        assert(mid.leaf_of(k) == before.leaf_of(k));
    }
    assert forall|i: int| 0 <= i < before.pages.len() implies if circular_buffer::among_oldest(
        entries,
        n + 1,
        i,
    ) {
        #[trigger] after.pages[i] is Null
    } else {
        after.pages[i] == before.pages[i]
    } by {
        assert(if circular_buffer::among_oldest(entries, n, i) {
            mid.pages[i] is Null
        } else {
            mid.pages[i] == before.pages[i]
        });
        if entries[n as int].0 == i {
            assert(circular_buffer::among_oldest(entries, n + 1, i));
        } else {
            assert(after.pages[i] == mid.pages[i]);
            if circular_buffer::among_oldest(entries, n + 1, i) {
                let x = choose|x: int|
                    0 <= x < n + 1 && x < entries.len() && (#[trigger] entries[x]).0 == i;
                assert(entries[x].0 == i && x < n);
            } else if circular_buffer::among_oldest(entries, n, i) {
                let x = choose|x: int|
                    0 <= x < n && x < entries.len() && (#[trigger] entries[x]).0 == i;
                assert(entries[x].0 == i && x < n + 1);
            }
        }
    }
}

} // verus!
