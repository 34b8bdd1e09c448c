//! Scans over ranges of keys, in ascending order.
use vstd::prelude::*;

use crate::error::{ScanIterError, TreeError};
use crate::model;
use crate::model::{Core, PageState, Params};
use crate::nodes::image;
use crate::nodes::image::{LeafRecord, RecordView};
use crate::nodes::inner_node;
use crate::nodes::leaf_node;
use crate::order;
use crate::order::{key_lt, to_vec};
use crate::snapshot::CPRSnapshotGuard;
use crate::storage::{PageLocation, PAGE_LIMIT};
use crate::tree;
use crate::tree::evict::PageKind;
use crate::tree::merge::MergeResult;
use crate::tree::ops;
use crate::codec::copy_into;
use crate::tree::promote;
use crate::tree::traverse::Descent;
use crate::tree::BfTree;

verus! {

/// What a scan copies out of each record.
#[derive(Debug, Clone, Copy, PartialEq, Eq, Structural)]
pub enum ScanReturnField {
    Key,
    Value,
    KeyAndValue,
}

impl ScanReturnField {
    /// The bytes that are copied out of a record.
    pub open spec fn pick(self, key: Seq<u8>, value: Seq<u8>) -> Seq<u8> {
        match self {
            ScanReturnField::Key => key,
            ScanReturnField::Value => value,
            ScanReturnField::KeyAndValue => key + value,
        }
    }

    /// How many of them belong to the key, and how many to the value.
    pub open spec fn lengths(self, key: Seq<u8>, value: Seq<u8>) -> (nat, nat) {
        match self {
            ScanReturnField::Key => (key.len(), 0),
            ScanReturnField::Value => (0, value.len()),
            ScanReturnField::KeyAndValue => (key.len(), value.len()),
        }
    }
}

/// Where in a leaf page a scan is.
#[derive(Debug, Clone, Copy, PartialEq, Eq, Structural)]
pub enum ScanPosition {
    Base(u32),
    Full(u32),
    /// Only in trees without a disk.
    Mini(u32),
    /// An evicted page of a tree without a disk.
    Null,
}

impl ScanPosition {
    pub open spec fn offset(self) -> int {
        match self {
            ScanPosition::Base(i) => i as int,
            ScanPosition::Full(i) => i as int,
            ScanPosition::Mini(i) => i as int,
            ScanPosition::Null => 0,
        }
    }

    /// The place of the next record.
    pub(crate) fn move_to_next(&mut self)
        requires
            !(*old(self) is Null),
            old(self).offset() < u32::MAX,
        ensures
            final(self).offset() == old(self).offset() + 1,
            *old(self) is Base <==> *final(self) is Base,
            *old(self) is Full <==> *final(self) is Full,
            *old(self) is Mini <==> *final(self) is Mini,
    {
        match *self {
            ScanPosition::Base(i) => {
                *self = ScanPosition::Base(i + 1);
            },
            ScanPosition::Full(i) => {
                *self = ScanPosition::Full(i + 1);
            },
            ScanPosition::Mini(i) => {
                *self = ScanPosition::Mini(i + 1);
            },
            ScanPosition::Null => {},
        }
    }
}

/// What is at a scan's position.
#[derive(Debug, Clone, Copy, PartialEq, Eq, Structural)]
pub enum GetScanRecordByPosResult {
    /// A record that hides a key.
    Deleted,
    /// A record, of which so many bytes of key and value were copied.
    Found(u32, u32),
    EndOfLeaf,
    /// A record beyond the end of the scan.
    BoundKeyExceeded,
}

/// The leaf page that a scan holds, for reading or for writing.
#[derive(Debug, Clone, Copy, PartialEq, Eq, Structural)]
pub enum ScanLock {
    S(u64),
    X(u64),
}

impl ScanLock {
    pub open spec fn page(self) -> u64 {
        match self {
            ScanLock::S(pid) => pid,
            ScanLock::X(pid) => pid,
        }
    }

    pub(crate) fn page_id(&self) -> (r: u64)
        ensures
            r == self.page(),
    {
        match self {
            ScanLock::S(pid) => *pid,
            ScanLock::X(pid) => *pid,
        }
    }
}

/// The key right after `k`.
pub open spec fn successor(k: Seq<u8>) -> Seq<u8> {
    k.push(0u8)
}

/// No key lies between `k` and its successor.
pub proof fn lemma_successor(k: Seq<u8>, x: Seq<u8>)
    ensures
        order::lex_lt(k, x) <==> order::lex_le(successor(k), x),
        order::lex_lt(k, successor(k)),
    decreases k.len(),
{
    reveal_with_fuel(order::lex_lt, 2);
    let s = successor(k);
    if k.len() == 0 {
        assert(s[0] == 0u8);
        if x.len() > 0 {
            if x[0] == 0u8 {
                assert(s.skip(1).len() == 0);
                if x.skip(1).len() == 0 {
                    assert(s =~= x);
                }
            }
        } else {
            assert(x =~= Seq::<u8>::empty());
            assert(s != x);
        }
    } else {
        assert(s[0] == k[0]);
        assert(s.skip(1) =~= successor(k.skip(1)));
        if x.len() > 0 && x[0] == k[0] {
            lemma_successor(k.skip(1), x.skip(1));
            if s.skip(1) == x.skip(1) {
                assert(s =~= seq![s[0]] + s.skip(1));
                assert(x =~= seq![x[0]] + x.skip(1));
            }
        } else {
            lemma_successor(k.skip(1), k.skip(1));
            if x.len() == 0 {
                assert(s != x);
            }
        }
    }
}

/// Below an upper bound, if there is one.
pub open spec fn below(k: Seq<u8>, hi: Option<Seq<u8>>) -> bool {
    hi matches Some(h) ==> order::lex_lt(k, h)
}

/// The place fits the page.
pub open spec fn place_fits(s: PageState, pos: ScanPosition, cache_only: bool) -> bool {
    match pos {
        ScanPosition::Base(_) => !cache_only && s is Base,
        ScanPosition::Full(_) => !cache_only && s is Full,
        ScanPosition::Mini(_) => cache_only && s is Mini,
        ScanPosition::Null => cache_only && s is Null,
    }
}

/// A scan that is at `cursor` stands at `pos` of leaf page `pid`, which holds
/// the keys up to `hi`.
pub open spec fn positioned(
    c: Core,
    cache_only: bool,
    pid: int,
    pos: ScanPosition,
    cursor: Seq<u8>,
    hi: Option<Seq<u8>>,
) -> bool {
    &&& 0 <= pid < c.pages.len()
    &&& place_fits(c.pages[pid], pos, cache_only)
    &&& pos.offset() <= c.pages[pid].top().len()
    &&& leaf_node::is_lower_bound(c.pages[pid].top(), cursor, pos.offset())
    &&& forall|k: Seq<u8>|
        order::lex_le(cursor, k) && below(k, hi) ==> #[trigger] c.leaf_of(k) == pid
    &&& forall|k: Seq<u8>| #[trigger] c.leaf_of(k) == pid ==> below(k, hi)
    &&& hi matches Some(h) ==> h.len() > 0 && order::lex_le(cursor, h)
}

/// Searches of readers are answered as before.
pub open spec fn same_answers(before: Core, after: Core) -> bool {
    forall|k: Seq<u8>|
        leaf_node::live(#[trigger] after.find(k)) == leaf_node::live(before.find(k))
}

pub proof fn lemma_same_view(before: Core, after: Core)
    requires
        same_answers(before, after),
    ensures
        after.view() == before.view(),
{
    assert forall|k: Seq<u8>| #[trigger] after.view().dom().contains(k)
        == before.view().dom().contains(k) by {
        assert(leaf_node::live(after.find(k)) == leaf_node::live(before.find(k)));
    }
    assert forall|k: Seq<u8>| after.view().dom().contains(k) implies #[trigger] after.view()[k]
        == before.view()[k] by {
        assert(leaf_node::live(after.find(k)) == leaf_node::live(before.find(k)));
    }
    assert(after.view() =~= before.view());
}

/// A tree that a scan can run on.
pub open spec fn scannable(t: &BfTree) -> bool {
    &&& t.wf()
    &&& t.admits()
    &&& t.load() + 4 <= PAGE_LIMIT
}

/// What scans leave alone.
pub open spec fn scan_kept(before: &BfTree, after: &BfTree) -> bool {
    &&& scannable(after)
    &&& after.config == before.config
    &&& after.cache_only == before.cache_only
    &&& after.wal == before.wal
    &&& ops::mgr_after(before.snapshot_mgr, after.snapshot_mgr)
    &&& same_answers(before.model(), after.model())
}

impl BfTree {
    /// The place of `key` in leaf page `pid`, whose records stand for all its
    /// keys.
    fn get_scan_position(&self, pid: u64, key: &[u8]) -> (r: Option<ScanPosition>)
        requires
            self.wf(),
            pid < self.model().pages.len(),
        ensures
            r is None <==> (!self.cache_only && (self.model().pages[pid as int] is Mini
                || self.model().pages[pid as int] is Null)),
            r matches Some(pos) ==> {
                &&& place_fits(self.model().pages[pid as int], pos, self.cache_only)
                &&& pos.offset() <= self.model().pages[pid as int].top().len()
                &&& leaf_node::is_lower_bound(
                    self.model().pages[pid as int].top(),
                    key@,
                    pos.offset(),
                )
            },
    {
        let ghost s = self.model().pages[pid as int];
        proof {
            self.config.lemma_params();
            assert(s.ok(self.params()));
            assert(s == self.storage.page_table@[pid as int]@);
            inner_node::lemma_count(s.top());
        }
        match self.storage.page_table.get(pid) {
            PageLocation::Null(_) => if self.cache_only {
                Some(ScanPosition::Null)
            } else {
                None
            },
            PageLocation::Base(n) => {
                let i = leaf_node::lower_bound(&n.records, key);
                Some(ScanPosition::Base(i as u32))
            },
            PageLocation::Full(n) => {
                let i = leaf_node::lower_bound(&n.records, key);
                Some(ScanPosition::Full(i as u32))
            },
            PageLocation::Mini(n, _) => if self.cache_only {
                let i = leaf_node::lower_bound(&n.records, key);
                Some(ScanPosition::Mini(i as u32))
            } else {
                None
            },
        }
    }
}

/// Whether another attempt to reach the leaf page of `key` can fail.
pub open spec fn hurdles(c: Core, key: Seq<u8>, aggressive_split: bool) -> nat {
    (if c.pages[c.leaf_of(key)] is Mini {
        2nat
    } else {
        0nat
    }) + (if aggressive_split {
        0nat
    } else {
        1nat
    })
}

/// The scan has reached leaf page `pid` at the place of `key`.
pub open spec fn reached(t: &BfTree, pid: int, pos: ScanPosition, key: Seq<u8>) -> bool {
    &&& t.model().leaf_of(key) == pid
    &&& 0 <= pid < t.model().pages.len()
    &&& place_fits(t.model().pages[pid], pos, t.cache_only)
    &&& pos.offset() <= t.model().pages[pid].top().len()
    &&& leaf_node::is_lower_bound(t.model().pages[pid].top(), key, pos.offset())
}

/// What comes of a page on disk: it is copied to the cache if it holds anything,
/// which fails if the cache has no room.
pub open spec fn page_promoted(
    before: &BfTree,
    after: &BfTree,
    pid: int,
    r: Result<ScanPosition, TreeError>,
) -> bool {
    let filled = before.model().pages[pid].top().len() > 0;
    match r {
        Ok(pos) => if filled {
            pos is Full && before.cache_takes_page()
        } else {
            pos is Base
        },
        Err(e) => {
            &&& e == TreeError::CircularBufferFull
            &&& filled
            &&& !before.cache_takes_page()
            &&& *after == *before
        },
    }
}

/// The node above the leaf page has no room for another page.
pub open spec fn parent_full(c: Core, p: Params, d: &Descent) -> bool {
    d.parent is Some && c.sk.nodes[(d.parent->0).0 as int].keys.len() >= p.fanout
}

/// What comes of a page with a delta: the delta is merged into the page below,
/// unless the parent node could not take another page. A page that is cut on the
/// way has to be looked for anew; another one may be copied to the cache, and is if
/// every scan promotes, which fails if the cache has no room.
pub open spec fn delta_merged(
    before: &BfTree,
    after: &BfTree,
    d: &Descent,
    r: Result<ScanPosition, TreeError>,
) -> bool {
    let s = after.model().pages[d.pid as int];
    if parent_full(before.model(), before.params(), d) {
        r == Err::<ScanPosition, TreeError>(TreeError::NeedRestart) && *after == *before
    } else {
        match r {
            Ok(pos) => {
                &&& after.model().pages.len() == before.model().pages.len()
                &&& s.top().len() == 0 ==> pos is Base
                &&& before.config.scan_promotion_rate == 0 ==> pos is Base
                &&& before.config.scan_promotion_rate >= 100 && s.top().len() > 0 ==> pos is Full
            },
            Err(TreeError::CircularBufferFull) => {
                &&& after.model().pages.len() == before.model().pages.len()
                &&& s is Base
                &&& s.top().len() > 0
                &&& !after.cache_takes_page()
                &&& before.config.scan_promotion_rate > 0
            },
            Err(e) => {
                &&& e == TreeError::NeedRestart
                &&& after.model().pages.len() == before.model().pages.len() + 1
                &&& s is Base
            },
        }
    }
}

/// Copies the page of `key` to the cache, or merges the delta over it, so that
/// one page holds all its records.
fn promote_or_merge_mini_page(
    tree: &mut BfTree,
    g: &CPRSnapshotGuard,
    key: &[u8],
    d: &Descent,
) -> (r: Result<ScanPosition, TreeError>)
    requires
        old(tree).wf(),
        old(tree).guard_ok(g),
        old(tree).load() + 4 <= PAGE_LIMIT,
        !old(tree).cache_only,
        d.ok(old(tree).model(), key@),
        d.parent is Some,
        old(tree).model().pages[d.pid as int] is Base || old(tree).model().pages[d.pid as int] is Mini,
    ensures
        final(tree).wf(),
        final(tree).guard_ok(g),
        final(tree).load() + 4 <= PAGE_LIMIT,
        final(tree).same_settings(old(tree)),
        same_answers(old(tree).model(), final(tree).model()),
        promote::way_ahead(final(tree).model(), key@) <= promote::way_ahead(
            old(tree).model(),
            key@,
        ),
        match r {
            Ok(pos) => reached(&*final(tree), d.pid as int, pos, key@),
            Err(TreeError::CircularBufferFull) => final(tree).model().leaf_of(key@) == d.pid,
            Err(_) => final(tree).model().leaf_of(key@) == d.pid || !(final(
                tree).model().pages[final(tree).model().leaf_of(key@)] is Mini),
        },
        if old(tree).model().pages[d.pid as int] is Base {
            page_promoted(&*old(tree), &*final(tree), d.pid as int, r)
        } else {
            delta_merged(&*old(tree), &*final(tree), d, r)
        },
{
    let ghost c = tree.model();
    let ghost p = tree.params();
    let pid = d.pid;
    proof {
        assert forall|k: Seq<u8>| 0 <= #[trigger] c.leaf_of(k) < c.pages.len() by {
            c.sk.lemma_route_valid(c.pages.len(), p, c.root, k);
        }
        assert(c.pages[pid as int].ok(p));
    }
    let (kind, _) = tree.page_kind(pid);
    match kind {
        PageKind::Mini => {
            let fanout = tree.config.max_separators();
            let (parent, _) = d.parent.unwrap();
            assert(c.sk.nodes[parent as int] == tree.inners@[parent as int]@);
            if tree.inners[parent].keys.len() >= fanout {
                return Err(TreeError::NeedRestart);
            }
            let merged = tree.try_merge_mini_page(g, d, Ghost(key@));
            let ghost c1 = tree.model();
            proof {
                promote::lemma_way_merged(c, c1, key@, pid as int);
            }
            match merged {
                MergeResult::NoSplit => {
                    let promoted = promote_merged(tree, g, key, pid);
                    proof {
                        assert(c1.leaf_of(key@) == c.leaf_of(key@));
                        let c2 = tree.model();
                        assert forall|k: Seq<u8>|
                            leaf_node::live(#[trigger] c2.find(k)) == leaf_node::live(
                                c.find(k),
                            ) by {
                            assert(c2.find(k) == c1.find(k));
                            assert(leaf_node::live(c1.find(k)) == leaf_node::live(c.find(k)));
                        }
                    }
                    match promoted {
                        Err(e) => Err(e),
                        Ok(copied) => match tree.get_scan_position(pid, key) {
                            Some(pos) => {
                                assert(copied == (tree.model().pages[pid as int] is Full));
                                Ok(pos)
                            },
                            None => Err(TreeError::NeedRestart),
                        },
                    }
                },
                MergeResult::MergeAndSplit => {
                    proof {
                        assert(c1.leaf_of(key@) == c.leaf_of(key@) || c1.leaf_of(key@)
                            == c.pages.len());
                    }
                    // The leaf page was cut, and `key` may belong to the other half.
                    Err(TreeError::NeedRestart)
                },
            }
        },
        PageKind::Base | PageKind::Full | PageKind::Null => {
            let (_, used) = tree.page_kind(pid);
            if used > 0 {
                let promoted = tree.upgrade_to_full_page(g, pid);
                proof {
                    promote::lemma_way_same(c, tree.model(), key@);
                    assert(tree.model().leaf_of(key@) == c.leaf_of(key@));
                }
                if !promoted {
                    return Err(TreeError::CircularBufferFull);
                }
            }
            match tree.get_scan_position(pid, key) {
                Some(pos) => Ok(pos),
                None => Err(TreeError::NeedRestart),
            }
        },
    }
}

/// After a merge: copies the page to the cache if the lottery says so and it holds
/// anything, which fails if the cache has no room. Says whether it was copied.
fn promote_merged(tree: &mut BfTree, g: &CPRSnapshotGuard, key: &[u8], pid: u64) -> (r: Result<
    bool,
    TreeError,
>)
    requires
        old(tree).wf(),
        old(tree).guard_ok(g),
        old(tree).load() + 4 <= PAGE_LIMIT,
        pid < old(tree).model().pages.len(),
        old(tree).model().pages[pid as int] is Base,
        !old(tree).root.spec_is_id(),
    ensures
        final(tree).wf(),
        final(tree).guard_ok(g),
        final(tree).load() + 4 <= PAGE_LIMIT,
        final(tree).same_settings(old(tree)),
        final(tree).model().pages.len() == old(tree).model().pages.len(),
        final(tree).model().pages[pid as int] is Base || final(tree).model().pages[pid as int] is Full,
        r == Ok::<bool, TreeError>(true) <==> final(tree).model().pages[pid as int] is Full,
        r matches Err(e) ==> e == TreeError::CircularBufferFull,
        r != Ok::<bool, TreeError>(false) ==> {
            &&& old(tree).model().pages[pid as int].top().len() > 0
            &&& r is Ok <==> old(tree).cache_takes_page()
            &&& old(tree).config.scan_promotion_rate > 0
        },
        r != Ok::<bool, TreeError>(true) ==> final(tree).model() == old(tree).model() && final(
            tree).storage == old(tree).storage,
        old(tree).config.scan_promotion_rate >= 100 && old(
            tree).model().pages[pid as int].top().len() > 0 ==> r != Ok::<bool, TreeError>(false),
        forall|i: int|
            0 <= i < old(tree).model().pages.len() && i != pid ==> #[trigger] final(
                tree).model().pages[i] == old(tree).model().pages[i],
        final(tree).model().pages[pid as int].fence()
            == old(tree).model().pages[pid as int].fence(),
        final(tree).model().pages[pid as int].top() == old(tree).model().pages[pid as int].top(),
        promote::way_ahead(final(tree).model(), key@) <= promote::way_ahead(
            old(tree).model(),
            key@,
        ),
        forall|k: Seq<u8>| #[trigger] final(tree).model().leaf_of(k) == old(tree).model().leaf_of(k),
        forall|k: Seq<u8>| #[trigger] final(tree).model().find(k) == old(tree).model().find(k),
{
    let ghost c = tree.model();
    assert(c.pages[pid as int].ok(tree.params()));
    if tree.should_promote_scan_page() {
        let (_, used) = tree.page_kind(pid);
        if used > 0 {
            let promoted = tree.upgrade_to_full_page(g, pid);
            proof {
                promote::lemma_way_same(c, tree.model(), key@);
            }
            if !promoted {
                return Err(TreeError::CircularBufferFull);
            }
            return Ok(true);
        }
    }
    Ok(false)
}

/// Copies the page of `key` to the cache, or merges the delta over it. A scan that
/// has tried before stays on disk if the cache is full: that is a matter of speed
/// alone.
fn promote_or_stay(
    tree: &mut BfTree,
    g: &CPRSnapshotGuard,
    key: &[u8],
    d: &Descent,
    aggressive_split: bool,
) -> (r: Result<ScanPosition, TreeError>)
    requires
        old(tree).wf(),
        old(tree).guard_ok(g),
        old(tree).load() + 4 <= PAGE_LIMIT,
        !old(tree).cache_only,
        d.ok(old(tree).model(), key@),
        d.parent is Some,
        aggressive_split ==> !parent_full(old(tree).model(), old(tree).params(), d),
        old(tree).model().pages[d.pid as int] is Base ==> old(tree).config.scan_promotion_rate > 0,
        old(tree).model().pages[d.pid as int] is Base || old(tree).model().pages[d.pid as int] is Mini,
    ensures
        final(tree).wf(),
        final(tree).guard_ok(g),
        final(tree).load() + 4 <= PAGE_LIMIT,
        final(tree).same_settings(old(tree)),
        same_answers(old(tree).model(), final(tree).model()),
        promote::way_ahead(final(tree).model(), key@) <= promote::way_ahead(
            old(tree).model(),
            key@,
        ),
        match r {
            Ok(pos) => reached(&*final(tree), d.pid as int, pos, key@),
            Err(e) => {
                &&& hurdles(final(tree).model(), key@, true) < hurdles(
                    old(tree).model(),
                    key@,
                    aggressive_split,
                )
                &&& failed(&*old(tree), &*final(tree), key@, aggressive_split, e)
            },
        },
{
    let r = promote_or_merge_mini_page(tree, g, key, d);
    proof {
        let c = tree.model();
        c.sk.lemma_route_valid(c.pages.len(), tree.params(), c.root, key@);
    }
    match r {
        Err(TreeError::CircularBufferFull) => if aggressive_split {
            match tree.get_scan_position(d.pid, key) {
                Some(pos) => Ok(pos),
                None => Err(TreeError::NeedRestart),
            }
        } else {
            r
        },
        _ => r,
    }
}

/// Some way to the leaf page of `key` ends at a node that has no room for another
/// page.
pub open spec fn way_full(c: Core, p: Params, key: Seq<u8>) -> bool {
    exists|d: Descent| #[trigger] d.ok(c, key) && parent_full(c, p, &d)
}

/// Why an attempt to reach the leaf page of `key` failed. With a delta over the
/// page, no room above it or a cut ask for another attempt; a full cache fails the
/// first attempt to copy a page to it.
pub open spec fn failed(
    before: &BfTree,
    after: &BfTree,
    key: Seq<u8>,
    aggressive_split: bool,
    e: TreeError,
) -> bool {
    let s = before.model().pages[before.model().leaf_of(key)];
    &&& !before.cache_only
    &&& !before.root.spec_is_id()
    &&& match e {
        TreeError::NeedRestart => s is Mini && (after.model().pages.len()
            == before.model().pages.len() + 1 || (!aggressive_split && way_full(
            before.model(),
            before.params(),
            key,
        ) && after.model() == before.model())),
        TreeError::CircularBufferFull => {
            &&& !aggressive_split
            &&& before.config.scan_promotion_rate > 0
            &&& !after.cache_takes_page()
            &&& s is Mini || (s is Base && s.top().len() > 0 && after.model() == before.model())
        },
        TreeError::Locked => false,
    }
}

/// Which lock a scan has on the leaf page of `key`: one to read it where it is, or
/// one to write, which it takes to copy the page to the cache or to merge the delta
/// over it.
pub open spec fn lock_taken(before: &BfTree, key: Seq<u8>, lock: ScanLock) -> bool {
    let s = before.model().pages[before.model().leaf_of(key)];
    let rate = before.config.scan_promotion_rate;
    let in_place = before.cache_only || before.root.spec_is_id() || s is Full || (s is Base && rate
        == 0);
    &&& in_place ==> lock is S
    &&& !in_place && (s is Mini || rate >= 100) ==> lock is X
}

/// Where the keys of leaf page `pid` end: at its fence, or, without a disk, at
/// the separator that the way to it showed.
pub open spec fn upper_end(
    c: Core,
    cache_only: bool,
    pid: int,
    next_key: Seq<u8>,
) -> Option<Seq<u8>> {
    if cache_only {
        if next_key.len() == 0 {
            None
        } else {
            Some(next_key)
        }
    } else {
        c.pages[pid].fence().hi
    }
}

/// A page on disk holds the keys between its fences.
proof fn lemma_fenced(c: Core, p: Params, pid: int, key: Seq<u8>)
    requires
        c.wf(p),
        !p.cache_only,
        c.leaf_of(key) == pid,
    ensures
        ({
            let hi = c.pages[pid].fence().hi;
            &&& forall|k: Seq<u8>|
                order::lex_le(key, k) && below(k, hi) ==> #[trigger] c.leaf_of(k) == pid
            &&& forall|k: Seq<u8>| #[trigger] c.leaf_of(k) == pid ==> below(k, hi)
            &&& hi matches Some(h) ==> h.len() > 0 && order::lex_le(key, h)
        }),
{
    order::lemma_lex_order();
    c.sk.lemma_route_valid(c.pages.len(), p, c.root, key);
    let f = c.pages[pid].fence();
    let hi = f.hi;
    assert(!(c.pages[c.leaf_of(key)] is Null));
    assert(f.contains(key));
    assert forall|k: Seq<u8>| order::lex_le(key, k) && below(k, hi) implies #[trigger] c.leaf_of(k)
        == pid by {
        assert(f.contains(k));
    }
    assert forall|k: Seq<u8>| #[trigger] c.leaf_of(k) == pid implies below(k, hi) by {
        assert(f.contains(k));
    }
}

/// The attempt is over: the slot is given back.
fn finish(tree: &mut BfTree, g: CPRSnapshotGuard, Ghost(start): Ghost<BfTree>)
    requires
        old(tree).wf(),
        old(tree).guard_ok(&g),
        old(tree).load() + 4 <= PAGE_LIMIT,
        scannable(&start),
        exists|t0: BfTree|
            #![trigger old(tree).same_settings(&t0)]
            old(tree).same_settings(&t0) && t0.config == start.config && t0.cache_only
                == start.cache_only && t0.wal == start.wal && crate::snapshot::guard_taken(
                start.snapshot_mgr,
                t0.snapshot_mgr,
                Ok::<CPRSnapshotGuard, ()>(g),
            ),
        same_answers(start.model(), old(tree).model()),
    ensures
        scan_kept(&start, &*final(tree)),
        final(tree).model() == old(tree).model(),
        final(tree).storage == old(tree).storage,
        forall|i: int| #[trigger]
            tree::page_free(old(tree).snapshot_mgr, i) ==> tree::page_free(
                final(tree).snapshot_mgr,
                i,
            ),
{
    let ghost t0 = choose|t0: BfTree|
        #![trigger old(tree).same_settings(&t0)]
        old(tree).same_settings(&t0) && t0.config == start.config && t0.cache_only
            == start.cache_only && t0.wal == start.wal && crate::snapshot::guard_taken(
            start.snapshot_mgr,
            t0.snapshot_mgr,
            Ok::<CPRSnapshotGuard, ()>(g),
        );
    tree.leave(g);
    proof {
        if start.snapshot_mgr is Some {
            let m = start.snapshot_mgr->0;
            assert((tree.snapshot_mgr->0).thread_slots@ =~= m.thread_slots@);
            assert((tree.snapshot_mgr->0).thread_local_states@ =~= m.thread_local_states@);
        }
    }
}

/// Goes to the leaf page of `key`, to write to it.
fn move_cursor_to_leaf_mut(tree: &mut BfTree, key: &[u8], aggressive_split: bool) -> (r: Result<
    (ScanPosition, u64),
    TreeError,
>)
    requires
        scannable(&*old(tree)),
        !old(tree).cache_only,
    ensures
        scan_kept(&*old(tree), &*final(tree)),
        promote::way_ahead(final(tree).model(), key@) <= promote::way_ahead(
            old(tree).model(),
            key@,
        ),
        match r {
            Ok((pos, pid)) => final(tree).model().leaf_of(key@) == pid && positioned(
                final(tree).model(),
                false,
                pid as int,
                pos,
                key@,
                upper_end(final(tree).model(), false, pid as int, Seq::empty()),
            ),
            Err(e) => {
                &&& hurdles(final(tree).model(), key@, true) < hurdles(
                    old(tree).model(),
                    key@,
                    aggressive_split,
                )
                &&& failed(&*old(tree), &*final(tree), key@, aggressive_split, e)
            },
        },
{
    let ghost start = *tree;
    let ghost p = tree.params();
    let g = tree.enter();
    let ghost t0 = *tree;
    let d = tree.traverse_to_leaf(&g, key, aggressive_split);
    let ghost c1 = tree.model();
    proof {
        ops::lemma_found_same(start.model(), c1);
        promote::lemma_way_same(start.model(), c1, key@);
        assert(c1.leaf_of(key@) == start.model().leaf_of(key@));
    }
    let pid = d.pid;
    let is_root = d.parent.is_none();
    let mut direct = tree.get_scan_position(pid, key);
    assert(!(c1.pages[c1.leaf_of(key@)] is Null));
    if let Some(ScanPosition::Base(_)) = direct {
        if !is_root && tree.should_promote_scan_page() {
            direct = None;
        }
    }
    let r = match direct {
        Some(pos) => Ok(pos),
        None => promote_or_stay(tree, &g, key, &d, aggressive_split),
    };
    proof {
        if r is Ok {
            lemma_fenced(tree.model(), p, pid as int, key@);
        }
        assert(tree.same_settings(&t0));
    }
    finish(tree, g, Ghost(start));
    match r {
        Ok(pos) => Ok((pos, pid)),
        Err(e) => Err(e),
    }
}

/// Goes to the leaf page of `key`. Also returns the least key beyond it if the
/// tree has no disk.
fn move_cursor_to_leaf(tree: &mut BfTree, key: &[u8], aggressive_split: bool) -> (r: Result<
    (ScanPosition, ScanLock, Vec<u8>),
    TreeError,
>)
    requires
        scannable(&*old(tree)),
    ensures
        scan_kept(&*old(tree), &*final(tree)),
        promote::way_ahead(final(tree).model(), key@) <= promote::way_ahead(
            old(tree).model(),
            key@,
        ),
        match r {
            Ok((pos, lock, next_key)) => lock_taken(&*old(tree), key@, lock) && final(
                tree).model().leaf_of(key@) == lock.page() && positioned(
                final(tree).model(),
                final(tree).cache_only,
                lock.page() as int,
                pos,
                key@,
                upper_end(
                    final(tree).model(),
                    final(tree).cache_only,
                    lock.page() as int,
                    next_key@,
                ),
            ),
            Err(e) => {
                &&& hurdles(final(tree).model(), key@, true) < hurdles(
                    old(tree).model(),
                    key@,
                    aggressive_split,
                )
                &&& failed(&*old(tree), &*final(tree), key@, aggressive_split, e)
            },
        },
{
    let ghost start = *tree;
    let ghost p = tree.params();
    let g = tree.enter();
    let ghost t0 = *tree;
    let d = tree.traverse_to_leaf(&g, key, aggressive_split);
    let ghost c1 = tree.model();
    proof {
        ops::lemma_found_same(start.model(), c1);
        promote::lemma_way_same(start.model(), c1, key@);
        assert(c1.leaf_of(key@) == start.model().leaf_of(key@));
    }
    let pid = d.pid;
    let is_root = d.parent.is_none();
    let direct = tree.get_scan_position(pid, key);
    assert(c1.pages[pid as int].ok(p));
    let promote_it = match direct {
        Some(ScanPosition::Base(_)) => !is_root && tree.should_promote_scan_page(),
        Some(_) => false,
        None => {
            assert(!(c1.pages[c1.leaf_of(key@)] is Null));
            true
        },
    };
    if !promote_it {
        match direct {
            Some(pos) => {
                proof {
                    if !tree.cache_only {
                        lemma_fenced(tree.model(), p, pid as int, key@);
                    } else {
                        lemma_ranged(tree.model(), &d, key@);
                    }
                    assert(tree.same_settings(&t0));
                }
                finish(tree, g, Ghost(start));
                return Ok((pos, ScanLock::S(pid), d.next_key));
            },
            None => {},
        }
    }
    let r = promote_or_stay(tree, &g, key, &d, aggressive_split);
    proof {
        if r is Ok {
            lemma_fenced(tree.model(), p, pid as int, key@);
        }
        assert(tree.same_settings(&t0));
    }
    finish(tree, g, Ghost(start));
    match r {
        Ok(pos) => Ok((pos, ScanLock::X(pid), d.next_key)),
        Err(e) => Err(e),
    }
}

/// A leaf page holds the keys of its range.
proof fn lemma_ranged(c: Core, d: &Descent, key: Seq<u8>)
    requires
        d.ok(c, key),
    ensures
        ({
            let hi = upper_end(c, true, d.pid as int, d.next_key@);
            &&& forall|k: Seq<u8>|
                order::lex_le(key, k) && below(k, hi) ==> #[trigger] c.leaf_of(k) == d.pid
            &&& forall|k: Seq<u8>| #[trigger] c.leaf_of(k) == d.pid ==> below(k, hi)
            &&& hi matches Some(h) ==> h.len() > 0 && order::lex_le(key, h)
        }),
{
    order::lemma_lex_order();
    let f = d.range(c);
    let hi = upper_end(c, true, d.pid as int, d.next_key@);
    assert(hi == f.hi) by {
        if f.hi is Some {
            assert(d.next_key@ == f.hi->0);
        }
    }
    assert forall|k: Seq<u8>| order::lex_le(key, k) && below(k, hi) implies #[trigger] c.leaf_of(k)
        == d.pid by {
        assert(f.contains(k));
    }
    assert forall|k: Seq<u8>| #[trigger] c.leaf_of(k) == d.pid implies below(k, hi) by {
        assert(f.contains(k));
    }
}

impl BfTree {
    /// The record at `pos` of leaf page `pid`, copied to `out_buffer` unless it
    /// is dead or lies beyond `end_key`.
    fn scan_record_by_pos_with_bound(
        &self,
        pid: u64,
        pos: &ScanPosition,
        out_buffer: &mut [u8],
        return_field: ScanReturnField,
        end_key: &Option<Vec<u8>>,
    ) -> (r: GetScanRecordByPosResult)
        requires
            self.wf(),
            pid < self.model().pages.len(),
            place_fits(self.model().pages[pid as int], *pos, self.cache_only),
            pos.offset() < self.model().pages[pid as int].top().len() ==> ({
                let rec = self.model().pages[pid as int].top()[pos.offset()];
                rec.op.is_live() && (*end_key matches Some(e) ==> !order::lex_lt(e@, rec.key))
                    ==> return_field.pick(rec.key, rec.value).len() <= old(out_buffer)@.len()
            }),
        ensures
            final(out_buffer)@.len() == old(out_buffer)@.len(),
            record_read(
                self.model().pages[pid as int].top(),
                pos.offset(),
                return_field,
                match *end_key {
                    Some(e) => Some(e@),
                    None => None,
                },
                old(out_buffer)@,
                final(out_buffer)@,
                r,
            ),
    {
        let ghost s = self.model().pages[pid as int];
        proof {
            self.config.lemma_params();
            assert(s.ok(self.params()));
            assert(s == self.storage.page_table@[pid as int]@);
        }
        let (records, i): (&Vec<LeafRecord>, usize) = match (self.storage.page_table.get(pid), pos) {
            (PageLocation::Base(n), ScanPosition::Base(i)) => (&n.records, *i as usize),
            (PageLocation::Full(n), ScanPosition::Full(i)) => (&n.records, *i as usize),
            (PageLocation::Mini(n, _), ScanPosition::Mini(i)) => (&n.records, *i as usize),
            _ => {
                return GetScanRecordByPosResult::EndOfLeaf;
            },
        };
        assert(image::recs(records@) == s.top());
        if i >= records.len() {
            return GetScanRecordByPosResult::EndOfLeaf;
        }
        let rec = &records[i];
        assert(rec@ == s.top()[i as int]);
        if let Some(e) = end_key {
            if key_lt(e.as_slice(), rec.key.as_slice()) {
                return GetScanRecordByPosResult::BoundKeyExceeded;
            }
        }
        if !rec.op_type.live() {
            return GetScanRecordByPosResult::Deleted;
        }
        let kl = rec.key.len();
        let vl = rec.value.len();
        let ghost before = out_buffer@;
        match return_field {
            ScanReturnField::Key => {
                copy_into(out_buffer, 0, rec.key.as_slice());
                assert(out_buffer@ =~= rec@.key + before.skip(kl as int));
                GetScanRecordByPosResult::Found(kl as u32, 0)
            },
            ScanReturnField::Value => {
                copy_into(out_buffer, 0, rec.value.as_slice());
                assert(out_buffer@ =~= rec@.value + before.skip(vl as int));
                GetScanRecordByPosResult::Found(0, vl as u32)
            },
            ScanReturnField::KeyAndValue => {
                copy_into(out_buffer, 0, rec.key.as_slice());
                copy_into(out_buffer, kl, rec.value.as_slice());
                assert(out_buffer@ =~= rec@.key + rec@.value + before.skip(kl + vl));
                GetScanRecordByPosResult::Found(kl as u32, vl as u32)
            },
        }
    }

    /// The upper fence of leaf page `pid`; empty if there is no leaf page
    /// beyond it.
    fn get_right_sibling(&self, pid: u64) -> (r: Vec<u8>)
        requires
            self.wf(),
            pid < self.model().pages.len(),
            !self.cache_only,
        ensures
            match self.model().pages[pid as int].fence().hi {
                Some(h) => h.len() > 0 ==> r@ == h,
                None => r@.len() == 0,
            },
    {
        let ghost s = self.model().pages[pid as int];
        proof {
            assert(s.ok(self.params()));
            assert(s == self.storage.page_table@[pid as int]@);
        }
        match self.storage.page_table.get(pid) {
            PageLocation::Base(n) => to_vec(n.high_fence.as_slice()),
            PageLocation::Full(n) => to_vec(n.high_fence.as_slice()),
            PageLocation::Mini(_, Some(b)) => to_vec(b.high_fence.as_slice()),
            PageLocation::Mini(n, None) => to_vec(n.high_fence.as_slice()),
            PageLocation::Null(_) => Vec::new(),
        }
    }
}

/// What reading at a position gives.
pub open spec fn record_read(
    top: Seq<RecordView>,
    i: int,
    field: ScanReturnField,
    end_key: Option<Seq<u8>>,
    before: Seq<u8>,
    after: Seq<u8>,
    r: GetScanRecordByPosResult,
) -> bool {
    if i >= top.len() {
        r is EndOfLeaf && after == before
    } else {
        let rec = top[i];
        if end_key is Some && order::lex_lt(end_key->0, rec.key) {
            r is BoundKeyExceeded && after == before
        } else if !rec.op.is_live() {
            r is Deleted && after == before
        } else {
            let bytes = field.pick(rec.key, rec.value);
            let (kl, vl) = field.lengths(rec.key, rec.value);
            &&& r matches GetScanRecordByPosResult::Found(k, v) && k == kl && v == vl
            &&& after == bytes + before.skip(bytes.len() as int)
        }
    }
}

/// What a position says about the keys ahead: nothing that readers see lies
/// between the cursor and the record at the position.
proof fn lemma_at_position(
    c: Core,
    p: Params,
    pid: int,
    pos: ScanPosition,
    cursor: Seq<u8>,
    hi: Option<Seq<u8>>,
)
    requires
        c.wf(p),
        positioned(c, p.cache_only, pid, pos, cursor, hi),
    ensures
        ({
            let top = c.pages[pid].top();
            let i = pos.offset();
            if i < top.len() {
                &&& order::lex_le(cursor, top[i].key)
                &&& c.find(top[i].key) == Some(top[i])
                &&& below(top[i].key, hi)
                &&& forall|k: Seq<u8>| #[trigger]
                    c.view().contains_key(k) && order::lex_le(cursor, k) ==> order::lex_le(
                        top[i].key,
                        k,
                    )
                &&& positioned_after(c, p, pid, pos, top[i].key, hi)
            } else {
                forall|k: Seq<u8>| #[trigger]
                    c.view().contains_key(k) && order::lex_le(cursor, k) ==> (hi matches Some(h)
                        && order::lex_le(h, k))
            }
        }),
{
    order::lemma_lex_order();
    let s = c.pages[pid];
    let top = s.top();
    let i = pos.offset();
    assert(s.ok(p));
    assert(s.below() =~= Seq::<RecordView>::empty());
    assert forall|k: Seq<u8>| c.leaf_of(k) == pid implies #[trigger] c.find(k)
        == leaf_node::lookup(top, k) by {}
    assert forall|k: Seq<u8>| #[trigger]
        c.view().contains_key(k) && order::lex_le(cursor, k) && below(k, hi) implies exists|j: int|
            i <= j < top.len() && (#[trigger] top[j]).key == k by {
        assert(c.leaf_of(k) == pid);
        let j = leaf_node::lemma_lookup_some(top, k);
        assert(top[j].key == k);
        if j < i {
            assert(order::lex_lt(top[j].key, cursor));
        }
    }
    if i < top.len() {
        let kd = top[i].key;
        assert(!order::lex_lt(top[i].key, cursor));
        assert(s.holds_key(kd));
        assert(c.leaf_of(kd) == pid);
        leaf_node::lemma_lookup_at(top, i);
        assert forall|k: Seq<u8>| #[trigger]
            c.view().contains_key(k) && order::lex_le(cursor, k) implies order::lex_le(kd, k) by {
            if below(k, hi) {
                let j = choose|j: int| i <= j < top.len() && (#[trigger] top[j]).key == k;
                if j > i {
                    assert(order::lex_lt(top[i].key, top[j].key));
                }
            }
        }
        let next = successor(kd);
        lemma_successor(kd, kd);
        assert forall|j: int| 0 <= j < i + 1 implies order::lex_lt((#[trigger] top[j]).key, next) by {
            if j < i {
                assert(order::lex_lt(top[j].key, top[i].key));
            }
        }
        assert forall|j: int| i + 1 <= j < top.len() implies !order::lex_lt(
            (#[trigger] top[j]).key,
            next,
        ) by {
            assert(order::lex_lt(top[i].key, top[j].key));
            lemma_successor(kd, top[j].key);
        }
        assert forall|k: Seq<u8>| order::lex_le(next, k) && below(k, hi) implies #[trigger] c.leaf_of(k)
            == pid by {
            assert(order::lex_le(cursor, k));
        }
        if hi is Some {
            lemma_successor(kd, hi->0);
        }
    } else {
        assert forall|k: Seq<u8>| #[trigger]
            c.view().contains_key(k) && order::lex_le(cursor, k) implies (hi matches Some(h)
            && order::lex_le(h, k)) by {
            if below(k, hi) {
                let j = choose|j: int| i <= j < top.len() && (#[trigger] top[j]).key == k;
                assert(false);
            }
        }
    }
}

/// The position after the record with key `kd`.
pub open spec fn positioned_after(
    c: Core,
    p: Params,
    pid: int,
    pos: ScanPosition,
    kd: Seq<u8>,
    hi: Option<Seq<u8>>,
) -> bool {
    let next = successor(kd);
    &&& leaf_node::is_lower_bound(c.pages[pid].top(), next, pos.offset() + 1)
    &&& forall|k: Seq<u8>|
        order::lex_le(next, k) && below(k, hi) ==> #[trigger] c.leaf_of(k) == pid
    &&& hi matches Some(h) ==> order::lex_le(next, h)
}

/// The way ahead of a scan whose leaf page ends at `hi`.
pub open spec fn way_rest(c: Core, hi: Option<Seq<u8>>) -> nat {
    match hi {
        None => 0,
        Some(h) => promote::way_ahead(c, h),
    }
}

/// Reaching the leaf page of `h` shortens the way.
proof fn lemma_way_reached(c: Core, p: Params, h: Seq<u8>, pid: int, hi: Option<Seq<u8>>)
    requires
        c.wf(p),
        c.leaf_of(h) == pid,
        forall|k: Seq<u8>| #[trigger] c.leaf_of(k) == pid ==> below(k, hi),
        hi matches Some(h2) ==> order::lex_le(h, h2),
    ensures
        way_rest(c, hi) < promote::way_ahead(c, h),
{
    match hi {
        Some(h2) => {
            promote::lemma_way_onward(c, p, h, h2, pid);
        },
        None => {
            c.sk.lemma_route_valid(c.pages.len(), p, c.root, h);
            assert(promote::ahead(c, h, pid));
            lemma_way_positive(c, h, c.pages.len(), pid);
        },
    }
}

proof fn lemma_way_positive(c: Core, h: Seq<u8>, n: nat, x: int)
    requires
        0 <= x < n,
        promote::ahead(c, h, x),
    ensures
        promote::way(c, h, n) > 0,
    decreases n,
{
    if x < n - 1 {
        lemma_way_positive(c, h, (n - 1) as nat, x);
    }
}

/// `k` is yet to come in a scan at `cursor` that ends with `end_key`.
pub open spec fn to_come(
    view: Map<Seq<u8>, Seq<u8>>,
    cursor: Seq<u8>,
    end_key: Option<Seq<u8>>,
    k: Seq<u8>,
) -> bool {
    &&& view.contains_key(k)
    &&& order::lex_le(cursor, k)
    &&& end_key matches Some(e) ==> order::lex_le(k, e)
}

/// `k` is the least key that is yet to come.
pub open spec fn comes_next(
    view: Map<Seq<u8>, Seq<u8>>,
    cursor: Seq<u8>,
    end_key: Option<Seq<u8>>,
    k: Seq<u8>,
) -> bool {
    &&& to_come(view, cursor, end_key, k)
    &&& forall|k2: Seq<u8>| #[trigger]
        to_come(view, cursor, end_key, k2) ==> order::lex_le(k, k2)
}

/// What a scan at `cursor` gives next finds room in a buffer of `n` bytes.
pub open spec fn roomy(
    view: Map<Seq<u8>, Seq<u8>>,
    cursor: Seq<u8>,
    end_key: Option<Seq<u8>>,
    field: ScanReturnField,
    n: nat,
) -> bool {
    forall|k: Seq<u8>| #[trigger]
        comes_next(view, cursor, end_key, k) ==> field.pick(k, view[k]).len() <= n
}

/// What a scan at `cursor` gives next: the least key that is yet to come, or
/// nothing if there is none.
pub open spec fn scanned(
    view: Map<Seq<u8>, Seq<u8>>,
    cursor: Seq<u8>,
    end_key: Option<Seq<u8>>,
    field: ScanReturnField,
    before: Seq<u8>,
    after: Seq<u8>,
    next_cursor: Seq<u8>,
    r: Option<(usize, usize)>,
) -> bool {
    match r {
        None => {
            &&& after == before
            &&& forall|k: Seq<u8>| !#[trigger] to_come(view, cursor, end_key, k)
            &&& forall|k: Seq<u8>| !#[trigger] to_come(view, next_cursor, end_key, k)
        },
        Some((kl, vl)) => exists|k: Seq<u8>|
            {
                &&& #[trigger] comes_next(view, cursor, end_key, k)
                &&& (kl as nat, vl as nat) == field.lengths(k, view[k])
                &&& after == field.pick(k, view[k]) + before.skip(
                    field.pick(k, view[k]).len() as int,
                )
                &&& next_cursor == successor(k)
            },
    }
}

/// What a call of `next` gives when `cnt` records are still to be given, and how many
/// are to be given then. A scan without an end key that has given all ends there.
pub open spec fn gives(
    view: Map<Seq<u8>, Seq<u8>>,
    cnt: usize,
    cursor: Seq<u8>,
    end_key: Option<Seq<u8>>,
    field: ScanReturnField,
    before: Seq<u8>,
    after: Seq<u8>,
    next_cnt: usize,
    next_cursor: Seq<u8>,
    r: Option<(usize, usize)>,
) -> bool {
    if cnt == 0 && end_key is None {
        r is None && after == before && next_cnt == 0 && next_cursor == cursor
    } else {
        &&& scanned(view, cursor, end_key, field, before, after, next_cursor, r)
        &&& r is Some ==> next_cnt == if cnt > 0 {
            (cnt - 1) as usize
        } else {
            0
        }
        &&& r is None ==> next_cnt == 0
    }
}

pub open spec fn opt_view(v: Option<Vec<u8>>) -> Option<Seq<u8>> {
    match v {
        None => None,
        Some(x) => Some(x@),
    }
}

/// The scan iterator obtained from [BfTree::scan_with_count] and
/// [BfTree::scan_with_end_key].
pub struct ScanIter<'b> {
    pub tree: &'b mut BfTree,
    pub scan_cnt: usize,
    pub scan_position: ScanPosition,
    pub leaf_lock: ScanLock,
    pub return_field: ScanReturnField,
    pub end_key: Option<Vec<u8>>,
    pub next_key: Vec<u8>,
    /// All keys below have been dealt with.
    pub cursor: Ghost<Seq<u8>>,
}

impl<'b> ScanIter<'b> {
    pub open spec fn hi(&self) -> Option<Seq<u8>> {
        upper_end(
            self.tree.model(),
            self.tree.cache_only,
            self.leaf_lock.page() as int,
            self.next_key@,
        )
    }

    pub open spec fn ok(&self) -> bool {
        &&& scannable(&*self.tree)
        &&& positioned(
            self.tree.model(),
            self.tree.cache_only,
            self.leaf_lock.page() as int,
            self.scan_position,
            self.cursor@,
            self.hi(),
        )
    }

    /// A scan of at most `scan_cnt` records, from `start_key` on.
    pub fn new_with_scan_count(
        tree: &'b mut BfTree,
        start_key: &[u8],
        scan_cnt: usize,
        return_field: ScanReturnField,
    ) -> (r: ScanIter<'b>)
        requires
            scannable(&*old(tree)),
        ensures
            r.ok(),
            scan_kept(&*old(tree), &*r.tree),
            *final(r.tree) == *final(tree),
            r.cursor@ == start_key@,
            r.scan_cnt == scan_cnt,
            r.return_field == return_field,
            r.end_key is None,
    {
        let mut aggressive_split = false;
        let ghost start = *tree;
        loop
            invariant
                scannable(&*tree),
                scan_kept(&start, &*tree),
                *final(tree) == *final(old(tree)),
                start == *old(tree),
            decreases
                    (if aggressive_split {
                        0nat
                    } else {
                        1nat
                    }),
                    hurdles(tree.model(), start_key@, aggressive_split),
        {
            let ghost mid = tree.model();
            match move_cursor_to_leaf(tree, start_key, aggressive_split) {
                Ok((scan_position, leaf_lock, next_key)) => {
                    proof {
                        lemma_answers_chain(start.model(), mid, tree.model());
                    }
                    return ScanIter {
                        tree,
                        scan_cnt,
                        scan_position,
                        leaf_lock,
                        return_field,
                        end_key: None,
                        next_key,
                        cursor: Ghost(start_key@),
                    };
                },
                Err(TreeError::Locked) | Err(TreeError::NeedRestart) => {
                    proof {
                        lemma_answers_chain(start.model(), mid, tree.model());
                    }
                },
                Err(TreeError::CircularBufferFull) => {
                    proof {
                        lemma_answers_chain(start.model(), mid, tree.model());
                    }
                    if !aggressive_split {
                        make_space(tree);
                    }
                    proof {
                        lemma_answers_chain(start.model(), mid, tree.model());
                    }
                },
            }
            aggressive_split = true;
        }
    }

    /// A scan from `start_key` to `end_key`, both included.
    pub fn new_with_end_key(
        tree: &'b mut BfTree,
        start_key: &[u8],
        end_key: &[u8],
        return_field: ScanReturnField,
    ) -> (r: ScanIter<'b>)
        requires
            scannable(&*old(tree)),
        ensures
            r.ok(),
            scan_kept(&*old(tree), &*r.tree),
            *final(r.tree) == *final(tree),
            r.cursor@ == start_key@,
            r.scan_cnt == usize::MAX,
            r.return_field == return_field,
            opt_view(r.end_key) == Some(end_key@),
    {
        let mut si = ScanIter::new_with_scan_count(tree, start_key, usize::MAX, return_field);
        si.end_key = Some(to_vec(end_key));
        si
    }
}

/// Searches that are answered alike twice are answered alike.
proof fn lemma_answers_chain(a: Core, b: Core, c: Core)
    requires
        same_answers(a, b),
        same_answers(b, c),
    ensures
        same_answers(a, c),
{
    assert forall|k: Seq<u8>|
        leaf_node::live(#[trigger] c.find(k)) == leaf_node::live(a.find(k)) by {
        assert(leaf_node::live(b.find(k)) == leaf_node::live(a.find(k)));
    }
}

/// Takes the oldest page out of the cache of a tree on disk.
fn make_space(tree: &mut BfTree)
    requires
        scannable(&*old(tree)),
    ensures
        scan_kept(&*old(tree), &*final(tree)),
        if old(tree).cache_only || old(tree).storage.circular_buffer.entries@.len() == 0 {
            *final(tree) == *old(tree)
        } else {
            let oldest = old(tree).storage.circular_buffer.entries@[0].0 as int;
            &&& final(tree).storage.circular_buffer.entries@
                == old(tree).storage.circular_buffer.entries@.remove(0)
            &&& oldest < old(tree).model().pages.len() ==> !final(
                tree).model().pages[oldest].is_cached()
        },
{
    let ghost start = *tree;
    if tree.cache_only || tree.storage.circular_buffer.entries.len() == 0 {
        return;
    }
    let g = tree.enter();
    let ghost t0 = *tree;
    tree.evict_from_circular_buffer(&g);
    proof {
        assert(tree.same_settings(&t0));
        assert(same_answers(start.model(), tree.model()));
    }
    finish(tree, g, Ghost(start));
}

impl<'b> ScanIter<'b> {
    /// The scan has given as many records as it was asked for.
    pub open spec fn counted_out(&self) -> bool {
        self.scan_cnt == 0 && self.end_key is None
    }

    /// Goes to the leaf page of `key`, which is where the present one ends.
    fn next_leaf(&mut self, key: &[u8])
        requires
            old(self).ok(),
            old(self).hi() == Some(key@),
        ensures
            final(self).ok(),
            *final(final(self).tree) == *final(old(self).tree),
            scan_kept(&*old(self).tree, &*final(self).tree),
            final(self).cursor@ == key@,
            final(self).scan_cnt == old(self).scan_cnt,
            final(self).return_field == old(self).return_field,
            final(self).end_key == old(self).end_key,
            way_rest(final(self).tree.model(), final(self).hi()) < way_rest(
                old(self).tree.model(),
                old(self).hi(),
            ),
    {
        let ghost start = *self.tree;
        let mut aggressive_split = false;
        loop
            invariant
                scannable(&*self.tree),
                start == *old(self).tree,
                scan_kept(&start, &*self.tree),
                *final(self.tree) == *final(old(self).tree),
                self.scan_cnt == old(self).scan_cnt,
                self.return_field == old(self).return_field,
                self.end_key == old(self).end_key,
                old(self).hi() == Some(key@),
                promote::way_ahead(self.tree.model(), key@) <= promote::way_ahead(
                    start.model(),
                    key@,
                ),
            decreases hurdles(self.tree.model(), key@, aggressive_split),
        {
            let ghost mid = self.tree.model();
            let r = move_cursor_to_leaf(self.tree, key, aggressive_split);
            proof {
                lemma_answers_chain(start.model(), mid, self.tree.model());
            }
            match r {
                Ok((pos, lock, next_key)) => {
                    self.scan_position = pos;
                    self.leaf_lock = lock;
                    self.next_key = next_key;
                    self.cursor = Ghost(key@);
                    proof {
                        lemma_way_reached(
                            self.tree.model(),
                            self.tree.params(),
                            key@,
                            lock.page() as int,
                            self.hi(),
                        );
                    }
                    return;
                },
                Err(_) => {
                    aggressive_split = true;
                },
            }
        }
    }

    /// Scan next value into `out_buffer`.
    /// next() terminates if 1) reached the last key. 2) scanned `scan_cnt`
    /// records, if set. 3) reached end_key, if set.
    /// Returns the length of the record fields copied into `out_buffer` or None
    /// if there is no more value.
    pub fn next(&mut self, out_buffer: &mut [u8]) -> (r: Option<(usize, usize)>)
        requires
            old(self).ok(),
            !old(self).counted_out() ==> roomy(
                old(self).tree.model().view(),
                old(self).cursor@,
                opt_view(old(self).end_key),
                old(self).return_field,
                old(out_buffer)@.len(),
            ),
        ensures
            final(self).ok(),
            *final(final(self).tree) == *final(old(self).tree),
            scan_kept(&*old(self).tree, &*final(self).tree),
            final(self).tree.model().view() == old(self).tree.model().view(),
            final(self).return_field == old(self).return_field,
            final(self).end_key == old(self).end_key,
            final(out_buffer)@.len() == old(out_buffer)@.len(),
            gives(
                old(self).tree.model().view(),
                old(self).scan_cnt,
                old(self).cursor@,
                opt_view(old(self).end_key),
                old(self).return_field,
                old(out_buffer)@,
                final(out_buffer)@,
                final(self).scan_cnt,
                final(self).cursor@,
                r,
            ),
            old(self).counted_out() ==> r is None && final(self).counted_out()
                && final(out_buffer)@ == old(out_buffer)@ && final(self).cursor
                == old(self).cursor,
            !old(self).counted_out() ==> scanned(
                old(self).tree.model().view(),
                old(self).cursor@,
                opt_view(old(self).end_key),
                old(self).return_field,
                old(out_buffer)@,
                final(out_buffer)@,
                final(self).cursor@,
                r,
            ),
            r is Some ==> final(self).scan_cnt == if old(self).scan_cnt > 0 {
                (old(self).scan_cnt - 1) as usize
            } else {
                0
            },
            r is None ==> final(self).scan_cnt == 0,
    {
        let ghost start = *self.tree;
        let ghost view = start.model().view();
        let ghost from = self.cursor@;
        if self.scan_cnt == 0 && self.end_key.is_none() {
            return None;
        }
        proof {
            order::lemma_lex_order();
        }
        loop
            invariant
                self.ok(),
                *final(self.tree) == *final(old(self).tree),
                scan_kept(&start, &*self.tree),
                start == *old(self).tree,
                view == start.model().view(),
                self.tree.model().view() == view,
                self.scan_cnt == old(self).scan_cnt,
                self.return_field == old(self).return_field,
                self.end_key == old(self).end_key,
                !old(self).counted_out(),
                from == old(self).cursor@,
                order::lex_le(from, self.cursor@),
                forall|k: Seq<u8>| #[trigger]
                    view.contains_key(k) && order::lex_le(from, k) ==> order::lex_le(
                        self.cursor@,
                        k,
                    ),
                out_buffer@ == old(out_buffer)@,
                roomy(
                    view,
                    from,
                    opt_view(self.end_key),
                    self.return_field,
                    out_buffer@.len(),
                ),
            decreases
                    way_rest(self.tree.model(), self.hi()),
                    self.tree.model().pages[self.leaf_lock.page() as int].top().len()
                        - self.scan_position.offset(),
        {
            let pid = self.leaf_lock.page_id();
            let ghost c = self.tree.model();
            let ghost p = self.tree.params();
            let ghost top = c.pages[pid as int].top();
            let ghost i = self.scan_position.offset();
            let ghost hi = self.hi();
            let ghost end = opt_view(self.end_key);
            proof {
                order::lemma_lex_order();
                lemma_at_position(c, p, pid as int, self.scan_position, self.cursor@, hi);
                self.tree.config.lemma_params();
                assert(c.pages[pid as int].ok(p));
                inner_node::lemma_count(top);
                if i < top.len() && top[i].op.is_live() && (end matches Some(e) ==> !order::lex_lt(
                    e,
                    top[i].key,
                )) {
                    let k = top[i].key;
                    assert(view.contains_key(k));
                    assert(to_come(view, from, end, k));
                    assert forall|k2: Seq<u8>| #[trigger]
                        to_come(view, from, end, k2) implies order::lex_le(k, k2) by {
                        assert(view.contains_key(k2));
                    }
                    assert(comes_next(view, from, end, k));
                }
            }
            let found = self.tree.scan_record_by_pos_with_bound(
                pid,
                &self.scan_position,
                out_buffer,
                self.return_field,
                &self.end_key,
            );
            match found {
                GetScanRecordByPosResult::Deleted => {
                    self.scan_position.move_to_next();
                    self.cursor = Ghost(successor(top[i].key));
                    proof {
                        lemma_successor(top[i].key, top[i].key);
                        assert(!view.contains_key(top[i].key));
                        assert forall|k: Seq<u8>| #[trigger]
                            view.contains_key(k) && order::lex_le(from, k) implies order::lex_le(
                            self.cursor@,
                            k,
                        ) by {
                            lemma_successor(top[i].key, k);
                        }
                    }
                },
                GetScanRecordByPosResult::Found(key_len, value_len) => {
                    self.scan_position.move_to_next();
                    if self.scan_cnt > 0 {
                        self.scan_cnt = self.scan_cnt - 1;
                    }
                    self.cursor = Ghost(successor(top[i].key));
                    proof {
                        lemma_successor(top[i].key, top[i].key);
                        assert(comes_next(view, from, end, top[i].key));
                    }
                    return Some((key_len as usize, value_len as usize));
                },
                GetScanRecordByPosResult::EndOfLeaf => {
                    let right_sibling = if !self.tree.cache_only {
                        self.tree.get_right_sibling(pid)
                    } else {
                        to_vec(self.next_key.as_slice())
                    };
                    if right_sibling.len() == 0 {
                        self.scan_cnt = 0;
                        proof {
                            assert(hi is None);
                            assert forall|k: Seq<u8>| !#[trigger] to_come(
                                view,
                                from,
                                end,
                                k,
                            ) by {
                                if to_come(view, from, end, k) {
                                    assert(view.contains_key(k));
                                }
                            }
                            assert forall|k: Seq<u8>| !#[trigger] to_come(
                                view,
                                self.cursor@,
                                end,
                                k,
                            ) by {
                                if to_come(view, self.cursor@, end, k) {
                                    assert(view.contains_key(k));
                                }
                            }
                        }
                        return None;
                    }
                    assert(hi == Some(right_sibling@));
                    self.next_leaf(right_sibling.as_slice());
                    proof {
                        lemma_same_view(c, self.tree.model());
                        lemma_answers_chain(start.model(), c, self.tree.model());
                        assert forall|k: Seq<u8>| #[trigger]
                            view.contains_key(k) && order::lex_le(from, k) implies order::lex_le(
                            self.cursor@,
                            k,
                        ) by {
                            assert(c.view().contains_key(k));
                        }
                    }
                },
                GetScanRecordByPosResult::BoundKeyExceeded => {
                    self.scan_cnt = 0;
                    proof {
                        assert forall|k: Seq<u8>| !#[trigger] to_come(view, from, end, k) by {
                            if to_come(view, from, end, k) {
                                assert(view.contains_key(k));
                            }
                        }
                        assert forall|k: Seq<u8>| !#[trigger] to_come(
                            view,
                            self.cursor@,
                            end,
                            k,
                        ) by {
                            if to_come(view, self.cursor@, end, k) {
                                assert(view.contains_key(k));
                            }
                        }
                    }
                    return None;
                },
            }
        }
    }
}

/// A scan whose caller may change what it finds. Trees without a disk do not
/// offer it.
pub struct ScanIterMut<'b> {
    pub tree: &'b mut BfTree,
    pub scan_cnt: usize,
    pub scan_position: ScanPosition,
    /// The leaf page that the scan holds.
    pub leaf_lock: u64,
    pub return_field: ScanReturnField,
    pub end_key: Option<Vec<u8>>,
    /// All keys below have been dealt with.
    pub cursor: Ghost<Seq<u8>>,
}

/// Leaf page `pid` may be changed: it is in the cache, or it carries the present
/// version and a snapshot in progress has what it needs of it.
pub open spec fn marked(t: &BfTree, pid: int) -> bool {
    t.model().pages[pid] is Base ==> {
        &&& t.model().pages[pid].version() == tree::present(t.snapshot_mgr)
        &&& tree::page_free(t.snapshot_mgr, pid)
    }
}

/// Marks leaf page `pid` as changed in the present version if it is on disk, once
/// a snapshot in progress has what it needs of it.
fn touch(tree: &mut BfTree, pid: u64)
    requires
        scannable(&*old(tree)),
        pid < old(tree).model().pages.len(),
    ensures
        scan_kept(&*old(tree), &*final(tree)),
        final(tree).storage.circular_buffer == old(tree).storage.circular_buffer,
        if old(tree).model().pages[pid as int] is Base {
            &&& final(tree).model() == old(tree).model().with_page(
                pid as int,
                promote::touched(
                    old(tree).model().pages[pid as int],
                    tree::present(old(tree).snapshot_mgr),
                ),
            )
            &&& tree::page_free(final(tree).snapshot_mgr, pid as int)
        } else {
            *final(tree) == *old(tree)
        },
        final(tree).model().pages.len() == old(tree).model().pages.len(),
        forall|pos: ScanPosition| #[trigger]
            place_fits(old(tree).model().pages[pid as int], pos, old(tree).cache_only)
                ==> place_fits(final(tree).model().pages[pid as int], pos, final(tree).cache_only),
        final(tree).model().pages[pid as int].top() == old(tree).model().pages[pid as int].top(),
        final(tree).model().pages[pid as int].fence()
            == old(tree).model().pages[pid as int].fence(),
        forall|k: Seq<u8>| #[trigger] final(tree).model().leaf_of(k) == old(tree).model().leaf_of(k),
{
    let ghost start = *tree;
    assert(tree.model().pages[pid as int].ok(tree.params()));
    let (kind, _) = tree.page_kind(pid);
    match kind {
        PageKind::Base => {
            let g = tree.enter();
            let ghost t0 = *tree;
            tree.touch_base_page(&g, pid);
            proof {
                assert(tree.same_settings(&t0));
                assert(same_answers(start.model(), tree.model()));
            }
            finish(tree, g, Ghost(start));
        },
        PageKind::Null | PageKind::Full | PageKind::Mini => {},
    }
}

impl<'b> ScanIterMut<'b> {
    pub open spec fn hi(&self) -> Option<Seq<u8>> {
        upper_end(self.tree.model(), false, self.leaf_lock as int, Seq::empty())
    }

    pub open spec fn ok(&self) -> bool {
        &&& scannable(&*self.tree)
        &&& !self.tree.cache_only
        &&& positioned(
            self.tree.model(),
            false,
            self.leaf_lock as int,
            self.scan_position,
            self.cursor@,
            self.hi(),
        )
    }

    /// The scan has given as many records as it was asked for.
    pub open spec fn counted_out(&self) -> bool {
        self.scan_cnt == 0 && self.end_key is None
    }

    /// A scan of at most `scan_cnt` records, from `start_key` on.
    pub fn new_with_scan_count(
        tree: &'b mut BfTree,
        start_key: &[u8],
        scan_cnt: usize,
        return_field: ScanReturnField,
    ) -> (r: ScanIterMut<'b>)
        requires
            scannable(&*old(tree)),
            !old(tree).cache_only,
        ensures
            r.ok(),
            scan_kept(&*old(tree), &*r.tree),
            *final(r.tree) == *final(tree),
            r.cursor@ == start_key@,
            r.scan_cnt == scan_cnt,
            r.return_field == return_field,
            r.end_key is None,
    {
        let mut aggressive_split = false;
        let ghost start = *tree;
        loop
            invariant
                scannable(&*tree),
                scan_kept(&start, &*tree),
                *final(tree) == *final(old(tree)),
                start == *old(tree),
                !start.cache_only,
            decreases
                    (if aggressive_split {
                        0nat
                    } else {
                        1nat
                    }),
                    hurdles(tree.model(), start_key@, aggressive_split),
        {
            let ghost mid = tree.model();
            let r = move_cursor_to_leaf_mut(tree, start_key, aggressive_split);
            proof {
                lemma_answers_chain(start.model(), mid, tree.model());
            }
            match r {
                Ok((scan_position, leaf_lock)) => {
                    return ScanIterMut {
                        tree,
                        scan_cnt,
                        scan_position,
                        leaf_lock,
                        return_field,
                        end_key: None,
                        cursor: Ghost(start_key@),
                    };
                },
                Err(TreeError::Locked) | Err(TreeError::NeedRestart) => {},
                Err(TreeError::CircularBufferFull) => {
                    let ghost mid2 = tree.model();
                    if !aggressive_split {
                        make_space(tree);
                        proof {
                            lemma_answers_chain(start.model(), mid2, tree.model());
                        }
                    }
                },
            }
            aggressive_split = true;
        }
    }

    /// A scan from `start_key` to `end_key`, both included.
    pub fn new_with_end_key(
        tree: &'b mut BfTree,
        start_key: &[u8],
        end_key: &[u8],
        return_field: ScanReturnField,
    ) -> (r: ScanIterMut<'b>)
        requires
            scannable(&*old(tree)),
            !old(tree).cache_only,
        ensures
            r.ok(),
            scan_kept(&*old(tree), &*r.tree),
            *final(r.tree) == *final(tree),
            r.cursor@ == start_key@,
            r.scan_cnt == usize::MAX,
            r.return_field == return_field,
            opt_view(r.end_key) == Some(end_key@),
    {
        let mut si = ScanIterMut::new_with_scan_count(tree, start_key, usize::MAX, return_field);
        si.end_key = Some(to_vec(end_key));
        si
    }

    /// Goes to the leaf page of `key`, which is where the present one ends.
    fn next_leaf(&mut self, key: &[u8])
        requires
            old(self).ok(),
            old(self).hi() == Some(key@),
        ensures
            final(self).ok(),
            *final(final(self).tree) == *final(old(self).tree),
            scan_kept(&*old(self).tree, &*final(self).tree),
            final(self).cursor@ == key@,
            final(self).scan_cnt == old(self).scan_cnt,
            final(self).return_field == old(self).return_field,
            final(self).end_key == old(self).end_key,
            way_rest(final(self).tree.model(), final(self).hi()) < way_rest(
                old(self).tree.model(),
                old(self).hi(),
            ),
    {
        let ghost start = *self.tree;
        let mut aggressive_split = false;
        loop
            invariant
                scannable(&*self.tree),
                start == *old(self).tree,
                !start.cache_only,
                scan_kept(&start, &*self.tree),
                *final(self.tree) == *final(old(self).tree),
                self.scan_cnt == old(self).scan_cnt,
                self.return_field == old(self).return_field,
                self.end_key == old(self).end_key,
                old(self).hi() == Some(key@),
                promote::way_ahead(self.tree.model(), key@) <= promote::way_ahead(
                    start.model(),
                    key@,
                ),
            decreases hurdles(self.tree.model(), key@, aggressive_split),
        {
            let ghost mid = self.tree.model();
            let r = move_cursor_to_leaf_mut(self.tree, key, aggressive_split);
            proof {
                lemma_answers_chain(start.model(), mid, self.tree.model());
            }
            match r {
                Ok((pos, page)) => {
                    self.scan_position = pos;
                    self.leaf_lock = page;
                    self.cursor = Ghost(key@);
                    proof {
                        lemma_way_reached(
                            self.tree.model(),
                            self.tree.params(),
                            key@,
                            page as int,
                            self.hi(),
                        );
                    }
                    return;
                },
                Err(_) => {
                    aggressive_split = true;
                },
            }
        }
    }

    /// Scan next value into `out_buffer`, and mark its page as changed.
    /// Ends and returns as [ScanIter::next] does.
    pub fn next(&mut self, out_buffer: &mut [u8]) -> (r: Option<(usize, usize)>)
        requires
            old(self).ok(),
            !old(self).counted_out() ==> roomy(
                old(self).tree.model().view(),
                old(self).cursor@,
                opt_view(old(self).end_key),
                old(self).return_field,
                old(out_buffer)@.len(),
            ),
        ensures
            final(self).ok(),
            *final(final(self).tree) == *final(old(self).tree),
            scan_kept(&*old(self).tree, &*final(self).tree),
            final(self).tree.model().view() == old(self).tree.model().view(),
            final(self).return_field == old(self).return_field,
            final(self).end_key == old(self).end_key,
            final(out_buffer)@.len() == old(out_buffer)@.len(),
            gives(
                old(self).tree.model().view(),
                old(self).scan_cnt,
                old(self).cursor@,
                opt_view(old(self).end_key),
                old(self).return_field,
                old(out_buffer)@,
                final(out_buffer)@,
                final(self).scan_cnt,
                final(self).cursor@,
                r,
            ),
            old(self).counted_out() ==> r is None && final(self).counted_out()
                && final(out_buffer)@ == old(out_buffer)@ && final(self).cursor
                == old(self).cursor,
            !old(self).counted_out() ==> scanned(
                old(self).tree.model().view(),
                old(self).cursor@,
                opt_view(old(self).end_key),
                old(self).return_field,
                old(out_buffer)@,
                final(out_buffer)@,
                final(self).cursor@,
                r,
            ),
            r is Some ==> final(self).scan_cnt == if old(self).scan_cnt > 0 {
                (old(self).scan_cnt - 1) as usize
            } else {
                0
            },
            r is Some ==> marked(&*final(self).tree, final(self).leaf_lock as int),
            r is None ==> final(self).scan_cnt == 0,
    {
        let ghost start = *self.tree;
        let ghost view = start.model().view();
        let ghost from = self.cursor@;
        if self.scan_cnt == 0 && self.end_key.is_none() {
            return None;
        }
        proof {
            order::lemma_lex_order();
        }
        loop
            invariant
                self.ok(),
                *final(self.tree) == *final(old(self).tree),
                scan_kept(&start, &*self.tree),
                start == *old(self).tree,
                view == start.model().view(),
                self.tree.model().view() == view,
                self.scan_cnt == old(self).scan_cnt,
                self.return_field == old(self).return_field,
                self.end_key == old(self).end_key,
                !old(self).counted_out(),
                from == old(self).cursor@,
                order::lex_le(from, self.cursor@),
                forall|k: Seq<u8>| #[trigger]
                    view.contains_key(k) && order::lex_le(from, k) ==> order::lex_le(
                        self.cursor@,
                        k,
                    ),
                out_buffer@ == old(out_buffer)@,
                roomy(
                    view,
                    from,
                    opt_view(self.end_key),
                    self.return_field,
                    out_buffer@.len(),
                ),
            decreases
                    way_rest(self.tree.model(), self.hi()),
                    self.tree.model().pages[self.leaf_lock as int].top().len()
                        - self.scan_position.offset(),
        {
            let pid = self.leaf_lock;
            let ghost c = self.tree.model();
            let ghost p = self.tree.params();
            let ghost top = c.pages[pid as int].top();
            let ghost i = self.scan_position.offset();
            let ghost hi = self.hi();
            let ghost end = opt_view(self.end_key);
            proof {
                order::lemma_lex_order();
                lemma_at_position(c, p, pid as int, self.scan_position, self.cursor@, hi);
                self.tree.config.lemma_params();
                assert(c.pages[pid as int].ok(p));
                inner_node::lemma_count(top);
                if i < top.len() && top[i].op.is_live() && (end matches Some(e) ==> !order::lex_lt(
                    e,
                    top[i].key,
                )) {
                    let k = top[i].key;
                    assert(view.contains_key(k));
                    assert(to_come(view, from, end, k));
                    assert forall|k2: Seq<u8>| #[trigger]
                        to_come(view, from, end, k2) implies order::lex_le(k, k2) by {
                        assert(view.contains_key(k2));
                    }
                    assert(comes_next(view, from, end, k));
                }
            }
            let found = self.tree.scan_record_by_pos_with_bound(
                pid,
                &self.scan_position,
                out_buffer,
                self.return_field,
                &self.end_key,
            );
            match found {
                GetScanRecordByPosResult::Deleted => {
                    self.scan_position.move_to_next();
                    self.cursor = Ghost(successor(top[i].key));
                    proof {
                        lemma_successor(top[i].key, top[i].key);
                        assert(!view.contains_key(top[i].key));
                        assert forall|k: Seq<u8>| #[trigger]
                            view.contains_key(k) && order::lex_le(from, k) implies order::lex_le(
                            self.cursor@,
                            k,
                        ) by {
                            lemma_successor(top[i].key, k);
                        }
                    }
                },
                GetScanRecordByPosResult::Found(key_len, value_len) => {
                    self.scan_position.move_to_next();
                    if self.scan_cnt > 0 {
                        self.scan_cnt = self.scan_cnt - 1;
                    }
                    self.cursor = Ghost(successor(top[i].key));
                    proof {
                        lemma_successor(top[i].key, top[i].key);
                        assert(comes_next(view, from, end, top[i].key));
                    }
                    // The record may be changed by the caller.
                    touch(self.tree, pid);
                    proof {
                        lemma_same_view(c, self.tree.model());
                        lemma_answers_chain(start.model(), c, self.tree.model());
                    }
                    return Some((key_len as usize, value_len as usize));
                },
                GetScanRecordByPosResult::EndOfLeaf => {
                    let right_sibling = self.tree.get_right_sibling(pid);
                    if right_sibling.len() == 0 {
                        self.scan_cnt = 0;
                        proof {
                            assert(hi is None);
                            assert forall|k: Seq<u8>| !#[trigger] to_come(
                                view,
                                from,
                                end,
                                k,
                            ) by {
                                if to_come(view, from, end, k) {
                                    assert(view.contains_key(k));
                                }
                            }
                            assert forall|k: Seq<u8>| !#[trigger] to_come(
                                view,
                                self.cursor@,
                                end,
                                k,
                            ) by {
                                if to_come(view, self.cursor@, end, k) {
                                    assert(view.contains_key(k));
                                }
                            }
                        }
                        return None;
                    }
                    assert(hi == Some(right_sibling@));
                    self.next_leaf(right_sibling.as_slice());
                    proof {
                        lemma_same_view(c, self.tree.model());
                        lemma_answers_chain(start.model(), c, self.tree.model());
                        assert forall|k: Seq<u8>| #[trigger]
                            view.contains_key(k) && order::lex_le(from, k) implies order::lex_le(
                            self.cursor@,
                            k,
                        ) by {
                            assert(c.view().contains_key(k));
                        }
                    }
                },
                GetScanRecordByPosResult::BoundKeyExceeded => {
                    self.scan_cnt = 0;
                    proof {
                        assert forall|k: Seq<u8>| !#[trigger] to_come(view, from, end, k) by {
                            if to_come(view, from, end, k) {
                                assert(view.contains_key(k));
                            }
                        }
                        assert forall|k: Seq<u8>| !#[trigger] to_come(
                            view,
                            self.cursor@,
                            end,
                            k,
                        ) by {
                            if to_come(view, self.cursor@, end, k) {
                                assert(view.contains_key(k));
                            }
                        }
                    }
                    return None;
                },
            }
        }
    }
}

impl BfTree {
    /// A scan of at most `scan_cnt` records, from `key` on.
    pub fn scan_with_count<'b>(
        &'b mut self,
        key: &[u8],
        scan_cnt: usize,
        return_field: ScanReturnField,
    ) -> (r: Result<ScanIter<'b>, ScanIterError>)
        requires
            scannable(&*old(self)),
        ensures
            match r {
                Err(e) => {
                    &&& *final(self) == *old(self)
                    &&& count_error(&*old(self), key@, scan_cnt) == Some(e)
                    &&& e == (if key@.len() > old(self).config.key_max() {
                        ScanIterError::InvalidStartKey
                    } else {
                        ScanIterError::InvalidCount
                    })
                    &&& key@.len() > old(self).config.key_max() || scan_cnt == 0
                    &&& key@.len() > old(self).config.max_fence_len / 2 || scan_cnt == 0
                },
                Ok(it) => {
                    &&& count_error(&*old(self), key@, scan_cnt) is None
                    &&& key@.len() <= old(self).config.key_max()
                    &&& key@.len() <= old(self).config.max_fence_len / 2
                    &&& scan_cnt > 0
                    &&& it.ok()
                    &&& scan_kept(&*old(self), &*it.tree)
                    &&& it.tree.model().view() == old(self).model().view()
                    &&& *final(it.tree) == *final(self)
                    &&& it.cursor@ == key@
                    &&& it.scan_cnt == scan_cnt
                    &&& it.return_field == return_field
                    &&& it.end_key is None
                },
            },
    {
        if key.len() > self.config.max_fence_len / 2 {
            return Err(ScanIterError::InvalidStartKey);
        }
        if scan_cnt == 0 {
            return Err(ScanIterError::InvalidCount);
        }
        let ghost c = self.model();
        let it = ScanIter::new_with_scan_count(self, key, scan_cnt, return_field);
        proof {
            lemma_same_view(c, it.tree.model());
        }
        Ok(it)
    }

    /// A scan from `start_key` to `end_key`, both included.
    pub fn scan_with_end_key<'b>(
        &'b mut self,
        start_key: &[u8],
        end_key: &[u8],
        return_field: ScanReturnField,
    ) -> (r: Result<ScanIter<'b>, ScanIterError>)
        requires
            scannable(&*old(self)),
        ensures
            match r {
                Err(e) => {
                    &&& *final(self) == *old(self)
                    &&& end_key_error(&*old(self), start_key@, end_key@) == Some(e)
                },
                Ok(it) => {
                    &&& end_key_error(&*old(self), start_key@, end_key@) is None
                    &&& it.ok()
                    &&& scan_kept(&*old(self), &*it.tree)
                    &&& it.tree.model().view() == old(self).model().view()
                    &&& *final(it.tree) == *final(self)
                    &&& it.cursor@ == start_key@
                    &&& it.return_field == return_field
                    &&& opt_view(it.end_key) == Some(end_key@)
                },
            },
    {
        if start_key.len() > self.config.max_fence_len / 2 {
            return Err(ScanIterError::InvalidStartKey);
        }
        if end_key.len() > self.config.max_fence_len / 2 {
            return Err(ScanIterError::InvalidEndKey);
        }
        if key_lt(end_key, start_key) {
            return Err(ScanIterError::InvalidKeyRange);
        }
        let ghost c = self.model();
        let it = ScanIter::new_with_end_key(self, start_key, end_key, return_field);
        proof {
            lemma_same_view(c, it.tree.model());
        }
        Ok(it)
    }

    /// A scan of at most `scan_cnt` records, from `key` on, whose caller may
    /// change what it finds.
    pub fn scan_mut_with_count<'b>(
        &'b mut self,
        key: &[u8],
        scan_cnt: usize,
        return_field: ScanReturnField,
    ) -> (r: Result<ScanIterMut<'b>, ScanIterError>)
        requires
            scannable(&*old(self)),
        ensures
            match r {
                Err(e) => {
                    &&& *final(self) == *old(self)
                    &&& Some(e) == (if old(self).cache_only {
                        Some(ScanIterError::CacheOnlyMode)
                    } else {
                        count_error(&*old(self), key@, scan_cnt)
                    })
                    &&& e == (if old(self).cache_only {
                        ScanIterError::CacheOnlyMode
                    } else if key@.len() > old(self).config.key_max() {
                        ScanIterError::InvalidStartKey
                    } else {
                        ScanIterError::InvalidCount
                    })
                    &&& old(self).cache_only || key@.len() > old(self).config.key_max() || scan_cnt
                        == 0
                    &&& old(self).cache_only || key@.len() > old(self).config.max_fence_len / 2
                        || scan_cnt == 0
                },
                Ok(it) => {
                    &&& !old(self).cache_only
                    &&& count_error(&*old(self), key@, scan_cnt) is None
                    &&& key@.len() <= old(self).config.key_max()
                    &&& key@.len() <= old(self).config.max_fence_len / 2
                    &&& scan_cnt > 0
                    &&& it.ok()
                    &&& scan_kept(&*old(self), &*it.tree)
                    &&& it.tree.model().view() == old(self).model().view()
                    &&& *final(it.tree) == *final(self)
                    &&& it.cursor@ == key@
                    &&& it.scan_cnt == scan_cnt
                    &&& it.return_field == return_field
                    &&& it.end_key is None
                },
            },
    {
        if self.cache_only {
            return Err(ScanIterError::CacheOnlyMode);
        }
        if key.len() > self.config.max_fence_len / 2 {
            return Err(ScanIterError::InvalidStartKey);
        }
        if scan_cnt == 0 {
            return Err(ScanIterError::InvalidCount);
        }
        let ghost c = self.model();
        let it = ScanIterMut::new_with_scan_count(self, key, scan_cnt, return_field);
        proof {
            lemma_same_view(c, it.tree.model());
        }
        Ok(it)
    }

    /// A scan from `start_key` to `end_key`, both included, whose caller may
    /// change what it finds.
    pub fn scan_mut_with_end_key<'b>(
        &'b mut self,
        start_key: &[u8],
        end_key: &[u8],
        return_field: ScanReturnField,
    ) -> (r: Result<ScanIterMut<'b>, ScanIterError>)
        requires
            scannable(&*old(self)),
        ensures
            match r {
                Err(e) => {
                    &&& *final(self) == *old(self)
                    &&& Some(e) == (if old(self).cache_only {
                        Some(ScanIterError::CacheOnlyMode)
                    } else {
                        end_key_error(&*old(self), start_key@, end_key@)
                    })
                },
                Ok(it) => {
                    &&& !old(self).cache_only
                    &&& end_key_error(&*old(self), start_key@, end_key@) is None
                    &&& it.ok()
                    &&& scan_kept(&*old(self), &*it.tree)
                    &&& it.tree.model().view() == old(self).model().view()
                    &&& *final(it.tree) == *final(self)
                    &&& it.cursor@ == start_key@
                    &&& it.return_field == return_field
                    &&& opt_view(it.end_key) == Some(end_key@)
                },
            },
    {
        if self.cache_only {
            return Err(ScanIterError::CacheOnlyMode);
        }
        if start_key.len() > self.config.max_fence_len / 2 {
            return Err(ScanIterError::InvalidStartKey);
        }
        if end_key.len() > self.config.max_fence_len / 2 {
            return Err(ScanIterError::InvalidEndKey);
        }
        if key_lt(end_key, start_key) {
            return Err(ScanIterError::InvalidKeyRange);
        }
        let ghost c = self.model();
        let it = ScanIterMut::new_with_end_key(self, start_key, end_key, return_field);
        proof {
            lemma_same_view(c, it.tree.model());
        }
        Ok(it)
    }
}

/// Why a scan of `scan_cnt` records from `key` on cannot start.
pub open spec fn count_error(
    t: &BfTree,
    key: Seq<u8>,
    scan_cnt: usize,
) -> Option<ScanIterError> {
    if key.len() > t.config.key_max() {
        Some(ScanIterError::InvalidStartKey)
    } else if scan_cnt == 0 {
        Some(ScanIterError::InvalidCount)
    } else {
        None
    }
}

/// Why a scan from `start_key` to `end_key` cannot start.
pub open spec fn end_key_error(
    t: &BfTree,
    start_key: Seq<u8>,
    end_key: Seq<u8>,
) -> Option<ScanIterError> {
    if start_key.len() > t.config.key_max() {
        Some(ScanIterError::InvalidStartKey)
    } else if end_key.len() > t.config.key_max() {
        Some(ScanIterError::InvalidEndKey)
    } else if order::lex_lt(end_key, start_key) {
        Some(ScanIterError::InvalidKeyRange)
    } else {
        None
    }
}

/// Two records that a scan gives one after the other come in ascending order:
/// what is found after `first` lies strictly above it.
pub proof fn law_scans_ascend(
    view: Map<Seq<u8>, Seq<u8>>,
    end_key: Option<Seq<u8>>,
    first: Seq<u8>,
    second: Seq<u8>,
)
    requires
        to_come(view, successor(first), end_key, second),
    ensures
        order::lex_lt(first, second),
{
    lemma_successor(first, second);
}

/// A scan leaves out nothing: a key that was to come before a record was given
/// is that record's key, or is still to come.
pub proof fn law_scans_skip_nothing(
    view: Map<Seq<u8>, Seq<u8>>,
    end_key: Option<Seq<u8>>,
    cursor: Seq<u8>,
    given: Seq<u8>,
    k: Seq<u8>,
)
    requires
        comes_next(view, cursor, end_key, given),
        to_come(view, cursor, end_key, k),
    ensures
        k == given || to_come(view, successor(given), end_key, k),
{
    lemma_successor(given, k);
}

/// The keys that a scan from `start` on gave, one after the other.
pub open spec fn given_in_turn(
    view: Map<Seq<u8>, Seq<u8>>,
    start: Seq<u8>,
    end_key: Option<Seq<u8>>,
    given: Seq<Seq<u8>>,
) -> bool {
    &&& given.len() > 0 ==> comes_next(view, start, end_key, given[0])
    &&& forall|i: int, j: int|
        0 <= i < given.len() - 1 && j == i + 1 ==> comes_next(
            view,
            successor(#[trigger] given[i]),
            end_key,
            #[trigger] given[j],
        )
}

proof fn lemma_given_ascend(
    view: Map<Seq<u8>, Seq<u8>>,
    start: Seq<u8>,
    end_key: Option<Seq<u8>>,
    given: Seq<Seq<u8>>,
    i: int,
    j: int,
)
    requires
        given_in_turn(view, start, end_key, given),
        0 <= i < j < given.len(),
    ensures
        order::lex_lt(given[i], given[j]),
    decreases j - i,
{
    assert(comes_next(view, successor(given[j - 1]), end_key, given[j]));
    law_scans_ascend(view, end_key, given[j - 1], given[j]);
    if i < j - 1 {
        lemma_given_ascend(view, start, end_key, given, i, j - 1);
        order::lemma_lex_transitive(given[i], given[j - 1], given[j]);
    }
}

/// A scan gives no more records than keys were put in: whatever a tree without a
/// disk has forgotten of `keys`, it makes none up and gives none twice.
pub proof fn law_scans_give_no_more_than_was_put_in(
    view: Map<Seq<u8>, Seq<u8>>,
    keys: Set<Seq<u8>>,
    start: Seq<u8>,
    end_key: Option<Seq<u8>>,
    given: Seq<Seq<u8>>,
)
    requires
        keys.finite(),
        view.dom().subset_of(keys),
        given_in_turn(view, start, end_key, given),
    ensures
        given.len() <= keys.len(),
        given.no_duplicates(),
{
    assert forall|i: int, j: int| 0 <= i < given.len() && 0 <= j < given.len() && i != j implies
        given[i] != given[j] by {
        if i < j {
            lemma_given_ascend(view, start, end_key, given, i, j);
        } else {
            lemma_given_ascend(view, start, end_key, given, j, i);
        }
        order::lemma_lex_irreflexive(given[i]);
    }
    given.unique_seq_to_set();
    assert forall|k: Seq<u8>| given.to_set().contains(k) implies keys.contains(k) by {
        let i = choose|i: int| 0 <= i < given.len() && given[i] == k;
        assert(i > 0 ==> comes_next(view, successor(given[i - 1]), end_key, given[i]));
    }
    vstd::set_lib::lemma_len_subset(given.to_set(), keys);
}

/// A scan that gave `given` has nothing left to give.
pub open spec fn run_out(
    view: Map<Seq<u8>, Seq<u8>>,
    start: Seq<u8>,
    end_key: Option<Seq<u8>>,
    given: Seq<Seq<u8>>,
) -> bool {
    &&& given.len() == 0 ==> forall|k: Seq<u8>| !#[trigger] to_come(view, start, end_key, k)
    &&& given.len() > 0 ==> forall|k: Seq<u8>|
        !#[trigger] to_come(view, successor(given.last()), end_key, k)
}

proof fn lemma_given_or_to_come(
    view: Map<Seq<u8>, Seq<u8>>,
    start: Seq<u8>,
    end_key: Option<Seq<u8>>,
    given: Seq<Seq<u8>>,
    k: Seq<u8>,
    n: int,
)
    requires
        given_in_turn(view, start, end_key, given),
        to_come(view, start, end_key, k),
        0 <= n < given.len(),
    ensures
        given.contains(k) || to_come(view, successor(given[n]), end_key, k),
    decreases n,
{
    if n == 0 {
        law_scans_skip_nothing(view, end_key, start, given[0], k);
    } else {
        lemma_given_or_to_come(view, start, end_key, given, k, n - 1);
        assert(comes_next(view, successor(given[n - 1]), end_key, given[n]));
        if !given.contains(k) {
            law_scans_skip_nothing(view, end_key, successor(given[n - 1]), given[n], k);
        }
    }
}

/// A scan that has run to its end gave exactly the keys between its start and its
/// end.
pub proof fn law_scans_give_all(
    view: Map<Seq<u8>, Seq<u8>>,
    start: Seq<u8>,
    end_key: Option<Seq<u8>>,
    given: Seq<Seq<u8>>,
    k: Seq<u8>,
)
    requires
        given_in_turn(view, start, end_key, given),
        run_out(view, start, end_key, given),
    ensures
        given.contains(k) <==> to_come(view, start, end_key, k),
{
    if to_come(view, start, end_key, k) && given.len() > 0 {
        lemma_given_or_to_come(view, start, end_key, given, k, given.len() - 1);
        assert(given.last() == given[given.len() - 1]);
        assert(!to_come(view, successor(given.last()), end_key, k));
        assert(given.contains(k));
    }
    if given.contains(k) {
        let i = choose|i: int| 0 <= i < given.len() && given[i] == k;
        if i > 0 {
            lemma_given_ascend(view, start, end_key, given, 0, i);
            assert(comes_next(view, successor(given[i - 1]), end_key, given[i]));
            order::lemma_lex_order();
            assert(order::lex_le(start, given[0]));
            assert(order::lex_lt(given[0], k));
            assert(order::lex_le(start, k));
            assert(to_come(view, start, end_key, k));
        }
    }
}

} // verus!
