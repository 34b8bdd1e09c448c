//! How many records a tree without a disk can hold.
use vstd::prelude::*;

use crate::model;
use crate::model::{Core, PageState, Params};
use crate::nodes::image;
use crate::nodes::image::RecordView;
use crate::nodes::leaf_node;
use crate::range_scan;
use crate::storage;
use crate::tree::BfTree;

verus! {

/// The keys of the records that take `w` bytes or more.
pub open spec fn wide_keys(rs: Seq<RecordView>, w: nat) -> Set<Seq<u8>>
    decreases rs.len(),
{
    if rs.len() == 0 {
        Set::empty()
    } else {
        let front = wide_keys(rs.drop_last(), w);
        if rs.last().size() >= w {
            front.insert(rs.last().key)
        } else {
            front
        }
    }
}

proof fn lemma_wide_keys(rs: Seq<RecordView>, w: nat)
    ensures
        wide_keys(rs, w).finite(),
        wide_keys(rs, w).len() * w <= image::recs_size(rs),
        forall|i: int|
            0 <= i < rs.len() && (#[trigger] rs[i]).size() >= w ==> wide_keys(rs, w).contains(
                rs[i].key,
            ),
    decreases rs.len(),
{
    if rs.len() > 0 {
        let front = rs.drop_last();
        lemma_wide_keys(front, w);
        let a = wide_keys(front, w);
        let b = wide_keys(rs, w);
        assert forall|i: int| 0 <= i < rs.len() && (#[trigger] rs[i]).size() >= w implies b.contains(
            rs[i].key,
        ) by {
            if i < front.len() {
                assert(front[i] == rs[i]);
            }
        }
        if rs.last().size() >= w {
            assert(b.len() <= a.len() + 1);
            assert(b.len() * w <= a.len() * w + w) by (nonlinear_arith)
                requires
                    b.len() <= a.len() + 1,
            ;
        }
    } else {
        assert(wide_keys(rs, w).len() * w == 0) by (nonlinear_arith)
            requires
                wide_keys(rs, w).len() == 0,
        ;
    }
}

/// The keys of tree `c` that belong to its first `n` leaf pages.
spec fn keys_upto(c: Core, n: int) -> Set<Seq<u8>> {
    c.view().dom().filter(|k: Seq<u8>| c.leaf_of(k) < n)
}

proof fn lemma_keys_upto(c: Core, p: Params, w: nat, n: nat)
    requires
        c.wf(p),
        p.cache_only,
        n <= c.pages.len(),
        forall|k: Seq<u8>| #[trigger]
            c.view().contains_key(k) ==> (c.find(k)->0).size() >= w,
    ensures
        keys_upto(c, n as int).finite(),
        keys_upto(c, n as int).len() * w <= model::mini_total(c.pages.take(n as int)),
    decreases n,
{
    let all = keys_upto(c, n as int);
    if n == 0 {
        assert forall|k: Seq<u8>| !all.contains(k) by {
            c.sk.lemma_route_valid(c.pages.len(), p, c.root, k);
        }
        assert(all =~= Set::empty());
        assert(all.len() * w == 0) by (nonlinear_arith)
            requires
                all.len() == 0,
        ;
    } else {
        let m = n - 1;
        let front = keys_upto(c, m);
        lemma_keys_upto(c, p, w, m as nat);
        let s = c.pages[m];
        assert(s.ok(p));
        assert(c.pages.take(n as int).drop_last() =~= c.pages.take(m));
        assert(c.pages.take(n as int).last() == s);
        let here = wide_keys(s.top(), w);
        lemma_wide_keys(s.top(), w);
        assert(all.subset_of(front.union(here))) by {
            assert forall|k: Seq<u8>| all.contains(k) implies front.union(here).contains(k) by {
                if c.leaf_of(k) == m {
                    assert(c.view().contains_key(k));
                    assert(s.find(k) == c.find(k));
                    assert(leaf_node::lookup(s.top(), k) is Some);
                    let i = leaf_node::lemma_lookup_some(s.top(), k);
                    assert(s.top()[i].size() >= w);
                }
            }
        }
        vstd::set_lib::lemma_len_union(front, here);
        vstd::set_lib::lemma_len_subset(all, front.union(here));
        assert(all.len() * w <= front.len() * w + here.len() * w) by (nonlinear_arith)
            requires
                all.len() <= front.len() + here.len(),
        ;
        match s {
            PageState::Mini(v, _) => {},
            _ => {
                assert(s.top() =~= Seq::<RecordView>::empty());
            },
        }
    }
}

/// A tree without a disk holds no more records than its page cache has room for:
/// if each of them has key and value of `s` bytes or more, they and what a record
/// takes besides add up to no more than the size of the cache.
pub proof fn law_a_cache_holds_what_fits(tree: &BfTree, s: nat)
    requires
        tree.wf(),
        tree.cache_only,
        forall|k: Seq<u8>| #[trigger]
            tree@.contains_key(k) ==> k.len() + tree@[k].len() >= s,
    ensures
        tree@.dom().finite(),
        tree@.dom().len() * (s + image::KV_META_SIZE) <= tree.config.cb_size_byte,
{
    let c = tree.model();
    let p = tree.params();
    let w = s + image::KV_META_SIZE as nat;
    assert forall|k: Seq<u8>| #[trigger] c.view().contains_key(k) implies (c.find(k)->0).size()
        >= w by {
        crate::tree::ops::lemma_found_key(c, p, k);
        assert(tree@.contains_key(k));
    }
    let n = c.pages.len();
    lemma_keys_upto(c, p, w, n);
    assert(keys_upto(c, n as int) =~= tree@.dom()) by {
        assert forall|k: Seq<u8>| c.leaf_of(k) < n by {
            c.sk.lemma_route_valid(n, p, c.root, k);
        }
    }
    assert(c.pages.take(n as int) =~= c.pages);
    assert forall|i: int| 0 <= i < c.pages.len() && (#[trigger] c.pages[i]).is_cached() implies
        tree.storage.circular_buffer.has(i as u64, c.pages[i].size()) by {
        assert(c.pages[i] == tree.storage.page_table@[i]@);
    }
    storage::lemma_minis_fit(c.pages, &tree.storage.circular_buffer);
}

/// A scan of a tree without a disk skips what was evicted: once more was put in
/// than the page cache has room for, a scan gives fewer records than that. One that
/// has run to its end gives some if there are any.
pub proof fn law_scans_skip_what_was_evicted(
    tree: &BfTree,
    keys: Set<Seq<u8>>,
    s: nat,
    start: Seq<u8>,
    end_key: Option<Seq<u8>>,
    given: Seq<Seq<u8>>,
)
    requires
        tree.wf(),
        tree.cache_only,
        forall|k: Seq<u8>| #[trigger]
            tree@.contains_key(k) ==> k.len() + tree@[k].len() >= s,
        keys.len() * (s + image::KV_META_SIZE) > tree.config.cb_size_byte,
        range_scan::given_in_turn(tree@, start, end_key, given),
    ensures
        given.len() < keys.len(),
        given.no_duplicates(),
        forall|k: Seq<u8>|
            range_scan::run_out(tree@, start, end_key, given) && #[trigger] range_scan::to_come(
                tree@,
                start,
                end_key,
                k,
            ) ==> given.len() > 0,
{
    law_a_cache_holds_what_fits(tree, s);
    let held = tree@.dom();
    range_scan::law_scans_give_no_more_than_was_put_in(tree@, held, start, end_key, given);
    assert(held.len() < keys.len()) by (nonlinear_arith)
        requires
            held.len() * (s + image::KV_META_SIZE) < keys.len() * (s + image::KV_META_SIZE),
    ;
}

} // verus!
