//! How many leaf pages a tree can come to have: each new one starts with a key of
//! its own.
use vstd::prelude::*;

use crate::model::{Core, Params};
use crate::nodes::image::RecordView;
use crate::nodes::leaf_node;
use crate::order;

verus! {

/// Key `b` is the least key of leaf page `i`.
pub open spec fn is_low(c: Core, i: int, b: Seq<u8>) -> bool {
    &&& c.leaf_of(b) == i
    &&& forall|k: Seq<u8>| #[trigger] c.leaf_of(k) == i ==> order::lex_le(b, k)
}

/// Leaf page `i` starts with one of `keys`.
pub open spec fn starts_within(c: Core, i: int, keys: Set<Seq<u8>>) -> bool {
    exists|b: Seq<u8>| #[trigger] is_low(c, i, b) && keys.contains(b)
}

/// What becomes of leaf pages: each stays and goes on starting where it started, and
/// those that are added start with one of `keys`.
pub open spec fn grown(before: Core, after: Core, keys: Set<Seq<u8>>) -> bool {
    &&& before.pages.len() <= after.pages.len()
    &&& forall|i: int, b: Seq<u8>|
        0 <= i < before.pages.len() && #[trigger] is_low(before, i, b) ==> is_low(after, i, b)
    &&& forall|i: int|
        before.pages.len() <= i < after.pages.len() ==> #[trigger] starts_within(after, i, keys)
}

/// Nothing grows where there are as many pages as before and every key stays with
/// its page.
pub proof fn lemma_not_grown(before: Core, after: Core, keys: Set<Seq<u8>>)
    requires
        after.pages.len() == before.pages.len(),
        forall|k: Seq<u8>| #[trigger] after.leaf_of(k) == before.leaf_of(k),
    ensures
        grown(before, after, keys),
{
    assert forall|i: int, b: Seq<u8>|
        0 <= i < before.pages.len() && #[trigger] is_low(before, i, b) implies is_low(
        after,
        i,
        b,
    ) by {
        assert forall|k: Seq<u8>| #[trigger] after.leaf_of(k) == i implies order::lex_le(b, k) by {
            assert(before.leaf_of(k) == i);
        }
        assert(after.leaf_of(b) == before.leaf_of(b));
    }
}

pub proof fn lemma_grown_twice(a: Core, b: Core, c: Core, ab: Set<Seq<u8>>, bc: Set<Seq<u8>>)
    requires
        grown(a, b, ab),
        grown(b, c, bc),
    ensures
        grown(a, c, ab.union(bc)),
{
    let keys = ab.union(bc);
    assert forall|i: int, x: Seq<u8>|
        0 <= i < a.pages.len() && #[trigger] is_low(a, i, x) implies is_low(c, i, x) by {
        assert(is_low(b, i, x));
    }
    assert forall|i: int|
        a.pages.len() <= i < c.pages.len() implies #[trigger] starts_within(c, i, keys) by {
        if i < b.pages.len() {
            assert(starts_within(b, i, ab));
            let x = choose|x: Seq<u8>| #[trigger] is_low(b, i, x) && ab.contains(x);
            assert(is_low(c, i, x) && keys.contains(x));
        } else {
            assert(starts_within(c, i, bc));
            let x = choose|x: Seq<u8>| #[trigger] is_low(c, i, x) && bc.contains(x);
            assert(is_low(c, i, x) && keys.contains(x));
        }
    }
}

pub proof fn lemma_grown_more(before: Core, after: Core, keys: Set<Seq<u8>>, more: Set<Seq<u8>>)
    requires
        grown(before, after, keys),
        keys.subset_of(more),
    ensures
        grown(before, after, more),
{
    assert forall|i: int|
        before.pages.len() <= i < after.pages.len() implies #[trigger] starts_within(
        after,
        i,
        more,
    ) by {
        assert(starts_within(after, i, keys));
        let x = choose|x: Seq<u8>| #[trigger] is_low(after, i, x) && keys.contains(x);
        assert(is_low(after, i, x) && more.contains(x));
    }
}

/// A page that is cut at `mid` gives one more page, which starts with `mid`.
pub proof fn lemma_cut_grown(
    before: Core,
    after: Core,
    p: Params,
    pid: int,
    mid: Seq<u8>,
    under: Seq<u8>,
    keys: Set<Seq<u8>>,
)
    requires
        before.shape_ok(p),
        after.pages.len() == before.pages.len() + 1,
        forall|k: Seq<u8>| #[trigger]
            after.leaf_of(k) == if before.leaf_of(k) == pid && order::lex_le(mid, k) {
                before.pages.len() as int
            } else {
                before.leaf_of(k)
            },
        before.leaf_of(mid) == pid,
        before.leaf_of(under) == pid,
        order::lex_lt(under, mid),
        keys.contains(mid),
    ensures
        grown(before, after, keys),
{
    let n = before.pages.len() as int;
    order::lemma_lex_order();
    assert forall|k: Seq<u8>| 0 <= #[trigger] before.leaf_of(k) < n by {
        before.sk.lemma_route_valid(before.pages.len(), p, before.root, k);
    }
    assert forall|i: int, b: Seq<u8>|
        0 <= i < n && #[trigger] is_low(before, i, b) implies is_low(after, i, b) by {
        assert(i == pid ==> order::lex_le(b, under));
        assert(after.leaf_of(b) == i);
        assert forall|k: Seq<u8>| #[trigger] after.leaf_of(k) == i implies order::lex_le(b, k) by {
            assert(before.leaf_of(k) == i);
        }
    }
    assert(is_low(after, n, mid)) by {
        assert(after.leaf_of(mid) == n);
    }
    assert(starts_within(after, n, keys));
}

/// The keys that pages `from` to `n` start with are as many as these pages.
proof fn lemma_starts_count(c: Core, keys: Set<Seq<u8>>, from: nat, n: nat) -> (starts: Set<
    Seq<u8>,
>)
    requires
        from <= n,
        forall|i: int| from <= i < n ==> #[trigger] starts_within(c, i, keys),
    ensures
        starts.finite(),
        starts.len() == n - from,
        starts.subset_of(keys),
        forall|b: Seq<u8>| #[trigger] starts.contains(b) ==> from <= c.leaf_of(b) < n,
    decreases n,
{
    if n == from {
        Set::empty()
    } else {
        let front = lemma_starts_count(c, keys, from, (n - 1) as nat);
        assert(starts_within(c, n - 1, keys));
        let b = choose|b: Seq<u8>| #[trigger] is_low(c, n - 1, b) && keys.contains(b);
        assert(!front.contains(b));
        front.insert(b)
    }
}

/// No more pages are added than there are keys to start with.
pub proof fn lemma_growth_bound(before: Core, after: Core, keys: Set<Seq<u8>>)
    requires
        grown(before, after, keys),
        keys.finite(),
    ensures
        after.pages.len() <= before.pages.len() + keys.len(),
{
    let starts = lemma_starts_count(after, keys, before.pages.len(), after.pages.len());
    vstd::set_lib::lemma_len_subset(starts, keys);
}

/// The keys of `rs`.
spec fn keys_in(rs: Seq<RecordView>) -> Set<Seq<u8>> {
    rs.map_values(|r: RecordView| r.key).to_set()
}

spec fn keys_upto(c: Core, n: int) -> Set<Seq<u8>> {
    c.view().dom().filter(|k: Seq<u8>| c.leaf_of(k) < n)
}

proof fn lemma_upto_finite(c: Core, p: Params, n: nat)
    requires
        c.shape_ok(p),
        n <= c.pages.len(),
    ensures
        keys_upto(c, n as int).finite(),
    decreases n,
{
    let all = keys_upto(c, n as int);
    if n == 0 {
        assert forall|k: Seq<u8>| !all.contains(k) by {
            c.sk.lemma_route_valid(c.pages.len(), p, c.root, k);
        }
        assert(all =~= Set::empty());
    } else {
        let m = n - 1;
        let s = c.pages[m];
        lemma_upto_finite(c, p, m as nat);
        let here = keys_in(s.top()).union(keys_in(s.below()));
        vstd::seq_lib::seq_to_set_is_finite(s.top().map_values(|r: RecordView| r.key));
        vstd::seq_lib::seq_to_set_is_finite(s.below().map_values(|r: RecordView| r.key));
        let more = keys_upto(c, m).union(here);
        assert forall|k: Seq<u8>| all.contains(k) implies more.contains(k) by {
            if c.leaf_of(k) == m {
                assert(s.find(k) == c.find(k));
                if leaf_node::lookup(s.top(), k) is Some {
                    let i = leaf_node::lemma_lookup_some(s.top(), k);
                    assert(s.top().map_values(|r: RecordView| r.key)[i] == k);
                } else {
                    let i = leaf_node::lemma_lookup_some(s.below(), k);
                    assert(s.below().map_values(|r: RecordView| r.key)[i] == k);
                }
            }
        }
        vstd::set_lib::lemma_len_subset(all, more);
    }
}

/// A tree holds finitely many keys.
pub proof fn lemma_view_finite(c: Core, p: Params)
    requires
        c.shape_ok(p),
    ensures
        c.view().dom().finite(),
{
    let n = c.pages.len();
    lemma_upto_finite(c, p, n);
    assert(keys_upto(c, n as int) =~= c.view().dom()) by {
        assert forall|k: Seq<u8>| c.leaf_of(k) < n by {
            c.sk.lemma_route_valid(n, p, c.root, k);
        }
    }
}

} // verus!
