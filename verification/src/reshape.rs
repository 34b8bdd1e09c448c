//! The three ways in which the inner nodes change shape, and what each does
//! to searches: a new root on top, an inner node cut in two, a leaf page cut
//! in two.
use vstd::prelude::*;

use crate::model;
use crate::model::{Params, Skeleton};
use crate::nodes::inner_node;
use crate::nodes::inner_node::InnerView;
use crate::nodes::{PageID, INVALID_DISK_OFFSET};
use crate::order;

verus! {

/// A new root over the old one.
pub open spec fn grown(sk: Skeleton, root: PageID, version: u64) -> Skeleton {
    let top = InnerView {
        version,
        root: true,
        leaf_children: root.spec_is_id(),
        disk_offset: INVALID_DISK_OFFSET,
        keys: Seq::empty(),
        children: seq![root],
    };
    let rest = if root.spec_is_id() {
        sk.nodes
    } else {
        let n = sk.nodes[root.inner_no()];
        sk.nodes.update(root.inner_no(), InnerView { version, root: false, ..n })
    };
    Skeleton {
        nodes: rest.push(top),
        levels: sk.levels.push(sk.rank(root) + 1),
        ranges: sk.ranges.push(order::KeyRange::full()),
    }
}

/// Node `b`, in slot `j` of node `a`, is cut in two.
pub open spec fn inner_cut(sk: Skeleton, a: int, j: int, b: int, version: u64) -> Skeleton {
    let v = sk.nodes[b];
    let m = (v.keys.len() / 2) as int;
    let mid = v.keys[m];
    let n = sk.nodes.len() as int;
    let left = InnerView { version, keys: v.keys.take(m), children: v.children.take(m + 1), ..v };
    let right = InnerView {
        version,
        root: false,
        keys: v.keys.skip(m + 1),
        children: v.children.skip(m + 1),
        ..v
    };
    let above = InnerView { version, ..sk.nodes[a].with_child(j, mid, PageID::inner(n)) };
    Skeleton {
        nodes: sk.nodes.update(a, above).update(b, left).push(right),
        levels: sk.levels.push(sk.levels[b]),
        ranges: sk.ranges.update(b, sk.ranges[b].below(mid)).push(sk.ranges[b].from(mid)),
    }
}

/// The leaf page in slot `j` of node `i` is cut at `mid`; the upper part is
/// leaf page `q`.
pub open spec fn leaf_cut(
    sk: Skeleton,
    i: int,
    j: int,
    mid: Seq<u8>,
    q: int,
    version: u64,
) -> Skeleton {
    let above = InnerView { version, ..sk.nodes[i].with_child(j, mid, PageID::leaf(q)) };
    Skeleton { nodes: sk.nodes.update(i, above), ..sk }
}

/// A separator that cuts slot `j` belongs to slot `j`.
pub proof fn lemma_cut_slot(keys: Seq<Seq<u8>>, range: order::KeyRange, j: int, mid: Seq<u8>)
    requires
        inner_node::keys_sorted(keys),
        0 <= j <= keys.len(),
        model::slot_range(keys, range, j).cuts(mid),
    ensures
        inner_node::is_child_of(keys, mid, j),
        forall|t: int| 0 <= t < j ==> order::lex_lt(#[trigger] keys[t], mid),
        forall|t: int| j <= t < keys.len() ==> order::lex_lt(mid, #[trigger] keys[t]),
{
    order::lemma_lex_order();
    assert forall|t: int| 0 <= t < j implies order::lex_lt(#[trigger] keys[t], mid) by {
        if t < j - 1 {
            assert(order::lex_lt(keys[t], keys[j - 1]));
        }
    }
    assert forall|t: int| j <= t < keys.len() implies order::lex_lt(mid, #[trigger] keys[t]) by {
        if j < t {
            assert(order::lex_lt(keys[j], keys[t]));
        }
    }
}

/// Where keys belong after a separator is added.
pub proof fn lemma_child_ix_insert(keys: Seq<Seq<u8>>, j: int, mid: Seq<u8>, k: Seq<u8>)
    requires
        inner_node::keys_sorted(keys),
        0 <= j <= keys.len(),
        forall|t: int| 0 <= t < j ==> order::lex_lt(#[trigger] keys[t], mid),
        forall|t: int| j <= t < keys.len() ==> order::lex_lt(mid, #[trigger] keys[t]),
    ensures
        inner_node::keys_sorted(keys.insert(j, mid)),
        ({
            let p = model::child_ix(keys, k);
            let q = model::child_ix(keys.insert(j, mid), k);
            &&& 0 <= p <= keys.len()
            &&& q == if p < j {
                p
            } else if p > j {
                p + 1
            } else if order::lex_lt(k, mid) {
                j
            } else {
                j + 1
            }
            &&& p < j ==> order::lex_lt(k, mid)
            &&& p > j ==> order::lex_le(mid, k)
        }),
{
    order::lemma_lex_order();
    let more = keys.insert(j, mid);
    model::lemma_child_ix(keys, k);
    let p = model::child_ix(keys, k);
    let q = if p < j {
        p
    } else if p > j {
        p + 1
    } else if order::lex_lt(k, mid) {
        j
    } else {
        j + 1
    };
    if p < j {
        assert(order::lex_lt(k, keys[p]));
        assert(order::lex_lt(keys[p], mid));
    }
    if p > j {
        assert(order::lex_le(keys[p - 1], k));
        assert(order::lex_lt(mid, keys[p - 1]));
    }
    assert forall|i: int| 0 <= i < q implies order::lex_le(#[trigger] more[i], k) by {
        if i < j {
            assert(more[i] == keys[i]);
            if i >= p {
                assert(order::lex_lt(keys[i], mid));
            }
        } else if i > j {
            assert(more[i] == keys[i - 1]);
        }
    }
    assert forall|i: int| q <= i < more.len() implies order::lex_lt(k, #[trigger] more[i]) by {
        if i < j {
            assert(more[i] == keys[i]);
        } else if i > j {
            assert(more[i] == keys[i - 1]);
            if i - 1 < p {
                assert(order::lex_lt(mid, keys[i - 1]));
            }
        }
    }
    model::lemma_child_ix_is(more, k, q);
    assert forall|s: int, t: int| 0 <= s < t < more.len() implies order::lex_lt(
        #[trigger] more[s],
        #[trigger] more[t],
    ) by {
        if s < j {
            assert(more[s] == keys[s]);
        } else if s > j {
            assert(more[s] == keys[s - 1]);
        }
        if t < j {
            assert(more[t] == keys[t]);
        } else if t > j {
            assert(more[t] == keys[t - 1]);
        }
        if s < j && t == j {
        } else if s < j && t > j {
            assert(order::lex_lt(keys[s], keys[t - 1]));
        } else if s == j {
        } else if s > j {
            assert(order::lex_lt(keys[s - 1], keys[t - 1]));
        } else {
            assert(order::lex_lt(keys[s], keys[t]));
        }
    }
}

/// Cutting a leaf page moves the keys from `mid` on to the new page and leaves
/// all other searches alone.
pub proof fn lemma_leaf_cut(
    sk: Skeleton,
    npages: nat,
    p: Params,
    i: int,
    j: int,
    mid: Seq<u8>,
    version: u64,
)
    requires
        sk.ok(npages, p),
        npages < 0x7fff_ffff_ffff_ffff,
        0 <= i < sk.nodes.len(),
        sk.levels[i] == 1,
        0 <= j < sk.nodes[i].children.len(),
        sk.nodes[i].keys.len() < p.fanout,
        mid.len() <= p.key_max,
        sk.ranges[i].cuts(mid),
        model::slot_range(sk.nodes[i].keys, sk.ranges[i], j).cuts(mid),
    ensures
        ({
            let s2 = leaf_cut(sk, i, j, mid, npages as int, version);
            &&& s2.ok((npages + 1) as nat, p)
            &&& model::total_keys(s2.nodes) == model::total_keys(sk.nodes) + 1
            &&& forall|x: PageID, k: Seq<u8>|
                #![trigger s2.route(x, k)]
                sk.valid(npages, x) && !x.spec_is_id() ==> s2.route(x, k) == if sk.route(x, k)
                    == sk.nodes[i].children[j].raw && order::lex_le(mid, k) {
                    npages as int
                } else {
                    sk.route(x, k)
                }
            &&& forall|root: PageID|
                #![trigger s2.root_ok((npages + 1) as nat, root)]
                sk.root_ok(npages, root) ==> s2.root_ok((npages + 1) as nat, root)
        }),
{
    let q = npages as int;
    let s2 = leaf_cut(sk, i, j, mid, q, version);
    let n = sk.nodes[i];
    let n2 = s2.nodes[i];
    let c = n.children[j];
    assert(sk.node_ok(npages, p, i));
    assert(sk.child_ok(npages, i, c, j));
    if !c.spec_is_id() {
        assert(sk.node_ok(npages, p, c.inner_no()));
    }
    lemma_cut_slot(n.keys, sk.ranges[i], j, mid);
    lemma_child_ix_insert(n.keys, j, mid, mid);
    model::lemma_total_keys_update(sk.nodes, i, n2);
    // Every link of the result, traced back.
    assert forall|t: int| 0 <= t < n2.children.len() implies #[trigger] n2.children[t] == (if t
        <= j {
        n.children[t]
    } else if t == j + 1 {
        PageID::leaf(q)
    } else {
        n.children[t - 1]
    }) by {}
    assert forall|a: int| 0 <= a < s2.nodes.len() implies #[trigger] s2.node_ok(
        (npages + 1) as nat,
        p,
        a,
    ) by {
        assert(sk.node_ok(npages, p, a));
        let old_n = sk.nodes[a];
        let new_n = s2.nodes[a];
        if a == i {
            assert forall|t: int| 0 <= t < new_n.keys.len() implies s2.ranges[a].cuts(
                #[trigger] new_n.keys[t],
            ) by {
                if t < j {
                    assert(new_n.keys[t] == old_n.keys[t]);
                } else if t > j {
                    assert(new_n.keys[t] == old_n.keys[t - 1]);
                }
            }
            assert forall|t: int| 0 <= t < new_n.keys.len() implies (
            #[trigger] new_n.keys[t]).len() <= p.key_max by {
                if t < j {
                    assert(new_n.keys[t] == old_n.keys[t]);
                } else if t > j {
                    assert(new_n.keys[t] == old_n.keys[t - 1]);
                }
            }
            assert forall|t: int| 0 <= t < new_n.children.len() implies s2.child_ok(
                (npages + 1) as nat,
                a,
                #[trigger] new_n.children[t],
                t,
            ) by {
                if t <= j {
                    assert(sk.child_ok(npages, a, old_n.children[t], t));
                    if !old_n.children[t].spec_is_id() {
                        assert(sk.node_ok(npages, p, old_n.children[t].inner_no()));
                    }
                } else if t > j + 1 {
                    assert(sk.child_ok(npages, a, old_n.children[t - 1], t - 1));
                    if !old_n.children[t - 1].spec_is_id() {
                        assert(sk.node_ok(npages, p, old_n.children[t - 1].inner_no()));
                    }
                }
            }
        } else {
            assert forall|t: int| 0 <= t < new_n.children.len() implies s2.child_ok(
                (npages + 1) as nat,
                a,
                #[trigger] new_n.children[t],
                t,
            ) by {
                assert(sk.child_ok(npages, a, old_n.children[t], t));
            }
        }
    }
    // The new page was linked from nowhere.
    assert forall|a: int, t: int|
        0 <= a < sk.nodes.len() && 0 <= t < sk.nodes[a].children.len() implies (
    #[trigger] sk.nodes[a].children[t]) != PageID::leaf(q) by {
        assert(sk.node_ok(npages, p, a));
        assert(sk.child_ok(npages, a, sk.nodes[a].children[t], t));
    }
    assert(s2.links_apart()) by {
        assert forall|a: int, t: int, a2: int, t2: int|
            #![trigger s2.nodes[a].children[t], s2.nodes[a2].children[t2]]
            0 <= a < s2.nodes.len() && 0 <= t < s2.nodes[a].children.len() && 0 <= a2
                < s2.nodes.len() && 0 <= t2 < s2.nodes[a2].children.len()
                && s2.nodes[a].children[t] == s2.nodes[a2].children[t2] implies a == a2 && t
            == t2 by {
            let u = if a == i && t > j {
                t - 1
            } else {
                t
            };
            let u2 = if a2 == i && t2 > j {
                t2 - 1
            } else {
                t2
            };
            let fresh = a == i && t == j + 1;
            let fresh2 = a2 == i && t2 == j + 1;
            if !fresh && !fresh2 {
                assert(s2.nodes[a].children[t] == sk.nodes[a].children[u]);
                assert(s2.nodes[a2].children[t2] == sk.nodes[a2].children[u2]);
            } else if fresh && !fresh2 {
                assert(s2.nodes[a2].children[t2] == sk.nodes[a2].children[u2]);
            } else if !fresh && fresh2 {
                assert(s2.nodes[a].children[t] == sk.nodes[a].children[u]);
            }
        }
    }
    assert forall|x: PageID, k: Seq<u8>|
        #![trigger s2.route(x, k)]
        sk.valid(npages, x) && !x.spec_is_id() implies s2.route(x, k) == if sk.route(x, k)
        == c.raw && order::lex_le(mid, k) {
        npages as int
    } else {
        sk.route(x, k)
    } by {
        lemma_leaf_cut_route(sk, npages, p, i, j, mid, version, x, k);
    }
    assert forall|root: PageID|
        #![trigger s2.root_ok((npages + 1) as nat, root)]
        sk.root_ok(npages, root) implies s2.root_ok((npages + 1) as nat, root) by {
        assert(n.root == (!root.spec_is_id() && root.inner_no() == i));
        assert forall|a: int, t: int|
            #![trigger s2.nodes[a].children[t]]
            0 <= a < s2.nodes.len() && 0 <= t < s2.nodes[a].children.len() implies s2.nodes[a].children[t]
            != root by {
            if a == i && t > j + 1 {
                assert(s2.nodes[a].children[t] == sk.nodes[a].children[t - 1]);
            } else if a == i && t == j + 1 {
                assert(!root.spec_is_id());
            } else {
                assert(s2.nodes[a].children[t] == sk.nodes[a].children[t]);
            }
        }
        assert forall|a: int| 0 <= a < s2.nodes.len() implies (#[trigger] s2.nodes[a]).root == (
        !root.spec_is_id() && root.inner_no() == a) by {
            assert(sk.nodes[a].root == s2.nodes[a].root);
        }
    }
}

proof fn lemma_leaf_cut_route(
    sk: Skeleton,
    npages: nat,
    p: Params,
    i: int,
    j: int,
    mid: Seq<u8>,
    version: u64,
    x: PageID,
    k: Seq<u8>,
)
    requires
        sk.ok(npages, p),
        leaf_cut(sk, i, j, mid, npages as int, version).ok((npages + 1) as nat, p),
        npages < 0x7fff_ffff_ffff_ffff,
        0 <= i < sk.nodes.len(),
        sk.levels[i] == 1,
        0 <= j < sk.nodes[i].children.len(),
        model::slot_range(sk.nodes[i].keys, sk.ranges[i], j).cuts(mid),
        sk.valid(npages, x),
        !x.spec_is_id(),
    ensures
        leaf_cut(sk, i, j, mid, npages as int, version).route(x, k) == if sk.route(x, k)
            == sk.nodes[i].children[j].raw && order::lex_le(mid, k) {
            npages as int
        } else {
            sk.route(x, k)
        },
    decreases sk.rank(x),
{
    let q = npages as int;
    let s2 = leaf_cut(sk, i, j, mid, q, version);
    let a = x.inner_no();
    let n = sk.nodes[a];
    assert(sk.node_ok(npages, p, a));
    sk.lemma_route_step(npages, p, x, k);
    s2.lemma_route_step((npages + 1) as nat, p, x, k);
    let t = model::child_ix(n.keys, k);
    let c = n.children[t];
    let target = sk.nodes[i].children[j];
    assert(sk.node_ok(npages, p, i));
    assert(sk.child_ok(npages, i, target, j));
    if !target.spec_is_id() {
        assert(sk.node_ok(npages, p, target.inner_no()));
    }
    if a == i {
        lemma_cut_slot(n.keys, sk.ranges[i], j, mid);
        lemma_child_ix_insert(n.keys, j, mid, k);
        order::lemma_lex_order();
        if t != j {
            assert(sk.nodes[i].children[t] != sk.nodes[i].children[j]);
        }
    } else {
        assert(s2.nodes[a] == n);
        if c.spec_is_id() {
            if c == target {
                assert(sk.nodes[a].children[t] == sk.nodes[i].children[j]);
            }
        } else {
            lemma_leaf_cut_route(sk, npages, p, i, j, mid, version, c, k);
        }
    }
}

/// A new root on top changes no search.
pub proof fn lemma_grown(sk: Skeleton, npages: nat, p: Params, root: PageID, version: u64)
    requires
        sk.ok(npages, p),
        sk.root_ok(npages, root),
        sk.nodes.len() < 0x7fff_ffff_ffff_ffff,
    ensures
        ({
            let s2 = grown(sk, root, version);
            let top = PageID::inner(sk.nodes.len() as int);
            &&& s2.ok(npages, p)
            &&& s2.root_ok(npages, top)
            &&& !top.spec_is_id()
            &&& top.inner_no() == sk.nodes.len()
            &&& s2.rank(top) == sk.rank(root) + 1
            &&& model::total_keys(s2.nodes) == model::total_keys(sk.nodes)
            &&& forall|k: Seq<u8>| #[trigger] s2.route(top, k) == sk.route(root, k)
        }),
{
    let s2 = grown(sk, root, version);
    let w = sk.nodes.len() as int;
    let top = PageID::inner(w);
    assert(!top.spec_is_id() && top.inner_no() == w);
    if !root.spec_is_id() {
        let r = root.inner_no();
        assert(sk.node_ok(npages, p, r));
        model::lemma_total_keys_update(
            sk.nodes,
            r,
            InnerView { version, root: false, ..sk.nodes[r] },
        );
        model::lemma_total_keys_push(
            sk.nodes.update(r, InnerView { version, root: false, ..sk.nodes[r] }),
            s2.nodes[w],
        );
    } else {
        model::lemma_total_keys_push(sk.nodes, s2.nodes[w]);
    }
    assert forall|a: int| 0 <= a < s2.nodes.len() implies #[trigger] s2.node_ok(npages, p, a) by {
        if a < w {
            assert(sk.node_ok(npages, p, a));
            assert(s2.nodes[a].keys == sk.nodes[a].keys);
            assert(s2.nodes[a].children == sk.nodes[a].children);
            assert(s2.levels[a] == sk.levels[a]);
            assert(s2.ranges[a] == sk.ranges[a]);
            assert forall|t: int| 0 <= t < s2.nodes[a].children.len() implies s2.child_ok(
                npages,
                a,
                #[trigger] s2.nodes[a].children[t],
                t,
            ) by {
                assert(sk.child_ok(npages, a, sk.nodes[a].children[t], t));
            }
        } else {
            assert forall|t: int| 0 <= t < s2.nodes[a].children.len() implies s2.child_ok(
                npages,
                a,
                #[trigger] s2.nodes[a].children[t],
                t,
            ) by {
                assert(s2.nodes[a].children[t] == root);
                assert(model::slot_range(s2.nodes[a].keys, s2.ranges[a], 0)
                    =~= order::KeyRange::full());
            }
            if !root.spec_is_id() {
                assert(sk.levels[root.inner_no()] >= 1);
            }
        }
    }
    assert(s2.links_apart()) by {
        assert forall|a: int, t: int, a2: int, t2: int|
            #![trigger s2.nodes[a].children[t], s2.nodes[a2].children[t2]]
            0 <= a < s2.nodes.len() && 0 <= t < s2.nodes[a].children.len() && 0 <= a2
                < s2.nodes.len() && 0 <= t2 < s2.nodes[a2].children.len()
                && s2.nodes[a].children[t] == s2.nodes[a2].children[t2] implies a == a2 && t
            == t2 by {
            if a < w {
                assert(s2.nodes[a].children[t] == sk.nodes[a].children[t]);
            }
            if a2 < w {
                assert(s2.nodes[a2].children[t2] == sk.nodes[a2].children[t2]);
            }
        }
    }
    assert(s2.root_ok(npages, top)) by {
        assert forall|a: int, t: int|
            #![trigger s2.nodes[a].children[t]]
            0 <= a < s2.nodes.len() && 0 <= t < s2.nodes[a].children.len() implies s2.nodes[a].children[t]
            != top by {
            if a < w {
                assert(s2.nodes[a].children[t] == sk.nodes[a].children[t]);
                assert(sk.node_ok(npages, p, a));
                assert(sk.child_ok(npages, a, sk.nodes[a].children[t], t));
            }
        }
        assert forall|a: int| 0 <= a < s2.nodes.len() implies (#[trigger] s2.nodes[a]).root == (
        top.inner_no() == a) by {
            if a < w {
                assert(sk.nodes[a].root == (!root.spec_is_id() && root.inner_no() == a));
            }
        }
    }
    assert forall|k: Seq<u8>| #[trigger] s2.route(top, k) == sk.route(root, k) by {
        s2.lemma_route_step(npages, p, top, k);
        assert forall|a: int| 0 <= a < sk.nodes.len() implies (#[trigger] s2.nodes[a]).keys
            == sk.nodes[a].keys && s2.nodes[a].children == sk.nodes[a].children by {}
        sk.lemma_route_frame(s2, npages, p, root, k);
    }
}

/// What cuts a slot cuts the node's range.
pub proof fn lemma_slot_in_range(keys: Seq<Seq<u8>>, range: order::KeyRange, j: int, mid: Seq<u8>)
    requires
        0 <= j <= keys.len(),
        forall|t: int| 0 <= t < keys.len() ==> range.cuts(#[trigger] keys[t]),
        model::slot_range(keys, range, j).cuts(mid),
    ensures
        range.cuts(mid),
{
    order::lemma_lex_order();
    if j > 0 {
        assert(range.cuts(keys[j - 1]));
    }
    if j < keys.len() {
        assert(range.cuts(keys[j]));
    }
}

/// Cutting an inner node changes no search from above it.
pub proof fn lemma_inner_cut(
    sk: Skeleton,
    npages: nat,
    p: Params,
    a: int,
    j: int,
    b: int,
    version: u64,
)
    requires
        sk.ok(npages, p),
        sk.nodes.len() < 0x7fff_ffff_ffff_ffff,
        0 <= a < sk.nodes.len(),
        0 <= j < sk.nodes[a].children.len(),
        !sk.nodes[a].children[j].spec_is_id(),
        sk.nodes[a].children[j].inner_no() == b,
        sk.nodes[b].keys.len() >= 3,
        sk.nodes[a].keys.len() < p.fanout,
    ensures
        ({
            let s2 = inner_cut(sk, a, j, b, version);
            &&& s2.ok(npages, p)
            &&& model::total_keys(s2.nodes) == model::total_keys(sk.nodes)
            &&& forall|x: PageID, k: Seq<u8>|
                #![trigger s2.route(x, k)]
                sk.valid(npages, x) && x != sk.nodes[a].children[j] ==> s2.route(x, k) == sk.route(
                    x,
                    k,
                )
            &&& forall|root: PageID|
                #![trigger s2.root_ok(npages, root)]
                sk.root_ok(npages, root) ==> s2.root_ok(npages, root)
        }),
{
    let s2 = inner_cut(sk, a, j, b, version);
    let w = sk.nodes.len() as int;
    let fresh = PageID::inner(w);
    assert(!fresh.spec_is_id() && fresh.inner_no() == w);
    let bid = sk.nodes[a].children[j];
    assert(sk.node_ok(npages, p, a));
    assert(sk.child_ok(npages, a, bid, j));
    assert(sk.node_ok(npages, p, b));
    let v = sk.nodes[b];
    let n = sk.nodes[a];
    let m = (v.keys.len() / 2) as int;
    let mid = v.keys[m];
    assert(a != b);
    assert(sk.ranges[b].cuts(mid));
    lemma_cut_slot(n.keys, sk.ranges[a], j, mid);
    lemma_slot_in_range(n.keys, sk.ranges[a], j, mid);
    lemma_child_ix_insert(n.keys, j, mid, mid);
    let n2 = s2.nodes[a];
    let left = s2.nodes[b];
    let right = s2.nodes[w];
    assert(n2.keys == n.keys.insert(j, mid));
    assert(n2.children == n.children.insert(j + 1, fresh));
    let step = sk.nodes.update(a, n2);
    model::lemma_total_keys_update(sk.nodes, a, n2);
    model::lemma_total_keys_update(step, b, left);
    model::lemma_total_keys_push(step.update(b, left), right);
    // Links of the result, traced back.
    assert forall|t: int| 0 <= t < n2.children.len() implies #[trigger] n2.children[t] == (if t
        <= j {
        n.children[t]
    } else if t == j + 1 {
        fresh
    } else {
        n.children[t - 1]
    }) by {}
    assert forall|x: int, t: int|
        0 <= x < w && 0 <= t < sk.nodes[x].children.len() && (x != a || t
            != j) implies (#[trigger] sk.nodes[x].children[t]) != bid by {
        if sk.nodes[x].children[t] == sk.nodes[a].children[j] {
        }
    }
    assert forall|x: int, t: int|
        0 <= x < w && 0 <= t < sk.nodes[x].children.len() implies (
    #[trigger] sk.nodes[x].children[t]) != fresh by {
        assert(sk.node_ok(npages, p, x));
        assert(sk.child_ok(npages, x, sk.nodes[x].children[t], t));
    }
    assert forall|x: int| 0 <= x < s2.nodes.len() implies #[trigger] s2.node_ok(npages, p, x) by {
        lemma_inner_cut_node(sk, npages, p, a, j, b, version, x);
    }
    assert(s2.links_apart()) by {
        assert forall|x: int, t: int, x2: int, t2: int|
            #![trigger s2.nodes[x].children[t], s2.nodes[x2].children[t2]]
            0 <= x < s2.nodes.len() && 0 <= t < s2.nodes[x].children.len() && 0 <= x2
                < s2.nodes.len() && 0 <= t2 < s2.nodes[x2].children.len()
                && s2.nodes[x].children[t] == s2.nodes[x2].children[t2] implies x == x2 && t
            == t2 by {
            let y = if x == w {
                b
            } else {
                x
            };
            let u = if x == w {
                m + 1 + t
            } else if x == a && t > j {
                t - 1
            } else {
                t
            };
            let y2 = if x2 == w {
                b
            } else {
                x2
            };
            let u2 = if x2 == w {
                m + 1 + t2
            } else if x2 == a && t2 > j {
                t2 - 1
            } else {
                t2
            };
            let new1 = x == a && t == j + 1;
            let new2 = x2 == a && t2 == j + 1;
            if !new1 {
                assert(s2.nodes[x].children[t] == sk.nodes[y].children[u]);
            }
            if !new2 {
                assert(s2.nodes[x2].children[t2] == sk.nodes[y2].children[u2]);
            }
        }
    }
    assert forall|x: PageID, k: Seq<u8>|
        #![trigger s2.route(x, k)]
        sk.valid(npages, x) && x != bid implies s2.route(x, k) == sk.route(x, k) by {
        lemma_inner_cut_route(sk, npages, p, a, j, b, version, x, k);
    }
    assert forall|root: PageID|
        #![trigger s2.root_ok(npages, root)]
        sk.root_ok(npages, root) implies s2.root_ok(npages, root) by {
        assert(sk.nodes[a].children[j] != root);
        assert(n.root == (!root.spec_is_id() && root.inner_no() == a));
        assert(v.root == (!root.spec_is_id() && root.inner_no() == b));
        assert forall|x: int, t: int|
            #![trigger s2.nodes[x].children[t]]
            0 <= x < s2.nodes.len() && 0 <= t < s2.nodes[x].children.len() implies s2.nodes[x].children[t]
            != root by {
            if x == w {
                assert(s2.nodes[x].children[t] == sk.nodes[b].children[m + 1 + t]);
            } else if x == a && t > j + 1 {
                assert(s2.nodes[x].children[t] == sk.nodes[x].children[t - 1]);
            } else if x == a && t == j + 1 {
            } else {
                assert(s2.nodes[x].children[t] == sk.nodes[x].children[t]);
            }
        }
        assert forall|x: int| 0 <= x < s2.nodes.len() implies (#[trigger] s2.nodes[x]).root == (
        !root.spec_is_id() && root.inner_no() == x) by {
            if x < w {
                assert(sk.nodes[x].root == s2.nodes[x].root);
            }
        }
    }
}

proof fn lemma_inner_cut_node(
    sk: Skeleton,
    npages: nat,
    p: Params,
    a: int,
    j: int,
    b: int,
    version: u64,
    x: int,
)
    requires
        sk.ok(npages, p),
        sk.nodes.len() < 0x7fff_ffff_ffff_ffff,
        0 <= a < sk.nodes.len(),
        0 <= j < sk.nodes[a].children.len(),
        !sk.nodes[a].children[j].spec_is_id(),
        sk.nodes[a].children[j].inner_no() == b,
        sk.nodes[b].keys.len() >= 3,
        sk.nodes[a].keys.len() < p.fanout,
        0 <= x <= sk.nodes.len(),
    ensures
        inner_cut(sk, a, j, b, version).node_ok(npages, p, x),
{
    let s2 = inner_cut(sk, a, j, b, version);
    let w = sk.nodes.len() as int;
    let fresh = PageID::inner(w);
    assert(!fresh.spec_is_id() && fresh.inner_no() == w);
    let bid = sk.nodes[a].children[j];
    assert(sk.node_ok(npages, p, a));
    assert(sk.child_ok(npages, a, bid, j));
    assert(sk.node_ok(npages, p, b));
    let v = sk.nodes[b];
    let n = sk.nodes[a];
    let m = (v.keys.len() / 2) as int;
    let mid = v.keys[m];
    assert(a != b);
    assert(sk.ranges[b].cuts(mid));
    order::lemma_lex_order();
    lemma_cut_slot(n.keys, sk.ranges[a], j, mid);
    lemma_slot_in_range(n.keys, sk.ranges[a], j, mid);
    lemma_child_ix_insert(n.keys, j, mid, mid);
    let n2 = s2.nodes[x];
    if x == a {
        assert forall|t: int| 0 <= t < n2.keys.len() implies s2.ranges[x].cuts(
            #[trigger] n2.keys[t],
        ) && n2.keys[t].len() <= p.key_max by {
            if t < j {
                assert(n2.keys[t] == n.keys[t]);
            } else if t > j {
                assert(n2.keys[t] == n.keys[t - 1]);
            }
        }
        assert forall|t: int| 0 <= t < n2.children.len() implies s2.child_ok(
            npages,
            x,
            #[trigger] n2.children[t],
            t,
        ) by {
            if t < j {
                assert(n2.children[t] == n.children[t]);
                assert(sk.child_ok(npages, a, n.children[t], t));
                assert(sk.nodes[a].children[t] != sk.nodes[a].children[j]);
                assert(model::slot_range(n2.keys, s2.ranges[x], t) =~= model::slot_range(
                    n.keys,
                    sk.ranges[a],
                    t,
                ));
            } else if t == j {
                assert(n2.children[t] == bid);
                assert(model::slot_range(n2.keys, s2.ranges[x], t) =~= sk.ranges[b].below(mid));
            } else if t == j + 1 {
                assert(n2.children[t] == fresh);
                assert(model::slot_range(n2.keys, s2.ranges[x], t) =~= sk.ranges[b].from(mid));
            } else {
                assert(n2.children[t] == n.children[t - 1]);
                assert(sk.child_ok(npages, a, n.children[t - 1], t - 1));
                assert(sk.nodes[a].children[t - 1] != sk.nodes[a].children[j]);
                assert(model::slot_range(n2.keys, s2.ranges[x], t) =~= model::slot_range(
                    n.keys,
                    sk.ranges[a],
                    t - 1,
                ));
            }
        }
    } else if x == b {
        assert forall|t: int| 0 <= t < n2.keys.len() implies s2.ranges[x].cuts(
            #[trigger] n2.keys[t],
        ) && n2.keys[t].len() <= p.key_max by {
            assert(n2.keys[t] == v.keys[t]);
            assert(order::lex_lt(v.keys[t], v.keys[m]));
        }
        assert forall|t: int| 0 <= t < n2.children.len() implies s2.child_ok(
            npages,
            x,
            #[trigger] n2.children[t],
            t,
        ) by {
            assert(n2.children[t] == v.children[t]);
            assert(sk.child_ok(npages, b, v.children[t], t));
            if sk.nodes[b].children[t] == sk.nodes[a].children[j] {
            }
            assert(model::slot_range(n2.keys, s2.ranges[x], t) =~= model::slot_range(
                v.keys,
                sk.ranges[b],
                t,
            ));
        }
        assert(n2.shaped());
    } else if x == w {
        assert forall|t: int| 0 <= t < n2.keys.len() implies s2.ranges[x].cuts(
            #[trigger] n2.keys[t],
        ) && n2.keys[t].len() <= p.key_max by {
            assert(n2.keys[t] == v.keys[m + 1 + t]);
            assert(order::lex_lt(v.keys[m], v.keys[m + 1 + t]));
        }
        assert forall|t: int| 0 <= t < n2.children.len() implies s2.child_ok(
            npages,
            x,
            #[trigger] n2.children[t],
            t,
        ) by {
            assert(n2.children[t] == v.children[m + 1 + t]);
            assert(sk.child_ok(npages, b, v.children[m + 1 + t], m + 1 + t));
            if sk.nodes[b].children[m + 1 + t] == sk.nodes[a].children[j] {
            }
            assert(model::slot_range(n2.keys, s2.ranges[x], t) =~= model::slot_range(
                v.keys,
                sk.ranges[b],
                m + 1 + t,
            ));
        }
        assert(n2.shaped());
    } else {
        assert(sk.node_ok(npages, p, x));
        assert(n2 == sk.nodes[x]);
        assert forall|t: int| 0 <= t < n2.children.len() implies s2.child_ok(
            npages,
            x,
            #[trigger] n2.children[t],
            t,
        ) by {
            assert(sk.child_ok(npages, x, sk.nodes[x].children[t], t));
            if sk.nodes[x].children[t] == sk.nodes[a].children[j] {
            }
        }
    }
}

proof fn lemma_inner_cut_route(
    sk: Skeleton,
    npages: nat,
    p: Params,
    a: int,
    j: int,
    b: int,
    version: u64,
    x: PageID,
    k: Seq<u8>,
)
    requires
        sk.ok(npages, p),
        inner_cut(sk, a, j, b, version).levels.len() == inner_cut(sk, a, j, b, version).nodes.len(),
        forall|i: int|
            0 <= i <= sk.nodes.len() ==> #[trigger] inner_cut(sk, a, j, b, version).node_ok(
                npages,
                p,
                i,
            ),
        inner_cut(sk, a, j, b, version).ok(npages, p),
        0 <= a < sk.nodes.len(),
        0 <= j < sk.nodes[a].children.len(),
        !sk.nodes[a].children[j].spec_is_id(),
        sk.nodes[a].children[j].inner_no() == b,
        sk.nodes[b].keys.len() >= 3,
        sk.valid(npages, x),
    ensures
        ({
            let s2 = inner_cut(sk, a, j, b, version);
            let fresh = PageID::inner(sk.nodes.len() as int);
            let mid = sk.nodes[b].keys[(sk.nodes[b].keys.len() / 2) as int];
            if x == sk.nodes[a].children[j] {
                if order::lex_lt(k, mid) {
                    s2.route(x, k) == sk.route(x, k)
                } else {
                    s2.route(fresh, k) == sk.route(x, k)
                }
            } else {
                s2.route(x, k) == sk.route(x, k)
            }
        }),
    decreases sk.rank(x),
{
    let s2 = inner_cut(sk, a, j, b, version);
    let w = sk.nodes.len() as int;
    let fresh = PageID::inner(w);
    let bid = sk.nodes[a].children[j];
    assert(sk.node_ok(npages, p, a));
    assert(sk.child_ok(npages, a, bid, j));
    assert(sk.node_ok(npages, p, b));
    let v = sk.nodes[b];
    let n = sk.nodes[a];
    let m = (v.keys.len() / 2) as int;
    let mid = v.keys[m];
    assert(!fresh.spec_is_id() && fresh.inner_no() == w);
    order::lemma_lex_order();
    if x.spec_is_id() {
    } else {
        let i = x.inner_no();
        sk.lemma_route_step(npages, p, x, k);
        let node = sk.nodes[i];
        let t = model::child_ix(node.keys, k);
        let c = node.children[t];
        lemma_inner_cut_route(sk, npages, p, a, j, b, version, c, k);
        if x == bid {
            if c == bid {
                assert(sk.nodes[b].children[t] == sk.nodes[a].children[j]);
            }
            if order::lex_lt(k, mid) {
                assert(t <= m) by {
                    if t > m {
                        assert(order::lex_le(v.keys[m], k));
                    }
                }
                let keys = v.keys.take(m);
                assert forall|u: int| 0 <= u < t implies order::lex_le(#[trigger] keys[u], k) by {
                    assert(keys[u] == v.keys[u]);
                }
                assert forall|u: int| t <= u < keys.len() implies order::lex_lt(
                    k,
                    #[trigger] keys[u],
                ) by {
                    assert(keys[u] == v.keys[u]);
                }
                model::lemma_child_ix_is(keys, k, t);
                s2.lemma_route_step(npages, p, x, k);
                assert(s2.nodes[b].children[t] == c);
            } else {
                assert(t > m) by {
                    if t <= m {
                        assert(order::lex_lt(k, v.keys[m]));
                    }
                }
                let keys = v.keys.skip(m + 1);
                let t2 = t - (m + 1);
                assert forall|u: int| 0 <= u < t2 implies order::lex_le(#[trigger] keys[u], k) by {
                    assert(keys[u] == v.keys[m + 1 + u]);
                }
                assert forall|u: int| t2 <= u < keys.len() implies order::lex_lt(
                    k,
                    #[trigger] keys[u],
                ) by {
                    assert(keys[u] == v.keys[m + 1 + u]);
                }
                model::lemma_child_ix_is(keys, k, t2);
                s2.lemma_route_step(npages, p, fresh, k);
                assert(s2.nodes[w].keys == keys);
                assert(s2.nodes[w].children[t2] == c);
            }
        } else if i == a {
            lemma_cut_slot(n.keys, sk.ranges[a], j, mid);
            lemma_child_ix_insert(n.keys, j, mid, k);
            s2.lemma_route_step(npages, p, x, k);
            assert(s2.nodes[a].keys == n.keys.insert(j, mid));
            assert(s2.nodes[a].children == n.children.insert(j + 1, fresh));
            if t != j {
                assert(sk.nodes[a].children[t] != sk.nodes[a].children[j]);
            }
        } else {
            assert(i != b);
            assert(s2.nodes[i] == node);
            s2.lemma_route_step(npages, p, x, k);
            if c == bid {
                assert(sk.nodes[i].children[t] == sk.nodes[a].children[j]);
            }
        }
    }
}

} // verus!
