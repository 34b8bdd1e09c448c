//! From the root to a leaf page, splitting full inner nodes on the way where
//! that is asked for.
use vstd::prelude::*;

use crate::model;
use crate::model::{Core, Params, Skeleton};
use crate::nodes::inner_node;
use crate::nodes::inner_node::InnerNode;
use crate::nodes::{PageID, INVALID_DISK_OFFSET};
use crate::order;
use crate::reshape;
use crate::snapshot::CPRSnapshotGuard;
use crate::storage::PAGE_LIMIT;
use crate::tree;
use crate::tree::{BfTree, Shape};

verus! {

/// Where a search ended.
pub struct Descent {
    /// The leaf page.
    pub pid: u64,
    /// The inner node above it and the slot in there; none if the leaf page is
    /// the root.
    pub parent: Option<(usize, usize)>,
    /// The least key beyond the leaf page; empty if there is none.
    pub next_key: Vec<u8>,
}

impl Descent {
    /// The keys of the leaf page.
    pub open spec fn range(&self, c: Core) -> order::KeyRange {
        match self.parent {
            None => order::KeyRange::full(),
            Some((i, j)) => model::slot_range(
                c.sk.nodes[i as int].keys,
                c.sk.ranges[i as int],
                j as int,
            ),
        }
    }

    pub open spec fn ok(&self, c: Core, key: Seq<u8>) -> bool {
        &&& c.leaf_of(key) == self.pid
        &&& self.range(c).contains(key)
        &&& forall|k: Seq<u8>|
            #![trigger c.leaf_of(k)]
            c.leaf_of(k) == self.pid <==> self.range(c).contains(k)
        &&& self.next_key@ == self.range(c).high_fence()
        &&& self.range(c).hi matches Some(h) ==> h.len() > 0
        &&& self.pid < c.pages.len()
        &&& match self.parent {
            None => c.root.spec_is_id() && self.pid == 0,
            Some((i, j)) => {
                &&& i < c.sk.nodes.len()
                &&& c.sk.levels[i as int] == 1
                &&& j < c.sk.nodes[i as int].children.len()
                &&& c.sk.nodes[i as int].children[j as int] == PageID::leaf(self.pid as int)
            },
        }
    }
}

/// Key `k` is routed past `x`, through another place at the same height.
pub open spec fn elsewhere(sk: Skeleton, npages: nat, root: PageID, x: PageID, k: Seq<u8>) -> bool {
    exists|y: PageID|
        #![trigger sk.route(y, k)]
        sk.valid(npages, y) && sk.rank(y) == sk.rank(x) && y != x && sk.route(root, k) == sk.route(
            y,
            k,
        )
}

/// Exactly the keys of range `r` are routed through `x`.
pub open spec fn owns(
    sk: Skeleton,
    npages: nat,
    root: PageID,
    x: PageID,
    r: order::KeyRange,
) -> bool {
    &&& forall|k: Seq<u8>|
        #![trigger sk.route(x, k)]
        r.contains(k) ==> sk.route(root, k) == sk.route(x, k)
    &&& forall|k: Seq<u8>| r.contains(k) || #[trigger] elsewhere(sk, npages, root, x, k)
}

/// From an inner node to the child in slot `j`.
pub proof fn lemma_owns_child(
    sk: Skeleton,
    npages: nat,
    p: Params,
    root: PageID,
    x: PageID,
    j: int,
)
    requires
        sk.ok(npages, p),
        sk.valid(npages, x),
        !x.spec_is_id(),
        owns(sk, npages, root, x, sk.ranges[x.inner_no()]),
        0 <= j < sk.nodes[x.inner_no()].children.len(),
    ensures
        ({
            let n = sk.nodes[x.inner_no()];
            let r = model::slot_range(n.keys, sk.ranges[x.inner_no()], j);
            &&& owns(sk, npages, root, n.children[j], r)
            &&& forall|k: Seq<u8>|
                #![trigger r.contains(k)]
                r.contains(k) <==> sk.ranges[x.inner_no()].contains(k) && inner_node::is_child_of(
                    n.keys,
                    k,
                    j,
                )
        }),
{
    let i = x.inner_no();
    let n = sk.nodes[i];
    let c = n.children[j];
    let whole = sk.ranges[i];
    let r = model::slot_range(n.keys, whole, j);
    assert(sk.node_ok(npages, p, i));
    assert(sk.child_ok(npages, i, c, j));
    order::lemma_lex_order();
    assert forall|k: Seq<u8>|
        #![trigger r.contains(k)]
        r.contains(k) <==> whole.contains(k) && inner_node::is_child_of(n.keys, k, j) by {
        if r.contains(k) {
            if j > 0 {
                assert(whole.cuts(n.keys[j - 1]));
            }
            if j < n.keys.len() {
                assert(whole.cuts(n.keys[j]));
            }
            assert forall|t: int| 0 <= t < j implies order::lex_le(#[trigger] n.keys[t], k) by {
                if t < j - 1 {
                    assert(order::lex_lt(n.keys[t], n.keys[j - 1]));
                }
            }
            assert forall|t: int| j <= t < n.keys.len() implies order::lex_lt(
                k,
                #[trigger] n.keys[t],
            ) by {
                if j < t {
                    assert(order::lex_lt(n.keys[j], n.keys[t]));
                }
            }
        }
        if whole.contains(k) && inner_node::is_child_of(n.keys, k, j) {
            if j > 0 {
                assert(order::lex_le(n.keys[j - 1], k));
            }
            if j < n.keys.len() {
                assert(order::lex_lt(k, n.keys[j]));
            }
        }
    }
    assert forall|k: Seq<u8>|
        #![trigger sk.route(c, k)]
        r.contains(k) implies sk.route(root, k) == sk.route(c, k) by {
        sk.lemma_route_step(npages, p, x, k);
        model::lemma_child_ix_is(n.keys, k, j);
        assert(sk.route(root, k) == sk.route(x, k));
    }
    assert forall|k: Seq<u8>| r.contains(k) || #[trigger] elsewhere(sk, npages, root, c, k) by {
        if !r.contains(k) {
            if whole.contains(k) {
                sk.lemma_route_step(npages, p, x, k);
                assert(sk.route(root, k) == sk.route(x, k));
                let t = model::child_ix(n.keys, k);
                let c2 = n.children[t];
                assert(t != j);
                assert(sk.nodes[i].children[t] != sk.nodes[i].children[j]);
                assert(sk.route(root, k) == sk.route(c2, k));
            } else {
                assert(elsewhere(sk, npages, root, x, k));
                let y = choose|y: PageID|
                    #![trigger sk.route(y, k)]
                    sk.valid(npages, y) && sk.rank(y) == sk.rank(x) && y != x && sk.route(root, k)
                        == sk.route(y, k);
                assert(!y.spec_is_id());
                sk.lemma_route_step(npages, p, y, k);
                let ny = sk.nodes[y.inner_no()];
                let t = model::child_ix(ny.keys, k);
                let c2 = ny.children[t];
                if c2 == c {
                    assert(sk.nodes[y.inner_no()].children[t] == sk.nodes[i].children[j]);
                }
                assert(sk.route(root, k) == sk.route(c2, k));
            }
        }
    }
}

/// An inner node within its limits has an image, and room if it is not full.
pub proof fn lemma_node_fits(sk: Skeleton, npages: nat, p: Params, i: int)
    requires
        p.ok(),
        sk.ok(npages, p),
        0 <= i < sk.nodes.len(),
    ensures
        sk.nodes[i].shaped(),
        sk.nodes[i].fits(),
        sk.nodes[i].keys.len() < p.fanout ==> inner_node::INNER_FIXED_SIZE
            + inner_node::keys_size(sk.nodes[i].keys) + inner_node::SEPARATOR_OVERHEAD + p.key_max
            <= inner_node::INNER_NODE_SIZE,
{
    assert(sk.node_ok(npages, p, i));
    let n = sk.nodes[i];
    inner_node::lemma_keys_size_bound(n.keys, p.key_max);
    let w = (inner_node::SEPARATOR_OVERHEAD + p.key_max) as int;
    assert(n.keys.len() * w <= p.fanout * w) by (nonlinear_arith)
        requires
            n.keys.len() <= p.fanout,
            w >= 0,
    ;
    if n.keys.len() < p.fanout {
        assert((n.keys.len() + 1) * w <= p.fanout * w) by (nonlinear_arith)
            requires
                n.keys.len() + 1 <= p.fanout,
                w >= 0,
        ;
        assert((n.keys.len() + 1) * w == n.keys.len() * w + w) by (nonlinear_arith);
    }
}

/// All keys go through the root.
pub(crate) proof fn lemma_owns_root(c: Core, p: Params)
    requires
        c.shape_ok(p),
        !c.root.spec_is_id(),
    ensures
        owns(
            c.sk,
            c.pages.len(),
            c.root,
            PageID::inner(c.root.inner_no()),
            c.sk.ranges[c.root.inner_no()],
        ),
        forall|k: Seq<u8>| #[trigger] c.sk.ranges[c.root.inner_no()].contains(k),
{
    assert(PageID::inner(c.root.inner_no()) == c.root);
    assert forall|k: Seq<u8>| #[trigger] c.sk.ranges[c.root.inner_no()].contains(k) by {
        order::lemma_lex_empty_least(k);
    }
}

/// A leaf page that owns a range is the leaf page of exactly its keys.
pub(crate) proof fn lemma_leaf_owned(c: Core, p: Params, x: PageID, r: order::KeyRange, key: Seq<u8>)
    requires
        c.shape_ok(p),
        c.sk.valid(c.pages.len(), x),
        x.spec_is_id(),
        owns(c.sk, c.pages.len(), c.root, x, r),
    ensures
        forall|k: Seq<u8>| #[trigger] c.leaf_of(k) == x.raw <==> r.contains(k),
        x == PageID::leaf(x.raw as int),
{
    assert forall|k: Seq<u8>| #[trigger] c.leaf_of(k) == x.raw <==> r.contains(k) by {
        if r.contains(k) {
            assert(c.sk.route(x, k) == x.raw);
        } else {
            assert(elsewhere(c.sk, c.pages.len(), c.root, x, k));
            let y = choose|y: PageID|
                #![trigger c.sk.route(y, k)]
                c.sk.valid(c.pages.len(), y) && c.sk.rank(y) == c.sk.rank(x) && y != x
                    && c.sk.route(c.root, k) == c.sk.route(y, k);
            if !y.spec_is_id() {
                assert(c.sk.node_ok(c.pages.len(), p, y.inner_no()));
            }
        }
    }
}

/// Owning a range survives a cut further down.
proof fn lemma_owns_kept(
    c: Core,
    c2: Core,
    np: nat,
    x: PageID,
    r: order::KeyRange,
    b: PageID,
)
    requires
        owns(c.sk, np, c.root, x, r),
        c2.root == c.root,
        c.root != b,
        x != b,
        c.sk.rank(x) != c.sk.rank(b),
        c.sk.valid(np, x),
        c.sk.valid(np, c.root),
        c2.sk.levels.len() >= c.sk.levels.len(),
        forall|i: int| 0 <= i < c.sk.levels.len() ==> #[trigger] c2.sk.levels[i] == c.sk.levels[i],
        forall|y: PageID, k: Seq<u8>|
            #![trigger c2.sk.route(y, k)]
            c.sk.valid(np, y) && y != b ==> c2.sk.route(y, k) == c.sk.route(y, k),
    ensures
        owns(c2.sk, np, c2.root, x, r),
{
    assert forall|k: Seq<u8>|
        #![trigger c2.sk.route(x, k)]
        r.contains(k) implies c2.sk.route(c2.root, k) == c2.sk.route(x, k) by {
        assert(c.sk.route(c.root, k) == c.sk.route(x, k));
    }
    assert forall|k: Seq<u8>|
        r.contains(k) || #[trigger] elsewhere(c2.sk, np, c2.root, x, k) by {
        if !r.contains(k) {
            assert(elsewhere(c.sk, np, c.root, x, k));
            let y = choose|y: PageID|
                #![trigger c.sk.route(y, k)]
                c.sk.valid(np, y) && c.sk.rank(y) == c.sk.rank(x) && y != x && c.sk.route(
                    c.root,
                    k,
                ) == c.sk.route(y, k);
            assert(c2.sk.route(y, k) == c.sk.route(y, k));
            assert(c2.sk.route(c2.root, k) == c.sk.route(c.root, k));
        }
    }
}

/// After a cut every inner node has a separator.
proof fn lemma_cut_counts(sk: Skeleton, a: int, j: int, b: int, version: u64)
    requires
        0 <= a < sk.nodes.len(),
        0 <= b < sk.nodes.len(),
        a != b,
        0 <= j <= sk.nodes[a].keys.len(),
        forall|i: int|
            0 <= i < sk.nodes.len() && i != a ==> (#[trigger] sk.nodes[i]).keys.len() >= 1,
        sk.nodes[b].keys.len() >= 3,
    ensures
        ({
            let s2 = reshape::inner_cut(sk, a, j, b, version);
            forall|i: int| 0 <= i < s2.nodes.len() ==> (#[trigger] s2.nodes[i]).keys.len() >= 1
        }),
{
    let s2 = reshape::inner_cut(sk, a, j, b, version);
    assert forall|i: int| 0 <= i < s2.nodes.len() implies (#[trigger] s2.nodes[i]).keys.len()
        >= 1 by {
        if i < sk.nodes.len() && i != a && i != b {
            assert(s2.nodes[i] == sk.nodes[i]);
        }
    }
}

/// After the child of `key` was cut, `key` belongs to one of the halves.
proof fn lemma_cut_slots(
    sk: Skeleton,
    np: nat,
    p: Params,
    a: int,
    j: int,
    b: int,
    key: Seq<u8>,
    j2: int,
    version: u64,
)
    requires
        sk.ok(np, p),
        0 <= a < sk.nodes.len(),
        0 <= j < sk.nodes[a].children.len(),
        !sk.nodes[a].children[j].spec_is_id(),
        sk.nodes[a].children[j].inner_no() == b,
        sk.nodes[b].keys.len() >= 3,
        sk.nodes.len() < 0x7fff_ffff_ffff_ffff,
        inner_node::is_child_of(sk.nodes[a].keys, key, j),
        inner_node::is_child_of(
            reshape::inner_cut(sk, a, j, b, version).nodes[a].keys,
            key,
            j2,
        ),
    ensures
        ({
            let s2 = reshape::inner_cut(sk, a, j, b, version);
            let c = s2.nodes[a].children[j2];
            &&& j2 == j || j2 == j + 1
            &&& !c.spec_is_id()
            &&& c.inner_no() == b || c.inner_no() == sk.nodes.len()
            &&& s2.nodes[c.inner_no()].keys.len() < sk.nodes[b].keys.len()
            &&& s2.levels[c.inner_no()] == sk.levels[b]
        }),
{
    let s2 = reshape::inner_cut(sk, a, j, b, version);
    assert(sk.node_ok(np, p, a));
    assert(sk.node_ok(np, p, b));
    assert(sk.child_ok(np, a, sk.nodes[a].children[j], j));
    let v = sk.nodes[b];
    let m = (v.keys.len() / 2) as int;
    let mid = v.keys[m];
    assert(sk.ranges[b].cuts(mid));
    reshape::lemma_cut_slot(sk.nodes[a].keys, sk.ranges[a], j, mid);
    reshape::lemma_child_ix_insert(sk.nodes[a].keys, j, mid, key);
    model::lemma_child_ix_is(sk.nodes[a].keys, key, j);
    assert(s2.nodes[a].keys == sk.nodes[a].keys.insert(j, mid));
    model::lemma_child_ix_is(s2.nodes[a].keys, key, j2);
    let fresh = PageID::inner(sk.nodes.len() as int);
    assert(!fresh.spec_is_id() && fresh.inner_no() == sk.nodes.len());
    assert(s2.nodes[a].children == sk.nodes[a].children.insert(j + 1, fresh));
}

impl BfTree {
    /// What a change of shape needs.
    pub open spec fn shapely(&self, g: &CPRSnapshotGuard) -> bool {
        &&& self.parts_ok()
        &&& self.model().shape_ok(self.params())
        &&& tree::cpr_ok(self.model(), self.snapshot_mgr, self.params())
        &&& self.guard_ok(g)
        &&& self.inners@.len() <= PAGE_LIMIT + 1
    }

    /// Puts a new root over the old one.
    pub(crate) fn grow_root(&mut self, g: &CPRSnapshotGuard)
        requires
            old(self).shapely(g),
            old(self).inners@.len() <= PAGE_LIMIT,
        ensures
            final(self).shapely(g),
            final(self).model() == (Core {
                sk: reshape::grown(
                    old(self).model().sk,
                    old(self).root,
                    g.snapshot_version,
                ),
                root: PageID::inner(old(self).inners@.len() as int),
                ..old(self).model()
            }),
            final(self).storage == old(self).storage,
            final(self).only_core_differs(old(self)),
    {
        let ghost c = self.model();
        let ghost p = self.params();
        let version = g.snapshot_version;
        let root = self.root;
        proof {
            self.config.lemma_params();
            reshape::lemma_grown(c.sk, c.pages.len(), p, root, version);
        }
        if root.is_inner_node_pointer() {
            let r: usize = root.as_inner_node() as usize;
            proof {
                lemma_node_fits(c.sk, c.pages.len(), p, r as int);
                assert(c.sk.nodes[r as int] == self.inners@[r as int]@);
            }
            self.capture_node(g, r);
            self.unmark_root(r, version);
        }
        let mut top = InnerNode::with_left_most(root, root.is_id(), INVALID_DISK_OFFSET, version);
        top.set_root(true);
        let no = self.inners.len();
        self.push_node(top);
        let top_id = PageID::from_pointer(no);
        assert(self.inners@[no as int]@ == top@);
        self.set_root(top_id);
        proof {
            let s2 = reshape::grown(c.sk, root, version);
            let last = self.model();
            self.shape@ = Shape { levels: s2.levels, ranges: s2.ranges };
            assert(top@.children =~= seq![root]);
            assert(self.model().sk.nodes =~= s2.nodes);
            assert(self.model().sk =~= s2);
            tree::lemma_cpr_shape(last, self.model(), self.snapshot_mgr, p);
        }
    }

    /// Cuts inner node `b`, in slot `j` of inner node `a`, in two.
    pub(crate) fn split_child(&mut self, g: &CPRSnapshotGuard, a: usize, j: usize, b: usize)
        requires
            old(self).shapely(g),
            old(self).inners@.len() <= PAGE_LIMIT,
            a < old(self).inners@.len(),
            j < old(self).model().sk.nodes[a as int].children.len(),
            b < old(self).inners@.len(),
            old(self).model().sk.nodes[a as int].children[j as int] == PageID::inner(b as int),
            old(self).model().sk.nodes[b as int].keys.len() >= 3,
            old(self).model().sk.nodes[a as int].keys.len() < old(self).params().fanout,
        ensures
            final(self).shapely(g),
            final(self).model() == (Core {
                sk: reshape::inner_cut(
                    old(self).model().sk,
                    a as int,
                    j as int,
                    b as int,
                    g.snapshot_version,
                ),
                ..old(self).model()
            }),
            final(self).inners@.len() == old(self).inners@.len() + 1,
            final(self).storage == old(self).storage,
            final(self).only_core_differs(old(self)),
    {
        let ghost c = self.model();
        let ghost p = self.params();
        let version = g.snapshot_version;
        proof {
            self.config.lemma_params();
            reshape::lemma_inner_cut(
                c.sk,
                c.pages.len(),
                p,
                a as int,
                j as int,
                b as int,
                version,
            );
            lemma_node_fits(c.sk, c.pages.len(), p, a as int);
            lemma_node_fits(c.sk, c.pages.len(), p, b as int);
            assert(c.sk.nodes[a as int] == self.inners@[a as int]@);
            assert(c.sk.nodes[b as int] == self.inners@[b as int]@);
            assert(c.sk.node_ok(c.pages.len(), p, a as int));
            assert(c.sk.node_ok(c.pages.len(), p, b as int));
            assert(c.sk.child_ok(
                c.pages.len(),
                a as int,
                c.sk.nodes[a as int].children[j as int],
                j as int,
            ));
        }
        let ghost v = c.sk.nodes[b as int];
        let ghost n = c.sk.nodes[a as int];
        let ghost m = (v.keys.len() / 2) as int;
        assert(a != b);
        self.capture_node(g, a);
        self.capture_node(g, b);
        let (mid, right) = self.cut_node(b, version);
        assert(mid@ == v.keys[m]);
        proof {
            assert(c.sk.ranges[b as int].cuts(v.keys[m]));
            reshape::lemma_cut_slot(n.keys, c.sk.ranges[a as int], j as int, mid@);
            order::lemma_lex_irreflexive(mid@);
        }
        assert(self.inners@[a as int]@ == n) by {
            assert(self.model().sk.nodes[a as int] == n);
        }
        let no = self.inners.len();
        self.push_node(right);
        assert(self.inners@[a as int]@ == n);
        self.add_child(a, mid.as_slice(), PageID::from_pointer(no), version, Ghost(j as int));
        proof {
            let s2 = reshape::inner_cut(c.sk, a as int, j as int, b as int, version);
            let last = self.model();
            self.shape@ = Shape { levels: s2.levels, ranges: s2.ranges };
            assert(self.model().sk.nodes =~= s2.nodes);
            assert(self.model().sk =~= s2);
            tree::lemma_cpr_shape(last, self.model(), self.snapshot_mgr, p);
        }
    }

    /// Finds the leaf page of `key`. With `aggressive_split`, full inner nodes
    /// on the way are split, so that the one above the leaf page has room.
    pub(crate) fn traverse_to_leaf(
        &mut self,
        g: &CPRSnapshotGuard,
        key: &[u8],
        aggressive_split: bool,
    ) -> (d: Descent)
        requires
            old(self).wf(),
            old(self).guard_ok(g),
        ensures
            final(self).wf(),
            final(self).guard_ok(g),
            final(self).storage == old(self).storage,
            final(self).only_core_differs(old(self)),
            forall|k: Seq<u8>| #[trigger]
                final(self).model().leaf_of(k) == old(self).model().leaf_of(k),
            !aggressive_split ==> *final(self) == *old(self),
            d.ok(final(self).model(), key@),
            d.parent is None <==> old(self).root.spec_is_id(),
            aggressive_split ==> (d.parent matches Some((i, _)) ==>
                final(self).model().sk.nodes[i as int].keys.len() < final(self).params().fanout),
    {
        let ghost c0 = self.model();
        let ghost p = self.params();
        let ghost np = c0.pages.len();
        let fanout = self.config.max_separators();
        proof {
            self.config.lemma_params();
            c0.sk.lemma_route_valid(np, p, c0.root, key@);
            model::lemma_total_keys_min(c0.sk.nodes);
        }
        if self.root.is_id() {
            assert forall|k: Seq<u8>| #[trigger] order::KeyRange::full().contains(k) by {
                order::lemma_lex_empty_least(k);
            }
            return Descent { pid: self.root.as_id(), parent: None, next_key: Vec::new() };
        }
        let mut cur: usize = self.root.as_inner_node() as usize;
        assert(c0.sk.nodes[cur as int] == self.inners@[cur as int]@);
        assert(c0.sk.node_ok(np, p, cur as int));
        if aggressive_split && self.inners[cur].keys.len() >= fanout {
            let ghost root0 = self.root;
            self.grow_root(g);
            let ghost c1 = self.model();
            let top: usize = self.inners.len() - 1;
            proof {
                reshape::lemma_grown(c0.sk, np, p, root0, g.snapshot_version);
                assert(c1.sk.nodes[cur as int].keys == c0.sk.nodes[cur as int].keys);
                assert(PageID::inner(cur as int) == root0);
            }
            self.split_child(g, top, 0, cur);
            proof {
                reshape::lemma_inner_cut(
                    c1.sk,
                    np,
                    p,
                    top as int,
                    0,
                    cur as int,
                    g.snapshot_version,
                );
                assert forall|i: int|
                    0 <= i < c1.sk.nodes.len() && i != top implies (
                #[trigger] c1.sk.nodes[i]).keys.len() >= 1 by {
                    assert(c0.sk.nodes[i].keys.len() >= 1);
                    assert(c1.sk.nodes[i].keys == c0.sk.nodes[i].keys);
                }
                lemma_cut_counts(c1.sk, top as int, 0, cur as int, g.snapshot_version);
                assert forall|k: Seq<u8>| #[trigger]
                    self.model().leaf_of(k) == c0.leaf_of(k) by {
                    assert(c1.leaf_of(k) == c0.leaf_of(k));
                }
            }
            cur = top;
        }
        let mut next_key: Vec<u8> = Vec::new();
        proof {
            let c = self.model();
            lemma_owns_root(c, p);
            model::lemma_pages_kept(c0, c, p);
        }
        loop
            invariant
                self.wf(),
                self.guard_ok(g),
                p == self.params(),
                np == c0.pages.len(),
                self.model().pages == c0.pages,
                fanout == p.fanout,
                fanout >= 3,
                self.storage == old(self).storage,
                self.only_core_differs(old(self)),
                c0 == old(self).model(),
                !old(self).root.spec_is_id(),
                !self.root.spec_is_id(),
                forall|k: Seq<u8>| #[trigger] self.model().leaf_of(k) == c0.leaf_of(k),
                !aggressive_split ==> *self == *old(self),
                cur < self.inners@.len(),
                owns(
                    self.model().sk,
                    np,
                    self.root,
                    PageID::inner(cur as int),
                    self.model().sk.ranges[cur as int],
                ),
                self.model().sk.ranges[cur as int].contains(key@),
                next_key@ == self.model().sk.ranges[cur as int].high_fence(),
                self.model().sk.ranges[cur as int].hi matches Some(h) ==> h.len() > 0,
                aggressive_split ==> self.model().sk.nodes[cur as int].keys.len() < fanout,
            decreases self.model().sk.levels[cur as int],
        {
            let ghost c = self.model();
            let ghost x = PageID::inner(cur as int);
            proof {
                self.config.lemma_params();
                model::lemma_total_keys_min(c.sk.nodes);
                assert(c.sk.node_ok(np, p, cur as int));
                assert(c.sk.nodes[cur as int] == self.inners@[cur as int]@);
                lemma_node_fits(c.sk, np, p, cur as int);
                assert(!x.spec_is_id() && x.inner_no() == cur);
            }
            let j = self.inners[cur].lower_bound(key);
            let child = self.inners[cur].get_value(j);
            proof {
                assert(c.sk.child_ok(np, cur as int, child, j as int));
                lemma_owns_child(c.sk, np, p, c.root, x, j as int);
            }
            if j < self.inners[cur].keys.len() {
                next_key = self.inners[cur].get_full_key(j + 1);
                proof {
                    assert(c.sk.ranges[cur as int].cuts(c.sk.nodes[cur as int].keys[j as int]));
                }
            }
            let ghost r = model::slot_range(
                c.sk.nodes[cur as int].keys,
                c.sk.ranges[cur as int],
                j as int,
            );
            if child.is_id() {
                proof {
                    lemma_leaf_owned(c, p, child, r, key@);
                }
                return Descent { pid: child.as_id(), parent: Some((cur, j)), next_key };
            }
            let b: usize = child.as_inner_node() as usize;
            assert(c.sk.nodes[b as int] == self.inners@[b as int]@);
            assert(PageID::inner(b as int) == child);
            assert(c.sk.ranges[b as int] == r);
            assert(c.sk.node_ok(np, p, b as int));
            if aggressive_split && self.inners[b].keys.len() >= fanout {
                self.split_child(g, cur, j, b);
                let ghost c2 = self.model();
                let right: usize = self.inners.len() - 1;
                proof {
                    reshape::lemma_inner_cut(
                        c.sk,
                        np,
                        p,
                        cur as int,
                        j as int,
                        b as int,
                        g.snapshot_version,
                    );
                    assert(c.sk.root_ok(np, c.root));
                    assert(c.root != child);
                    assert forall|k: Seq<u8>| #[trigger]
                        c2.leaf_of(k) == c0.leaf_of(k) by {
                        assert(c.leaf_of(k) == c0.leaf_of(k));
                    }
                    lemma_cut_counts(c.sk, cur as int, j as int, b as int, g.snapshot_version);
                    model::lemma_pages_kept(c, c2, p);
                    lemma_owns_kept(c, c2, np, x, c.sk.ranges[cur as int], child);
                    lemma_node_fits(c2.sk, np, p, cur as int);
                    assert(c2.sk.nodes[cur as int] == self.inners@[cur as int]@);
                    assert(c2.sk.node_ok(np, p, cur as int));
                    assert(c2.sk.node_ok(np, p, b as int));
                    assert(c2.sk.node_ok(np, p, right as int));
                }
                let j2 = self.inners[cur].lower_bound(key);
                let child2 = self.inners[cur].get_value(j2);
                proof {
                    assert(c2.sk.child_ok(np, cur as int, child2, j2 as int));
                    lemma_owns_child(c2.sk, np, p, c2.root, x, j2 as int);
                    lemma_cut_slots(
                        c.sk,
                        np,
                        p,
                        cur as int,
                        j as int,
                        b as int,
                        key@,
                        j2 as int,
                        g.snapshot_version,
                    );
                }
                if j2 < self.inners[cur].keys.len() {
                    next_key = self.inners[cur].get_full_key(j2 + 1);
                    proof {
                        assert(c2.sk.ranges[cur as int].cuts(
                            c2.sk.nodes[cur as int].keys[j2 as int],
                        ));
                    }
                } else {
                    assert(r.hi == c.sk.ranges[cur as int].hi);
                }
                let b2: usize = child2.as_inner_node() as usize;
                assert(PageID::inner(b2 as int) == child2);
                cur = b2;
            } else {
                cur = b;
            }
        }
    }
}

} // verus!
