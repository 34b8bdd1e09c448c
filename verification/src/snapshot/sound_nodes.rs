//! Looking over the inner nodes that come out of a file: whether they lead every search
//! to a leaf page.
use vstd::prelude::*;

use crate::config::Config;
use crate::model;
use crate::model::{Core, PageState, Params, Skeleton};
use crate::nodes::inner_node;
use crate::nodes::inner_node::{InnerNode, InnerView};
use crate::nodes::{PageID, INVALID_DISK_OFFSET};
use crate::order;
use crate::order::{key_lt, to_vec};
use crate::tree;
use crate::tree::Shape;

verus! {

/// An inner node by itself is in order.
pub open spec fn node_sound(n: InnerView, p: Params) -> bool {
    &&& n.shaped()
    &&& inner_node::keys_bounded(n.keys, p.key_max)
    &&& 1 <= n.keys.len() <= p.fanout
    &&& n.disk_offset == INVALID_DISK_OFFSET
}

fn is_node_sound(n: &InnerNode, config: &Config) -> (r: bool)
    requires
        config.ok(),
    ensures
        r == node_sound(n@, config.params()),
{
    let key_max: usize = config.max_fence_len / 2;
    let ghost keys = n@.keys;
    let count: usize = n.keys.len();
    if count < 1 || count > config.max_separators() || n.disk_offset != INVALID_DISK_OFFSET
        || n.children.len() != count + 1 {
        return false;
    }
    let mut i: usize = 0;
    while i < count
        invariant
            keys == n@.keys,
            count == n.keys@.len(),
            i <= count,
            key_max == config.params().key_max,
            forall|a: int| 0 <= a < i ==> (#[trigger] keys[a]).len() <= key_max,
            forall|a: int, b: int|
                0 <= a < b < i ==> order::lex_lt(#[trigger] keys[a], #[trigger] keys[b]),
        decreases count - i,
    {
        assert(keys[i as int] == n.keys@[i as int]@);
        if n.keys[i].len() > key_max {
            return false;
        }
        if i > 0 {
            assert(keys[i - 1] == n.keys@[i - 1]@);
            if !key_lt(n.keys[i - 1].as_slice(), n.keys[i].as_slice()) {
                return false;
            }
        }
        proof {
            order::lemma_lex_order();
            assert forall|a: int, b: int|
                0 <= a < b < i + 1 implies order::lex_lt(
                #[trigger] keys[a],
                #[trigger] keys[b],
            ) by {
                if b == i && a < i - 1 {
                    assert(order::lex_lt(keys[a], keys[i - 1]));
                }
            }
        }
        i += 1;
    }
    true
}

/// How many inner nodes a walk from node `i` along first children comes through, until
/// the children are leaf pages. It ends after `fuel` nodes, and at a link that leads
/// nowhere.
pub open spec fn height(nodes: Seq<InnerView>, i: int, fuel: nat) -> nat
    decreases fuel,
{
    if fuel == 0 || !(0 <= i < nodes.len()) {
        0
    } else if nodes[i].leaf_children || nodes[i].children.len() == 0 {
        1
    } else {
        1 + height(nodes, nodes[i].children[0].inner_no(), (fuel - 1) as nat)
    }
}

proof fn lemma_height_bound(nodes: Seq<InnerView>, i: int, fuel: nat)
    ensures
        height(nodes, i, fuel) <= fuel,
    decreases fuel,
{
    if fuel > 0 && 0 <= i < nodes.len() && !nodes[i].leaf_children && nodes[i].children.len() > 0 {
        lemma_height_bound(nodes, nodes[i].children[0].inner_no(), (fuel - 1) as nat);
    }
}

fn height_of(inners: &Vec<InnerNode>, i: usize) -> (r: usize)
    requires
        i < inners@.len(),
    ensures
        r == height(tree::node_views(inners@), i as int, inners@.len()),
        r <= inners@.len(),
{
    let ghost nodes = tree::node_views(inners@);
    let n: usize = inners.len();
    let mut cur: usize = i;
    let mut steps: usize = 0;
    proof {
        lemma_height_bound(nodes, i as int, n as nat);
    }
    while steps < n
        invariant
            nodes == tree::node_views(inners@),
            n == inners@.len(),
            cur < n,
            steps <= n,
            height(nodes, i as int, n as nat) == steps + height(
                nodes,
                cur as int,
                (n - steps) as nat,
            ),
            height(nodes, i as int, n as nat) <= n,
        decreases n - steps,
    {
        let node = &inners[cur];
        assert(nodes[cur as int] == node@);
        if node.leaf_children || node.children.len() == 0 {
            return steps + 1;
        }
        let next = node.children[0];
        if next.is_id() || next.as_inner_node() >= n as u64 {
            proof {
                assert(height(nodes, next.inner_no(), (n - steps - 1) as nat) == 0);
            }
            return steps + 1;
        }
        cur = next.as_inner_node() as usize;
        steps += 1;
    }
    steps
}

/// The heights of all inner nodes.
fn heights(inners: &Vec<InnerNode>) -> (r: Vec<usize>)
    ensures
        r@.len() == inners@.len(),
        forall|i: int|
            0 <= i < r@.len() ==> #[trigger] r@[i] == height(
                tree::node_views(inners@),
                i,
                inners@.len(),
            ) && r@[i] <= inners@.len(),
{
    let mut r: Vec<usize> = Vec::new();
    let mut i: usize = 0;
    while i < inners.len()
        invariant
            i <= inners@.len(),
            r@.len() == i,
            forall|j: int|
                0 <= j < i ==> #[trigger] r@[j] == height(
                    tree::node_views(inners@),
                    j,
                    inners@.len(),
                ) && r@[j] <= inners@.len(),
        decreases inners@.len() - i,
    {
        r.push(height_of(inners, i));
        i += 1;
    }
    r
}

/// In a skeleton that is in order the height is the number of nodes of a walk.
proof fn lemma_height_is_level(sk: Skeleton, npages: nat, p: Params, i: int, fuel: nat)
    requires
        sk.ok(npages, p),
        0 <= i < sk.nodes.len(),
        sk.levels[i] <= fuel,
    ensures
        height(sk.nodes, i, fuel) == sk.levels[i],
    decreases fuel,
{
    assert(sk.node_ok(npages, p, i));
    if !sk.nodes[i].leaf_children {
        let c = sk.nodes[i].children[0];
        assert(sk.child_ok(npages, i, c, 0));
        assert(!c.spec_is_id());
        lemma_height_is_level(sk, npages, p, c.inner_no(), (fuel - 1) as nat);
    }
}

/// The nodes up to a height.
spec fn low_nodes(sk: Skeleton, level: nat) -> Set<int> {
    Set::new(|i: int| 0 <= i < sk.nodes.len() && sk.levels[i] <= level)
}

proof fn lemma_low_nodes(sk: Skeleton, level: nat)
    ensures
        low_nodes(sk, level).finite(),
        low_nodes(sk, level).len() <= sk.nodes.len(),
{
    let all = vstd::set_lib::set_int_range(0, sk.nodes.len() as int);
    vstd::set_lib::lemma_int_range(0, sk.nodes.len() as int);
    assert(low_nodes(sk, level).subset_of(all));
    vstd::set_lib::lemma_len_subset(low_nodes(sk, level), all);
}

/// Under a node there is one at each lesser height.
proof fn lemma_level_counts(sk: Skeleton, npages: nat, p: Params, i: int)
    requires
        sk.ok(npages, p),
        0 <= i < sk.nodes.len(),
    ensures
        low_nodes(sk, sk.levels[i]).len() >= sk.levels[i],
        sk.levels[i] <= sk.nodes.len(),
    decreases sk.levels[i],
{
    assert(sk.node_ok(npages, p, i));
    let level = sk.levels[i];
    lemma_low_nodes(sk, level);
    if level > 1 {
        let c = sk.nodes[i].children[0];
        assert(sk.child_ok(npages, i, c, 0));
        assert(!c.spec_is_id());
        let k = c.inner_no();
        assert(sk.node_ok(npages, p, k));
        lemma_level_counts(sk, npages, p, k);
        let below = low_nodes(sk, (level - 1) as nat);
        lemma_low_nodes(sk, (level - 1) as nat);
        assert(!below.contains(i));
        assert(below.insert(i).subset_of(low_nodes(sk, level)));
        vstd::set_lib::lemma_len_subset(below.insert(i), low_nodes(sk, level));
    } else {
        assert(low_nodes(sk, level).contains(i));
        vstd::set_lib::lemma_len_subset(set![i], low_nodes(sk, level));
    }
}

/// A skeleton of nodes and heights; what the nodes are responsible for is left open.
spec fn bare(nodes: Seq<InnerView>, levels: Seq<usize>) -> Skeleton {
    Skeleton {
        nodes,
        levels: Seq::new(levels.len(), |i: int| levels[i] as nat),
        ranges: Seq::empty(),
    }
}

/// Slot `j` of node `i` comes before slot `j2` of node `i2`.
spec fn earlier(i: int, j: int, i2: int, j2: int) -> bool {
    i < i2 || (i == i2 && j < j2)
}

/// Slot `j` of node `i` is there.
spec fn is_slot(sk: Skeleton, i: int, j: int) -> bool {
    0 <= i < sk.nodes.len() && 0 <= j < sk.nodes[i].children.len()
}

/// The link in a slot leads to what is one lower.
spec fn link_sound(sk: Skeleton, npages: nat, i: int, j: int) -> bool {
    let c = sk.nodes[i].children[j];
    sk.valid(npages, c) && sk.rank(c) + 1 == sk.levels[i]
}

/// Where leaf pages and inner nodes are linked from.
struct Links {
    leaves: Vec<Option<(usize, usize)>>,
    inners: Vec<Option<(usize, usize)>>,
}

impl Links {
    /// The slot that link `c` was found in.
    spec fn of(&self, c: PageID) -> Option<(usize, usize)> {
        if c.spec_is_id() {
            self.leaves@[c.raw as int]
        } else {
            self.inners@[c.inner_no()]
        }
    }

    /// Link `c` was found in slot `j` of node `i`.
    spec fn is_from(&self, c: PageID, i: int, j: int) -> bool {
        self.of(c) matches Some((a, b)) && a == i && b == j
    }

    /// The links of all slots before slot `j` of node `i` are sound and noted.
    spec fn noted(&self, sk: Skeleton, npages: nat, i: int, j: int) -> bool {
        &&& self.leaves@.len() == npages
        &&& self.inners@.len() == sk.nodes.len()
        &&& forall|a: int, b: int|
            #![trigger sk.nodes[a].children[b]]
            is_slot(sk, a, b) && earlier(a, b, i, j) ==> link_sound(sk, npages, a, b)
                && self.is_from(sk.nodes[a].children[b], a, b)
        &&& forall|c: PageID|
            #![trigger self.of(c)]
            sk.valid(npages, c) && self.of(c) is Some ==> {
                let (a, b) = self.of(c)->0;
                is_slot(sk, a as int, b as int) && earlier(a as int, b as int, i, j)
                    && sk.nodes[a as int].children[b as int] == c
            }
    }

    /// Notes the link in slot `j` of node `i`; fails if it leads to the wrong place or
    /// has been there before.
    fn note(
        &mut self,
        inners: &Vec<InnerNode>,
        levels: &Vec<usize>,
        npages: u64,
        i: usize,
        j: usize,
    ) -> (r: bool)
        requires
            levels@.len() == inners@.len(),
            inners@.len() < 0x7fff_ffff_ffff_ffff,
            npages < 0x7fff_ffff_ffff_ffff,
            forall|a: int| 0 <= a < levels@.len() ==> #[trigger] levels@[a] <= inners@.len(),
            old(self).noted(
                bare(tree::node_views(inners@), levels@),
                npages as nat,
                i as int,
                j as int,
            ),
            is_slot(bare(tree::node_views(inners@), levels@), i as int, j as int),
            levels@[i as int] >= 1,
            inners@[i as int].leaf_children == (levels@[i as int] == 1),
        ensures
            ({
                let sk = bare(tree::node_views(inners@), levels@);
                let np = npages as nat;
                if r {
                    final(self).noted(sk, np, i as int, j + 1)
                } else {
                    ||| !link_sound(sk, np, i as int, j as int)
                    ||| exists|a: int, b: int|
                        #![trigger sk.nodes[a].children[b]]
                        is_slot(sk, a, b) && earlier(a, b, i as int, j as int)
                            && sk.nodes[a].children[b] == sk.nodes[i as int].children[j as int]
                }
            }),
    {
        let ghost sk = bare(tree::node_views(inners@), levels@);
        let ghost np = npages as nat;
        let ghost before = *self;
        assert(sk.nodes[i as int] == inners@[i as int]@);
        let c = inners[i].children[j];
        if c.is_id() {
            if c.raw >= npages || levels[i] != 1 {
                return false;
            }
            let count: usize = self.leaves.len();
            assert(c.raw < count);
            let at = c.raw as usize;
            if self.leaves[at].is_some() {
                proof {
                    let (a, b) = before.of(c)->0;
                    assert(sk.nodes[a as int].children[b as int] == c);
                }
                return false;
            }
            self.leaves.set(at, Some((i, j)));
        } else {
            if c.as_inner_node() >= inners.len() as u64 {
                return false;
            }
            let at = c.as_inner_node() as usize;
            if levels[at] != levels[i] - 1 {
                return false;
            }
            if self.inners[at].is_some() {
                proof {
                    let (a, b) = before.of(c)->0;
                    assert(sk.nodes[a as int].children[b as int] == c);
                }
                return false;
            }
            self.inners.set(at, Some((i, j)));
        }
        proof {
            assert(before.of(c) is None);
            assert forall|d: PageID| sk.valid(np, d) && d != c implies #[trigger] self.of(d)
                == before.of(d) by {}
            assert(self.of(c) == Some((i, j)));
            assert forall|a: int, b: int|
                #![trigger sk.nodes[a].children[b]]
                is_slot(sk, a, b) && earlier(a, b, i as int, j + 1) implies link_sound(
                sk,
                np,
                a,
                b,
            ) && self.is_from(sk.nodes[a].children[b], a, b) by {
                if earlier(a, b, i as int, j as int) {
                    assert(before.is_from(sk.nodes[a].children[b], a, b));
                }
            }
            assert forall|d: PageID|
                #![trigger self.of(d)]
                sk.valid(np, d) && self.of(d) is Some implies {
                let (a, b) = self.of(d)->0;
                is_slot(sk, a as int, b as int) && earlier(a as int, b as int, i as int, j + 1)
                    && sk.nodes[a as int].children[b as int] == d
            } by {
                if d != c {
                    assert(before.of(d) == self.of(d));
                }
            }
        }
        true
    }
}

/// The height of a node fits the kind of its children.
spec fn level_sound(sk: Skeleton, i: int) -> bool {
    sk.levels[i] >= 1 && sk.nodes[i].leaf_children == (sk.levels[i] == 1)
}

/// Heights fit the nodes, each link leads to what is one lower, and no two lead to the
/// same place.
spec fn links_sound(sk: Skeleton, npages: nat) -> bool {
    &&& forall|i: int| 0 <= i < sk.nodes.len() ==> #[trigger] level_sound(sk, i)
    &&& forall|i: int, j: int|
        #![trigger sk.nodes[i].children[j]]
        is_slot(sk, i, j) ==> link_sound(sk, npages, i, j)
    &&& sk.links_apart()
}

/// Places for `n` links that were not found yet.
fn no_links(n: usize) -> (r: Vec<Option<(usize, usize)>>)
    ensures
        r@.len() == n,
        forall|i: int| 0 <= i < n ==> #[trigger] r@[i] is None,
{
    let mut r: Vec<Option<(usize, usize)>> = Vec::new();
    let mut i: usize = 0;
    while i < n
        invariant
            i <= n,
            r@.len() == i,
            forall|j: int| 0 <= j < i ==> #[trigger] r@[j] is None,
        decreases n - i,
    {
        r.push(None);
        i += 1;
    }
    r
}

/// Finds where everything is linked from.
fn find_links(inners: &Vec<InnerNode>, levels: &Vec<usize>, npages: usize) -> (r: Option<Links>)
    requires
        levels@.len() == inners@.len(),
        inners@.len() < 0x7fff_ffff_ffff_ffff,
        npages < 0x7fff_ffff_ffff_ffff,
        forall|a: int| 0 <= a < levels@.len() ==> #[trigger] levels@[a] <= inners@.len(),
    ensures
        r is Some <==> links_sound(
            bare(tree::node_views(inners@), levels@),
            npages as nat,
        ),
        r matches Some(l) ==> l.noted(
            bare(tree::node_views(inners@), levels@),
            npages as nat,
            inners@.len() as int,
            0,
        ),
{
    let ghost sk = bare(tree::node_views(inners@), levels@);
    let ghost np = npages as nat;
    let n: usize = inners.len();
    let mut links = Links { leaves: no_links(npages), inners: no_links(n) };
    assert forall|c: PageID| sk.valid(np, c) implies #[trigger] links.of(c) is None by {}
    let mut i: usize = 0;
    while i < n
        invariant
            sk == bare(tree::node_views(inners@), levels@),
            np == npages,
            n == inners@.len(),
            levels@.len() == n,
            n < 0x7fff_ffff_ffff_ffff,
            npages < 0x7fff_ffff_ffff_ffff,
            forall|a: int| 0 <= a < levels@.len() ==> #[trigger] levels@[a] <= inners@.len(),
            i <= n,
            links.noted(sk, np, i as int, 0),
            forall|a: int| 0 <= a < i ==> #[trigger] level_sound(sk, a),
        decreases n - i,
    {
        assert(sk.nodes[i as int] == inners@[i as int]@);
        assert(sk.levels[i as int] == levels@[i as int]);
        if levels[i] < 1 || inners[i].leaf_children != (levels[i] == 1) {
            assert(!level_sound(sk, i as int));
            return None;
        }
        let count: usize = inners[i].children.len();
        let mut j: usize = 0;
        while j < count
            invariant
                sk == bare(tree::node_views(inners@), levels@),
                np == npages,
                n == inners@.len(),
                levels@.len() == n,
                n < 0x7fff_ffff_ffff_ffff,
                npages < 0x7fff_ffff_ffff_ffff,
                forall|a: int| 0 <= a < levels@.len() ==> #[trigger] levels@[a] <= inners@.len(),
                i < n,
                sk.nodes[i as int] == inners@[i as int]@,
                count == sk.nodes[i as int].children.len(),
                j <= count,
                levels@[i as int] >= 1,
                inners@[i as int].leaf_children == (levels@[i as int] == 1),
                links.noted(sk, np, i as int, j as int),
            decreases count - j,
        {
            if !links.note(inners, levels, npages as u64, i, j) {
                return None;
            }
            j += 1;
        }
        assert(links.noted(sk, np, i + 1, 0)) by {
            assert forall|a: int, b: int|
                #![trigger sk.nodes[a].children[b]]
                is_slot(sk, a, b) && earlier(a, b, i + 1, 0) implies earlier(
                a,
                b,
                i as int,
                j as int,
            ) by {}
        }
        assert(level_sound(sk, i as int));
        i += 1;
    }
    proof {
        assert forall|a: int, b: int|
            #![trigger sk.nodes[a].children[b]]
            is_slot(sk, a, b) implies link_sound(sk, np, a, b) by {
            assert(earlier(a, b, n as int, 0));
        }
        assert forall|a: int, b: int, a2: int, b2: int|
            #![trigger sk.nodes[a].children[b], sk.nodes[a2].children[b2]]
            is_slot(sk, a, b) && is_slot(sk, a2, b2) && sk.nodes[a].children[b]
                == sk.nodes[a2].children[b2] implies a == a2 && b == b2 by {
            assert(earlier(a, b, n as int, 0) && earlier(a2, b2, n as int, 0));
            assert(links.is_from(sk.nodes[a].children[b], a, b));
            assert(links.is_from(sk.nodes[a2].children[b2], a2, b2));
        }
        assert(sk.links_apart());
    }
    Some(links)
}

/// The least key of node `i`, as the links above it tell.
spec fn low_at(sk: Skeleton, froms: Seq<Option<(usize, usize)>>, i: int) -> Seq<u8>
    decreases sk.nodes.len() - sk.levels[i],
{
    match froms[i] {
        None => Seq::empty(),
        Some((a, b)) => if !(sk.levels[i] < sk.levels[a as int] <= sk.nodes.len()) {
            Seq::empty()
        } else if b == 0 {
            low_at(sk, froms, a as int)
        } else {
            sk.nodes[a as int].keys[b - 1]
        },
    }
}

/// The least key beyond node `i`, as the links above it tell.
spec fn high_at(sk: Skeleton, froms: Seq<Option<(usize, usize)>>, i: int) -> Option<Seq<u8>>
    decreases sk.nodes.len() - sk.levels[i],
{
    match froms[i] {
        None => None,
        Some((a, b)) => if !(sk.levels[i] < sk.levels[a as int] <= sk.nodes.len()) {
            None
        } else if b == sk.nodes[a as int].keys.len() {
            high_at(sk, froms, a as int)
        } else {
            Some(sk.nodes[a as int].keys[b as int])
        },
    }
}

spec fn range_at(sk: Skeleton, froms: Seq<Option<(usize, usize)>>, i: int) -> order::KeyRange {
    order::KeyRange { lo: low_at(sk, froms, i), hi: high_at(sk, froms, i) }
}

/// Nodes, heights and links go together.
spec fn linked(inners: &Vec<InnerNode>, levels: &Vec<usize>, links: &Links, npages: nat) -> bool {
    let sk = bare(tree::node_views(inners@), levels@);
    &&& levels@.len() == inners@.len()
    &&& inners@.len() < 0x7fff_ffff_ffff_ffff
    &&& forall|a: int| 0 <= a < levels@.len() ==> #[trigger] levels@[a] <= inners@.len()
    &&& forall|a: int|
        0 <= a < inners@.len() ==> (#[trigger] inners@[a])@.children.len()
            == inners@[a]@.keys.len() + 1
    &&& links_sound(sk, npages)
    &&& links.noted(sk, npages, inners@.len() as int, 0)
}

/// The node above node `i` is one higher.
proof fn lemma_above(
    inners: &Vec<InnerNode>,
    levels: &Vec<usize>,
    links: &Links,
    npages: nat,
    i: int,
)
    requires
        linked(inners, levels, links, npages),
        0 <= i < inners@.len(),
    ensures
        links.inners@.len() == inners@.len(),
        links.inners@[i] matches Some((a, b)) ==> {
            let sk = bare(tree::node_views(inners@), levels@);
            &&& a < inners@.len()
            &&& b < inners@[a as int]@.children.len()
            &&& sk.nodes[a as int] == inners@[a as int]@
            &&& sk.nodes[a as int].children[b as int] == PageID::inner(i)
            &&& sk.levels[a as int] == sk.levels[i] + 1
            &&& sk.levels[a as int] <= sk.nodes.len()
        },
{
    let sk = bare(tree::node_views(inners@), levels@);
    let c = PageID::inner(i);
    assert(c.inner_no() == i && !c.spec_is_id());
    assert(links.of(c) == links.inners@[i]);
    if links.inners@[i] is Some {
        let (a, b) = links.inners@[i]->0;
        assert(is_slot(sk, a as int, b as int));
        assert(sk.nodes[a as int].children[b as int] == c);
        assert(link_sound(sk, npages, a as int, b as int));
        assert(sk.levels[a as int] == levels@[a as int]);
    }
}

fn low_of(
    inners: &Vec<InnerNode>,
    levels: &Vec<usize>,
    links: &Links,
    i: usize,
    Ghost(npages): Ghost<nat>,
) -> (r: Vec<u8>)
    requires
        linked(inners, levels, links, npages),
        i < inners@.len(),
    ensures
        r@ == low_at(bare(tree::node_views(inners@), levels@), links.inners@, i as int),
{
    let ghost sk = bare(tree::node_views(inners@), levels@);
    let mut cur: usize = i;
    loop
        invariant
            sk == bare(tree::node_views(inners@), levels@),
            linked(inners, levels, links, npages),
            cur < inners@.len(),
            low_at(sk, links.inners@, i as int) == low_at(sk, links.inners@, cur as int),
        decreases inners@.len() - levels@[cur as int],
    {
        proof {
            lemma_above(inners, levels, links, npages, cur as int);
            assert(sk.levels[cur as int] == levels@[cur as int]);
        }
        match &links.inners[cur] {
            None => {
                return Vec::new();
            },
            Some((a, b)) => {
                assert(sk.levels[*a as int] == levels@[*a as int]);
                if *b > 0 {
                    assert(sk.nodes[*a as int].keys[*b - 1] == inners@[*a as int].keys@[*b - 1]@);
                    return to_vec(inners[*a].keys[*b - 1].as_slice());
                }
                cur = *a;
            },
        }
    }
}

fn high_of(
    inners: &Vec<InnerNode>,
    levels: &Vec<usize>,
    links: &Links,
    i: usize,
    Ghost(npages): Ghost<nat>,
) -> (r: Option<Vec<u8>>)
    requires
        linked(inners, levels, links, npages),
        i < inners@.len(),
    ensures
        match r {
            None => high_at(
                bare(tree::node_views(inners@), levels@),
                links.inners@,
                i as int,
            ) is None,
            Some(h) => high_at(
                bare(tree::node_views(inners@), levels@),
                links.inners@,
                i as int,
            ) == Some(h@),
        },
{
    let ghost sk = bare(tree::node_views(inners@), levels@);
    let mut cur: usize = i;
    loop
        invariant
            sk == bare(tree::node_views(inners@), levels@),
            linked(inners, levels, links, npages),
            cur < inners@.len(),
            high_at(sk, links.inners@, i as int) == high_at(sk, links.inners@, cur as int),
        decreases inners@.len() - levels@[cur as int],
    {
        proof {
            lemma_above(inners, levels, links, npages, cur as int);
            assert(sk.levels[cur as int] == levels@[cur as int]);
        }
        match &links.inners[cur] {
            None => {
                return None;
            },
            Some((a, b)) => {
                assert(sk.levels[*a as int] == levels@[*a as int]);
                if *b < inners[*a].keys.len() {
                    assert(sk.nodes[*a as int].keys[*b as int]
                        == inners@[*a as int].keys@[*b as int]@);
                    return Some(to_vec(inners[*a].keys[*b].as_slice()));
                }
                cur = *a;
            },
        }
    }
}

/// The separators of node `i` lie within its range.
spec fn cuts_sound(sk: Skeleton, froms: Seq<Option<(usize, usize)>>, i: int) -> bool {
    forall|j: int|
        0 <= j < sk.nodes[i].keys.len() ==> range_at(sk, froms, i).cuts(
            #[trigger] sk.nodes[i].keys[j],
        )
}

fn are_cuts_sound(
    inners: &Vec<InnerNode>,
    levels: &Vec<usize>,
    links: &Links,
    i: usize,
    Ghost(npages): Ghost<nat>,
) -> (r: bool)
    requires
        linked(inners, levels, links, npages),
        i < inners@.len(),
        inner_node::keys_sorted(inners@[i as int]@.keys),
        inners@[i as int]@.keys.len() >= 1,
    ensures
        r == cuts_sound(bare(tree::node_views(inners@), levels@), links.inners@, i as int),
{
    let ghost sk = bare(tree::node_views(inners@), levels@);
    let ghost keys = sk.nodes[i as int].keys;
    let ghost range = range_at(sk, links.inners@, i as int);
    let low = low_of(inners, levels, links, i, Ghost(npages));
    let high = high_of(inners, levels, links, i, Ghost(npages));
    let last: usize = inners[i].keys.len() - 1;
    proof {
        assert(sk.nodes[i as int] == inners@[i as int]@);
        assert(keys[0] == inners@[i as int].keys@[0]@);
        assert(keys[last as int] == inners@[i as int].keys@[last as int]@);
        order::lemma_lex_order();
    }
    if !key_lt(low.as_slice(), inners[i].keys[0].as_slice()) {
        assert(!range.cuts(keys[0]));
        return false;
    }
    if let Some(h) = &high {
        if !key_lt(inners[i].keys[last].as_slice(), h.as_slice()) {
            assert(!range.cuts(keys[last as int]));
            return false;
        }
    }
    proof {
        assert forall|j: int| 0 <= j < keys.len() implies range.cuts(#[trigger] keys[j]) by {
            if j > 0 {
                assert(order::lex_lt(keys[0], keys[j]));
            }
            if j < last {
                assert(order::lex_lt(keys[j], keys[last as int]));
            }
        }
    }
    true
}

proof fn lemma_keys_grow(nodes: Seq<InnerView>, n: int)
    requires
        0 <= n <= nodes.len(),
    ensures
        model::total_keys(nodes.take(n)) <= model::total_keys(nodes),
    decreases nodes.len(),
{
    if n == nodes.len() {
        assert(nodes.take(n) =~= nodes);
    } else {
        assert(nodes.drop_last().take(n) =~= nodes.take(n));
        lemma_keys_grow(nodes.drop_last(), n);
    }
}

/// Decides whether there are fewer separators than leaf pages.
fn are_counts_sound(inners: &Vec<InnerNode>, npages: usize) -> (r: bool)
    ensures
        r == (model::total_keys(tree::node_views(inners@)) + 1 <= npages),
{
    let ghost nodes = tree::node_views(inners@);
    if npages == 0 {
        return false;
    }
    let mut total: usize = 0;
    let mut i: usize = 0;
    assert(nodes.take(0) =~= Seq::empty());
    while i < inners.len()
        invariant
            nodes == tree::node_views(inners@),
            i <= inners@.len(),
            total == model::total_keys(nodes.take(i as int)),
            total < npages,
        decreases inners@.len() - i,
    {
        proof {
            assert(nodes[i as int] == inners@[i as int]@);
            assert(nodes.take(i + 1).drop_last() =~= nodes.take(i as int));
            lemma_keys_grow(nodes, i + 1);
        }
        let count: usize = inners[i].keys.len();
        if count >= npages - total {
            return false;
        }
        total = total + count;
        i += 1;
    }
    assert(nodes.take(i as int) =~= nodes);
    true
}

/// The tree that nodes, a shape, a root and leaf pages make up.
pub open spec fn core_of(
    nodes: Seq<InnerView>,
    s: Shape,
    root: PageID,
    pages: Seq<PageState>,
) -> Core {
    Core { sk: Skeleton { nodes, levels: s.levels, ranges: s.ranges }, root, pages }
}

/// With shape `s` every search in the nodes ends at a leaf page.
pub open spec fn shape_fits(
    nodes: Seq<InnerView>,
    s: Shape,
    root: PageID,
    pages: Seq<PageState>,
    p: Params,
) -> bool {
    let c = core_of(nodes, s, root, pages);
    c.shape_ok(p) && c.counts_ok()
}

/// The shape that heights and links tell.
spec fn shape_of(sk: Skeleton, froms: Seq<Option<(usize, usize)>>) -> Shape {
    Shape {
        levels: sk.levels,
        ranges: Seq::new(sk.nodes.len(), |i: int| range_at(sk, froms, i)),
    }
}

/// Decides whether exactly the root is marked as the root, and nothing leads to it.
fn is_root_sound(inners: &Vec<InnerNode>, links: &Links, root: PageID, npages: usize) -> (r: bool)
    requires
        links.inners@.len() == inners@.len(),
    ensures
        r == (if root.spec_is_id() {
            root.raw == 0 && inners@.len() == 0 && npages > 0
        } else {
            &&& root.inner_no() < inners@.len()
            &&& links.inners@[root.inner_no()] is None
            &&& forall|i: int|
                0 <= i < inners@.len() ==> (#[trigger] inners@[i])@.root == (i == root.inner_no())
        }),
{
    if root.is_id() {
        return root.raw == 0 && inners.len() == 0 && npages > 0;
    }
    if root.as_inner_node() >= inners.len() as u64 {
        return false;
    }
    let at = root.as_inner_node() as usize;
    if links.inners[at].is_some() {
        return false;
    }
    let mut i: usize = 0;
    while i < inners.len()
        invariant
            i <= inners@.len(),
            at == root.inner_no(),
            forall|j: int| 0 <= j < i ==> (#[trigger] inners@[j])@.root == (j == at),
        decreases inners@.len() - i,
    {
        assert(inners@[i as int]@.root == inners@[i as int].root);
        if inners[i].root != (i == at) {
            return false;
        }
        i += 1;
    }
    true
}

/// What is found is a shape that fits.
proof fn lemma_shape_found(
    inners: &Vec<InnerNode>,
    levels: &Vec<usize>,
    links: &Links,
    root: PageID,
    pages: Seq<PageState>,
    p: Params,
)
    requires
        linked(inners, levels, links, pages.len()),
        pages.len() < 0x7fff_ffff_ffff_ffff,
        forall|i: int| 0 <= i < inners@.len() ==> node_sound((#[trigger] inners@[i])@, p),
        forall|i: int|
            0 <= i < inners@.len() ==> #[trigger] cuts_sound(
                bare(tree::node_views(inners@), levels@),
                links.inners@,
                i,
            ),
        model::total_keys(tree::node_views(inners@)) + 1 <= pages.len(),
        if root.spec_is_id() {
            root.raw == 0 && inners@.len() == 0
        } else {
            &&& root.inner_no() < inners@.len()
            &&& links.inners@[root.inner_no()] is None
            &&& forall|i: int|
                0 <= i < inners@.len() ==> (#[trigger] inners@[i])@.root == (i == root.inner_no())
        },
    ensures
        shape_fits(
            tree::node_views(inners@),
            shape_of(bare(tree::node_views(inners@), levels@), links.inners@),
            root,
            pages,
            p,
        ),
{
    let nodes = tree::node_views(inners@);
    let b = bare(nodes, levels@);
    let s = shape_of(b, links.inners@);
    let c = core_of(nodes, s, root, pages);
    let np = pages.len();
    assert forall|i: int| 0 <= i < nodes.len() implies #[trigger] c.sk.node_ok(np, p, i) by {
        assert(nodes[i] == inners@[i]@);
        assert(cuts_sound(b, links.inners@, i));
        assert(level_sound(b, i));
        let n = nodes[i];
        assert forall|j: int| 0 <= j < n.children.len() implies c.sk.child_ok(
            np,
            i,
            #[trigger] n.children[j],
            j,
        ) by {
            let d = b.nodes[i].children[j];
            assert(is_slot(b, i, j));
            assert(link_sound(b, np, i, j));
            assert(earlier(i, j, nodes.len() as int, 0));
            assert(links.is_from(d, i, j));
            if !d.spec_is_id() {
                let k = d.inner_no();
                assert(links.of(d) == links.inners@[k]);
                assert(levels@[i] <= inners@.len());
                assert(b.levels[i] == levels@[i]);
            }
        }
    }
    assert(c.sk.links_apart()) by {
        assert(b.links_apart());
        assert forall|i: int, j: int, i2: int, j2: int|
            #![trigger c.sk.nodes[i].children[j], c.sk.nodes[i2].children[j2]]
            0 <= i < nodes.len() && 0 <= j < c.sk.nodes[i].children.len() && 0 <= i2 < nodes.len()
                && 0 <= j2 < c.sk.nodes[i2].children.len() && c.sk.nodes[i].children[j]
                == c.sk.nodes[i2].children[j2] implies i == i2 && j == j2 by {
            assert(b.nodes[i].children[j] == b.nodes[i2].children[j2]);
        }
    }
    assert forall|i: int| 0 <= i < nodes.len() implies (#[trigger] c.sk.nodes[i]).root == (
    !root.spec_is_id() && root.inner_no() == i) && c.sk.nodes[i].keys.len() >= 1 by {
        assert(nodes[i] == inners@[i]@);
    }
    assert forall|i: int, j: int|
        #![trigger c.sk.nodes[i].children[j]]
        0 <= i < nodes.len() && 0 <= j < c.sk.nodes[i].children.len() implies c.sk.nodes[i].children[j]
        != root by {
        let d = b.nodes[i].children[j];
        assert(is_slot(b, i, j));
        assert(earlier(i, j, nodes.len() as int, 0));
        assert(links.is_from(d, i, j));
        if d == root {
            assert(links.of(d) == links.inners@[root.inner_no()]);
        }
    }
}

/// Where a shape fits, heights are those that walks tell, and links are sound.
proof fn lemma_levels_known(
    inners: &Vec<InnerNode>,
    levels: &Vec<usize>,
    s: Shape,
    root: PageID,
    pages: Seq<PageState>,
    p: Params,
)
    requires
        shape_fits(tree::node_views(inners@), s, root, pages, p),
        levels@.len() == inners@.len(),
        forall|i: int|
            0 <= i < levels@.len() ==> #[trigger] levels@[i] == height(
                tree::node_views(inners@),
                i,
                inners@.len(),
            ),
    ensures
        bare(tree::node_views(inners@), levels@).levels == s.levels,
        links_sound(bare(tree::node_views(inners@), levels@), pages.len()),
{
    let nodes = tree::node_views(inners@);
    let b = bare(nodes, levels@);
    let sk = core_of(nodes, s, root, pages).sk;
    let np = pages.len();
    assert(b.levels =~= s.levels) by {
        assert forall|i: int| 0 <= i < nodes.len() implies b.levels[i] == s.levels[i] by {
            lemma_level_counts(sk, np, p, i);
            lemma_height_is_level(sk, np, p, i, nodes.len());
            assert(levels@[i] == height(nodes, i, inners@.len()));
        }
    }
    assert forall|i: int| 0 <= i < nodes.len() implies #[trigger] level_sound(b, i) by {
        assert(sk.node_ok(np, p, i));
    }
    assert forall|i: int, j: int|
        #![trigger b.nodes[i].children[j]]
        is_slot(b, i, j) implies link_sound(b, np, i, j) by {
        assert(sk.node_ok(np, p, i));
        assert(sk.child_ok(np, i, sk.nodes[i].children[j], j));
    }
    assert(b.links_apart()) by {
        assert(sk.links_apart());
        assert forall|i: int, j: int, i2: int, j2: int|
            #![trigger b.nodes[i].children[j], b.nodes[i2].children[j2]]
            0 <= i < nodes.len() && 0 <= j < b.nodes[i].children.len() && 0 <= i2 < nodes.len()
                && 0 <= j2 < b.nodes[i2].children.len() && b.nodes[i].children[j]
                == b.nodes[i2].children[j2] implies i == i2 && j == j2 by {
            assert(sk.nodes[i].children[j] == sk.nodes[i2].children[j2]);
        }
    }
}

/// Where a shape fits, the range that links tell is no narrower.
proof fn lemma_range_known(
    inners: &Vec<InnerNode>,
    levels: &Vec<usize>,
    links: &Links,
    s: Shape,
    root: PageID,
    pages: Seq<PageState>,
    p: Params,
    i: int,
)
    requires
        shape_fits(tree::node_views(inners@), s, root, pages, p),
        linked(inners, levels, links, pages.len()),
        bare(tree::node_views(inners@), levels@).levels == s.levels,
        0 <= i < inners@.len(),
    ensures
        ({
            let r = range_at(bare(tree::node_views(inners@), levels@), links.inners@, i);
            &&& r.lo == s.ranges[i].lo || r.lo.len() == 0
            &&& r.hi == s.ranges[i].hi || r.hi is None
        }),
    decreases inners@.len() - levels@[i],
{
    let nodes = tree::node_views(inners@);
    let b = bare(nodes, levels@);
    let sk = core_of(nodes, s, root, pages).sk;
    lemma_above(inners, levels, links, pages.len(), i);
    assert(b.levels[i] == levels@[i]);
    if links.inners@[i] is Some {
        let (a, j) = links.inners@[i]->0;
        assert(b.levels[a as int] == levels@[a as int]);
        lemma_range_known(inners, levels, links, s, root, pages, p, a as int);
        assert(sk.node_ok(pages.len(), p, a as int));
        let c = sk.nodes[a as int].children[j as int];
        assert(sk.child_ok(pages.len(), a as int, c, j as int));
        assert(c.inner_no() == i);
    }
}

/// Where a shape fits, separators lie within the ranges that links tell.
proof fn lemma_cuts_known(
    inners: &Vec<InnerNode>,
    levels: &Vec<usize>,
    links: &Links,
    s: Shape,
    root: PageID,
    pages: Seq<PageState>,
    p: Params,
    i: int,
)
    requires
        shape_fits(tree::node_views(inners@), s, root, pages, p),
        linked(inners, levels, links, pages.len()),
        bare(tree::node_views(inners@), levels@).levels == s.levels,
        0 <= i < inners@.len(),
    ensures
        cuts_sound(bare(tree::node_views(inners@), levels@), links.inners@, i),
{
    let nodes = tree::node_views(inners@);
    let b = bare(nodes, levels@);
    let sk = core_of(nodes, s, root, pages).sk;
    let r = range_at(b, links.inners@, i);
    lemma_range_known(inners, levels, links, s, root, pages, p, i);
    assert(sk.node_ok(pages.len(), p, i));
    assert forall|j: int| 0 <= j < b.nodes[i].keys.len() implies r.cuts(
        #[trigger] b.nodes[i].keys[j],
    ) by {
        let k = sk.nodes[i].keys[j];
        assert(sk.ranges[i].cuts(k));
        assert(k.len() > 0);
        if r.lo.len() == 0 {
            assert(order::lex_lt(r.lo, k));
        }
    }
}

/// Where a shape fits, the root is as it should be.
proof fn lemma_root_known(
    inners: &Vec<InnerNode>,
    levels: &Vec<usize>,
    links: &Links,
    s: Shape,
    root: PageID,
    pages: Seq<PageState>,
    p: Params,
)
    requires
        shape_fits(tree::node_views(inners@), s, root, pages, p),
        linked(inners, levels, links, pages.len()),
    ensures
        if root.spec_is_id() {
            root.raw == 0 && inners@.len() == 0 && pages.len() > 0
        } else {
            &&& root.inner_no() < inners@.len()
            &&& links.inners@[root.inner_no()] is None
            &&& forall|i: int|
                0 <= i < inners@.len() ==> (#[trigger] inners@[i])@.root == (i == root.inner_no())
        },
{
    let nodes = tree::node_views(inners@);
    let sk = core_of(nodes, s, root, pages).sk;
    assert forall|i: int| 0 <= i < inners@.len() implies (#[trigger] inners@[i])@ == nodes[i] by {}
    assert forall|i: int| 0 <= i < inners@.len() implies (#[trigger] inners@[i])@.root == (
    !root.spec_is_id() && root.inner_no() == i) by {
        assert(sk.nodes[i].root == (!root.spec_is_id() && root.inner_no() == i));
    }
    if !root.spec_is_id() {
        let i = root.inner_no();
        lemma_above(inners, levels, links, pages.len(), i);
        assert(PageID::inner(i) == root);
        if links.inners@[i] is Some {
            let (a, j) = links.inners@[i]->0;
            assert(sk.nodes[a as int].children[j as int] != root);
        }
    }
}

/// Finds the heights and ranges with which the inner nodes are in order, if there are
/// such.
pub(crate) fn find_shape(
    inners: &Vec<InnerNode>,
    root: PageID,
    npages: usize,
    config: &Config,
    Ghost(pages): Ghost<Seq<PageState>>,
) -> (r: Option<Ghost<Shape>>)
    requires
        config.ok(),
        npages == pages.len(),
        npages < 0x7fff_ffff_ffff_ffff,
    ensures
        r matches Some(s) ==> shape_fits(
            tree::node_views(inners@),
            s@,
            root,
            pages,
            config.params(),
        ),
        r is Some <==> exists|s: Shape| #[trigger]
            shape_fits(tree::node_views(inners@), s, root, pages, config.params()),
{
    let ghost p = config.params();
    let ghost nodes = tree::node_views(inners@);
    let ghost fits = exists|s: Shape| #[trigger] shape_fits(nodes, s, root, pages, p);
    let ghost known = choose|s: Shape| #[trigger] shape_fits(nodes, s, root, pages, p);
    let n: usize = inners.len();
    let mut i: usize = 0;
    while i < n
        invariant
            config.ok(),
            p == config.params(),
            nodes == tree::node_views(inners@),
            fits ==> shape_fits(nodes, known, root, pages, p),
            fits == exists|s: Shape| #[trigger] shape_fits(nodes, s, root, pages, p),
            n == inners@.len(),
            i <= n,
            forall|j: int| 0 <= j < i ==> node_sound((#[trigger] inners@[j])@, p),
        decreases n - i,
    {
        if !is_node_sound(&inners[i], config) {
            proof {
                if fits {
                    let c = core_of(nodes, known, root, pages);
                    assert(c.sk.node_ok(pages.len(), p, i as int));
                    assert(c.sk.nodes[i as int] == inners@[i as int]@);
                }
            }
            return None;
        }
        i += 1;
    }
    if !are_counts_sound(inners, npages) {
        return None;
    }
    proof {
        assert forall|j: int| 0 <= j < nodes.len() implies (#[trigger] nodes[j]).keys.len() >= 1 by {
            assert(nodes[j] == inners@[j]@);
        }
        model::lemma_total_keys_min(nodes);
    }
    let levels = heights(inners);
    proof {
        if fits {
            lemma_levels_known(inners, &levels, known, root, pages, p);
        }
    }
    let links = match find_links(inners, &levels, npages) {
        None => {
            return None;
        },
        Some(links) => links,
    };
    assert(linked(inners, &levels, &links, pages.len()));
    if !is_root_sound(inners, &links, root, npages) {
        proof {
            if fits {
                lemma_root_known(inners, &levels, &links, known, root, pages, p);
            }
        }
        return None;
    }
    let ghost b = bare(nodes, levels@);
    i = 0;
    while i < n
        invariant
            p == config.params(),
            nodes == tree::node_views(inners@),
            b == bare(nodes, levels@),
            fits ==> shape_fits(nodes, known, root, pages, p) && b.levels == known.levels,
            fits == exists|s: Shape| #[trigger] shape_fits(nodes, s, root, pages, p),
            linked(inners, &levels, &links, pages.len()),
            n == inners@.len(),
            i <= n,
            forall|j: int| 0 <= j < n ==> node_sound((#[trigger] inners@[j])@, p),
            forall|j: int| 0 <= j < i ==> #[trigger] cuts_sound(b, links.inners@, j),
        decreases n - i,
    {
        if !are_cuts_sound(inners, &levels, &links, i, Ghost(pages.len())) {
            proof {
                if fits {
                    lemma_cuts_known(
                        inners,
                        &levels,
                        &links,
                        known,
                        root,
                        pages,
                        p,
                        i as int,
                    );
                }
            }
            return None;
        }
        i += 1;
    }
    let ghost s = shape_of(b, links.inners@);
    proof {
        lemma_shape_found(inners, &levels, &links, root, pages, p);
        assert(shape_fits(nodes, s, root, pages, p));
    }
    Some(Ghost(s))
}

} // verus!
