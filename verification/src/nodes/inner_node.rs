//! Inner nodes: sorted separator keys between child links.
use vstd::prelude::*;

use crate::codec;
use crate::codec::{push_u64, read_u64};
use crate::nodes::image;
use crate::nodes::image::{encode_image, ImageView, LeafRecord, PageImage, RecordView};
use crate::nodes::leaf_node;
use crate::nodes::{OpType, PageID};
use crate::order;
use crate::order::{key_eq, key_lt, to_vec};

verus! {

/// The size of an inner node.
pub const INNER_NODE_SIZE: usize = 4096;

/// Bytes that a separator spends besides its key: its overhead and its child.
pub const SEPARATOR_OVERHEAD: usize = 16;

/// Bytes that an inner node spends before its first separator: the header and
/// the left-most child.
pub const INNER_FIXED_SIZE: usize = 80;

/// An inner node: child `i` is responsible for the keys from separator `i - 1`
/// (included) up to separator `i` (excluded).
#[derive(Debug)]
pub struct InnerNode {
    pub version_lock: u64,
    pub snapshot_version: u64,
    pub root: bool,
    pub leaf_children: bool,
    pub disk_offset: u64,
    pub keys: Vec<Vec<u8>>,
    pub children: Vec<PageID>,
}

/// The content of an inner node; the lock word is no part of it.
#[verifier::ext_equal]
pub struct InnerView {
    pub version: u64,
    pub root: bool,
    pub leaf_children: bool,
    pub disk_offset: u64,
    pub keys: Seq<Seq<u8>>,
    pub children: Seq<PageID>,
}

/// The contents of a vector of keys.
pub open spec fn key_seq(v: Seq<Vec<u8>>) -> Seq<Seq<u8>> {
    v.map_values(|k: Vec<u8>| k@)
}

impl View for InnerNode {
    type V = InnerView;

    open spec fn view(&self) -> InnerView {
        InnerView {
            version: self.snapshot_version,
            root: self.root,
            leaf_children: self.leaf_children,
            disk_offset: self.disk_offset,
            keys: key_seq(self.keys@),
            children: self.children@,
        }
    }
}

/// Separators are in strictly ascending order.
pub open spec fn keys_sorted(keys: Seq<Seq<u8>>) -> bool {
    forall|i: int, j: int|
        0 <= i < j < keys.len() ==> order::lex_lt(#[trigger] keys[i], #[trigger] keys[j])
}

/// Bytes that separators take in a node.
pub open spec fn keys_size(keys: Seq<Seq<u8>>) -> nat
    decreases keys.len(),
{
    if keys.len() == 0 {
        0
    } else {
        keys_size(keys.drop_last()) + SEPARATOR_OVERHEAD as nat + keys.last().len()
    }
}

/// `p` is the child that is responsible for `k`.
pub open spec fn is_child_of(keys: Seq<Seq<u8>>, k: Seq<u8>, p: int) -> bool {
    &&& 0 <= p <= keys.len()
    &&& forall|i: int| 0 <= i < p ==> order::lex_le(#[trigger] keys[i], k)
    &&& forall|i: int| p <= i < keys.len() ==> order::lex_lt(k, #[trigger] keys[i])
}

impl InnerView {
    pub open spec fn shaped(self) -> bool {
        &&& self.children.len() == self.keys.len() + 1
        &&& keys_sorted(self.keys)
    }

    /// The node's bytes fit its page.
    pub open spec fn fits(self) -> bool {
        INNER_FIXED_SIZE + keys_size(self.keys) <= INNER_NODE_SIZE
    }

    /// The node with a further child to the right of child `p`.
    pub open spec fn with_child(self, p: int, key: Seq<u8>, child: PageID) -> InnerView {
        InnerView {
            keys: self.keys.insert(p, key),
            children: self.children.insert(p + 1, child),
            ..self
        }
    }
}

/// The separators and children as records: the left-most child has no key.
pub open spec fn inner_records(v: InnerView) -> Seq<RecordView> {
    Seq::new(
        v.children.len(),
        |j: int|
            RecordView {
                key: if j == 0 {
                    Seq::empty()
                } else {
                    v.keys[j - 1]
                },
                value: codec::le64(v.children[j].raw),
                op: OpType::Insert,
            },
    )
}

pub open spec fn inner_flags(v: InnerView) -> u64 {
    if v.leaf_children {
        if v.root {
            3
        } else {
            1
        }
    } else {
        if v.root {
            2
        } else {
            0
        }
    }
}

/// The image of a node whose lock word is `lock`.
pub open spec fn inner_image(v: InnerView, lock: u64) -> ImageView {
    ImageView {
        flags: inner_flags(v),
        size: INNER_NODE_SIZE as nat,
        version: v.version,
        lsn: lock,
        link: v.disk_offset,
        low: Seq::empty(),
        high: Seq::empty(),
        records: inner_records(v),
    }
}

/// The node that an image holds.
pub open spec fn inner_of_image(m: ImageView) -> Option<InnerView> {
    if m.flags > 3 || m.records.len() == 0 || !(forall|i: int|
        0 <= i < m.records.len() ==> (#[trigger] m.records[i]).value.len() == 8) {
        None
    } else {
        Some(
            InnerView {
                version: m.version,
                root: m.flags >= 2,
                leaf_children: m.flags == 1 || m.flags == 3,
                disk_offset: m.link,
                keys: Seq::new((m.records.len() - 1) as nat, |i: int| m.records[i + 1].key),
                children: Seq::new(
                    m.records.len(),
                    |i: int| PageID { raw: codec::u64_at(m.records[i].value, 0) },
                ),
            },
        )
    }
}

pub open spec fn parse_inner(b: Seq<u8>) -> Option<InnerView> {
    match image::parse_image(b) {
        None => None,
        Some(m) => inner_of_image(m),
    }
}

proof fn lemma_inner_records_size(v: InnerView)
    requires
        v.children.len() == v.keys.len() + 1,
    ensures
        image::recs_size(inner_records(v)) == 16 + keys_size(v.keys),
    decreases v.keys.len(),
{
    let rs = inner_records(v);
    let n = v.keys.len();
    codec::lemma_le64(v.children[n as int].raw);
    if n == 0 {
        reveal_with_fuel(image::recs_size, 2);
        assert(rs.drop_last() =~= Seq::<RecordView>::empty());
    } else {
        let w = InnerView { keys: v.keys.drop_last(), children: v.children.drop_last(), ..v };
        lemma_inner_records_size(w);
        assert(rs.drop_last() =~= inner_records(w));
    }
}

pub proof fn lemma_inner_image_fits(v: InnerView, lock: u64)
    requires
        v.children.len() == v.keys.len() + 1,
        v.fits(),
    ensures
        inner_image(v, lock).fits(),
{
    lemma_inner_records_size(v);
    let rs = inner_records(v);
    assert forall|i: int| 0 <= i < rs.len() implies (#[trigger] rs[i]).fits() by {
        codec::lemma_le64(v.children[i].raw);
        leaf_node::lemma_recs_size_member(rs, i);
    }
    lemma_count(rs);
}

/// A list has no more records than bytes.
pub proof fn lemma_count(rs: Seq<RecordView>)
    ensures
        8 * rs.len() <= image::recs_size(rs),
    decreases rs.len(),
{
    if rs.len() > 0 {
        lemma_count(rs.drop_last());
    }
}

/// An inner node that was written as an image is read back unchanged.
pub proof fn lemma_inner_round_trip(v: InnerView, lock: u64)
    requires
        v.children.len() == v.keys.len() + 1,
        v.fits(),
    ensures
        parse_inner(image::image_bytes(inner_image(v, lock))) == Some(v),
        image::image_bytes(inner_image(v, lock)).len() == INNER_NODE_SIZE,
{
    lemma_inner_image_fits(v, lock);
    let m = inner_image(v, lock);
    image::lemma_image_round_trip(m);
    image::lemma_image_len(m);
    assert forall|i: int| 0 <= i < m.records.len() implies (#[trigger] m.records[i]).value.len()
        == 8 && codec::u64_at(m.records[i].value, 0) == v.children[i].raw by {
        codec::lemma_le64(v.children[i].raw);
        assert(m.records[i].value.subrange(0, 8) =~= m.records[i].value);
    }
    let w = inner_of_image(m).unwrap();
    assert(w.keys =~= v.keys);
    assert(w.children =~= v.children);
    assert(w =~= v);
}

pub proof fn lemma_keys_size_insert(keys: Seq<Seq<u8>>, p: int, k: Seq<u8>)
    requires
        0 <= p <= keys.len(),
    ensures
        keys_size(keys.insert(p, k)) == keys_size(keys) + SEPARATOR_OVERHEAD + k.len(),
    decreases keys.len(),
{
    let u = keys.insert(p, k);
    if p == keys.len() {
        assert(u.drop_last() =~= keys);
    } else {
        lemma_keys_size_insert(keys.drop_last(), p, k);
        assert(u.drop_last() =~= keys.drop_last().insert(p, k));
        assert(u.last() == keys.last());
    }
}

/// Separators of at most `max` bytes each.
pub open spec fn keys_bounded(keys: Seq<Seq<u8>>, max: nat) -> bool {
    forall|i: int| 0 <= i < keys.len() ==> (#[trigger] keys[i]).len() <= max
}

pub proof fn lemma_keys_size_bound(keys: Seq<Seq<u8>>, max: nat)
    requires
        keys_bounded(keys, max),
    ensures
        keys_size(keys) <= keys.len() * (SEPARATOR_OVERHEAD + max),
    decreases keys.len(),
{
    if keys.len() > 0 {
        let rest = keys.drop_last();
        assert(keys_bounded(rest, max)) by {
            assert forall|i: int| 0 <= i < rest.len() implies (#[trigger] rest[i]).len() <= max by {
                assert(keys[i].len() <= max);
            }
        }
        lemma_keys_size_bound(rest, max);
        let w = (SEPARATOR_OVERHEAD + max) as int;
        assert(keys.len() * w == rest.len() * w + w) by (nonlinear_arith)
            requires
                keys.len() == rest.len() + 1,
        ;
    }
}

/// Adding a child to the right of the child that is responsible for `key`.
pub proof fn lemma_with_child(v: InnerView, p: int, key: Seq<u8>, child: PageID)
    requires
        v.shaped(),
        is_child_of(v.keys, key, p),
        p > 0 ==> v.keys[p - 1] != key,
    ensures
        v.with_child(p, key, child).shaped(),
{
    order::lemma_lex_order();
    let u = v.keys.insert(p, key);
    assert forall|i: int, j: int| 0 <= i < j < u.len() implies order::lex_lt(
        #[trigger] u[i],
        #[trigger] u[j],
    ) by {
        if i < p && j == p {
            assert(order::lex_le(v.keys[i], key));
            if i < p - 1 {
                assert(order::lex_lt(v.keys[i], v.keys[p - 1]));
                assert(order::lex_le(v.keys[p - 1], key));
            }
        } else if i == p {
            assert(order::lex_lt(key, v.keys[j - 1]));
        } else {
            let i0 = if i < p {
                i
            } else {
                i - 1
            };
            let j0 = if j < p {
                j
            } else {
                j - 1
            };
            assert(order::lex_lt(v.keys[i0], v.keys[j0]));
        }
    }
}

impl InnerNode {
    /// A node with one child and no separator.
    pub fn with_left_most(
        child: PageID,
        leaf_children: bool,
        disk_offset: u64,
        snapshot_version: u64,
    ) -> (r: InnerNode)
        ensures
            r@ == (InnerView {
                version: snapshot_version,
                root: false,
                leaf_children,
                disk_offset,
                keys: Seq::empty(),
                children: seq![child],
            }),
            r.version_lock == 0,
    {
        let mut children: Vec<PageID> = Vec::new();
        children.push(child);
        let r = InnerNode {
            version_lock: 0,
            snapshot_version,
            root: false,
            leaf_children,
            disk_offset,
            keys: Vec::new(),
            children,
        };
        assert(r@.keys =~= Seq::<Seq<u8>>::empty());
        assert(r@.children =~= seq![child]);
        r
    }

    /// The child that is responsible for `key`.
    pub fn lower_bound(&self, key: &[u8]) -> (p: usize)
        requires
            self@.shaped(),
        ensures
            is_child_of(self@.keys, key@, p as int),
    {
        let ghost keys = self@.keys;
        let mut lo: usize = 0;
        let mut hi: usize = self.keys.len();
        while lo < hi
            invariant
                keys == self@.keys,
                keys_sorted(keys),
                lo <= hi <= keys.len(),
                forall|i: int| 0 <= i < lo ==> order::lex_le(#[trigger] keys[i], key@),
                forall|i: int| hi <= i < keys.len() ==> order::lex_lt(key@, #[trigger] keys[i]),
            decreases hi - lo,
        {
            let mid: usize = lo + (hi - lo) / 2;
            assert(keys[mid as int] == self.keys@[mid as int]@);
            proof {
                order::lemma_lex_order();
            }
            if key_lt(key, self.keys[mid].as_slice()) {
                assert forall|i: int| mid <= i < keys.len() implies order::lex_lt(
                    key@,
                    #[trigger] keys[i],
                ) by {
                    if i > mid {
                        assert(order::lex_lt(keys[mid as int], keys[i]));
                    }
                }
                hi = mid;
            } else {
                assert forall|i: int| 0 <= i < mid + 1 implies order::lex_le(
                    #[trigger] keys[i],
                    key@,
                ) by {
                    if i < mid {
                        assert(order::lex_lt(keys[i], keys[mid as int]));
                    }
                }
                lo = mid + 1;
            }
        }
        lo
    }

    /// Bytes that the separators take.
    pub fn separators_size(&self) -> (n: usize)
        requires
            self@.fits(),
        ensures
            n == keys_size(self@.keys),
    {
        let ghost keys = self@.keys;
        let mut n: usize = 0;
        let mut i: usize = 0;
        assert(keys.take(0) =~= Seq::<Seq<u8>>::empty());
        while i < self.keys.len()
            invariant
                keys == self@.keys,
                keys_size(keys) <= INNER_NODE_SIZE,
                i <= keys.len(),
                n == keys_size(keys.take(i as int)),
            decreases keys.len() - i,
        {
            proof {
                assert(keys.take(i + 1).drop_last() =~= keys.take(i as int));
                assert(keys[i as int] == self.keys@[i as int]@);
                lemma_keys_size_prefix(keys, i + 1);
            }
            n = n + (SEPARATOR_OVERHEAD + self.keys[i].len());
            i += 1;
        }
        assert(keys.take(i as int) =~= keys);
        n
    }

    /// Whether another separator `key` fits the node.
    pub fn have_space_for(&self, key: &[u8]) -> (r: bool)
        requires
            self@.fits(),
        ensures
            r == (INNER_FIXED_SIZE + keys_size(self@.keys) + SEPARATOR_OVERHEAD + key@.len()
                <= INNER_NODE_SIZE),
    {
        let room: usize = INNER_NODE_SIZE - INNER_FIXED_SIZE - self.separators_size();
        room >= SEPARATOR_OVERHEAD && key.len() <= room - SEPARATOR_OVERHEAD
    }

    /// Links `child` under `key`: the child that `key` separates already is
    /// replaced; otherwise a separator is added if it fits.
    pub fn insert(&mut self, key: &[u8], child: PageID) -> (r: bool)
        requires
            old(self)@.shaped(),
            old(self)@.fits(),
        ensures
            final(self)@.shaped(),
            final(self)@.fits(),
            final(self).version_lock == old(self).version_lock,
            exists|p: int| #[trigger]
                is_child_of(old(self)@.keys, key@, p) && {
                    if p > 0 && old(self)@.keys[p - 1] == key@ {
                        r && final(self)@ == (InnerView {
                            children: old(self)@.children.update(p, child),
                            ..old(self)@
                        })
                    } else if INNER_FIXED_SIZE + keys_size(old(self)@.keys) + SEPARATOR_OVERHEAD
                        + key@.len() <= INNER_NODE_SIZE {
                        r && final(self)@ == old(self)@.with_child(p, key@, child)
                    } else {
                        !r && final(self)@ == old(self)@
                    }
                },
    {
        let p = self.lower_bound(key);
        let ghost v = self@;
        if p > 0 {
            assert(v.keys[p - 1] == self.keys@[p - 1]@);
            if key_eq(self.keys[p - 1].as_slice(), key) {
                self.children[p] = child;
                assert(is_child_of(v.keys, key@, p as int));
                assert(self@ =~= (InnerView { children: v.children.update(p as int, child), ..v }));
                return true;
            }
        }
        if !self.have_space_for(key) {
            assert(is_child_of(v.keys, key@, p as int));
            return false;
        }
        proof {
            lemma_with_child(v, p as int, key@, child);
            lemma_keys_size_insert(v.keys, p as int, key@);
        }
        assert(p < self.children.len());
        let k = to_vec(key);
        self.keys.insert(p, k);
        self.children.insert(p + 1, child);
        assert(self@.keys =~= v.keys.insert(p as int, key@));
        assert(self@ =~= v.with_child(p as int, key@, child));
        assert(is_child_of(v.keys, key@, p as int));
        true
    }

    /// Moves the separators after the middle one, and the children that they
    /// lead to, into a new node; returns the middle separator and that node.
    pub fn split(&mut self, snapshot_version: u64) -> (r: (Vec<u8>, InnerNode))
        requires
            old(self)@.shaped(),
            old(self)@.fits(),
            old(self)@.keys.len() >= 3,
        ensures
            ({
                let v = old(self)@;
                let m = (v.keys.len() / 2) as int;
                &&& r.0@ == v.keys[m]
                &&& final(self)@ == (InnerView {
                    version: snapshot_version,
                    keys: v.keys.take(m),
                    children: v.children.take(m + 1),
                    ..v
                })
                &&& r.1@ == (InnerView {
                    version: snapshot_version,
                    root: false,
                    keys: v.keys.skip(m + 1),
                    children: v.children.skip(m + 1),
                    ..v
                })
            }),
            final(self).version_lock == old(self).version_lock,
            r.1.version_lock == 0,
    {
        let ghost v = self@;
        let m: usize = self.keys.len() / 2;
        let mut right_keys = self.keys.split_off(m);
        let right_children = self.children.split_off(m + 1);
        let mid = right_keys.remove(0);
        self.snapshot_version = snapshot_version;
        let right = InnerNode {
            version_lock: 0,
            snapshot_version,
            root: false,
            leaf_children: self.leaf_children,
            disk_offset: self.disk_offset,
            keys: right_keys,
            children: right_children,
        };
        assert(self@.keys =~= v.keys.take(m as int));
        assert(self@.children =~= v.children.take(m + 1));
        assert(right@.keys =~= v.keys.skip(m + 1));
        assert(right@.children =~= v.children.skip(m + 1));
        (mid, right)
    }

    /// Key `pos` of the node; position zero is the left-most child, without key.
    pub fn get_full_key(&self, pos: usize) -> (r: Vec<u8>)
        requires
            pos <= self@.keys.len(),
        ensures
            r@ == if pos == 0 {
                Seq::<u8>::empty()
            } else {
                self@.keys[pos - 1]
            },
    {
        if pos == 0 {
            let r: Vec<u8> = Vec::new();
            r
        } else {
            to_vec(self.keys[pos - 1].as_slice())
        }
    }

    /// The child at `pos`.
    pub fn get_value(&self, pos: usize) -> (r: PageID)
        requires
            pos < self@.children.len(),
        ensures
            r == self@.children[pos as int],
    {
        self.children[pos]
    }

    pub fn get_clean_snapshot_version(&self) -> (r: u64)
        ensures
            r == self@.version,
    {
        self.snapshot_version
    }

    pub fn is_root(&self) -> (r: bool)
        ensures
            r == self@.root,
    {
        self.root
    }

    pub fn set_root(&mut self, root: bool)
        ensures
            final(self)@ == (InnerView { root, ..old(self)@ }),
            final(self).version_lock == old(self).version_lock,
    {
        self.root = root;
    }

    pub fn set_disk_offset(&mut self, disk_offset: u64)
        ensures
            final(self)@ == (InnerView { disk_offset, ..old(self)@ }),
            final(self).version_lock == old(self).version_lock,
    {
        self.disk_offset = disk_offset;
    }

    /// Tidies the node up in a new version. Separators are packed at all times, so
    /// nothing else changes.
    pub fn consolidate(&mut self, snapshot_version: u64)
        ensures
            final(self)@ == (InnerView { version: snapshot_version, ..old(self)@ }),
            final(self).version_lock == old(self).version_lock,
    {
        self.snapshot_version = snapshot_version;
    }

    /// The node as a page of bytes.
    pub fn as_image(&self) -> (out: Vec<u8>)
        requires
            self@.shaped(),
            self@.fits(),
        ensures
            out@ == image::image_bytes(inner_image(self@, self.version_lock)),
            out@.len() == INNER_NODE_SIZE,
    {
        let ghost v = self@;
        let mut records: Vec<LeafRecord> = Vec::new();
        let mut i: usize = 0;
        while i < self.children.len()
            invariant
                v == self@,
                v.shaped(),
                i <= v.children.len(),
                records@.len() == i,
                forall|j: int| 0 <= j < i ==> (#[trigger] records@[j])@ == inner_records(v)[j],
            decreases v.children.len() - i,
        {
            let key = self.get_full_key(i);
            let mut value: Vec<u8> = Vec::new();
            push_u64(&mut value, self.children[i].raw);
            assert(value@ =~= codec::le64(v.children[i as int].raw));
            records.push(LeafRecord { key, value, op_type: OpType::Insert });
            i += 1;
        }
        assert(image::recs(records@) =~= inner_records(v));
        proof {
            lemma_inner_image_fits(v, self.version_lock);
        }
        let flags: u64 = if self.leaf_children {
            if self.root {
                3
            } else {
                1
            }
        } else {
            if self.root {
                2
            } else {
                0
            }
        };
        let empty: Vec<u8> = Vec::new();
        assert(empty@ =~= Seq::<u8>::empty());
        encode_image(
            flags,
            INNER_NODE_SIZE,
            self.snapshot_version,
            self.version_lock,
            self.disk_offset,
            empty.as_slice(),
            empty.as_slice(),
            &records,
        )
    }

    /// The node that `b` is the image of, unlocked.
    pub fn build_from_slice(b: &[u8]) -> (r: Option<InnerNode>)
        ensures
            r is Some <==> parse_inner(b@) is Some,
            r matches Some(n) ==> n@ == parse_inner(b@)->0 && n.version_lock == 0,
    {
        let p = match PageImage::decode(b) {
            None => {
                return None;
            },
            Some(p) => p,
        };
        let ghost m = p@;
        if p.flags > 3 || p.records.len() == 0 {
            return None;
        }
        let mut keys: Vec<Vec<u8>> = Vec::new();
        let mut children: Vec<PageID> = Vec::new();
        let mut i: usize = 0;
        while i < p.records.len()
            invariant
                m == p@,
                image::parse_image(b@) == Some(m),
                m.flags <= 3,
                m.records.len() > 0,
                i <= m.records.len(),
                children@.len() == i,
                keys@.len() == if i == 0 {
                    0
                } else {
                    i - 1
                },
                forall|j: int| 0 <= j < i ==> (#[trigger] m.records[j]).value.len() == 8,
                forall|j: int|
                    0 <= j < i ==> (#[trigger] children@[j]).raw == codec::u64_at(
                        m.records[j].value,
                        0,
                    ),
                forall|j: int| 0 <= j < keys@.len() ==> (#[trigger] keys@[j])@ == m.records[j + 1].key,
            decreases m.records.len() - i,
        {
            let rec = &p.records[i];
            assert(m.records[i as int] == rec@);
            if rec.value.len() != 8 {
                return None;
            }
            children.push(PageID { raw: read_u64(rec.value.as_slice(), 0) });
            if i > 0 {
                keys.push(to_vec(rec.key.as_slice()));
            }
            i += 1;
        }
        let node = InnerNode {
            version_lock: 0,
            snapshot_version: p.version,
            root: p.flags >= 2,
            leaf_children: p.flags == 1 || p.flags == 3,
            disk_offset: p.link,
            keys,
            children,
        };
        proof {
            let w = inner_of_image(m).unwrap();
            assert(node@.keys =~= w.keys);
            assert(node@.children =~= w.children);
            assert(node@ =~= w);
        }
        Some(node)
    }
}

pub proof fn lemma_keys_size_prefix(keys: Seq<Seq<u8>>, i: int)
    requires
        0 <= i <= keys.len(),
    ensures
        keys_size(keys.take(i)) <= keys_size(keys),
    decreases keys.len() - i,
{
    if i == keys.len() {
        assert(keys.take(i) =~= keys);
    } else {
        lemma_keys_size_prefix(keys, i + 1);
        assert(keys.take(i + 1).drop_last() =~= keys.take(i));
    }
}

} // verus!
