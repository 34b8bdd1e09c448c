//! A leaf page by itself: putting records on it, looking them up, and tidying it
//! up.
use vstd::prelude::*;

use crate::codec::copy_into;
use crate::nodes::image;
use crate::nodes::image::{LeafRecord, RecordView, KV_META_SIZE, PAGE_HEADER_SIZE};
use crate::nodes::leaf_node;
use crate::nodes::leaf_node::{LeafNode, LeafReadResult};
use crate::nodes::OpType;
use crate::order;
use crate::order::{key_eq, key_lt, to_vec};

verus! {

/// Keys of this length or longer do not fit the metadata of a record.
pub const KEY_LEN_LIMIT: usize = 0x4000;

/// Values of this length or longer do not fit the metadata of a record.
pub const VALUE_LEN_LIMIT: usize = 0x8000;

/// `p` is what `a` and `b` begin with, and all that they have in common there.
pub open spec fn common_prefix(a: Seq<u8>, b: Seq<u8>, p: Seq<u8>) -> bool {
    &&& p.is_prefix_of(a)
    &&& p.is_prefix_of(b)
    &&& p.len() == a.len() || p.len() == b.len() || a[p.len() as int] != b[p.len() as int]
}

pub(crate) proof fn lemma_one_prefix(a: Seq<u8>, b: Seq<u8>, p: Seq<u8>, q: Seq<u8>)
    requires
        common_prefix(a, b, p),
        common_prefix(a, b, q),
    ensures
        p == q,
{
    if p.len() < q.len() {
        assert(q[p.len() as int] == a[p.len() as int]);
        assert(q[p.len() as int] == b[p.len() as int]);
    }
    if q.len() < p.len() {
        assert(p[q.len() as int] == a[q.len() as int]);
        assert(p[q.len() as int] == b[q.len() as int]);
    }
    assert forall|i: int| 0 <= i < p.len() implies p[i] == q[i] by {
        assert(p[i] == a[i]);
        assert(q[i] == a[i]);
    }
    assert(p =~= q);
}

/// The records with `r` among them, in the place of one with the same key.
pub open spec fn upserted(rs: Seq<RecordView>, r: RecordView) -> Seq<RecordView> {
    leaf_node::upsert_at(
        rs,
        choose|p: int| #[trigger] leaf_node::is_lower_bound(rs, r.key, p),
        r,
    )
}

pub(crate) proof fn lemma_upserted(rs: Seq<RecordView>, r: RecordView, p: int)
    requires
        leaf_node::is_lower_bound(rs, r.key, p),
    ensures
        upserted(rs, r) == leaf_node::upsert_at(rs, p, r),
{
    let q = choose|q: int| #[trigger] leaf_node::is_lower_bound(rs, r.key, q);
    assert(leaf_node::is_lower_bound(rs, r.key, q));
    if p < q {
        assert(order::lex_lt(rs[p].key, r.key));
    }
    if q < p {
        assert(order::lex_lt(rs[q].key, r.key));
    }
}

/// Whether a tidied page keeps a record.
pub open spec fn keeps(
    r: RecordView,
    high: Seq<u8>,
    skip_tombstone: bool,
    skip_key: Option<Seq<u8>>,
) -> bool {
    &&& skip_tombstone ==> r.op.is_live()
    &&& skip_key != Some(r.key)
    &&& high.len() > 0 ==> order::lex_lt(r.key, high)
}

/// The records that a tidied page keeps, in their order.
pub open spec fn kept(
    rs: Seq<RecordView>,
    high: Seq<u8>,
    skip_tombstone: bool,
    skip_key: Option<Seq<u8>>,
) -> Seq<RecordView>
    decreases rs.len(),
{
    if rs.len() == 0 {
        Seq::empty()
    } else {
        let front = kept(rs.drop_last(), high, skip_tombstone, skip_key);
        if keeps(rs.last(), high, skip_tombstone, skip_key) {
            front.push(rs.last())
        } else {
            front
        }
    }
}

proof fn lemma_kept(
    rs: Seq<RecordView>,
    high: Seq<u8>,
    skip_tombstone: bool,
    skip_key: Option<Seq<u8>>,
)
    requires
        leaf_node::sorted(rs),
    ensures
        ({
            let k = kept(rs, high, skip_tombstone, skip_key);
            &&& leaf_node::sorted(k)
            &&& image::recs_size(k) <= image::recs_size(rs)
            &&& k.len() <= rs.len()
            &&& forall|i: int|
                0 <= i < k.len() ==> exists|j: int| 0 <= j < rs.len() && rs[j] == #[trigger] k[i]
        }),
    decreases rs.len(),
{
    if rs.len() > 0 {
        let front = rs.drop_last();
        lemma_kept(front, high, skip_tombstone, skip_key);
        let k0 = kept(front, high, skip_tombstone, skip_key);
        let k = kept(rs, high, skip_tombstone, skip_key);
        assert forall|i: int| 0 <= i < k0.len() implies exists|j: int|
            0 <= j < rs.len() - 1 && rs[j] == #[trigger] k0[i] by {
            let j = choose|j: int| 0 <= j < front.len() && front[j] == k0[i];
            assert(rs[j] == k0[i]);
        }
        if k.len() > k0.len() {
            assert(k.drop_last() =~= k0);
            assert forall|i: int, j: int| 0 <= i < j < k.len() implies order::lex_lt(
                (#[trigger] k[i]).key,
                (#[trigger] k[j]).key,
            ) by {
                let x = choose|x: int| 0 <= x < rs.len() - 1 && rs[x] == k0[i];
                if j == k.len() - 1 {
                    assert(k[j] == rs.last());
                    assert(k[i] == rs[x]);
                } else {
                    assert(k[i] == k0[i] && k[j] == k0[j]);
                }
            }
            assert forall|i: int| 0 <= i < k.len() implies exists|j: int|
                0 <= j < rs.len() && rs[j] == #[trigger] k[i] by {
                if i == k.len() - 1 {
                    assert(rs[rs.len() - 1] == k[i]);
                } else {
                    assert(k[i] == k0[i]);
                }
            }
        }
    }
}

/// What a page takes is found on it, and nothing else changes.
pub proof fn law_page_insert_is_found(rs: Seq<RecordView>, r: RecordView, k: Seq<u8>, p: int)
    requires
        leaf_node::sorted(rs),
        leaf_node::is_lower_bound(rs, r.key, p),
    ensures
        leaf_node::sorted(upserted(rs, r)),
        leaf_node::lookup(upserted(rs, r), k) == if k == r.key {
            Some(r)
        } else {
            leaf_node::lookup(rs, k)
        },
{
    lemma_upserted(rs, r, p);
    leaf_node::lemma_upsert(rs, p, r);
}

/// A key is found on a tidied page as it was before, unless its record had to go.
pub proof fn law_tidied_page_answers_alike(
    rs: Seq<RecordView>,
    high: Seq<u8>,
    skip_tombstone: bool,
    skip_key: Option<Seq<u8>>,
    k: Seq<u8>,
)
    requires
        leaf_node::sorted(rs),
    ensures
        leaf_node::lookup(kept(rs, high, skip_tombstone, skip_key), k) == (
        match leaf_node::lookup(rs, k) {
            Some(r) => if keeps(r, high, skip_tombstone, skip_key) {
                Some(r)
            } else {
                None
            },
            None => None,
        }),
    decreases rs.len(),
{
    if rs.len() > 0 {
        let front = rs.drop_last();
        let last = rs.last();
        law_tidied_page_answers_alike(front, high, skip_tombstone, skip_key, k);
        lemma_kept(front, high, skip_tombstone, skip_key);
        let k0 = kept(front, high, skip_tombstone, skip_key);
        assert(rs =~= front.push(last));
        leaf_node::lemma_push_greatest(front, last);
        assert forall|i: int| 0 <= i < k0.len() implies order::lex_lt(
            (#[trigger] k0[i]).key,
            last.key,
        ) by {
            let j = choose|j: int| 0 <= j < front.len() && front[j] == k0[i];
            assert(rs[j] == k0[i]);
        }
        leaf_node::lemma_push_greatest(k0, last);
        if k == last.key {
            order::lemma_lex_irreflexive(k);
            assert(!leaf_node::has_key(k0, k));
        }
    }
}

impl LeafNode {
    /// Room that is left on a page besides `fences` bytes for its fences.
    pub open spec fn room(&self, fences: int) -> int {
        self.node_size - PAGE_HEADER_SIZE - fences
    }

    /// The records are in order and fit the page.
    pub open spec fn page_ok(&self) -> bool {
        &&& leaf_node::sorted(self@.records)
        &&& image::recs_size(self@.records) <= self.room(
            (self@.low.len() + self@.high.len()) as int,
        )
    }

    /// Every key on the page begins with this.
    pub fn get_prefix(&self) -> (r: Vec<u8>)
        ensures
            common_prefix(self@.low, self@.high, r@),
    {
        let mut r: Vec<u8> = Vec::new();
        let mut i: usize = 0;
        while i < self.low_fence.len() && i < self.high_fence.len() && self.low_fence[i]
            == self.high_fence[i]
            invariant
                i == r@.len(),
                r@.is_prefix_of(self@.low),
                r@.is_prefix_of(self@.high),
            decreases self.low_fence@.len() - i,
        {
            r.push(self.low_fence[i]);
            i += 1;
        }
        r
    }

    pub fn get_low_fence_key(&self) -> (r: Vec<u8>)
        ensures
            r@ == self@.low,
    {
        to_vec(self.low_fence.as_slice())
    }

    pub fn get_high_fence_key(&self) -> (r: Vec<u8>)
        ensures
            r@ == self@.high,
    {
        to_vec(self.high_fence.as_slice())
    }

    /// The number of records.
    pub fn meta_count_without_fence(&self) -> (r: usize)
        ensures
            r == self@.records.len(),
    {
        self.records.len()
    }

    /// Bytes that are free on the page.
    pub fn remaining_size(&self) -> (r: usize)
        requires
            self.page_ok(),
        ensures
            r == self.room((self@.low.len() + self@.high.len()) as int) - image::recs_size(
                self@.records,
            ),
    {
        self.node_size - PAGE_HEADER_SIZE - self.low_fence.len() - self.high_fence.len()
            - leaf_node::size_of_records(&self.records)
    }

    /// Makes the page an empty one for the keys between two fences.
    pub fn initialize(
        &mut self,
        low_fence: &[u8],
        high_fence: &[u8],
        node_size: usize,
        next_level: u64,
        snapshot_version: u64,
    )
        requires
            PAGE_HEADER_SIZE + low_fence@.len() + high_fence@.len() <= node_size,
        ensures
            final(self).page_ok(),
            final(self)@ == (image::ImageView {
                flags: 0,
                size: node_size as nat,
                version: snapshot_version,
                lsn: 0,
                link: next_level,
                low: low_fence@,
                high: high_fence@,
                records: Seq::empty(),
            }),
    {
        *self = LeafNode {
            node_size,
            snapshot_version,
            lsn: 0,
            next_level,
            low_fence: to_vec(low_fence),
            high_fence: to_vec(high_fence),
            records: Vec::new(),
        };
        assert(image::recs(self.records@) =~= Seq::<RecordView>::empty());
    }

    /// The page takes a record, and still has `max_fence_len` bytes for fences
    /// then.
    pub open spec fn accepts(&self, r: RecordView, max_fence_len: int) -> bool {
        let fences = (self@.low.len() + self@.high.len()) as int;
        &&& r.key.len() < KEY_LEN_LIMIT
        &&& r.value.len() < VALUE_LEN_LIMIT
        &&& forall|p: Seq<u8>| #[trigger]
            common_prefix(self@.low, self@.high, p) ==> p.is_prefix_of(r.key)
        &&& image::recs_size(upserted(self@.records, r)) <= self.room(
            if fences < max_fence_len {
                max_fence_len
            } else {
                fences
            },
        )
    }

    fn starts_with_prefix(&self, key: &[u8]) -> (r: bool)
        ensures
            r == forall|p: Seq<u8>| #[trigger]
                common_prefix(self@.low, self@.high, p) ==> p.is_prefix_of(key@),
    {
        let prefix = self.get_prefix();
        let n = prefix.len();
        let mut i: usize = 0;
        let mut r = n <= key.len();
        while r && i < n
            invariant
                n == prefix@.len(),
                i <= n,
                r ==> n <= key@.len() && forall|j: int| 0 <= j < i ==> prefix@[j] == key@[j],
                !r ==> !prefix@.is_prefix_of(key@),
            decreases n - i, r as int,
        {
            if prefix[i] != key[i] {
                r = false;
                assert(prefix@[i as int] != key@.subrange(0, n as int)[i as int]);
            } else {
                i += 1;
            }
        }
        proof {
            if r {
                assert(prefix@ =~= key@.subrange(0, n as int));
            }
            assert forall|p: Seq<u8>| #[trigger] common_prefix(self@.low, self@.high, p) implies p
                == prefix@ by {
                lemma_one_prefix(self@.low, self@.high, p, prefix@);
            }
        }
        r
    }

    /// Puts a record on the page, in the place of one with the same key. A
    /// record that the page does not take leaves it as it was.
    pub fn insert(&mut self, key: &[u8], value: &[u8], op_type: OpType, max_fence_len: usize) -> (r:
        bool)
        requires
            old(self).page_ok(),
        ensures
            final(self).page_ok(),
            r == old(self).accepts(
                RecordView { key: key@, value: value@, op: op_type },
                max_fence_len as int,
            ),
            final(self)@ == if r {
                image::ImageView {
                    records: upserted(
                        old(self)@.records,
                        RecordView { key: key@, value: value@, op: op_type },
                    ),
                    ..old(self)@
                }
            } else {
                old(self)@
            },
    {
        let ghost rec = RecordView { key: key@, value: value@, op: op_type };
        let ghost rs = self@.records;
        if key.len() >= KEY_LEN_LIMIT || value.len() >= VALUE_LEN_LIMIT
            || !self.starts_with_prefix(key) {
            return false;
        }
        let p = leaf_node::lower_bound(&self.records, key);
        proof {
            lemma_upserted(rs, rec, p as int);
            leaf_node::lemma_upsert(rs, p as int, rec);
            leaf_node::lemma_recs_size_insert(rs, p as int, rec);
            if p < rs.len() {
                leaf_node::lemma_recs_size_update(rs, p as int, rec);
                leaf_node::lemma_recs_size_member(rs, p as int);
            }
        }
        let used = leaf_node::size_of_records(&self.records);
        let fences: usize = self.low_fence.len() + self.high_fence.len();
        let reserved: usize = if fences < max_fence_len {
            max_fence_len
        } else {
            fences
        };
        let present = p < self.records.len() && key_eq(self.records[p].key.as_slice(), key);
        let freed: usize = if present {
            KV_META_SIZE + self.records[p].key.len() + self.records[p].value.len()
        } else {
            0
        };
        assert(present ==> freed == rs[p as int].size());
        let left: usize = used - freed;
        let size: usize = KV_META_SIZE + key.len() + value.len();
        assert(left + size == image::recs_size(upserted(rs, rec)));
        if reserved > self.node_size - PAGE_HEADER_SIZE {
            return false;
        }
        let room: usize = self.node_size - PAGE_HEADER_SIZE - reserved;
        if left > room || size > room - left {
            return false;
        }
        let new_rec = LeafRecord { key: to_vec(key), value: to_vec(value), op_type };
        assert(new_rec@ == rec);
        if present {
            self.records.set(p, new_rec);
        } else {
            self.records.insert(p, new_rec);
        }
        assert(self@.records =~= upserted(rs, rec));
        true
    }

    /// Looks `key` up and copies its value to `out_buffer`.
    pub fn read_by_key(&self, key: &[u8], out_buffer: &mut [u8]) -> (r: LeafReadResult)
        requires
            self.page_ok(),
            leaf_node::live(leaf_node::lookup(self@.records, key@)) matches Some(x)
                ==> x.value.len() <= old(out_buffer)@.len(),
        ensures
            final(out_buffer)@.len() == old(out_buffer)@.len(),
            match leaf_node::lookup(self@.records, key@) {
                None => r is NotFound && final(out_buffer)@ == old(out_buffer)@,
                Some(x) => if x.op.is_live() {
                    &&& r is Found
                    &&& r->Found_0 == x.value.len() as u32
                    &&& final(out_buffer)@ == x.value + old(out_buffer)@.skip(x.value.len() as int)
                } else {
                    r is Deleted && final(out_buffer)@ == old(out_buffer)@
                },
            },
    {
        match leaf_node::find(&self.records, key) {
            None => LeafReadResult::NotFound,
            Some(i) => {
                let rec = &self.records[i];
                match rec.op_type {
                    OpType::Insert | OpType::Cache => {
                        let n = rec.value.len();
                        copy_into(out_buffer, 0, rec.value.as_slice());
                        assert(out_buffer@ =~= rec.value@ + old(out_buffer)@.skip(n as int));
                        LeafReadResult::Found(n as u32)
                    },
                    OpType::Delete | OpType::Phantom => LeafReadResult::Deleted,
                }
            },
        }
    }

    /// Drops the records of deletions.
    pub fn consolidate(&mut self, snapshot_version: u64)
        requires
            old(self).page_ok(),
        ensures
            final(self).page_ok(),
            final(self)@ == (image::ImageView {
                version: snapshot_version,
                records: kept(old(self)@.records, old(self)@.high, true, None),
                ..old(self)@
            }),
    {
        self.consolidate_inner(None, true, None, snapshot_version);
    }

    /// Tidies the page up: the high fence may come down, and what lies beyond
    /// it, `skip_key`, and, if asked for, the records of deletions leave the
    /// page.
    pub fn consolidate_inner(
        &mut self,
        high_fence: Option<&[u8]>,
        skip_tombstone: bool,
        skip_key: Option<&[u8]>,
        snapshot_version: u64,
    )
        requires
            old(self).page_ok(),
            high_fence matches Some(h) ==> image::recs_size(old(self)@.records) <= old(self).room(
                (old(self)@.low.len() + h@.len()) as int,
            ),
        ensures
            final(self).page_ok(),
            ({
                let high = match high_fence {
                    Some(h) => h@,
                    None => old(self)@.high,
                };
                let skip = match skip_key {
                    Some(k) => Some(k@),
                    None => None,
                };
                final(self)@ == (image::ImageView {
                    version: snapshot_version,
                    high,
                    records: kept(old(self)@.records, high, skip_tombstone, skip),
                    ..old(self)@
                })
            }),
    {
        let ghost rs = self@.records;
        let ghost skip = match skip_key {
            Some(k) => Some(k@),
            None => None,
        };
        match high_fence {
            Some(h) => {
                self.high_fence = to_vec(h);
            },
            None => {},
        }
        let ghost high = self@.high;
        let mut out: Vec<LeafRecord> = Vec::new();
        let mut i: usize = 0;
        while i < self.records.len()
            invariant
                i <= self.records@.len(),
                rs == image::recs(self.records@),
                high == self.high_fence@,
                skip == (match skip_key {
                    Some(k) => Some(k@),
                    None => None,
                }),
                image::recs(out@) == kept(rs.take(i as int), high, skip_tombstone, skip),
            decreases self.records@.len() - i,
        {
            let rec = &self.records[i];
            let dead = match rec.op_type {
                OpType::Insert | OpType::Cache => false,
                OpType::Delete | OpType::Phantom => true,
            };
            let skipped = match skip_key {
                Some(k) => key_eq(rec.key.as_slice(), k),
                None => false,
            };
            let beyond = self.high_fence.len() > 0 && !key_lt(
                rec.key.as_slice(),
                self.high_fence.as_slice(),
            );
            let ghost before = image::recs(out@);
            assert(rs.take(i + 1).drop_last() =~= rs.take(i as int));
            assert(rs.take(i + 1).last() == rec@);
            if !(dead && skip_tombstone) && !skipped && !beyond {
                out.push(rec.copy());
                assert(image::recs(out@) =~= before.push(rs[i as int]));
            }
            i += 1;
        }
        assert(rs.take(rs.len() as int) =~= rs);
        proof {
            lemma_kept(rs, high, skip_tombstone, skip);
        }
        self.records = out;
        self.snapshot_version = snapshot_version;
    }
}

} // verus!
