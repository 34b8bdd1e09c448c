//! Leaf pages: sorted lists of records.
use vstd::prelude::*;

use crate::nodes::image;
use crate::nodes::image::{encode_image, ImageView, LeafRecord, PageImage, RecordView};
use crate::nodes::image::KV_META_SIZE;
use crate::order;
use crate::order::{key_eq, key_lt, to_vec};

verus! {

/// Records are in strictly ascending key order.
pub open spec fn sorted(rs: Seq<RecordView>) -> bool {
    forall|i: int, j: int|
        0 <= i < j < rs.len() ==> order::lex_lt((#[trigger] rs[i]).key, (#[trigger] rs[j]).key)
}

/// Some record has the key `k`.
pub open spec fn has_key(rs: Seq<RecordView>, k: Seq<u8>) -> bool {
    exists|i: int| 0 <= i < rs.len() && (#[trigger] rs[i]).key == k
}

/// The record with key `k`, if there is one.
pub open spec fn lookup(rs: Seq<RecordView>, k: Seq<u8>) -> Option<RecordView> {
    if has_key(rs, k) {
        Some(rs[choose|i: int| 0 <= i < rs.len() && (#[trigger] rs[i]).key == k])
    } else {
        None
    }
}

/// `p` is where a record with key `k` is or belongs.
pub open spec fn is_lower_bound(rs: Seq<RecordView>, k: Seq<u8>, p: int) -> bool {
    &&& 0 <= p <= rs.len()
    &&& forall|i: int| 0 <= i < p ==> order::lex_lt((#[trigger] rs[i]).key, k)
    &&& forall|i: int| p <= i < rs.len() ==> !order::lex_lt((#[trigger] rs[i]).key, k)
}

/// `rs` with `r` in the place of the record of the same key, or added.
pub open spec fn upsert_at(rs: Seq<RecordView>, p: int, r: RecordView) -> Seq<RecordView> {
    if p < rs.len() && rs[p].key == r.key {
        rs.update(p, r)
    } else {
        rs.insert(p, r)
    }
}

/// A record as readers see it: only live records count.
pub open spec fn live(r: Option<RecordView>) -> Option<RecordView> {
    match r {
        Some(x) => if x.op.is_live() {
            Some(x)
        } else {
            None
        },
        None => None,
    }
}

/// What a list `top` of newer records over a list `below` says of `k`.
pub open spec fn overlay(
    top: Seq<RecordView>,
    below: Seq<RecordView>,
    k: Seq<u8>,
) -> Option<RecordView> {
    match lookup(top, k) {
        Some(r) => Some(r),
        None => lookup(below, k),
    }
}

/// Every record's key lies in `range`.
pub open spec fn all_in(rs: Seq<RecordView>, range: order::KeyRange) -> bool {
    forall|i: int| 0 <= i < rs.len() ==> range.contains((#[trigger] rs[i]).key)
}

/// Every record takes at most `max` bytes besides its own overhead, and its
/// key at most `max_key`.
pub open spec fn bounded(rs: Seq<RecordView>, max_key: nat, max: nat) -> bool {
    forall|i: int|
        0 <= i < rs.len() ==> (#[trigger] rs[i]).key.len() <= max_key && rs[i].key.len()
            + rs[i].value.len() <= max
}

pub open spec fn all_live(rs: Seq<RecordView>) -> bool {
    forall|i: int| 0 <= i < rs.len() ==> (#[trigger] rs[i]).op.is_live()
}

pub proof fn lemma_lookup_at(rs: Seq<RecordView>, i: int)
    requires
        sorted(rs),
        0 <= i < rs.len(),
    ensures
        lookup(rs, rs[i].key) == Some(rs[i]),
{
    let k = rs[i].key;
    let j = choose|j: int| 0 <= j < rs.len() && (#[trigger] rs[j]).key == k;
    order::lemma_lex_irreflexive(k);
    if j < i {
        assert(order::lex_lt(rs[j].key, rs[i].key));
    } else if i < j {
        assert(order::lex_lt(rs[i].key, rs[j].key));
    }
}

/// A found record is one of the list.
pub proof fn lemma_lookup_some(rs: Seq<RecordView>, k: Seq<u8>) -> (i: int)
    requires
        lookup(rs, k) is Some,
    ensures
        0 <= i < rs.len(),
        rs[i].key == k,
        lookup(rs, k) == Some(rs[i]),
{
    choose|i: int| 0 <= i < rs.len() && (#[trigger] rs[i]).key == k
}

/// A sorted list is determined by what it says of each key.
pub proof fn lemma_lookup_is(rs: Seq<RecordView>, k: Seq<u8>, i: int)
    requires
        sorted(rs),
        0 <= i < rs.len(),
        rs[i].key == k,
    ensures
        lookup(rs, k) == Some(rs[i]),
{
    lemma_lookup_at(rs, i);
}

pub proof fn lemma_recs_size_concat(a: Seq<RecordView>, b: Seq<RecordView>)
    ensures
        image::recs_size(a + b) == image::recs_size(a) + image::recs_size(b),
    decreases b.len(),
{
    if b.len() == 0 {
        assert(a + b =~= a);
    } else {
        lemma_recs_size_concat(a, b.drop_last());
        assert((a + b).drop_last() =~= a + b.drop_last());
        assert((a + b).last() == b.last());
    }
}

pub proof fn lemma_recs_size_one(r: RecordView)
    ensures
        image::recs_size(seq![r]) == r.size(),
{
    reveal_with_fuel(image::recs_size, 2);
    assert(seq![r].drop_last() =~= Seq::<RecordView>::empty());
}

pub proof fn lemma_recs_size_insert(rs: Seq<RecordView>, p: int, r: RecordView)
    requires
        0 <= p <= rs.len(),
    ensures
        image::recs_size(rs.insert(p, r)) == image::recs_size(rs) + r.size(),
{
    let a = rs.take(p);
    let b = rs.skip(p);
    assert(rs =~= a + b);
    assert(rs.insert(p, r) =~= (a + seq![r]) + b);
    lemma_recs_size_concat(a, b);
    lemma_recs_size_concat(a + seq![r], b);
    lemma_recs_size_concat(a, seq![r]);
    lemma_recs_size_one(r);
}

pub proof fn lemma_recs_size_update(rs: Seq<RecordView>, p: int, r: RecordView)
    requires
        0 <= p < rs.len(),
    ensures
        image::recs_size(rs.update(p, r)) + rs[p].size() == image::recs_size(rs) + r.size(),
{
    let a = rs.take(p);
    let b = rs.skip(p + 1);
    assert(rs =~= a + seq![rs[p]] + b);
    assert(rs.update(p, r) =~= a + seq![r] + b);
    lemma_recs_size_concat(a + seq![rs[p]], b);
    lemma_recs_size_concat(a, seq![rs[p]]);
    lemma_recs_size_concat(a + seq![r], b);
    lemma_recs_size_concat(a, seq![r]);
    lemma_recs_size_one(r);
    lemma_recs_size_one(rs[p]);
}

/// Each record's size counts towards the size of the list.
pub proof fn lemma_recs_size_member(rs: Seq<RecordView>, p: int)
    requires
        0 <= p < rs.len(),
    ensures
        rs[p].size() <= image::recs_size(rs),
{
    let a = rs.take(p);
    let b = rs.skip(p + 1);
    assert(rs =~= a + seq![rs[p]] + b);
    lemma_recs_size_concat(a + seq![rs[p]], b);
    lemma_recs_size_concat(a, seq![rs[p]]);
    lemma_recs_size_one(rs[p]);
}

pub proof fn lemma_recs_size_split(rs: Seq<RecordView>, p: int)
    requires
        0 <= p <= rs.len(),
    ensures
        image::recs_size(rs.take(p)) + image::recs_size(rs.skip(p)) == image::recs_size(rs),
{
    assert(rs =~= rs.take(p) + rs.skip(p));
    lemma_recs_size_concat(rs.take(p), rs.skip(p));
}

/// Putting a record into its place keeps the order and changes what the list
/// says of that one key only.
pub proof fn lemma_upsert(rs: Seq<RecordView>, p: int, r: RecordView)
    requires
        sorted(rs),
        is_lower_bound(rs, r.key, p),
    ensures
        sorted(upsert_at(rs, p, r)),
        forall|k: Seq<u8>|
            #![trigger lookup(upsert_at(rs, p, r), k)]
            lookup(upsert_at(rs, p, r), k) == if k == r.key {
                Some(r)
            } else {
                lookup(rs, k)
            },
        image::recs_size(upsert_at(rs, p, r)) <= image::recs_size(rs) + r.size(),
{
    order::lemma_lex_order();
    let u = upsert_at(rs, p, r);
    if p < rs.len() && rs[p].key == r.key {
        lemma_recs_size_update(rs, p, r);
        assert(sorted(u));
        assert forall|k: Seq<u8>| lookup(u, k) == (if k == r.key {
            Some(r)
        } else {
            lookup(rs, k)
        }) by {
            if k == r.key {
                assert(u[p] == r);
                lemma_lookup_is(u, k, p);
            } else if has_key(rs, k) {
                let i = lemma_lookup_some(rs, k);
                assert(u[i] == rs[i]);
                lemma_lookup_is(u, k, i);
            } else {
                if has_key(u, k) {
                    let i = lemma_lookup_some(u, k);
                    assert(rs[i].key == k);
                }
            }
        }
    } else {
        lemma_recs_size_insert(rs, p, r);
        assert forall|i: int, j: int| 0 <= i < j < u.len() implies order::lex_lt(
            (#[trigger] u[i]).key,
            (#[trigger] u[j]).key,
        ) by {
            if i < p && j == p {
                assert(rs[i].key == u[i].key);
            } else if i == p {
                assert(u[j] == rs[j - 1]);
                assert(!order::lex_lt(rs[j - 1].key, r.key));
                if j - 1 > p {
                    assert(order::lex_lt(rs[p].key, rs[j - 1].key));
                }
                if rs[j - 1].key == r.key {
                    if j - 1 > p {
                        assert(!order::lex_lt(rs[p].key, r.key));
                    }
                }
            } else {
                let i0 = if i < p {
                    i
                } else {
                    i - 1
                };
                let j0 = if j < p {
                    j
                } else {
                    j - 1
                };
                assert(u[i] == rs[i0]);
                assert(u[j] == rs[j0]);
            }
        }
        assert forall|k: Seq<u8>| lookup(u, k) == (if k == r.key {
            Some(r)
        } else {
            lookup(rs, k)
        }) by {
            if k == r.key {
                assert(u[p] == r);
                lemma_lookup_is(u, k, p);
            } else if has_key(rs, k) {
                let i = lemma_lookup_some(rs, k);
                let i1 = if i < p {
                    i
                } else {
                    i + 1
                };
                assert(u[i1] == rs[i]);
                lemma_lookup_is(u, k, i1);
            } else {
                if has_key(u, k) {
                    let i = lemma_lookup_some(u, k);
                    let i0 = if i < p {
                        i
                    } else {
                        i - 1
                    };
                    assert(i != p);
                    assert(rs[i0].key == k);
                }
            }
        }
    }
}

/// Cutting a sorted list at `m` divides its keys at `rs[m].key`.
pub proof fn lemma_cut(rs: Seq<RecordView>, m: int)
    requires
        sorted(rs),
        0 < m < rs.len(),
    ensures
        sorted(rs.take(m)),
        sorted(rs.skip(m)),
        forall|k: Seq<u8>|
            #![trigger lookup(rs.take(m), k)]
            lookup(rs.take(m), k) == if order::lex_lt(k, rs[m].key) {
                lookup(rs, k)
            } else {
                None
            },
        forall|k: Seq<u8>|
            #![trigger lookup(rs.skip(m), k)]
            lookup(rs.skip(m), k) == if order::lex_lt(k, rs[m].key) {
                None
            } else {
                lookup(rs, k)
            },
{
    order::lemma_lex_order();
    let a = rs.take(m);
    let b = rs.skip(m);
    assert(forall|i: int| 0 <= i < a.len() ==> #[trigger] a[i] == rs[i]);
    assert(forall|i: int| 0 <= i < b.len() ==> #[trigger] b[i] == rs[i + m]);
    assert forall|k: Seq<u8>| #![trigger lookup(a, k)] lookup(a, k) == (if order::lex_lt(
        k,
        rs[m].key,
    ) {
        lookup(rs, k)
    } else {
        None
    }) by {
        if has_key(a, k) {
            let i = lemma_lookup_some(a, k);
            assert(rs[i].key == k);
            lemma_lookup_is(rs, k, i);
            assert(order::lex_lt(rs[i].key, rs[m].key));
        } else if has_key(rs, k) {
            let i = lemma_lookup_some(rs, k);
            if i < m {
                assert(a[i].key == k);
            } else if i > m {
                assert(order::lex_lt(rs[m].key, rs[i].key));
            }
        }
    }
    assert forall|k: Seq<u8>| #![trigger lookup(b, k)] lookup(b, k) == (if order::lex_lt(
        k,
        rs[m].key,
    ) {
        None
    } else {
        lookup(rs, k)
    }) by {
        if has_key(b, k) {
            let i = lemma_lookup_some(b, k);
            assert(rs[i + m].key == k);
            lemma_lookup_is(rs, k, i + m);
            if i > 0 {
                assert(order::lex_lt(rs[m].key, rs[i + m].key));
            }
        } else if has_key(rs, k) {
            let i = lemma_lookup_some(rs, k);
            if i >= m {
                assert(b[i - m].key == k);
            } else {
                assert(order::lex_lt(rs[i].key, rs[m].key));
            }
        }
    }
}

/// The first position whose key does not come before `key`.
pub fn lower_bound(records: &Vec<LeafRecord>, key: &[u8]) -> (p: usize)
    requires
        sorted(image::recs(records@)),
    ensures
        is_lower_bound(image::recs(records@), key@, p as int),
{
    let ghost rs = image::recs(records@);
    let mut lo: usize = 0;
    let mut hi: usize = records.len();
    proof {
        order::lemma_lex_order();
    }
    while lo < hi
        invariant
            rs == image::recs(records@),
            sorted(rs),
            lo <= hi <= records@.len(),
            forall|i: int| 0 <= i < lo ==> order::lex_lt((#[trigger] rs[i]).key, key@),
            forall|i: int| hi <= i < rs.len() ==> !order::lex_lt((#[trigger] rs[i]).key, key@),
        decreases hi - lo,
    {
        let mid: usize = lo + (hi - lo) / 2;
        assert(rs[mid as int] == records@[mid as int]@);
        if key_lt(records[mid].key.as_slice(), key) {
            proof {
                order::lemma_lex_order();
                assert forall|i: int| 0 <= i < mid + 1 implies order::lex_lt(
                    (#[trigger] rs[i]).key,
                    key@,
                ) by {
                    if i < mid {
                        assert(order::lex_lt(rs[i].key, rs[mid as int].key));
                    }
                }
            }
            lo = mid + 1;
        } else {
            proof {
                order::lemma_lex_order();
                assert forall|i: int| mid <= i < rs.len() implies !order::lex_lt(
                    (#[trigger] rs[i]).key,
                    key@,
                ) by {
                    if i > mid {
                        assert(order::lex_lt(rs[mid as int].key, rs[i].key));
                    }
                }
            }
            hi = mid;
        }
    }
    lo
}

/// What a lower bound says about the key itself.
pub proof fn lemma_lower_bound_lookup(rs: Seq<RecordView>, k: Seq<u8>, p: int)
    requires
        sorted(rs),
        is_lower_bound(rs, k, p),
    ensures
        lookup(rs, k) == if p < rs.len() && rs[p].key == k {
            Some(rs[p])
        } else {
            None::<RecordView>
        },
{
    order::lemma_lex_order();
    if p < rs.len() && rs[p].key == k {
        lemma_lookup_is(rs, k, p);
    } else if has_key(rs, k) {
        let i = lemma_lookup_some(rs, k);
        if i > p {
            assert(order::lex_lt(rs[p].key, rs[i].key));
            assert(!order::lex_lt(rs[p].key, k));
        }
    }
}

/// The position of the record with `key`, if there is one.
pub fn find(records: &Vec<LeafRecord>, key: &[u8]) -> (r: Option<usize>)
    requires
        sorted(image::recs(records@)),
    ensures
        match r {
            Some(i) => {
                &&& i < records@.len()
                &&& lookup(image::recs(records@), key@) == Some(records@[i as int]@)
            },
            None => lookup(image::recs(records@), key@) is None,
        },
{
    let p = lower_bound(records, key);
    proof {
        lemma_lower_bound_lookup(image::recs(records@), key@, p as int);
    }
    if p < records.len() && key_eq(records[p].key.as_slice(), key) {
        Some(p)
    } else {
        None
    }
}

/// Puts a record into its place.
pub fn upsert(records: &mut Vec<LeafRecord>, rec: LeafRecord)
    requires
        sorted(image::recs(old(records)@)),
    ensures
        sorted(image::recs(final(records)@)),
        forall|k: Seq<u8>|
            #![trigger lookup(image::recs(final(records)@), k)]
            lookup(image::recs(final(records)@), k) == if k == rec@.key {
                Some(rec@)
            } else {
                lookup(image::recs(old(records)@), k)
            },
        image::recs_size(image::recs(final(records)@)) <= image::recs_size(
            image::recs(old(records)@),
        ) + rec@.size(),
        exists|p: int|
            image::recs(final(records)@) == #[trigger] upsert_at(
                image::recs(old(records)@),
                p,
                rec@,
            ) && is_lower_bound(image::recs(old(records)@), rec@.key, p),
{
    let p = lower_bound(records, rec.key.as_slice());
    let ghost rs = image::recs(records@);
    proof {
        lemma_upsert(rs, p as int, rec@);
    }
    let ghost u = upsert_at(rs, p as int, rec@);
    if p < records.len() && key_eq(records[p].key.as_slice(), rec.key.as_slice()) {
        records[p] = rec;
        assert(image::recs(records@) =~= u);
    } else {
        records.insert(p, rec);
        assert(image::recs(records@) =~= u);
    }
}


/// Appending a record whose key is the greatest so far.
pub proof fn lemma_push_greatest(rs: Seq<RecordView>, r: RecordView)
    requires
        sorted(rs),
        forall|i: int| 0 <= i < rs.len() ==> order::lex_lt((#[trigger] rs[i]).key, r.key),
    ensures
        sorted(rs.push(r)),
        forall|k: Seq<u8>|
            #![trigger lookup(rs.push(r), k)]
            lookup(rs.push(r), k) == if k == r.key {
                Some(r)
            } else {
                lookup(rs, k)
            },
{
    order::lemma_lex_order();
    let u = rs.push(r);
    assert forall|k: Seq<u8>| #![trigger lookup(u, k)] lookup(u, k) == (if k == r.key {
        Some(r)
    } else {
        lookup(rs, k)
    }) by {
        if k == r.key {
            assert(u[rs.len() as int] == r);
            lemma_lookup_is(u, k, rs.len() as int);
        } else if has_key(rs, k) {
            let i = lemma_lookup_some(rs, k);
            assert(u[i] == rs[i]);
            lemma_lookup_is(u, k, i);
        } else if has_key(u, k) {
            let i = lemma_lookup_some(u, k);
            assert(rs[i].key == k);
        }
    }
}

/// The keys of one more record of a list.
proof fn lemma_take_more(rs: Seq<RecordView>, i: int)
    requires
        0 <= i < rs.len(),
    ensures
        image::recs_size(rs.take(i + 1)) == image::recs_size(rs.take(i)) + rs[i].size(),
        forall|k: Seq<u8>| #[trigger]
            has_key(rs.take(i + 1), k) <==> has_key(rs.take(i), k) || k == rs[i].key,
{
    assert(rs.take(i + 1) =~= rs.take(i).push(rs[i]));
    image::lemma_recs_size_push(rs.take(i), rs[i]);
    let a = rs.take(i);
    let b = rs.take(i + 1);
    assert forall|k: Seq<u8>| #[trigger] has_key(b, k) <==> has_key(a, k) || k == rs[i].key by {
        if has_key(b, k) {
            let j = choose|j: int| 0 <= j < b.len() && (#[trigger] b[j]).key == k;
            if j < i {
                assert(a[j].key == k);
            }
        }
        if has_key(a, k) {
            let j = choose|j: int| 0 <= j < a.len() && (#[trigger] a[j]).key == k;
            assert(b[j].key == k);
        }
        assert(b[i] == rs[i]);
    }
}

/// Lays the records `top` over the records `below` and keeps what is live.
pub fn merge_records(top: &Vec<LeafRecord>, below: &Vec<LeafRecord>) -> (out: Vec<LeafRecord>)
    requires
        sorted(image::recs(top@)),
        sorted(image::recs(below@)),
    ensures
        sorted(image::recs(out@)),
        all_live(image::recs(out@)),
        forall|k: Seq<u8>|
            #![trigger lookup(image::recs(out@), k)]
            lookup(image::recs(out@), k) == live(
                overlay(image::recs(top@), image::recs(below@), k),
            ),
        image::recs_size(image::recs(out@)) <= image::recs_size(image::recs(top@))
            + image::recs_size(image::recs(below@)),
{
    let ghost a = image::recs(top@);
    let ghost b = image::recs(below@);
    let mut out: Vec<LeafRecord> = Vec::new();
    let mut i: usize = 0;
    let mut j: usize = 0;
    assert(a.take(0) =~= Seq::<RecordView>::empty());
    assert(b.take(0) =~= Seq::<RecordView>::empty());
    assert(image::recs(out@) =~= Seq::<RecordView>::empty());
    while i < top.len() || j < below.len()
        invariant
            a == image::recs(top@),
            b == image::recs(below@),
            sorted(a),
            sorted(b),
            i <= top@.len(),
            j <= below@.len(),
            sorted(image::recs(out@)),
            all_live(image::recs(out@)),
            image::recs_size(image::recs(out@)) <= image::recs_size(a.take(i as int))
                + image::recs_size(b.take(j as int)),
            forall|k: Seq<u8>|
                #![trigger lookup(image::recs(out@), k)]
                lookup(image::recs(out@), k) == if has_key(a.take(i as int), k) || has_key(
                    b.take(j as int),
                    k,
                ) {
                    live(overlay(a, b, k))
                } else {
                    None
                },
            forall|x: int, y: int|
                0 <= x < i && j <= y < b.len() ==> order::lex_lt(
                    (#[trigger] a[x]).key,
                    (#[trigger] b[y]).key,
                ),
            forall|x: int, y: int|
                i <= x < a.len() && 0 <= y < j ==> order::lex_lt(
                    (#[trigger] b[y]).key,
                    (#[trigger] a[x]).key,
                ),
            forall|x: int, y: int|
                0 <= x < image::recs(out@).len() && i <= y < a.len() ==> order::lex_lt(
                    (#[trigger] image::recs(out@)[x]).key,
                    (#[trigger] a[y]).key,
                ),
            forall|x: int, y: int|
                0 <= x < image::recs(out@).len() && j <= y < b.len() ==> order::lex_lt(
                    (#[trigger] image::recs(out@)[x]).key,
                    (#[trigger] b[y]).key,
                ),
        decreases top@.len() + below@.len() - i - j,
    {
        let ghost before = image::recs(out@);
        proof {
            order::lemma_lex_order();
        }
        let from_top: bool;
        let both: bool;
        if i < top.len() && j < below.len() {
            assert(a[i as int] == top@[i as int]@);
            assert(b[j as int] == below@[j as int]@);
            both = key_eq(top[i].key.as_slice(), below[j].key.as_slice());
            from_top = both || key_lt(top[i].key.as_slice(), below[j].key.as_slice());
        } else {
            both = false;
            from_top = i < top.len();
        }
        if from_top {
            let rec = top[i].copy();
            let ghost r = rec@;
            assert(a[i as int] == r);
            proof {
                lemma_take_more(a, i as int);
                lemma_lookup_at(a, i as int);
                if both {
                    lemma_take_more(b, j as int);
                }
                lemma_push_greatest(before, r);
                image::lemma_recs_size_push(before, r);
                image::lemma_recs_push(out@, rec);
            }
            if rec.op_type.live() {
                out.push(rec);
            }
            i += 1;
            if both {
                j += 1;
            }
        } else {
            let rec = below[j].copy();
            let ghost r = rec@;
            assert(b[j as int] == r);
            proof {
                lemma_take_more(b, j as int);
                lemma_lookup_at(b, j as int);
                lemma_push_greatest(before, r);
                image::lemma_recs_size_push(before, r);
                image::lemma_recs_push(out@, rec);
                assert(!has_key(a, r.key)) by {
                    if has_key(a, r.key) {
                        let x = lemma_lookup_some(a, r.key);
                        if x > i {
                            assert(order::lex_lt(a[i as int].key, a[x].key));
                        }
                    }
                }
            }
            if rec.op_type.live() {
                out.push(rec);
            }
            j += 1;
        }
    }
    proof {
        assert(a.take(i as int) =~= a);
        assert(b.take(j as int) =~= b);
    }
    out
}

/// Records taken over from two lists lie where the records of those lists lie.
pub proof fn lemma_merged_members(
    out: Seq<RecordView>,
    top: Seq<RecordView>,
    below: Seq<RecordView>,
    range: order::KeyRange,
    max_key: nat,
    max: nat,
)
    requires
        sorted(out),
        forall|k: Seq<u8>|
            #![trigger lookup(out, k)]
            lookup(out, k) == live(overlay(top, below, k)),
        all_in(top, range),
        all_in(below, range),
        bounded(top, max_key, max),
        bounded(below, max_key, max),
    ensures
        all_in(out, range),
        bounded(out, max_key, max),
{
    assert forall|i: int| 0 <= i < out.len() implies range.contains((#[trigger] out[i]).key)
        && out[i].key.len() <= max_key && out[i].key.len() + out[i].value.len() <= max by {
        lemma_lookup_at(out, i);
        let k = out[i].key;
        assert(lookup(out, k) == Some(out[i]));
        assert(overlay(top, below, k) == Some(out[i]));
        if lookup(top, k) is Some {
            let j = lemma_lookup_some(top, k);
        } else {
            let j = lemma_lookup_some(below, k);
        }
    }
}

/// The bytes that a list of records takes on a page.
pub fn size_of_records(records: &Vec<LeafRecord>) -> (n: usize)
    requires
        image::recs_size(image::recs(records@)) <= usize::MAX,
    ensures
        n == image::recs_size(image::recs(records@)),
{
    let ghost rs = image::recs(records@);
    let mut n: usize = 0;
    let mut i: usize = 0;
    assert(rs.take(0) =~= Seq::<RecordView>::empty());
    while i < records.len()
        invariant
            rs == image::recs(records@),
            image::recs_size(rs) <= usize::MAX,
            i <= records@.len(),
            n == image::recs_size(rs.take(i as int)),
        decreases records@.len() - i,
    {
        proof {
            lemma_take_more(rs, i as int);
            lemma_recs_size_split(rs, i + 1);
        }
        assert(rs[i as int] == records@[i as int]@);
        n = n + (KV_META_SIZE + records[i].key.len() + records[i].value.len());
        i += 1;
    }
    assert(rs.take(i as int) =~= rs);
    n
}

/// Chooses where to cut a list that is too long for one page, so that each
/// half fits a page that has `cap` bytes for records.
pub fn split_point(records: &Vec<LeafRecord>, total: usize, cap: usize) -> (m: usize)
    requires
        total == image::recs_size(image::recs(records@)),
        cap < total <= cap + cap / 2,
        forall|i: int| 0 <= i < records@.len() ==> 2 * (#[trigger] records@[i]@).size() <= cap,
    ensures
        0 < m < records@.len(),
        image::recs_size(image::recs(records@).take(m as int)) <= cap,
        image::recs_size(image::recs(records@).skip(m as int)) <= cap,
{
    let ghost rs = image::recs(records@);
    let mut acc: usize = 0;
    let mut i: usize = 0;
    assert(rs.take(0) =~= Seq::<RecordView>::empty());
    loop
        invariant
            rs == image::recs(records@),
            total == image::recs_size(rs),
            cap < total <= cap + cap / 2,
            forall|i: int| 0 <= i < records@.len() ==> 2 * (#[trigger] records@[i]@).size() <= cap,
            i <= records@.len(),
            acc == image::recs_size(rs.take(i as int)),
            acc <= cap,
            i == 0 <==> acc == 0,
        ensures
            0 < i < records@.len(),
            acc == image::recs_size(rs.take(i as int)),
            acc <= cap,
            2 * (total - acc) <= 2 * cap,
        decreases records@.len() - i,
    {
        if i == records.len() {
            assert(rs.take(i as int) =~= rs);
        }
        let r = &records[i];
        assert(rs[i as int] == r@);
        assert(2 * records@[i as int]@.size() <= cap);
        proof {
            lemma_take_more(rs, i as int);
        }
        let size: usize = KV_META_SIZE + r.key.len() + r.value.len();
        if acc >= total - acc || size > cap - acc {
            break;
        }
        acc = acc + size;
        i += 1;
    }
    proof {
        lemma_recs_size_split(rs, i as int);
    }
    i
}

/// Marks a page that has no page below it.
pub const NO_NEXT_LEVEL: u64 = 0xffff_ffff_ffff_ffff;

/// The outcome of looking a key up.
#[derive(Debug, Clone, Copy, PartialEq, Eq, Structural)]
pub enum LeafReadResult {
    /// The key is present and its value has this many bytes.
    Found(u32),
    NotFound,
    /// The key was removed and the record of its removal is still there.
    Deleted,
    /// The key is too long for the tree.
    InvalidKey,
}

/// A leaf page. `next_level` names the base page that a mini page or full page
/// caches; fences delimit the keys that a base page is responsible for.
#[derive(Debug)]
pub struct LeafNode {
    pub node_size: usize,
    pub snapshot_version: u64,
    pub lsn: u64,
    pub next_level: u64,
    pub low_fence: Vec<u8>,
    pub high_fence: Vec<u8>,
    pub records: Vec<LeafRecord>,
}

impl View for LeafNode {
    type V = ImageView;

    open spec fn view(&self) -> ImageView {
        ImageView {
            flags: 0,
            size: self.node_size as nat,
            version: self.snapshot_version,
            lsn: self.lsn,
            link: self.next_level,
            low: self.low_fence@,
            high: self.high_fence@,
            records: image::recs(self.records@),
        }
    }
}

impl LeafNode {
    /// An empty base page for all keys.
    pub fn make_base_page(node_size: usize, snapshot_version: u64) -> (r: LeafNode)
        ensures
            r@ == (ImageView {
                flags: 0,
                size: node_size as nat,
                version: snapshot_version,
                lsn: 0,
                link: NO_NEXT_LEVEL,
                low: Seq::empty(),
                high: Seq::empty(),
                records: Seq::empty(),
            }),
    {
        let r = LeafNode {
            node_size,
            snapshot_version,
            lsn: 0,
            next_level: NO_NEXT_LEVEL,
            low_fence: Vec::new(),
            high_fence: Vec::new(),
            records: Vec::new(),
        };
        assert(image::recs(r.records@) =~= Seq::<RecordView>::empty());
        r
    }

    pub fn copy_records(&self) -> (r: Vec<LeafRecord>)
        ensures
            image::recs(r@) == self@.records,
    {
        let mut out: Vec<LeafRecord> = Vec::with_capacity(self.records.len());
        let mut i: usize = 0;
        while i < self.records.len()
            invariant
                i <= self.records@.len(),
                out@.len() == i,
                forall|j: int| 0 <= j < i ==> (#[trigger] out@[j])@ == self.records@[j]@,
            decreases self.records@.len() - i,
        {
            out.push(self.records[i].copy());
            i += 1;
        }
        assert(image::recs(out@) =~= self@.records);
        out
    }

    pub fn copy(&self) -> (r: LeafNode)
        ensures
            r@ == self@,
    {
        LeafNode {
            node_size: self.node_size,
            snapshot_version: self.snapshot_version,
            lsn: self.lsn,
            next_level: self.next_level,
            low_fence: to_vec(self.low_fence.as_slice()),
            high_fence: to_vec(self.high_fence.as_slice()),
            records: self.copy_records(),
        }
    }

    /// The page as bytes, `node_size` of them.
    pub fn as_image(&self) -> (out: Vec<u8>)
        requires
            self@.fits(),
        ensures
            out@ == image::image_bytes(self@),
            out@.len() == self.node_size,
    {
        encode_image(
            0,
            self.node_size,
            self.snapshot_version,
            self.lsn,
            self.next_level,
            self.low_fence.as_slice(),
            self.high_fence.as_slice(),
            &self.records,
        )
    }

    /// The page as bytes, as it is kept on disk: without a page below.
    pub fn as_plain_image(&self) -> (out: Vec<u8>)
        requires
            (ImageView { link: NO_NEXT_LEVEL, ..self@ }).fits(),
        ensures
            out@ == image::image_bytes(ImageView { link: NO_NEXT_LEVEL, ..self@ }),
            out@.len() == self.node_size,
    {
        encode_image(
            0,
            self.node_size,
            self.snapshot_version,
            self.lsn,
            NO_NEXT_LEVEL,
            self.low_fence.as_slice(),
            self.high_fence.as_slice(),
            &self.records,
        )
    }

    /// The page that `b` is the image of.
    pub fn from_image(b: &[u8]) -> (r: Option<LeafNode>)
        ensures
            r is Some <==> image::parse_image(b@) is Some,
            r matches Some(p) ==> p@ == (ImageView { flags: 0, ..image::parse_image(b@)->0 }),
    {
        match PageImage::decode(b) {
            None => None,
            Some(p) => Some(
                LeafNode {
                    node_size: p.size,
                    snapshot_version: p.version,
                    lsn: p.lsn,
                    next_level: p.link,
                    low_fence: p.low,
                    high_fence: p.high,
                    records: p.records,
                },
            ),
        }
    }

    /// Snapshot version of the page.
    pub fn get_clean_snapshot_version(&self) -> (r: u64)
        ensures
            r == self@.version,
    {
        self.snapshot_version
    }
}

} // verus!
