//! The byte image of a page, as it is stored in a snapshot file.
//!
//! An image is eight little-endian words, the low fence, the high fence, the
//! records, and zero bytes up to the size of the page:
//!
//! | word | meaning                      |
//! |------|------------------------------|
//! | 0    | flags                        |
//! | 1    | size of the page in bytes    |
//! | 2    | snapshot version             |
//! | 3    | log sequence number          |
//! | 4    | link to the page below       |
//! | 5    | length of the low fence      |
//! | 6    | length of the high fence     |
//! | 7    | number of records            |
//!
//! A record is its key length and value length (two bytes each), its
//! operation byte, three zero bytes, the key and the value.
use vstd::prelude::*;

use crate::codec;
use crate::codec::{copy_range, pad_to, push_bytes, push_u16, push_u64, read_u16, read_u64};
use crate::nodes::OpType;
use crate::order::to_vec;

verus! {

/// Bytes that a page spends before its fences and records.
pub const PAGE_HEADER_SIZE: usize = 64;

/// Bytes that a record spends besides its key and value.
pub const KV_META_SIZE: usize = 8;

/// A key with its value and the operation that put it on the page.
#[derive(Debug)]
pub struct LeafRecord {
    pub key: Vec<u8>,
    pub value: Vec<u8>,
    pub op_type: OpType,
}

/// The mathematical content of a record.
#[verifier::ext_equal]
pub struct RecordView {
    pub key: Seq<u8>,
    pub value: Seq<u8>,
    pub op: OpType,
}

impl RecordView {
    /// Bytes that the record takes on a page.
    pub open spec fn size(self) -> nat {
        KV_META_SIZE as nat + self.key.len() + self.value.len()
    }

    /// Both lengths fit the two bytes that a record has for each.
    pub open spec fn fits(self) -> bool {
        self.key.len() <= 0xffff && self.value.len() <= 0xffff
    }
}

impl View for LeafRecord {
    type V = RecordView;

    open spec fn view(&self) -> RecordView {
        RecordView { key: self.key@, value: self.value@, op: self.op_type }
    }
}

/// The contents of a vector of records.
pub open spec fn recs(v: Seq<LeafRecord>) -> Seq<RecordView> {
    v.map_values(|r: LeafRecord| r@)
}

impl LeafRecord {
    pub fn copy(&self) -> (r: LeafRecord)
        ensures
            r@ == self@,
    {
        LeafRecord {
            key: to_vec(self.key.as_slice()),
            value: to_vec(self.value.as_slice()),
            op_type: self.op_type,
        }
    }
}

/// Bytes that a list of records takes on a page.
pub open spec fn recs_size(rs: Seq<RecordView>) -> nat
    decreases rs.len(),
{
    if rs.len() == 0 {
        0
    } else {
        recs_size(rs.drop_last()) + rs.last().size()
    }
}

pub open spec fn recs_fit(rs: Seq<RecordView>) -> bool {
    forall|i: int| 0 <= i < rs.len() ==> (#[trigger] rs[i]).fits()
}

pub open spec fn record_bytes(r: RecordView) -> Seq<u8> {
    codec::le16(r.key.len() as u16) + codec::le16(r.value.len() as u16) + seq![r.op.code(), 0u8, 0u8, 0u8] + r.key
        + r.value
}

pub open spec fn records_bytes(rs: Seq<RecordView>) -> Seq<u8>
    decreases rs.len(),
{
    if rs.len() == 0 {
        Seq::empty()
    } else {
        records_bytes(rs.drop_last()) + record_bytes(rs.last())
    }
}

/// Reads `n` records from the start of `b`.
pub open spec fn parse_records(b: Seq<u8>, n: nat) -> Option<Seq<RecordView>>
    decreases n,
{
    if n == 0 {
        Some(Seq::empty())
    } else if b.len() < 8 {
        None
    } else {
        let kl = codec::u16_at(b, 0) as int;
        let vl = codec::u16_at(b, 2) as int;
        let end = 8 + kl + vl;
        if b.len() < end {
            None
        } else {
            match OpType::of_code(b[4]) {
                None => None,
                Some(op) => match parse_records(b.skip(end), (n - 1) as nat) {
                    None => None,
                    Some(rest) => Some(
                        seq![
                            RecordView {
                                key: b.subrange(8, 8 + kl),
                                value: b.subrange(8 + kl, end),
                                op,
                            },
                        ] + rest,
                    ),
                },
            }
        }
    }
}

pub proof fn lemma_record_bytes_len(r: RecordView)
    ensures
        record_bytes(r).len() == r.size(),
{
    codec::lemma_le16(r.key.len() as u16);
    codec::lemma_le16(r.value.len() as u16);
}

pub proof fn lemma_records_bytes_len(rs: Seq<RecordView>)
    ensures
        records_bytes(rs).len() == recs_size(rs),
    decreases rs.len(),
{
    if rs.len() > 0 {
        lemma_records_bytes_len(rs.drop_last());
        lemma_record_bytes_len(rs.last());
    }
}

/// The bytes of a non-empty list begin with the bytes of its first record.
pub proof fn lemma_records_bytes_front(rs: Seq<RecordView>)
    requires
        rs.len() > 0,
    ensures
        records_bytes(rs) == record_bytes(rs[0]) + records_bytes(rs.skip(1)),
    decreases rs.len(),
{
    if rs.len() == 1 {
        assert(rs.drop_last() =~= Seq::<RecordView>::empty());
        assert(rs.skip(1) =~= Seq::<RecordView>::empty());
        assert(records_bytes(rs) =~= record_bytes(rs[0]) + records_bytes(rs.skip(1)));
    } else {
        lemma_records_bytes_front(rs.drop_last());
        assert(rs.drop_last().skip(1) =~= rs.skip(1).drop_last());
        assert(rs.skip(1).last() == rs.last());
        assert(records_bytes(rs) =~= record_bytes(rs[0]) + records_bytes(rs.skip(1)));
    }
}

/// Records that were written are read back, whatever follows them.
pub proof fn lemma_parse_records(rs: Seq<RecordView>, tail: Seq<u8>)
    requires
        recs_fit(rs),
    ensures
        parse_records(records_bytes(rs) + tail, rs.len()) == Some(rs),
    decreases rs.len(),
{
    if rs.len() == 0 {
        assert(rs =~= Seq::<RecordView>::empty());
    } else {
        let b = records_bytes(rs) + tail;
        let r = rs[0];
        assert(r.fits());
        lemma_records_bytes_front(rs);
        codec::lemma_le16(r.key.len() as u16);
        codec::lemma_le16(r.value.len() as u16);
        lemma_record_bytes_len(r);
        let kl = r.key.len() as int;
        let vl = r.value.len() as int;
        let end = 8 + kl + vl;
        assert(b.subrange(0, 2) =~= codec::le16(r.key.len() as u16));
        assert(b.subrange(2, 4) =~= codec::le16(r.value.len() as u16));
        assert(codec::u16_at(b, 0) == kl);
        assert(codec::u16_at(b, 2) == vl);
        assert(b[4] == r.op.code());
        assert(b.subrange(8, 8 + kl) =~= r.key);
        assert(b.subrange(8 + kl, end) =~= r.value);
        assert(b.skip(end) =~= records_bytes(rs.skip(1)) + tail);
        assert forall|i: int| 0 <= i < rs.skip(1).len() implies (#[trigger] rs.skip(1)[i]).fits() by {
            assert(rs[i + 1].fits());
        }
        lemma_parse_records(rs.skip(1), tail);
        assert(seq![r] + rs.skip(1) =~= rs);
        assert(RecordView { key: r.key, value: r.value, op: r.op } =~= r);
    }
}

/// Everything that an image holds.
#[verifier::ext_equal]
pub struct ImageView {
    pub flags: u64,
    pub size: nat,
    pub version: u64,
    pub lsn: u64,
    pub link: u64,
    pub low: Seq<u8>,
    pub high: Seq<u8>,
    pub records: Seq<RecordView>,
}

impl ImageView {
    /// Bytes of the image before its zero padding.
    pub open spec fn used(self) -> nat {
        PAGE_HEADER_SIZE as nat + self.low.len() + self.high.len() + recs_size(self.records)
    }

    /// The page has room for what it holds.
    pub open spec fn fits(self) -> bool {
        &&& self.used() <= self.size <= u64::MAX
        &&& self.records.len() <= u64::MAX
        &&& recs_fit(self.records)
    }
}

pub open spec fn image_header(v: ImageView) -> Seq<u8> {
    codec::le64(v.flags) + codec::le64(v.size as u64) + codec::le64(v.version) + codec::le64(v.lsn) + codec::le64(v.link) + codec::le64(
        v.low.len() as u64,
    ) + codec::le64(v.high.len() as u64) + codec::le64(v.records.len() as u64)
}

/// The bytes of an image.
pub open spec fn image_bytes(v: ImageView) -> Seq<u8> {
    image_header(v) + v.low + v.high + records_bytes(v.records) + codec::zeros((v.size - v.used()) as nat)
}

/// Reads an image that takes all of `b`.
pub open spec fn parse_image(b: Seq<u8>) -> Option<ImageView> {
    if b.len() < PAGE_HEADER_SIZE || codec::u64_at(b, 8) != b.len() {
        None
    } else {
        let low = codec::u64_at(b, 40) as int;
        let high = codec::u64_at(b, 48) as int;
        if PAGE_HEADER_SIZE + low + high > b.len() {
            None
        } else {
            let start = PAGE_HEADER_SIZE + low + high;
            match parse_records(b.skip(start), codec::u64_at(b, 56) as nat) {
                None => None,
                Some(records) => Some(
                    ImageView {
                        flags: codec::u64_at(b, 0),
                        size: b.len(),
                        version: codec::u64_at(b, 16),
                        lsn: codec::u64_at(b, 24),
                        link: codec::u64_at(b, 32),
                        low: b.subrange(64, 64 + low),
                        high: b.subrange(64 + low, start),
                        records,
                    },
                ),
            }
        }
    }
}

pub proof fn lemma_image_len(v: ImageView)
    requires
        v.fits(),
    ensures
        image_header(v).len() == PAGE_HEADER_SIZE,
        image_bytes(v).len() == v.size,
{
    lemma_image_header(v);
    lemma_records_bytes_len(v.records);
}

proof fn lemma_image_header(v: ImageView)
    ensures
        image_header(v).len() == 64,
        codec::u64_at(image_header(v), 0) == v.flags,
        codec::u64_at(image_header(v), 8) == v.size as u64,
        codec::u64_at(image_header(v), 16) == v.version,
        codec::u64_at(image_header(v), 24) == v.lsn,
        codec::u64_at(image_header(v), 32) == v.link,
        codec::u64_at(image_header(v), 40) == v.low.len() as u64,
        codec::u64_at(image_header(v), 48) == v.high.len() as u64,
        codec::u64_at(image_header(v), 56) == v.records.len() as u64,
{
    codec::lemma_le64(v.flags);
    codec::lemma_le64(v.size as u64);
    codec::lemma_le64(v.version);
    codec::lemma_le64(v.lsn);
    codec::lemma_le64(v.link);
    codec::lemma_le64(v.low.len() as u64);
    codec::lemma_le64(v.high.len() as u64);
    codec::lemma_le64(v.records.len() as u64);
    let h = image_header(v);
    assert(h.subrange(0, 8) =~= codec::le64(v.flags));
    assert(h.subrange(8, 16) =~= codec::le64(v.size as u64));
    assert(h.subrange(16, 24) =~= codec::le64(v.version));
    assert(h.subrange(24, 32) =~= codec::le64(v.lsn));
    assert(h.subrange(32, 40) =~= codec::le64(v.link));
    assert(h.subrange(40, 48) =~= codec::le64(v.low.len() as u64));
    assert(h.subrange(48, 56) =~= codec::le64(v.high.len() as u64));
    assert(h.subrange(56, 64) =~= codec::le64(v.records.len() as u64));
}

/// A page that was written as an image is read back unchanged.
pub proof fn lemma_image_round_trip(v: ImageView)
    requires
        v.fits(),
    ensures
        parse_image(image_bytes(v)) == Some(v),
{
    let b = image_bytes(v);
    lemma_image_len(v);
    lemma_image_header(v);
    lemma_records_bytes_len(v.records);
    assert(b.subrange(0, 64) =~= image_header(v));
    codec::lemma_u64_at_window(b, 0, 64, 0);
    codec::lemma_u64_at_window(b, 0, 64, 8);
    codec::lemma_u64_at_window(b, 0, 64, 16);
    codec::lemma_u64_at_window(b, 0, 64, 24);
    codec::lemma_u64_at_window(b, 0, 64, 32);
    codec::lemma_u64_at_window(b, 0, 64, 40);
    codec::lemma_u64_at_window(b, 0, 64, 48);
    codec::lemma_u64_at_window(b, 0, 64, 56);
    let start = 64 + v.low.len() + v.high.len();
    assert(b.subrange(64, 64 + v.low.len() as int) =~= v.low);
    assert(b.subrange(64 + v.low.len() as int, start as int) =~= v.high);
    let tail = codec::zeros((v.size - v.used()) as nat);
    assert(b.skip(start as int) =~= records_bytes(v.records) + tail);
    lemma_parse_records(v.records, tail);
    assert(parse_image(b).unwrap() =~= v);
}

/// A decoded image.
pub struct PageImage {
    pub flags: u64,
    pub size: usize,
    pub version: u64,
    pub lsn: u64,
    pub link: u64,
    pub low: Vec<u8>,
    pub high: Vec<u8>,
    pub records: Vec<LeafRecord>,
}

impl View for PageImage {
    type V = ImageView;

    open spec fn view(&self) -> ImageView {
        ImageView {
            flags: self.flags,
            size: self.size as nat,
            version: self.version,
            lsn: self.lsn,
            link: self.link,
            low: self.low@,
            high: self.high@,
            records: recs(self.records@),
        }
    }
}

/// The size of a list of records grows by the size of each record pushed.
pub proof fn lemma_recs_size_push(rs: Seq<RecordView>, r: RecordView)
    ensures
        recs_size(rs.push(r)) == recs_size(rs) + r.size(),
        records_bytes(rs.push(r)) == records_bytes(rs) + record_bytes(r),
{
    assert(rs.push(r).drop_last() =~= rs);
}

pub proof fn lemma_recs_push(v: Seq<LeafRecord>, r: LeafRecord)
    ensures
        recs(v.push(r)) == recs(v).push(r@),
{
    assert(recs(v.push(r)) =~= recs(v).push(r@));
}

/// Encodes a page into exactly `size` bytes.
pub fn encode_image(
    flags: u64,
    size: usize,
    version: u64,
    lsn: u64,
    link: u64,
    low: &[u8],
    high: &[u8],
    records: &Vec<LeafRecord>,
) -> (out: Vec<u8>)
    requires
        (ImageView {
            flags,
            size: size as nat,
            version,
            lsn,
            link,
            low: low@,
            high: high@,
            records: recs(records@),
        }).fits(),
    ensures
        out@ == image_bytes(
            ImageView {
                flags,
                size: size as nat,
                version,
                lsn,
                link,
                low: low@,
                high: high@,
                records: recs(records@),
            },
        ),
        out@.len() == size,
{
    let ghost v = ImageView {
        flags,
        size: size as nat,
        version,
        lsn,
        link,
        low: low@,
        high: high@,
        records: recs(records@),
    };
    let mut out: Vec<u8> = Vec::with_capacity(size);
    push_u64(&mut out, flags);
    push_u64(&mut out, size as u64);
    push_u64(&mut out, version);
    push_u64(&mut out, lsn);
    push_u64(&mut out, link);
    push_u64(&mut out, low.len() as u64);
    push_u64(&mut out, high.len() as u64);
    push_u64(&mut out, records.len() as u64);
    assert(out@ =~= image_header(v));
    push_bytes(&mut out, low);
    push_bytes(&mut out, high);
    let ghost head = out@;
    let mut i: usize = 0;
    assert(v.records.take(0) =~= Seq::<RecordView>::empty());
    while i < records.len()
        invariant
            i <= records@.len(),
            v.fits(),
            v.records == recs(records@),
            out@ =~= head + records_bytes(v.records.take(i as int)),
        decreases records@.len() - i,
    {
        let r = &records[i];
        assert(v.records[i as int] == r@);
        assert(v.records[i as int].fits());
        push_u16(&mut out, r.key.len() as u16);
        push_u16(&mut out, r.value.len() as u16);
        out.push(r.op_type.as_u8());
        out.push(0u8);
        out.push(0u8);
        out.push(0u8);
        push_bytes(&mut out, r.key.as_slice());
        push_bytes(&mut out, r.value.as_slice());
        proof {
            assert(v.records.take(i + 1) =~= v.records.take(i as int).push(r@));
            lemma_recs_size_push(v.records.take(i as int), r@);
            assert(out@ =~= head + (records_bytes(v.records.take(i as int)) + record_bytes(r@)));
        }
        i += 1;
    }
    proof {
        assert(v.records.take(i as int) =~= v.records);
        lemma_image_len(v);
        lemma_records_bytes_len(v.records);
    }
    pad_to(&mut out, size);
    assert(out@ =~= image_bytes(v));
    out
}

impl PageImage {
    /// Decodes a page from all of `b`; `None` if `b` is not an image.
    pub fn decode(b: &[u8]) -> (r: Option<PageImage>)
        ensures
            r is Some <==> parse_image(b@) is Some,
            r matches Some(p) ==> p@ == parse_image(b@)->0 && p.size == b@.len(),
    {
        let n = b.len();
        if n < PAGE_HEADER_SIZE || read_u64(b, 8) != n as u64 {
            return None;
        }
        let low = read_u64(b, 40);
        let high = read_u64(b, 48);
        let room = (n - PAGE_HEADER_SIZE) as u64;
        if low > room || high > room - low {
            return None;
        }
        let low_end: usize = PAGE_HEADER_SIZE + low as usize;
        let start: usize = low_end + high as usize;
        let count = read_u64(b, 56);
        let mut records: Vec<LeafRecord> = Vec::new();
        let mut at: usize = start;
        let mut i: u64 = 0;
        let ghost whole = parse_records(b@.skip(start as int), count as nat);
        assert(parse_image(b@) is Some <==> whole is Some);
        while i < count
            invariant
                n == b@.len(),
                parse_image(b@) is Some <==> whole is Some,
                at <= n,
                i <= count,
                records@.len() == i,
                whole == (match parse_records(b@.skip(at as int), (count - i) as nat) {
                    Some(rest) => Some(recs(records@) + rest),
                    None => None::<Seq<RecordView>>,
                }) || (i == 0 && at == start && whole == parse_records(
                    b@.skip(start as int),
                    count as nat,
                )),
            decreases count - i,
        {
            let ghost rest_bytes = b@.skip(at as int);
            proof {
                if i == 0 {
                    assert(recs(records@) =~= Seq::<RecordView>::empty());
                    if let Some(rest) = parse_records(rest_bytes, count as nat) {
                        assert(recs(records@) + rest =~= rest);
                    }
                }
            }
            if n - at < 8 {
                return None;
            }
            let kl = read_u16(b, at) as usize;
            let vl = read_u16(b, at + 2) as usize;
            assert(rest_bytes.subrange(0, 2) =~= b@.subrange(at as int, at + 2));
            assert(rest_bytes.subrange(2, 4) =~= b@.subrange(at + 2, at + 4));
            if n - at < 8 + kl + vl {
                return None;
            }
            let op = match OpType::from_u8(b[at + 4]) {
                None => {
                    return None;
                },
                Some(op) => op,
            };
            let key = copy_range(b, at + 8, at + 8 + kl);
            let value = copy_range(b, at + 8 + kl, at + 8 + kl + vl);
            let rec = LeafRecord { key, value, op_type: op };
            proof {
                let end = 8 + kl + vl;
                assert(rest_bytes.subrange(8, 8 + kl as int) =~= b@.subrange(
                    at + 8,
                    at + 8 + kl as int,
                ));
                assert(rest_bytes.subrange(8 + kl as int, end as int) =~= b@.subrange(
                    at + 8 + kl as int,
                    at + end as int,
                ));
                assert(rest_bytes.skip(end as int) =~= b@.skip(at + end as int));
                lemma_recs_push(records@, rec);
                if let Some(rest) = parse_records(rest_bytes.skip(end as int), (count - i - 1) as nat) {
                    assert(recs(records@) + (seq![rec@] + rest) =~= recs(records@).push(rec@) + rest);
                }
            }
            records.push(rec);
            at = at + 8 + kl + vl;
            i += 1;
        }
        proof {
            if count == 0 {
                assert(recs(records@) =~= Seq::<RecordView>::empty());
            }
            assert(recs(records@) + Seq::<RecordView>::empty() =~= recs(records@));
        }
        let p = PageImage {
            flags: read_u64(b, 0),
            size: n,
            version: read_u64(b, 16),
            lsn: read_u64(b, 24),
            link: read_u64(b, 32),
            low: copy_range(b, PAGE_HEADER_SIZE, low_end),
            high: copy_range(b, low_end, start),
            records,
        };
        assert(p@ =~= parse_image(b@).unwrap());
        Some(p)
    }
}

} // verus!
