//! How a snapshot file is laid out: a header, page images, and lists that say
//! where the pages are.
use vstd::prelude::*;

use crate::codec;
use crate::codec::{pad_to, push_bytes, push_u64, read_u64, Fixed};
use crate::fs::MemoryVfs;
use crate::nodes::DISK_PAGE_SIZE;

verus! {

pub const SECTOR_SIZE: usize = 512;

/// The bytes of the header.
pub const META_SIZE: usize = 512;

/// `BF-TREE-V0-BEGIN`
pub open spec fn magic_begin() -> Seq<u8> {
    seq![66u8, 70, 45, 84, 82, 69, 69, 45, 86, 48, 45, 66, 69, 71, 73, 78]
}

/// `BF-TREE-V0-END`
pub open spec fn magic_end() -> Seq<u8> {
    seq![66u8, 70, 45, 84, 82, 69, 69, 45, 86, 48, 45, 69, 78, 68]
}

/// The header of a snapshot file.
#[derive(Debug, Clone, Copy, PartialEq, Eq, Structural)]
pub struct BfTreeMeta {
    pub root_id: u64,
    pub inner_offset: u64,
    pub inner_size: u64,
    pub mini_offset: u64,
    pub mini_size: u64,
    pub mini_size_offset: u64,
    pub mini_size_size: u64,
    pub base_offset: u64,
    pub base_size: u64,
    pub file_size: u64,
    pub leaf_page_num: u64,
    pub cb_size_byte: u64,
    pub snapshot_version: u64,
    pub cache_only: bool,
    pub read_promotion_rate: u64,
    pub scan_promotion_rate: u64,
    pub cb_min_record_size: u64,
    pub cb_max_record_size: u64,
    pub leaf_page_size: u64,
    pub cb_max_key_len: u64,
    pub max_fence_len: u64,
    pub cb_copy_on_access_ratio: u64,
    pub read_record_cache: bool,
    pub max_mini_page_size: u64,
    pub mini_page_binary_search: bool,
    pub write_load_full_page: bool,
}

pub open spec fn flag(b: bool) -> u64 {
    if b {
        1
    } else {
        0
    }
}

pub open spec fn flag_byte(b: bool) -> u8 {
    if b {
        1
    } else {
        0
    }
}

/// The words of the header, in order. A flag that a number follows has a word of
/// its own, of which the first byte counts.
pub open spec fn meta_words(m: BfTreeMeta) -> Seq<u64> {
    seq![
        m.root_id,
        m.inner_offset,
        m.inner_size,
        m.mini_offset,
        m.mini_size,
        m.mini_size_offset,
        m.mini_size_size,
        m.base_offset,
        m.base_size,
        m.file_size,
        m.leaf_page_num,
        m.cb_size_byte,
        m.snapshot_version,
        flag(m.cache_only),
        m.read_promotion_rate,
        m.scan_promotion_rate,
        m.cb_min_record_size,
        m.cb_max_record_size,
        m.leaf_page_size,
        m.cb_max_key_len,
        m.max_fence_len,
        m.cb_copy_on_access_ratio,
        flag(m.read_record_cache),
        m.max_mini_page_size,
    ]
}

/// Numbers as bytes, one after the other.
pub open spec fn words_bytes(ws: Seq<u64>) -> Seq<u8>
    decreases ws.len(),
{
    if ws.len() == 0 {
        Seq::empty()
    } else {
        words_bytes(ws.drop_last()) + codec::le64(ws.last())
    }
}

/// The bytes of the header.
pub open spec fn meta_bytes(m: BfTreeMeta) -> Seq<u8> {
    magic_begin() + words_bytes(meta_words(m)) + seq![
        flag_byte(m.mini_page_binary_search),
        flag_byte(m.write_load_full_page),
    ] + magic_end() + codec::zeros(288)
}

/// The header that `b` starts with.
pub open spec fn parse_meta(b: Seq<u8>) -> Option<BfTreeMeta> {
    if b.len() < META_SIZE || b.subrange(0, 16) != magic_begin() || b.subrange(210, 224)
        != magic_end() {
        None
    } else {
        Some(
            BfTreeMeta {
                root_id: codec::u64_at(b, 16),
                inner_offset: codec::u64_at(b, 24),
                inner_size: codec::u64_at(b, 32),
                mini_offset: codec::u64_at(b, 40),
                mini_size: codec::u64_at(b, 48),
                mini_size_offset: codec::u64_at(b, 56),
                mini_size_size: codec::u64_at(b, 64),
                base_offset: codec::u64_at(b, 72),
                base_size: codec::u64_at(b, 80),
                file_size: codec::u64_at(b, 88),
                leaf_page_num: codec::u64_at(b, 96),
                cb_size_byte: codec::u64_at(b, 104),
                snapshot_version: codec::u64_at(b, 112),
                cache_only: b[120] != 0,
                read_promotion_rate: codec::u64_at(b, 128),
                scan_promotion_rate: codec::u64_at(b, 136),
                cb_min_record_size: codec::u64_at(b, 144),
                cb_max_record_size: codec::u64_at(b, 152),
                leaf_page_size: codec::u64_at(b, 160),
                cb_max_key_len: codec::u64_at(b, 168),
                max_fence_len: codec::u64_at(b, 176),
                cb_copy_on_access_ratio: codec::u64_at(b, 184),
                read_record_cache: b[192] != 0,
                max_mini_page_size: codec::u64_at(b, 200),
                mini_page_binary_search: b[208] != 0,
                write_load_full_page: b[209] != 0,
            },
        )
    }
}

pub proof fn lemma_words_len(ws: Seq<u64>)
    ensures
        words_bytes(ws).len() == 8 * ws.len(),
    decreases ws.len(),
{
    if ws.len() > 0 {
        lemma_words_len(ws.drop_last());
        codec::lemma_le64(ws.last());
    }
}

/// Number `i` stands at its place.
pub proof fn lemma_word(ws: Seq<u64>, i: int)
    requires
        0 <= i < ws.len(),
    ensures
        words_bytes(ws).subrange(8 * i, 8 * i + 8) == codec::le64(ws[i]),
    decreases ws.len(),
{
    lemma_words_len(ws);
    lemma_words_len(ws.drop_last());
    codec::lemma_le64(ws.last());
    let front = words_bytes(ws.drop_last());
    let all = words_bytes(ws);
    assert(all == front + codec::le64(ws.last()));
    if i == ws.len() - 1 {
        assert(all.subrange(8 * i, 8 * i + 8) =~= codec::le64(ws[i]));
    } else {
        lemma_word(ws.drop_last(), i);
        assert(all.subrange(8 * i, 8 * i + 8) =~= front.subrange(8 * i, 8 * i + 8));
    }
}

/// The first byte of word `i` is its flag.
proof fn lemma_flag_byte(b: Seq<u8>, ws: Seq<u64>, i: int, f: bool)
    requires
        0 <= i < ws.len(),
        ws[i] == flag(f),
        16 + 8 * ws.len() <= b.len(),
        b.subrange(16, (16 + 8 * ws.len()) as int) == words_bytes(ws),
    ensures
        b[16 + 8 * i] == flag_byte(f),
{
    lemma_word(ws, i);
    lemma_words_len(ws);
    let word = words_bytes(ws).subrange(8 * i, 8 * i + 8);
    assert(word[0] == b[16 + 8 * i]);
    codec::lemma_le64_one();
    codec::lemma_le64_zero();
}

/// A file that starts with a header is read back to that header.
pub proof fn lemma_meta_round_trip(m: BfTreeMeta, b: Seq<u8>)
    requires
        b.len() >= META_SIZE,
        b.subrange(0, META_SIZE as int) == meta_bytes(m),
    ensures
        parse_meta(b) == Some(m),
{
    let ws = meta_words(m);
    let mb = meta_bytes(m);
    lemma_words_len(ws);
    assert(mb.len() == META_SIZE);
    let head = b.subrange(0, META_SIZE as int);
    assert(b.subrange(0, 16) =~= head.subrange(0, 16));
    assert(mb.subrange(0, 16) =~= magic_begin());
    assert(b.subrange(210, 224) =~= head.subrange(210, 224));
    assert(mb.subrange(210, 224) =~= magic_end());
    assert(b[208] == head[208] && b[209] == head[209]);
    assert(b.subrange(16, 208) =~= head.subrange(16, 208));
    assert(mb.subrange(16, 208) =~= words_bytes(ws));
    lemma_flag_byte(b, ws, 13, m.cache_only);
    lemma_flag_byte(b, ws, 22, m.read_record_cache);
    assert forall|i: int| 0 <= i < 24 implies codec::u64_at(b, 16 + 8 * i) == #[trigger] ws[i] by {
        lemma_word(ws, i);
        assert(b.subrange(16 + 8 * i, 16 + 8 * i + 8) =~= head.subrange(
            16 + 8 * i,
            16 + 8 * i + 8,
        ));
        assert(mb.subrange(16 + 8 * i, 16 + 8 * i + 8) =~= words_bytes(ws).subrange(
            8 * i,
            8 * i + 8,
        ));
        codec::lemma_u64_at(b, 16 + 8 * i, ws[i]);
    }
    assert(ws[0] == m.root_id && ws[1] == m.inner_offset && ws[2] == m.inner_size && ws[3]
        == m.mini_offset && ws[4] == m.mini_size && ws[5] == m.mini_size_offset && ws[6]
        == m.mini_size_size && ws[7] == m.base_offset && ws[8] == m.base_size && ws[9]
        == m.file_size && ws[10] == m.leaf_page_num && ws[11] == m.cb_size_byte && ws[12]
        == m.snapshot_version && ws[13] == flag(m.cache_only));
    assert(ws[14] == m.read_promotion_rate && ws[15] == m.scan_promotion_rate && ws[16]
        == m.cb_min_record_size && ws[17] == m.cb_max_record_size && ws[18] == m.leaf_page_size
        && ws[19] == m.cb_max_key_len && ws[20] == m.max_fence_len && ws[21]
        == m.cb_copy_on_access_ratio && ws[22] == flag(m.read_record_cache) && ws[23]
        == m.max_mini_page_size);
}

impl BfTreeMeta {
    /// The header as bytes.
    pub fn as_bytes(&self) -> (out: Vec<u8>)
        ensures
            out@ == meta_bytes(*self),
            out@.len() == META_SIZE,
    {
        let words: [u64; 24] = [
            self.root_id,
            self.inner_offset,
            self.inner_size,
            self.mini_offset,
            self.mini_size,
            self.mini_size_offset,
            self.mini_size_size,
            self.base_offset,
            self.base_size,
            self.file_size,
            self.leaf_page_num,
            self.cb_size_byte,
            self.snapshot_version,
            if self.cache_only { 1 } else { 0 },
            self.read_promotion_rate,
            self.scan_promotion_rate,
            self.cb_min_record_size,
            self.cb_max_record_size,
            self.leaf_page_size,
            self.cb_max_key_len,
            self.max_fence_len,
            self.cb_copy_on_access_ratio,
            if self.read_record_cache { 1 } else { 0 },
            self.max_mini_page_size,
        ];
        let begin: [u8; 16] = [66, 70, 45, 84, 82, 69, 69, 45, 86, 48, 45, 66, 69, 71, 73, 78];
        let end: [u8; 14] = [66, 70, 45, 84, 82, 69, 69, 45, 86, 48, 45, 69, 78, 68];
        let ghost ws = meta_words(*self);
        assert(words@ =~= ws);
        let mut out: Vec<u8> = Vec::new();
        push_bytes(&mut out, begin.as_slice());
        assert(out@ =~= magic_begin());
        let mut i: usize = 0;
        proof {
            assert(ws.take(0) =~= Seq::<u64>::empty());
        }
        while i < 24
            invariant
                i <= 24,
                words@ == ws,
                ws.len() == 24,
                out@ == magic_begin() + words_bytes(ws.take(i as int)),
            decreases 24 - i,
        {
            push_u64(&mut out, words[i]);
            proof {
                assert(ws.take(i + 1).drop_last() =~= ws.take(i as int));
                assert(out@ =~= magic_begin() + words_bytes(ws.take(i + 1)));
            }
            i += 1;
        }
        assert(ws.take(24) =~= ws);
        let ghost front = out@;
        out.push(
            if self.mini_page_binary_search {
                1
            } else {
                0
            },
        );
        out.push(
            if self.write_load_full_page {
                1
            } else {
                0
            },
        );
        assert(out@ =~= front + seq![
            flag_byte(self.mini_page_binary_search),
            flag_byte(self.write_load_full_page),
        ]);
        push_bytes(&mut out, end.as_slice());
        assert(end@ =~= magic_end());
        proof {
            lemma_words_len(ws);
        }
        pad_to(&mut out, META_SIZE);
        out
    }

    /// The header that `b` starts with.
    pub fn from_bytes(b: &[u8]) -> (r: Option<BfTreeMeta>)
        ensures
            r == parse_meta(b@),
    {
        if b.len() < META_SIZE {
            return None;
        }
        let begin: [u8; 16] = [66, 70, 45, 84, 82, 69, 69, 45, 86, 48, 45, 66, 69, 71, 73, 78];
        let end: [u8; 14] = [66, 70, 45, 84, 82, 69, 69, 45, 86, 48, 45, 69, 78, 68];
        assert(begin@ =~= magic_begin());
        assert(end@ =~= magic_end());
        let got_begin = codec::copy_range(b, 0, 16);
        if !crate::order::key_eq(got_begin.as_slice(), begin.as_slice()) {
            return None;
        }
        let got_end = codec::copy_range(b, 210, 224);
        if !crate::order::key_eq(got_end.as_slice(), end.as_slice()) {
            return None;
        }
        Some(
            BfTreeMeta {
                root_id: read_u64(b, 16),
                inner_offset: read_u64(b, 24),
                inner_size: read_u64(b, 32),
                mini_offset: read_u64(b, 40),
                mini_size: read_u64(b, 48),
                mini_size_offset: read_u64(b, 56),
                mini_size_size: read_u64(b, 64),
                base_offset: read_u64(b, 72),
                base_size: read_u64(b, 80),
                file_size: read_u64(b, 88),
                leaf_page_num: read_u64(b, 96),
                cb_size_byte: read_u64(b, 104),
                snapshot_version: read_u64(b, 112),
                cache_only: b[120] != 0,
                read_promotion_rate: read_u64(b, 128),
                scan_promotion_rate: read_u64(b, 136),
                cb_min_record_size: read_u64(b, 144),
                cb_max_record_size: read_u64(b, 152),
                leaf_page_size: read_u64(b, 160),
                cb_max_key_len: read_u64(b, 168),
                max_fence_len: read_u64(b, 176),
                cb_copy_on_access_ratio: read_u64(b, 184),
                read_record_cache: b[192] != 0,
                max_mini_page_size: read_u64(b, 200),
                mini_page_binary_search: b[208] != 0,
                write_load_full_page: b[209] != 0,
            },
        )
    }
}

/// A list of entries as bytes.
pub open spec fn list_bytes<T: Fixed>(es: Seq<T>) -> Seq<u8>
    decreases es.len(),
{
    if es.len() == 0 {
        Seq::empty()
    } else {
        list_bytes(es.drop_last()) + es.last().bytes()
    }
}

/// The list of `n` entries that stands at `off`.
pub open spec fn list_at<T: Fixed>(b: Seq<u8>, off: int, n: nat) -> Seq<T> {
    Seq::new(n, |i: int| T::value_at(b, off + T::width() * i))
}

/// Where entry `i` of a list ends.
proof fn lemma_entry_end(w: int, i: int, n: int)
    requires
        0 <= w,
        0 <= i < n,
    ensures
        w * i + w <= w * n,
        w * (i + 1) == w * i + w,
        0 <= w * i,
{
    assert(w * (i + 1) == w * i + w) by (nonlinear_arith);
    assert(w * (i + 1) <= w * n) by (nonlinear_arith)
        requires
            i + 1 <= n,
            0 <= w,
    ;
    assert(0 <= w * i) by (nonlinear_arith)
        requires
            0 <= i,
            0 <= w,
    ;
}

pub proof fn lemma_list_len<T: Fixed>(es: Seq<T>)
    ensures
        list_bytes(es).len() == T::width() * es.len(),
    decreases es.len(),
{
    let w = T::width() as int;
    if es.len() > 0 {
        lemma_list_len(es.drop_last());
        es.last().lemma_width();
        lemma_entry_end(w, es.len() - 1, es.len() as int);
    } else {
        assert(w * 0 == 0) by (nonlinear_arith);
    }
}

proof fn lemma_list_entry<T: Fixed>(es: Seq<T>, i: int)
    requires
        0 <= i < es.len(),
    ensures
        0 <= T::width() * i,
        T::width() * i + T::width() <= list_bytes(es).len(),
        list_bytes(es).subrange(T::width() * i, T::width() * i + T::width()) == es[i].bytes(),
    decreases es.len(),
{
    let w = T::width() as int;
    let n = es.len() as int;
    lemma_list_len(es);
    lemma_list_len(es.drop_last());
    es.last().lemma_width();
    lemma_entry_end(w, i, n);
    let front = list_bytes(es.drop_last());
    let all = list_bytes(es);
    if i == n - 1 {
        assert(all.subrange(w * i, w * i + w) =~= es[i].bytes());
    } else {
        lemma_list_entry(es.drop_last(), i);
        assert(all.subrange(w * i, w * i + w) =~= front.subrange(w * i, w * i + w));
    }
}

/// A list that was written is there.
proof fn lemma_list_round_trip<T: Fixed>(b: Seq<u8>, off: int, es: Seq<T>)
    requires
        0 <= off,
        off + T::width() * es.len() <= b.len(),
        b.subrange(off, off + T::width() * es.len()) == list_bytes(es),
    ensures
        list_at::<T>(b, off, es.len()) == es,
{
    let w = T::width() as int;
    let bytes = list_bytes(es);
    lemma_list_len(es);
    assert forall|i: int| 0 <= i < es.len() implies list_at::<T>(b, off, es.len())[i] == es[i] by {
        lemma_list_entry(es, i);
        let at = off + w * i;
        assert(b.subrange(at, at + w) =~= bytes.subrange(w * i, w * i + w));
        es[i].lemma_value_at(b, at);
    }
    assert(list_at::<T>(b, off, es.len()) =~= es);
}

/// A list that was written is read back, whatever its entries are: `place` is where
/// `serialize_vec_to_disk` put list `v` in file `d`, and `back` is what
/// `read_vec_from_offset` finds there.
pub proof fn law_list_is_read_back<T: Fixed>(
    d: Seq<u8>,
    place: (usize, usize),
    v: Seq<T>,
    back: Seq<T>,
)
    requires
        0 < T::width(),
        place.1 == T::width() * v.len(),
        list_at::<T>(d, place.0 as int, v.len()) == v,
        back == list_at::<T>(d, place.0 as int, place.1 as nat / T::width()),
    ensures
        back == v,
{
    vstd::arithmetic::div_mod::lemma_div_multiples_vanish(v.len() as int, T::width() as int);
    vstd::arithmetic::mul::lemma_mul_is_commutative(v.len() as int, T::width() as int);
}

/// The least multiple of the sector size that is not below `n`.
pub open spec fn aligned(n: nat) -> nat {
    ((n + 511) / 512 * 512) as nat
}

pub fn align_to_sector_size(n: usize) -> (r: usize)
    requires
        n + 511 <= usize::MAX,
    ensures
        r == aligned(n as nat),
        n <= r < n + 512,
        r % 512 == 0,
{
    (n + (SECTOR_SIZE - 1)) / SECTOR_SIZE * SECTOR_SIZE
}

/// The file has only been added to.
pub open spec fn file_grows(before: Seq<u8>, after: Seq<u8>) -> bool {
    &&& before.len() <= after.len()
    &&& forall|i: int| 0 <= i < before.len() ==> #[trigger] after[i] == before[i]
}

/// Writes `slice` to the file, one disk page at a time, and returns where it
/// starts.
pub fn serialize_u8_slice_to_disk(slice: &[u8], vfs: &mut MemoryVfs) -> (r: usize)
    requires
        old(vfs).wf(),
        slice@.len() > 0,
        old(vfs).data@.len() <= old(vfs).next_offset,
    ensures
        final(vfs).wf(),
        old(vfs).full ==> final(vfs).full,
        !final(vfs).full ==> {
            &&& r == old(vfs).next_offset
            &&& final(vfs).data@.len() == r + slice@.len()
            &&& final(vfs).data@.subrange(r as int, r + slice@.len()) == slice@
            &&& file_grows(old(vfs).data@, final(vfs).data@)
        },
        final(vfs).next_offset <= old(vfs).next_offset + slice@.len() + DISK_PAGE_SIZE,
        !old(vfs).full && old(vfs).next_offset + slice@.len() + DISK_PAGE_SIZE <= usize::MAX
            ==> !final(vfs).full,
{
    let n = slice.len();
    let start = vfs.next_offset;
    let ghost d0 = vfs.data@;
    let mut at: usize = 0;
    while at < n
        invariant
            vfs.wf(),
            at <= n,
            n == slice@.len(),
            n > 0,
            start == old(vfs).next_offset,
            d0 == old(vfs).data@,
            d0.len() <= start,
            old(vfs).full ==> vfs.full,
            at < n ==> vfs.next_offset <= start + at,
            vfs.next_offset <= start + n + DISK_PAGE_SIZE,
            !old(vfs).full && start + n + DISK_PAGE_SIZE <= usize::MAX ==> !vfs.full,
            !vfs.full ==> {
                &&& file_grows(d0, vfs.data@)
                &&& at > 0 ==> vfs.data@.len() == start + at && vfs.data@.subrange(
                    start as int,
                    start + at,
                ) == slice@.subrange(0, at as int)
                &&& at == 0 ==> vfs.data@ == d0
                &&& at < n ==> vfs.next_offset == start + at
                &&& at % 4096 == 0 || at == n
            },
        decreases n - at,
    {
        let ghost d1 = vfs.data@;
        let end: usize = if n - at < DISK_PAGE_SIZE {
            n
        } else {
            at + DISK_PAGE_SIZE
        };
        let chunk = codec::copy_range(slice, at, end);
        let offset = vfs.alloc_offset(DISK_PAGE_SIZE);
        vfs.write(offset, chunk.as_slice());
        proof {
            if !vfs.full {
                let d2 = vfs.data@;
                assert(offset == start + at);
                assert(d2.len() == start + end);
                assert forall|i: int| 0 <= i < d0.len() implies #[trigger] d2[i] == d0[i] by {
                    assert(d1[i] == d0[i]);
                }
                assert forall|i: int| 0 <= i < end implies d2[start + i] == #[trigger] slice@[i] by {
                    if i < at {
                        assert(d1.subrange(start as int, start + at)[i] == slice@.subrange(
                            0,
                            at as int,
                        )[i]);
                        assert(d2[start + i] == d1[start + i]);
                    } else {
                        assert(chunk@[i - at] == slice@[i]);
                    }
                }
                assert(d2.subrange(start as int, start + end) =~= slice@.subrange(0, end as int));
            }
        }
        at = end;
    }
    assert(slice@.subrange(0, n as int) =~= slice@);
    start
}

/// The room that a list of `size` bytes takes at most.
pub open spec fn list_room(size: nat) -> nat {
    size + 5120
}

/// Writes a list to the file, and returns where it starts and its length; both
/// are zero for an empty list.
pub fn serialize_vec_to_disk<T: Fixed>(v: &Vec<T>, vfs: &mut MemoryVfs) -> (r: (usize, usize))
    requires
        old(vfs).wf(),
    ensures
        final(vfs).wf(),
        old(vfs).full ==> final(vfs).full,
        v@.len() == 0 ==> r == (0usize, 0usize) && *final(vfs) == *old(vfs),
        !final(vfs).full && v@.len() > 0 ==> {
            &&& r.0 == old(vfs).next_offset
            &&& r.1 == T::width() * v@.len()
            &&& final(vfs).data@.len() == r.0 + aligned(r.1 as nat)
            &&& list_at::<T>(final(vfs).data@, r.0 as int, v@.len()) == v@
            &&& file_grows(old(vfs).data@, final(vfs).data@)
        },
        final(vfs).next_offset <= old(vfs).next_offset + list_room(T::width() * v@.len()),
        !old(vfs).full && old(vfs).next_offset + list_room(T::width() * v@.len()) <= usize::MAX
            ==> !final(vfs).full,
{
    let n = v.len();
    if n == 0 {
        return (0, 0);
    }
    let width: usize = T::size();
    let ghost w = width as int;
    let most: usize = (usize::MAX - 1024) / width;
    proof {
        vstd::arithmetic::div_mod::lemma_fundamental_div_mod(usize::MAX - 1024, w);
        vstd::arithmetic::div_mod::lemma_mod_bound(usize::MAX - 1024, w);
        if n > most {
            assert(w * n >= w * (most + 1)) by (nonlinear_arith)
                requires
                    n >= most + 1,
                    w > 0,
            ;
            assert(w * (most + 1) == w * most + w) by (nonlinear_arith);
        } else {
            assert(w * n <= w * most) by (nonlinear_arith)
                requires
                    n <= most,
                    w > 0,
            ;
        }
        assert(n * w == w * n) by (nonlinear_arith);
        assert(0 < w * n) by (nonlinear_arith)
            requires
                w > 0,
                n > 0,
        ;
    }
    if n > most {
        vfs.full = true;
        return (0, 0);
    }
    let size: usize = n * width;
    let mut bytes: Vec<u8> = Vec::new();
    let mut i: usize = 0;
    assert(v@.take(0) =~= Seq::<T>::empty());
    while i < n
        invariant
            i <= n,
            n == v@.len(),
            bytes@ == list_bytes(v@.take(i as int)),
        decreases n - i,
    {
        v[i].push(&mut bytes);
        proof {
            assert(v@.take(i + 1).drop_last() =~= v@.take(i as int));
            assert(bytes@ =~= list_bytes(v@.take(i + 1)));
        }
        i += 1;
    }
    assert(v@.take(n as int) =~= v@);
    proof {
        lemma_list_len(v@);
    }
    let aligned_size = align_to_sector_size(size);
    let ghost plain = bytes@;
    pad_to(&mut bytes, aligned_size);
    let offset = serialize_u8_slice_to_disk(bytes.as_slice(), vfs);
    proof {
        if !vfs.full {
            let d = vfs.data@;
            assert(d.subrange(offset as int, offset + size) =~= plain) by {
                assert(d.subrange(offset as int, offset + aligned_size).subrange(0, size as int)
                    =~= d.subrange(offset as int, offset + size));
                assert(bytes@.subrange(0, size as int) =~= plain);
            }
            lemma_list_round_trip(d, offset as int, v@);
        }
    }
    (offset, size)
}

/// Reads a list that is not empty from a file; nothing if it does not lie within
/// the file.
pub fn read_vec_from_offset<T: Fixed>(b: &[u8], offset: u64, size: u64) -> (r: Option<Vec<T>>)
    requires
        size > 0,
    ensures
        r is Some <==> size as nat % T::width() == 0 && offset + size <= b@.len(),
        r matches Some(v) ==> v@ == list_at::<T>(
            b@,
            offset as int,
            size as nat / T::width(),
        ),
{
    let len = b.len();
    let width: usize = T::size();
    let ghost w = width as int;
    if size > len as u64 || offset > len as u64 - size {
        return None;
    }
    let total: usize = size as usize;
    if total % width != 0 {
        return None;
    }
    let n: usize = total / width;
    let at: usize = offset as usize;
    proof {
        vstd::arithmetic::div_mod::lemma_fundamental_div_mod(size as int, w);
        assert(w * n == size);
    }
    let mut v: Vec<T> = Vec::new();
    let mut i: usize = 0;
    let mut place: usize = at;
    while i < n
        invariant
            i <= n,
            w == width,
            w == T::width(),
            at + w * n <= b@.len(),
            len == b@.len(),
            place == at + w * i,
            v@.len() == i,
            forall|j: int| 0 <= j < i ==> #[trigger] v@[j] == T::value_at(b@, at + w * j),
        decreases n - i,
    {
        proof {
            lemma_entry_end(w, i as int, n as int);
        }
        v.push(T::read(b, place));
        place = place + width;
        i += 1;
    }
    assert(v@ =~= list_at::<T>(b@, offset as int, size as nat / T::width()));
    Some(v)
}

} // verus!
