//! Reading a log file.
use vstd::prelude::*;
use vstd::slice::slice_subrange;

use crate::codec;
use crate::codec::{copy_range, pad_to, push_u64, read_u64};

verus! {

/// The size of a log header.
pub const LOG_HEADER_SIZE: usize = 24;

/// The header of a log entry in a log file.
#[derive(Debug, Clone, Copy, PartialEq, Eq, Structural)]
pub struct LogHeader {
    /// The length of the entry, with its header.
    pub log_len: usize,
    pub lsn: u64,
    pub page_offset: u64,
}

/// A log entry.
#[verifier::ext_equal]
pub struct LogEntry {
    pub lsn: u64,
    pub page_offset: u64,
    pub data: Seq<u8>,
}

impl LogHeader {
    /// The header as bytes.
    pub open spec fn bytes(self) -> Seq<u8> {
        codec::le64(self.log_len as u64) + codec::le64(self.lsn) + codec::le64(self.page_offset)
    }

    pub fn new(lsn: u64, page_offset: u64, log_len: usize) -> (r: LogHeader)
        ensures
            r == (LogHeader { log_len, lsn, page_offset }),
    {
        LogHeader { log_len, lsn, page_offset }
    }

    /// The header as bytes.
    pub fn as_bytes(&self) -> (r: Vec<u8>)
        ensures
            r@ == self.bytes(),
            r@.len() == LOG_HEADER_SIZE,
    {
        let mut r: Vec<u8> = Vec::new();
        push_u64(&mut r, self.log_len as u64);
        push_u64(&mut r, self.lsn);
        push_u64(&mut r, self.page_offset);
        proof {
            codec::lemma_le64(self.log_len as u64);
            codec::lemma_le64(self.lsn);
            codec::lemma_le64(self.page_offset);
            assert(r@ =~= self.bytes());
        }
        r
    }

    /// The header that `buffer` starts with; nothing if its length does not
    /// fit this machine.
    pub fn from_slice(buffer: &[u8]) -> (r: Option<LogHeader>)
        requires
            buffer@.len() >= LOG_HEADER_SIZE,
        ensures
            r is Some <==> codec::u64_at(buffer@, 0) <= usize::MAX,
            r matches Some(h) ==> {
                &&& h.log_len == codec::u64_at(buffer@, 0)
                &&& h.lsn == codec::u64_at(buffer@, 8)
                &&& h.page_offset == codec::u64_at(buffer@, 16)
            },
    {
        let log_len = read_u64(buffer, 0);
        if log_len > usize::MAX as u64 {
            return None;
        }
        Some(LogHeader::new(read_u64(buffer, 8), read_u64(buffer, 16), log_len as usize))
    }

    pub fn size() -> (r: usize)
        ensures
            r == LOG_HEADER_SIZE,
    {
        LOG_HEADER_SIZE
    }
}

/// An entry as it stands in the log.
pub open spec fn entry_bytes(e: LogEntry) -> Seq<u8> {
    codec::le64((LOG_HEADER_SIZE + e.data.len()) as u64) + codec::le64(e.lsn) + codec::le64(
        e.page_offset,
    ) + e.data
}

/// There is an entry in `d` at `at`.
pub open spec fn entry_here(d: Seq<u8>, at: int) -> bool {
    &&& 0 <= at
    &&& LOG_HEADER_SIZE <= d.len() - at
    &&& LOG_HEADER_SIZE <= codec::u64_at(d, at) <= d.len() - at
}

/// The entry in `d` at `at`.
pub open spec fn entry_at(d: Seq<u8>, at: int) -> LogEntry {
    LogEntry {
        lsn: codec::u64_at(d, at + 8),
        page_offset: codec::u64_at(d, at + 16),
        data: d.subrange(at + LOG_HEADER_SIZE, at + codec::u64_at(d, at)),
    }
}

/// The entries in `d` from `at` on, up to the first place where there is none.
pub open spec fn entries_from(d: Seq<u8>, at: int) -> Seq<LogEntry>
    decreases d.len() - at,
{
    if entry_here(d, at) {
        seq![entry_at(d, at)] + entries_from(d, at + codec::u64_at(d, at))
    } else {
        Seq::empty()
    }
}

/// From `at` on, `d` is nothing but entries.
pub open spec fn complete_from(d: Seq<u8>, at: int) -> bool
    decreases d.len() - at,
{
    if at == d.len() {
        true
    } else {
        entry_here(d, at) && complete_from(d, at + codec::u64_at(d, at))
    }
}

/// Entries are read the same in a longer string, and reading goes on behind
/// them.
pub proof fn lemma_entries_prefix(d: Seq<u8>, tail: Seq<u8>, at: int)
    requires
        0 <= at <= d.len(),
        complete_from(d, at),
    ensures
        entries_from(d + tail, at) == entries_from(d, at) + entries_from(d + tail, d.len() as int),
        complete_from(d + tail, d.len() as int) ==> complete_from(d + tail, at),
    decreases d.len() - at,
{
    let all = d + tail;
    if at == d.len() {
        assert(entries_from(d, at) =~= Seq::empty());
        assert(entries_from(all, at) =~= entries_from(d, at) + entries_from(
            all,
            d.len() as int,
        ));
    } else {
        let n = codec::u64_at(d, at);
        assert(all.subrange(at, at + 8) =~= d.subrange(at, at + 8));
        assert(all.subrange(at + 8, at + 16) =~= d.subrange(at + 8, at + 16));
        assert(all.subrange(at + 16, at + 24) =~= d.subrange(at + 16, at + 24));
        assert(all.subrange(at + LOG_HEADER_SIZE, at + n) =~= d.subrange(
            at + LOG_HEADER_SIZE,
            at + n,
        ));
        assert(entry_at(all, at) == entry_at(d, at));
        lemma_entries_prefix(d, tail, at + n);
        assert(entries_from(all, at) =~= entries_from(d, at) + entries_from(
            all,
            d.len() as int,
        ));
    }
}

/// One more entry.
pub proof fn lemma_entry_appended(d: Seq<u8>, e: LogEntry)
    requires
        complete_from(d, 0),
        LOG_HEADER_SIZE + e.data.len() <= u64::MAX,
    ensures
        complete_from(d + entry_bytes(e), 0),
        entries_from(d + entry_bytes(e), 0) == entries_from(d, 0).push(e),
        entry_bytes(e).len() == LOG_HEADER_SIZE + e.data.len(),
{
    let b = entry_bytes(e);
    let all = d + b;
    let at = d.len() as int;
    let n = (LOG_HEADER_SIZE + e.data.len()) as u64;
    codec::lemma_le64(n);
    codec::lemma_le64(e.lsn);
    codec::lemma_le64(e.page_offset);
    assert(all.subrange(at, at + 8) =~= codec::le64(n));
    assert(all.subrange(at + 8, at + 16) =~= codec::le64(e.lsn));
    assert(all.subrange(at + 16, at + 24) =~= codec::le64(e.page_offset));
    assert(all.subrange(at + LOG_HEADER_SIZE, at + n) =~= e.data);
    assert(entry_here(all, at));
    assert(entry_at(all, at) == e);
    assert(at + n == all.len());
    assert(entries_from(all, at + n) =~= Seq::empty());
    assert(complete_from(all, at + n));
    lemma_entries_prefix(d, b, 0);
    assert(entries_from(all, at) =~= seq![e]);
    assert(entries_from(all, 0) =~= entries_from(d, 0).push(e));
}

/// Reading ends behind the entries where there is no room for another header,
/// or a length of zero.
pub proof fn lemma_entries_end(d: Seq<u8>, tail: Seq<u8>)
    requires
        complete_from(d, 0),
        tail.len() < LOG_HEADER_SIZE || tail.subrange(0, 8) == codec::zeros(8),
    ensures
        entries_from(d + tail, 0) == entries_from(d, 0),
{
    let all = d + tail;
    let at = d.len() as int;
    lemma_entries_prefix(d, tail, 0);
    if tail.len() >= LOG_HEADER_SIZE {
        assert(all.subrange(at, at + 8) =~= tail.subrange(0, 8));
        codec::lemma_le64_zero();
        codec::lemma_u64_at(all, at, 0);
    }
    assert(!entry_here(all, at));
    assert(entries_from(all, 0) =~= entries_from(d, 0));
}

/// One segment of a log file.
pub struct WalSegment {
    pub data: Vec<u8>,
}

impl View for WalSegment {
    type V = Seq<LogEntry>;

    /// The entries of the segment.
    open spec fn view(&self) -> Seq<LogEntry> {
        entries_from(self.data@, 0)
    }
}

impl WalSegment {
    /// Iterate through all the log entries in the segment.
    pub fn entry_iter(&self) -> (r: WalEntryIter<'_>)
        ensures
            r.remaining() == self@,
            r.segment == self,
    {
        WalEntryIter { segment: self, cur_offset: 0 }
    }
}

/// Goes through the log entries of a segment.
pub struct WalEntryIter<'a> {
    pub segment: &'a WalSegment,
    pub cur_offset: u64,
}

impl<'a> WalEntryIter<'a> {
    /// The entries that are still to come.
    pub open spec fn remaining(&self) -> Seq<LogEntry> {
        entries_from(self.segment.data@, self.cur_offset as int)
    }

    /// The next entry. A header that makes no sense ends the segment.
    pub fn next(&mut self) -> (r: Option<(LogHeader, &'a [u8])>)
        ensures
            final(self).segment == old(self).segment,
            r is None <==> old(self).remaining().len() == 0,
            r is None ==> final(self).remaining() == old(self).remaining(),
            r matches Some((h, data)) ==> {
                &&& old(self).remaining()[0] == (LogEntry {
                    lsn: h.lsn,
                    page_offset: h.page_offset,
                    data: data@,
                })
                &&& h.log_len == LOG_HEADER_SIZE + data@.len()
                &&& final(self).remaining() == old(self).remaining().drop_first()
            },
    {
        let d: &'a [u8] = self.segment.data.as_slice();
        let n = d.len();
        let ghost at = self.cur_offset as int;
        if self.cur_offset > n as u64 {
            return None;
        }
        let cur_offset = self.cur_offset as usize;
        let remaining: usize = n - cur_offset;
        if remaining < LOG_HEADER_SIZE {
            return None;
        }
        let head = slice_subrange(d, cur_offset, n);
        proof {
            codec::lemma_u64_at_window(d@, at, n as int, 0);
            codec::lemma_u64_at_window(d@, at, n as int, 8);
            codec::lemma_u64_at_window(d@, at, n as int, 16);
        }
        let header = match LogHeader::from_slice(head) {
            None => {
                self.cur_offset = n as u64;
                return None;
            },
            Some(h) => h,
        };
        if header.log_len == 0 {
            return None;
        }
        if header.log_len < LOG_HEADER_SIZE || header.log_len > remaining {
            self.cur_offset = n as u64;
            return None;
        }
        let data_start: usize = cur_offset + LOG_HEADER_SIZE;
        let data_end: usize = cur_offset + header.log_len;
        let data = slice_subrange(d, data_start, data_end);
        self.cur_offset = data_end as u64;
        proof {
            let all = entries_from(d@, at);
            assert(entry_here(d@, at));
            assert(all[0] == entry_at(d@, at));
            assert(all.drop_first() =~= entries_from(d@, data_end as int));
        }
        Some((header, data))
    }
}

/// Byte `i` of a file; behind its end there are zeros.
pub open spec fn byte_at(f: Seq<u8>, i: int) -> u8 {
    if i < f.len() {
        f[i]
    } else {
        0
    }
}

/// Segment number `k` of a file.
pub open spec fn segment_of(f: Seq<u8>, size: nat, k: int) -> Seq<u8> {
    Seq::new(size, |i: int| byte_at(f, k * size + i))
}

/// The entries of the first `n` segments of a file.
pub open spec fn entries_upto(f: Seq<u8>, size: nat, n: nat) -> Seq<LogEntry>
    decreases n,
{
    if n == 0 {
        Seq::empty()
    } else {
        entries_upto(f, size, (n - 1) as nat) + entries_from(segment_of(f, size, n - 1), 0)
    }
}

/// The number of segments of a file.
pub open spec fn segment_count(f: Seq<u8>, size: nat) -> nat {
    if size == 0 {
        0
    } else {
        ((f.len() + size - 1) / size as int) as nat
    }
}

/// All entries of a log file.
pub open spec fn log_entries(f: Seq<u8>, size: nat) -> Seq<LogEntry> {
    entries_upto(f, size, segment_count(f, size))
}

/// Reads a log file.
pub struct WalReader {
    pub log_file: Vec<u8>,
    pub segment_size: usize,
}

impl View for WalReader {
    type V = Seq<LogEntry>;

    /// All entries of the file.
    open spec fn view(&self) -> Seq<LogEntry> {
        log_entries(self.log_file@, self.segment_size as nat)
    }
}

/// The greatest log sequence number of some entries.
pub open spec fn max_lsn(es: Seq<LogEntry>) -> u64
    decreases es.len(),
{
    if es.len() == 0 {
        0
    } else {
        let m = max_lsn(es.drop_last());
        if m < es.last().lsn {
            es.last().lsn
        } else {
            m
        }
    }
}

/// The greatest log sequence number in the last of the first `n` segments that
/// has entries.
pub open spec fn last_lsn_upto(f: Seq<u8>, size: nat, n: nat) -> Option<u64>
    decreases n,
{
    if n == 0 {
        None
    } else {
        let es = entries_from(segment_of(f, size, n - 1), 0);
        if es.len() > 0 {
            Some(max_lsn(es))
        } else {
            last_lsn_upto(f, size, (n - 1) as nat)
        }
    }
}

impl WalReader {
    /// Create a new WalReader instance.
    ///
    /// The `segment_size` should be the same as the one the log was written
    /// with.
    pub fn new(log_file: Vec<u8>, segment_size: usize) -> (r: WalReader)
        requires
            segment_size >= LOG_HEADER_SIZE,
        ensures
            r.log_file == log_file,
            r.segment_size == segment_size,
    {
        WalReader { log_file, segment_size }
    }

    /// Iterate through all the segments in the log file.
    ///
    /// Each segment contains multiple log entries, which the `entry_iter`
    /// method on `WalSegment` goes through.
    pub fn segment_iter(&self) -> (r: WalSegmentIter<'_>)
        ensures
            r.reader == self,
            r.cursor == 0,
    {
        WalSegmentIter { reader: self, cursor: 0 }
    }

    /// The segment that starts at `offset`; behind the end of the file, it is
    /// filled with zeros.
    pub fn read_segment_at(&self, offset: usize) -> (r: Option<WalSegment>)
        ensures
            r is None <==> offset >= self.log_file@.len(),
            r matches Some(seg) ==> seg.data@ == Seq::new(
                self.segment_size as nat,
                |i: int| byte_at(self.log_file@, offset + i),
            ),
    {
        let file_size = self.log_file.len();
        if offset >= file_size {
            return None;
        }
        let left: usize = file_size - offset;
        let bytes_to_read: usize = if self.segment_size < left {
            self.segment_size
        } else {
            left
        };
        let mut buffer = copy_range(self.log_file.as_slice(), offset, offset + bytes_to_read);
        pad_to(&mut buffer, self.segment_size);
        assert(buffer@ =~= Seq::new(
            self.segment_size as nat,
            |i: int| byte_at(self.log_file@, offset + i),
        ));
        Some(WalSegment { data: buffer })
    }

    /// The greatest log sequence number in the last segment that has entries.
    pub fn last_lsn(&self) -> (r: Option<u64>)
        requires
            self.segment_size >= LOG_HEADER_SIZE,
        ensures
            r == last_lsn_upto(
                self.log_file@,
                self.segment_size as nat,
                segment_count(self.log_file@, self.segment_size as nat),
            ),
    {
        let file_size = self.log_file.len();
        let ghost f = self.log_file@;
        let ghost size = self.segment_size as nat;
        if file_size == 0 {
            proof {
                lemma_count(0, size as int);
            }
            return None;
        }
        let mut index: usize = (file_size - 1) / self.segment_size + 1;
        proof {
            lemma_count(file_size as int, size as int);
        }
        while index > 0
            invariant
                size == self.segment_size,
                size >= LOG_HEADER_SIZE,
                f == self.log_file@,
                file_size == f.len(),
                index > 0 ==> (index - 1) * size < file_size,
                last_lsn_upto(f, size, segment_count(f, size)) == last_lsn_upto(
                    f,
                    size,
                    index as nat,
                ),
            decreases index,
        {
            let at: usize = index - 1;
            proof {
                vstd::arithmetic::mul::lemma_mul_nonnegative(at as int, size as int);
            }
            let offset: usize = at * self.segment_size;
            match self.read_segment_at(offset) {
                None => {},
                Some(segment) => {
                    assert(segment.data@ =~= segment_of(f, size, at as int));
                    match segment.greatest_lsn() {
                        Some(lsn) => {
                            return Some(lsn);
                        },
                        None => {},
                    }
                },
            }
            proof {
                if at > 0 {
                    vstd::arithmetic::mul::lemma_mul_inequality(
                        at - 1,
                        at as int,
                        size as int,
                    );
                }
            }
            index = at;
        }
        None
    }
}

proof fn lemma_count(n: int, size: int)
    requires
        0 <= n,
        size > 0,
    ensures
        n == 0 ==> (n + size - 1) / size == 0,
        n > 0 ==> (n - 1) / size + 1 == (n + size - 1) / size,
        n > 0 ==> ((n - 1) / size) * size < n,
        n > 0 ==> (n - 1) / size < n,
{
    if n == 0 {
        vstd::arithmetic::div_mod::lemma_basic_div(size - 1, size);
    } else {
        vstd::arithmetic::div_mod::lemma_div_plus_one(n - 1, size);
        vstd::arithmetic::div_mod::lemma_fundamental_div_mod(n - 1, size);
        vstd::arithmetic::mul::lemma_mul_is_commutative(size, (n - 1) / size);
        vstd::arithmetic::div_mod::lemma_div_is_ordered_by_denominator(n - 1, 1, size);
    }
}

impl WalSegment {
    /// The greatest log sequence number of the segment.
    fn greatest_lsn(&self) -> (r: Option<u64>)
        ensures
            r is None <==> self@.len() == 0,
            r matches Some(lsn) ==> lsn == max_lsn(self@),
    {
        let mut iter = self.entry_iter();
        let mut best: Option<u64> = None;
        let ghost all = self@;
        let ghost mut done: int = 0;
        proof {
            assert(all.skip(0) =~= all);
            assert(all.take(0) =~= Seq::empty());
        }
        loop
            invariant
                iter.segment == self,
                all == self@,
                0 <= done <= all.len(),
                iter.remaining() == all.skip(done),
                best is None <==> done == 0,
                best matches Some(lsn) ==> lsn == max_lsn(all.take(done)),
            ensures
                done == all.len(),
            decreases all.len() - done,
        {
            match iter.next() {
                None => {
                    break;
                },
                Some((header, _)) => {
                    proof {
                        assert(all.take(done + 1).drop_last() =~= all.take(done));
                        assert(all.take(done + 1).last() == all[done]);
                        assert(all.skip(done).drop_first() =~= all.skip(done + 1));
                        if done == 0 {
                            assert(max_lsn(all.take(0)) == 0);
                        }
                    }
                    best =
                    match best {
                        None => Some(header.lsn),
                        Some(lsn) => Some(
                            if lsn < header.lsn {
                                header.lsn
                            } else {
                                lsn
                            },
                        ),
                    };
                    proof {
                        done = done + 1;
                    }
                },
            }
        }
        assert(all.take(done) =~= all);
        best
    }
}

/// Goes through the segments of a log file.
pub struct WalSegmentIter<'a> {
    pub reader: &'a WalReader,
    pub cursor: u64,
}

impl<'a> WalSegmentIter<'a> {
    /// The next segment, if the file does not end before it.
    pub fn next(&mut self) -> (r: Option<WalSegment>)
        ensures
            final(self).reader == old(self).reader,
            r is None <==> old(self).cursor >= old(self).reader.log_file@.len(),
            r is None ==> final(self).cursor == old(self).cursor,
            r matches Some(seg) ==> {
                &&& seg.data@ == Seq::new(
                    old(self).reader.segment_size as nat,
                    |i: int| byte_at(old(self).reader.log_file@, old(self).cursor + i),
                )
                &&& final(self).cursor == if old(self).cursor + old(self).reader.segment_size
                    <= u64::MAX {
                    old(self).cursor + old(self).reader.segment_size
                } else {
                    u64::MAX as int
                }
            },
    {
        let file_size = self.reader.log_file.len();
        if self.cursor >= file_size as u64 {
            return None;
        }
        let r = self.reader.read_segment_at(self.cursor as usize);
        let step = self.reader.segment_size as u64;
        self.cursor = if step <= u64::MAX - self.cursor {
            self.cursor + step
        } else {
            u64::MAX
        };
        r
    }
}

} // verus!
