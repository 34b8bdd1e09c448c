//! Writing a log: entries are gathered in a buffer of the size of a segment,
//! and the buffer is written to the log file.
use vstd::prelude::*;

use crate::codec;
use crate::codec::{copy_range, pad_to, push_bytes};
use crate::config::{StorageBackend, WalConfig};
use crate::fs;
use crate::fs::write_at;
use crate::wal::reader;
use crate::wal::reader::{LogEntry, LogHeader, WalReader, LOG_HEADER_SIZE};

verus! {

/// Files are written in blocks.
pub const BLOCK_SIZE: usize = 512;

/// What is to be written to the log file, and where.
#[derive(Debug)]
pub struct WalWrite {
    pub offset: usize,
    pub bytes: Vec<u8>,
}

/// The segment that is being filled, and how much of it is in the file.
#[derive(Debug)]
pub struct WriteAheadLogInner {
    pub buffer: Vec<u8>,
    pub buffer_cursor: usize,
    pub flushed_cursor: usize,
    /// Where the segment starts in the file.
    pub file_offset: usize,
    pub next_lsn: u64,
    /// Entries below this number are in the file.
    pub next_flushed_lsn: u64,
    /// A worker waits for the segment to be written.
    pub need_flush: bool,
}

/// The file after a write, if there is one.
pub open spec fn written(f: Seq<u8>, w: Option<WalWrite>) -> Seq<u8> {
    match w {
        Some(w) => fs::overwrite(f, w.offset as int, w.bytes@),
        None => f,
    }
}

/// What the file holds of the entries in its first segments stays when the
/// segments do.
pub(crate) proof fn lemma_upto_same(f: Seq<u8>, g: Seq<u8>, size: nat, n: nat)
    requires
        size > 0,
        forall|i: int| 0 <= i < n * size ==> #[trigger] reader::byte_at(g, i) == reader::byte_at(f, i),
    ensures
        reader::entries_upto(g, size, n) == reader::entries_upto(f, size, n),
    decreases n,
{
    if n > 0 {
        assert((n - 1) * size + size == n * size) by (nonlinear_arith)
            requires
                n > 0,
        ;
        assert forall|i: int| 0 <= i < (n - 1) * size implies #[trigger] reader::byte_at(g, i)
            == reader::byte_at(f, i) by {}
        lemma_upto_same(f, g, size, (n - 1) as nat);
        assert((n - 1) * size >= 0) by (nonlinear_arith)
            requires
                n > 0,
        ;
        let a = reader::segment_of(g, size, n - 1);
        let b = reader::segment_of(f, size, n - 1);
        assert forall|i: int| 0 <= i < size implies #[trigger] a[i] == b[i] by {
            let j = (n - 1) * size + i;
            assert(0 <= j < n * size);
            assert(reader::byte_at(g, j) == reader::byte_at(f, j));
        }
        assert(a =~= b);
    }
}

/// A segment without a byte other than zero has no entries.
proof fn lemma_no_entries(d: Seq<u8>)
    requires
        forall|i: int| 0 <= i < d.len() ==> #[trigger] d[i] == 0,
    ensures
        reader::entries_from(d, 0) == Seq::<LogEntry>::empty(),
{
    let e: Seq<u8> = Seq::empty();
    assert(d =~= e + d);
    if d.len() >= LOG_HEADER_SIZE {
        assert(d.subrange(0, 8) =~= codec::zeros(8));
    }
    reader::lemma_entries_end(e, d);
    assert(reader::entries_from(e, 0) =~= Seq::empty());
}

/// There is nothing behind the end of a file.
proof fn lemma_upto_beyond(f: Seq<u8>, size: nat, m: nat, n: nat)
    requires
        size > 0,
        f.len() <= m * size,
        m <= n,
    ensures
        reader::entries_upto(f, size, n) == reader::entries_upto(f, size, m),
    decreases n - m,
{
    if m < n {
        lemma_upto_beyond(f, size, m, (n - 1) as nat);
        let d = reader::segment_of(f, size, n - 1);
        assert(m * size <= (n - 1) * size) by (nonlinear_arith)
            requires
                m <= n - 1,
        ;
        lemma_no_entries(d);
        assert(reader::entries_upto(f, size, n) =~= reader::entries_upto(
            f,
            size,
            (n - 1) as nat,
        ));
    }
}

pub(crate) proof fn lemma_segments(n: int, size: int)
    requires
        0 <= n,
        size > 0,
    ensures
        n <= ((n + size - 1) / size) * size < n + size,
        0 <= (n + size - 1) / size,
{
    vstd::arithmetic::div_mod::lemma_fundamental_div_mod(n + size - 1, size);
    vstd::arithmetic::mul::lemma_mul_is_commutative(size, (n + size - 1) / size);
    vstd::arithmetic::div_mod::lemma_mod_bound(n + size - 1, size);
    vstd::arithmetic::div_mod::lemma_div_pos_is_pos(n + size - 1, size);
}

proof fn lemma_next_segment(offset: int, k: int, size: int)
    requires
        offset == k * size,
        size > 0,
    ensures
        (offset + size) / size == k + 1,
        (k + 1) * size == offset + size,
{
    assert((k + 1) * size == k * size + size) by (nonlinear_arith);
    assert(size * (k + 1) == (k + 1) * size) by (nonlinear_arith);
    vstd::arithmetic::div_mod::lemma_div_multiples_vanish(k + 1, size);
}

impl WriteAheadLogInner {
    /// The size of a segment.
    pub open spec fn size(&self) -> nat {
        self.buffer@.len()
    }

    /// The number of the segment that is being filled.
    pub open spec fn segment_no(&self) -> nat {
        (self.file_offset as nat / self.size()) as nat
    }

    /// The part of the buffer that is filled.
    pub open spec fn filled(&self) -> Seq<u8> {
        self.buffer@.take(self.buffer_cursor as int)
    }

    /// The part of the buffer that is in the file.
    pub open spec fn flushed(&self) -> Seq<u8> {
        self.buffer@.take(self.flushed_cursor as int)
    }

    pub open spec fn wf(&self) -> bool {
        &&& self.size() >= BLOCK_SIZE
        &&& self.size() % BLOCK_SIZE as nat == 0
        &&& self.file_offset as nat == self.segment_no() * self.size()
        &&& self.flushed_cursor <= self.buffer_cursor <= self.size()
        &&& reader::complete_from(self.filled(), 0)
        &&& reader::complete_from(self.flushed(), 0)
        &&& self.next_flushed_lsn <= self.next_lsn
        &&& self.flushed_cursor == self.buffer_cursor <==> self.next_flushed_lsn == self.next_lsn
    }

    /// The next segment has a place in a file.
    pub open spec fn has_space(&self) -> bool {
        self.file_offset + 3 * self.size() <= usize::MAX
    }

    /// The log has written file `f`.
    pub open spec fn follows(&self, f: Seq<u8>) -> bool {
        &&& f.len() <= self.file_offset + self.size()
        &&& forall|i: int|
            0 <= i < self.flushed_cursor ==> #[trigger] self.buffer@[i] == reader::byte_at(
                f,
                self.file_offset + i,
            )
        &&& reader::entries_from(
            reader::segment_of(f, self.size(), self.segment_no() as int),
            0,
        ) == reader::entries_from(self.flushed(), 0)
    }

    /// All entries of the log, whether they are in file `f` or still in the
    /// buffer.
    pub open spec fn entries(&self, f: Seq<u8>) -> Seq<LogEntry> {
        reader::entries_upto(f, self.size(), self.segment_no()) + reader::entries_from(
            self.filled(),
            0,
        )
    }

    /// What a reader finds in the file: all entries up to the last that was
    /// flushed.
    pub proof fn lemma_durable(&self, f: Seq<u8>)
        requires
            self.wf(),
            self.follows(f),
        ensures
            reader::log_entries(f, self.size()) == reader::entries_upto(
                f,
                self.size(),
                self.segment_no(),
            ) + reader::entries_from(self.flushed(), 0),
    {
        let size = self.size();
        let k = self.segment_no();
        let n = reader::segment_count(f, size);
        lemma_segments(f.len() as int, size as int);
        assert((k + 1) * size == k * size + size) by (nonlinear_arith);
        if n > k + 1 {
            assert((n - 1) * size >= (k + 1) * size) by (nonlinear_arith)
                requires
                    n - 1 >= k + 1,
            ;
            assert(n * size == (n - 1) * size + size) by (nonlinear_arith);
        }
        lemma_upto_beyond(f, size, n, k + 1);
    }

    /// Zeroes the length of the entry that would come next.
    fn clear_next_header(&mut self)
        requires
            old(self).wf(),
        ensures
            final(self).wf(),
            *final(self) == (WriteAheadLogInner { buffer: final(self).buffer, ..*old(self) }),
            final(self).size() == old(self).size(),
            final(self).filled() == old(self).filled(),
            final(self).flushed() == old(self).flushed(),
            final(self).buffer@ == old(self).cleared(),
            final(self).buffer_cursor + 8 <= final(self).size() ==> final(self).buffer@.subrange(
                final(self).buffer_cursor as int,
                final(self).buffer_cursor + 8,
            ) == codec::zeros(8),
    {
        let ghost b = self.buffer@;
        let cursor = self.buffer_cursor;
        let size = self.buffer.len();
        if size - cursor >= 8 {
            let mut i: usize = 0;
            while i < 8
                invariant
                    i <= 8,
                    cursor + 8 <= size,
                    size == self.buffer@.len(),
                    size == b.len(),
                    *self == (WriteAheadLogInner { buffer: self.buffer, ..*old(self) }),
                    forall|j: int|
                        0 <= j < size ==> #[trigger] self.buffer@[j] == if cursor <= j < cursor + i {
                            0
                        } else {
                            b[j]
                        },
                decreases 8 - i,
            {
                self.buffer.set(cursor + i, 0);
                i += 1;
            }
            assert(self.buffer@.subrange(cursor as int, cursor + 8) =~= codec::zeros(8));
        }
        assert(self.filled() =~= old(self).filled());
        assert(self.flushed() =~= old(self).flushed());
        assert(self.buffer@ =~= old(self).cleared());
    }

    /// If the buffer is less than half full, it is written in place and filled
    /// further.
    fn should_inplace_flush(&self) -> (r: bool)
        ensures
            r == (self.buffer_cursor < self.size() as int / 2),
    {
        self.buffer_cursor < self.buffer.len() / 2
    }

    /// Whether a flush starts a new segment.
    pub open spec fn rotates(&self, rotate_segment: bool) -> bool {
        self.buffer_cursor > 0 && (rotate_segment || self.buffer_cursor >= self.size() as int / 2)
    }

    /// Where the buffer stands once an entry of `n` bytes was appended and flushed:
    /// behind the entry, which is at the front of the next segment if it did not
    /// fit the rest of this one, or at the front of the segment behind it if that
    /// is half full.
    pub open spec fn place_behind(&self, n: nat) -> (int, int) {
        let need = LOG_HEADER_SIZE + n;
        let (offset, cursor) = if self.buffer_cursor + need <= self.size() {
            (self.file_offset as int, self.buffer_cursor + need)
        } else {
            (self.file_offset + self.size(), need as int)
        };
        if cursor >= self.size() as int / 2 {
            (offset + self.size(), 0)
        } else {
            (offset, cursor)
        }
    }

    /// The buffer with a header of zeros behind its entries, if one fits.
    pub open spec fn cleared(&self) -> Seq<u8> {
        Seq::new(
            self.size(),
            |j: int|
                if self.buffer_cursor <= j < self.buffer_cursor + 8 && self.buffer_cursor + 8
                    <= self.size() {
                    0u8
                } else {
                    self.buffer@[j]
                },
        )
    }

    /// What a flush writes: the blocks from the one where unwritten entries begin
    /// up to the one where the header behind the last entry ends.
    pub open spec fn blocks_to_write(&self, w: WalWrite) -> bool {
        let block = BLOCK_SIZE as int;
        let start = self.flushed_cursor as int / block * block;
        let header_end = if self.buffer_cursor + 8 <= self.size() {
            self.buffer_cursor + 8
        } else {
            self.size() as int
        };
        let end = (header_end + block - 1) / block * block;
        &&& w.offset == self.file_offset + start
        &&& w.bytes@ == self.cleared().subrange(start, end)
    }

    /// Where the buffer stands after a flush: at the front of the next segment
    /// if it rotates, else where it stood.
    pub open spec fn placed_after(&self, before: &WriteAheadLogInner, rotate_segment: bool) -> bool {
        if before.rotates(rotate_segment) {
            &&& self.buffer_cursor == 0
            &&& self.file_offset == before.file_offset + before.size()
        } else {
            &&& self.buffer_cursor == before.buffer_cursor
            &&& self.file_offset == before.file_offset
        }
    }

    /// Says what has to be written to the file so that all entries are in it,
    /// and starts a new segment if asked to, or if half of this one is full.
    #[verifier::rlimit(30)]
    pub fn flush(&mut self, rotate_segment: bool) -> (r: Option<WalWrite>)
        requires
            old(self).wf(),
            old(self).has_space(),
        ensures
            final(self).wf(),
            final(self).size() == old(self).size(),
            final(self).next_lsn == old(self).next_lsn,
            final(self).next_flushed_lsn == old(self).next_lsn,
            final(self).flushed_cursor == final(self).buffer_cursor,
            !final(self).need_flush,
            r is None <==> old(self).buffer_cursor == 0,
            r is None ==> *final(self) == (WriteAheadLogInner { need_flush: false, ..*old(self) }),
            r is Some ==> final(self).buffer@ == old(self).cleared(),
            final(self).placed_after(old(self), rotate_segment),
            r matches Some(w) ==> old(self).blocks_to_write(w) && w.offset + w.bytes@.len() <= old(
                self).file_offset + old(self).size(),
            forall|f: Seq<u8>| #[trigger]
                old(self).follows(f) ==> {
                    &&& final(self).follows(written(f, r))
                    &&& final(self).entries(written(f, r)) == old(self).entries(f)
                    &&& reader::log_entries(written(f, r), old(self).size()) == old(self).entries(
                        f,
                    )
                },
    {
        let ghost old_self = *self;
        if self.buffer_cursor == 0 {
            self.need_flush = false;
            proof {
                assert forall|f: Seq<u8>| #[trigger] old_self.follows(f) implies {
                    &&& self.follows(f)
                    &&& reader::log_entries(f, self.size()) == old_self.entries(f)
                } by {
                    assert(self.follows(f));
                    self.lemma_durable(f);
                }
            }
            return None;
        }
        self.clear_next_header();
        let ghost cleared = *self;
        assert(cleared.buffer@ =~= old_self.cleared());
        let size = self.buffer.len();
        let write_start: usize = self.flushed_cursor / BLOCK_SIZE * BLOCK_SIZE;
        let needed: usize = if size - self.buffer_cursor >= 8 {
            self.buffer_cursor + 8
        } else {
            size
        };
        let write_end: usize = (needed + (BLOCK_SIZE - 1)) / BLOCK_SIZE * BLOCK_SIZE;
        proof {
            assert(write_end <= size) by {
                assert(size % 512 == 0);
            }
        }
        let bytes = copy_range(self.buffer.as_slice(), write_start, write_end);
        let write = WalWrite { offset: self.file_offset + write_start, bytes };
        self.flushed_cursor = self.buffer_cursor;
        self.next_flushed_lsn = self.next_lsn;
        self.need_flush = false;
        let ghost done = *self;
        let r = Some(write);
        proof {
            assert(done.flushed() == done.filled());
            assert forall|f: Seq<u8>| #[trigger] old_self.follows(f) implies {
                &&& done.follows(written(f, r))
                &&& done.entries(written(f, r)) == old_self.entries(f)
                &&& reader::log_entries(written(f, r), old_self.size()) == old_self.entries(f)
            } by {
                lemma_flushed(old_self, cleared, done, f, write, write_start as int, write_end as int);
            }
        }
        if rotate_segment || !self.should_inplace_flush() {
            self.file_offset = self.file_offset + size;
            self.buffer_cursor = 0;
            self.flushed_cursor = 0;
            proof {
                lemma_next_segment(
                    done.file_offset as int,
                    done.segment_no() as int,
                    size as int,
                );
                assert(self.segment_no() == done.segment_no() + 1);
                assert(self.filled() =~= Seq::<u8>::empty());
                assert(self.flushed() =~= Seq::<u8>::empty());
                assert forall|f: Seq<u8>| #[trigger] old_self.follows(f) implies {
                    &&& self.follows(written(f, r))
                    &&& self.entries(written(f, r)) == old_self.entries(f)
                } by {
                    lemma_rotated(done, *self, written(f, r));
                }
            }
        }
        r
    }

    /// Whether an entry of `data_len` bytes fits the rest of the segment.
    pub fn has_room(&self, data_len: usize) -> (r: bool)
        requires
            self.wf(),
        ensures
            r == (self.buffer_cursor + LOG_HEADER_SIZE + data_len <= self.size()),
    {
        let left: usize = self.buffer.len() - self.buffer_cursor;
        left >= LOG_HEADER_SIZE && data_len <= left - LOG_HEADER_SIZE
    }

    /// Asks for a flush, so that room is made for an entry.
    pub fn request_flush(&mut self)
        requires
            old(self).wf(),
        ensures
            final(self).wf(),
            *final(self) == (WriteAheadLogInner { need_flush: true, ..*old(self) }),
    {
        self.need_flush = true;
    }

    /// Whether the entry with number `lsn` is in the file.
    pub fn is_flushed(&self, lsn: u64) -> (r: bool)
        ensures
            r == (self.next_flushed_lsn > lsn),
    {
        self.next_flushed_lsn > lsn
    }

    fn alloc_lsn(&mut self) -> (lsn: u64)
        requires
            old(self).next_lsn < u64::MAX,
        ensures
            lsn == old(self).next_lsn,
            *final(self) == (WriteAheadLogInner { next_lsn: (lsn + 1) as u64, ..*old(self) }),
    {
        let lsn = self.next_lsn;
        self.next_lsn = lsn + 1;
        lsn
    }

    /// Puts an entry into the buffer, where there is room for it.
    pub fn append(&mut self, data: &[u8], page_offset: u64) -> (lsn: u64)
        requires
            old(self).wf(),
            old(self).buffer_cursor + LOG_HEADER_SIZE + data@.len() <= old(self).size(),
            old(self).next_lsn < u64::MAX,
        ensures
            final(self).wf(),
            lsn == old(self).next_lsn,
            final(self).next_lsn == lsn + 1,
            final(self).next_flushed_lsn == old(self).next_flushed_lsn,
            final(self).size() == old(self).size(),
            final(self).file_offset == old(self).file_offset,
            final(self).need_flush == old(self).need_flush,
            final(self).buffer_cursor == old(self).buffer_cursor + LOG_HEADER_SIZE + data@.len(),
            final(self).flushed_cursor == old(self).flushed_cursor,
            final(self).buffer@ == fs::overwrite(
                old(self).buffer@,
                old(self).buffer_cursor as int,
                reader::entry_bytes(LogEntry { lsn, page_offset, data: data@ }),
            ),
            forall|f: Seq<u8>| #[trigger]
                old(self).follows(f) ==> {
                    &&& final(self).follows(f)
                    &&& final(self).entries(f) == old(self).entries(f).push(
                        LogEntry { lsn, page_offset, data: data@ },
                    )
                },
    {
        let ghost old_self = *self;
        let ghost b = self.buffer@;
        let cursor = self.buffer_cursor;
        let size = self.buffer.len();
        let n = data.len();
        let required_bytes: usize = LOG_HEADER_SIZE + n;
        let lsn = self.alloc_lsn();
        let header = LogHeader::new(lsn, page_offset, required_bytes);
        let mut bytes = header.as_bytes();
        push_bytes(&mut bytes, data);
        let ghost e = LogEntry { lsn, page_offset, data: data@ };
        assert(bytes@ =~= reader::entry_bytes(e));
        write_at(&mut self.buffer, cursor, bytes.as_slice());
        self.buffer_cursor = cursor + required_bytes;
        proof {
            reader::lemma_entry_appended(old_self.filled(), e);
            assert(self.buffer@.len() == size);
            assert(self.filled() =~= old_self.filled() + bytes@);
            assert(self.flushed() =~= old_self.flushed());
            assert forall|f: Seq<u8>| #[trigger] old_self.follows(f) implies {
                &&& self.follows(f)
                &&& self.entries(f) == old_self.entries(f).push(e)
            } by {
                assert forall|i: int|
                    0 <= i < self.flushed_cursor implies #[trigger] self.buffer@[i]
                    == reader::byte_at(f, self.file_offset + i) by {
                    assert(old_self.buffer@[i] == reader::byte_at(f, self.file_offset + i));
                }
                assert(self.entries(f) =~= old_self.entries(f).push(e));
            }
        }
        lsn
    }
}

/// What a flush writes makes the file hold all entries.
proof fn lemma_flushed(
    before: WriteAheadLogInner,
    cleared: WriteAheadLogInner,
    after: WriteAheadLogInner,
    f: Seq<u8>,
    w: WalWrite,
    start: int,
    end: int,
)
    requires
        before.wf(),
        cleared.wf(),
        after.wf(),
        before.follows(f),
        cleared == (WriteAheadLogInner { buffer: cleared.buffer, ..before }),
        cleared.size() == before.size(),
        cleared.filled() == before.filled(),
        cleared.flushed() == before.flushed(),
        after.buffer == cleared.buffer,
        after.buffer_cursor == before.buffer_cursor,
        after.flushed_cursor == before.buffer_cursor,
        after.file_offset == before.file_offset,
        before.buffer_cursor + 8 <= before.size() ==> cleared.buffer@.subrange(
            before.buffer_cursor as int,
            before.buffer_cursor + 8,
        ) == codec::zeros(8),
        0 <= start <= before.flushed_cursor,
        before.buffer_cursor <= end <= before.size(),
        before.buffer_cursor + 8 <= before.size() ==> before.buffer_cursor + 8 <= end,
        w.offset == before.file_offset + start,
        w.bytes@ == cleared.buffer@.subrange(start, end),
    ensures
        after.follows(fs::overwrite(f, w.offset as int, w.bytes@)),
        after.entries(fs::overwrite(f, w.offset as int, w.bytes@)) == before.entries(f),
        reader::log_entries(fs::overwrite(f, w.offset as int, w.bytes@), before.size())
            == before.entries(f),
{
    let g = fs::overwrite(f, w.offset as int, w.bytes@);
    let size = before.size();
    let k = before.segment_no();
    let o = before.file_offset as int;
    let c = before.buffer_cursor as int;
    let b = after.buffer@;
    assert(k * size == o);
    assert forall|i: int| 0 <= i < end implies #[trigger] b[i] == reader::byte_at(g, o + i) by {
        if i < start {
            assert(before.flushed()[i] == before.buffer@[i]);
            assert(cleared.flushed()[i] == b[i]);
            assert(before.buffer@[i] == reader::byte_at(f, o + i));
        } else {
            assert(g[o + i] == w.bytes@[i - start]);
        }
    }
    // The segment is what is filled, and a tail at which reading ends.
    let seg = reader::segment_of(g, size, k as int);
    let tail = seg.skip(c);
    assert forall|i: int| 0 <= i < c implies #[trigger] seg[i] == after.filled()[i] by {
        assert(b[i] == reader::byte_at(g, o + i));
    }
    assert(seg =~= after.filled() + tail);
    if c + 8 <= size {
        assert forall|i: int| 0 <= i < 8 implies #[trigger] tail.subrange(0, 8)[i]
            == codec::zeros(8)[i] by {
            assert(b[c + i] == reader::byte_at(g, o + (c + i)));
            assert(cleared.buffer@.subrange(c, c + 8)[i] == b[c + i]);
        }
        assert(tail.subrange(0, 8) =~= codec::zeros(8));
    }
    reader::lemma_entries_end(after.filled(), tail);
    assert(after.flushed() =~= after.filled());
    assert(after.follows(g)) by {
        assert forall|i: int| 0 <= i < after.flushed_cursor implies #[trigger] after.buffer@[i]
            == reader::byte_at(g, after.file_offset + i) by {
            assert(b[i] == reader::byte_at(g, o + i));
        }
    }
    assert forall|i: int| 0 <= i < k * size implies #[trigger] reader::byte_at(g, i)
        == reader::byte_at(f, i) by {}
    lemma_upto_same(f, g, size, k);
    after.lemma_durable(g);
}

/// A new segment begins behind the one that was written.
proof fn lemma_rotated(before: WriteAheadLogInner, after: WriteAheadLogInner, g: Seq<u8>)
    requires
        before.wf(),
        before.follows(g),
        before.flushed_cursor == before.buffer_cursor,
        after.wf(),
        after.buffer == before.buffer,
        after.file_offset == before.file_offset + before.size(),
        after.segment_no() == before.segment_no() + 1,
        after.buffer_cursor == 0,
        after.flushed_cursor == 0,
    ensures
        after.follows(g),
        after.entries(g) == before.entries(g),
{
    let size = before.size();
    let k = before.segment_no();
    let next = reader::segment_of(g, size, (k + 1) as int);
    assert((k + 1) * size == k * size + size) by (nonlinear_arith);
    lemma_no_entries(next);
    assert(after.flushed() =~= Seq::<u8>::empty());
    assert(after.filled() =~= Seq::<u8>::empty());
    assert(reader::entries_from(after.flushed(), 0) =~= Seq::empty());
    assert(before.flushed() =~= before.filled());
    assert(after.entries(g) =~= before.entries(g));
}

/// What the background job has to do.
#[derive(Debug)]
pub struct BackgroundStep {
    /// To be written to the file.
    pub write: Option<WalWrite>,
    /// Workers that wait for a flush are to be woken after the write.
    pub notify: bool,
    /// The job ends.
    pub stop: bool,
}

impl WriteAheadLogInner {
    /// One round of the background job: when it is told to stop it flushes once
    /// more; otherwise it flushes when a worker waits for room, or when the
    /// flush interval has elapsed.
    pub fn background_step(&mut self, running: bool, interval_elapsed: bool) -> (r: BackgroundStep)
        requires
            old(self).wf(),
            old(self).has_space(),
        ensures
            final(self).wf(),
            final(self).size() == old(self).size(),
            r.stop == !running,
            r.notify == (!running || old(self).need_flush || interval_elapsed),
            !r.notify ==> r.write is None && *final(self) == *old(self),
            r.notify ==> {
                &&& final(self).next_flushed_lsn == final(self).next_lsn
                &&& !final(self).need_flush
                &&& r.write is None <==> old(self).buffer_cursor == 0
                &&& r.write is None ==> *final(self) == (WriteAheadLogInner {
                    need_flush: false,
                    ..*old(self)
                })
                &&& r.write is Some ==> final(self).buffer@ == old(self).cleared()
                &&& r.write matches Some(w) ==> old(self).blocks_to_write(w)
                &&& final(self).placed_after(old(self), running && old(self).need_flush)
            },
            final(self).next_lsn == old(self).next_lsn,
            forall|f: Seq<u8>| #[trigger]
                old(self).follows(f) ==> {
                    &&& final(self).follows(written(f, r.write))
                    &&& final(self).entries(written(f, r.write)) == old(self).entries(f)
                    &&& r.notify ==> reader::log_entries(written(f, r.write), old(self).size())
                        == old(self).entries(f)
                },
    {
        if !running {
            let write = self.flush(false);
            return BackgroundStep { write, notify: true, stop: true };
        }
        if self.need_flush || interval_elapsed {
            let rotate_segment = self.need_flush;
            let write = self.flush(rotate_segment);
            return BackgroundStep { write, notify: true, stop: false };
        }
        BackgroundStep { write: None, notify: false, stop: false }
    }

    /// An empty segment behind what a file holds.
    pub fn resume(segment_size: usize, file_offset: usize, next_lsn: u64) -> (r: WriteAheadLogInner)
        requires
            segment_size >= BLOCK_SIZE,
            segment_size % BLOCK_SIZE == 0,
            file_offset % segment_size == 0,
        ensures
            r.wf(),
            r.size() == segment_size,
            r.file_offset == file_offset,
            r.next_lsn == next_lsn,
            r.next_flushed_lsn == next_lsn,
            r.buffer_cursor == 0,
            !r.need_flush,
            forall|f: Seq<u8>|
                f.len() <= file_offset ==> {
                    &&& #[trigger] r.follows(f)
                    &&& r.entries(f) == reader::log_entries(f, segment_size as nat)
                },
    {
        let mut buffer: Vec<u8> = Vec::new();
        pad_to(&mut buffer, segment_size);
        let r = WriteAheadLogInner {
            buffer,
            buffer_cursor: 0,
            flushed_cursor: 0,
            file_offset,
            next_lsn,
            next_flushed_lsn: next_lsn,
            need_flush: false,
        };
        proof {
            let size = segment_size as nat;
            assert(r.filled() =~= Seq::<u8>::empty());
            assert(r.flushed() =~= Seq::<u8>::empty());
            vstd::arithmetic::div_mod::lemma_fundamental_div_mod(
                file_offset as int,
                segment_size as int,
            );
            vstd::arithmetic::mul::lemma_mul_is_commutative(
                segment_size as int,
                file_offset as int / segment_size as int,
            );
            let k = r.segment_no();
            assert forall|f: Seq<u8>| f.len() <= file_offset implies {
                &&& #[trigger] r.follows(f)
                &&& r.entries(f) == reader::log_entries(f, size)
            } by {
                lemma_no_entries(reader::segment_of(f, size, k as int));
                assert(reader::entries_from(r.flushed(), 0) =~= Seq::empty());
                assert(r.follows(f));
                r.lemma_durable(f);
            }
        }
        r
    }
}

/// The number after the last one in a log file.
pub open spec fn resumed_lsn(f: Seq<u8>, size: nat) -> u64 {
    match reader::last_lsn_upto(f, size, reader::segment_count(f, size)) {
        Some(lsn) => if lsn < u64::MAX {
            (lsn + 1) as u64
        } else {
            u64::MAX
        },
        None => 0,
    }
}

/// Where a log goes on in a file, and with which number: behind the last
/// segment, and after the last entry.
pub fn resume_state(log_file: &WalReader) -> (r: (usize, u64))
    requires
        log_file.segment_size >= BLOCK_SIZE,
        log_file.log_file@.len() + log_file.segment_size <= usize::MAX,
    ensures
        r.0 == reader::segment_count(log_file.log_file@, log_file.segment_size as nat)
            * log_file.segment_size,
        log_file.log_file@.len() <= r.0 < log_file.log_file@.len() + log_file.segment_size,
        r.0 % log_file.segment_size == 0,
        r.1 == resumed_lsn(log_file.log_file@, log_file.segment_size as nat),
{
    let n = log_file.log_file.len();
    let size = log_file.segment_size;
    let next_lsn: u64 = match log_file.last_lsn() {
        Some(lsn) => if lsn < u64::MAX {
            lsn + 1
        } else {
            lsn
        },
        None => 0,
    };
    let count: usize = (n + (size - 1)) / size;
    proof {
        lemma_segments(n as int, size as int);
        vstd::arithmetic::div_mod::lemma_mod_multiples_basic(count as int, size as int);
        assert(n + (size - 1) == n + size - 1);
    }
    (count * size, next_lsn)
}

/// Log sequence numbers ascend through the log.
pub open spec fn lsns_ascend(es: Seq<LogEntry>) -> bool {
    forall|i: int, j: int| 0 <= i < j < es.len() ==> (#[trigger] es[i]).lsn < (#[trigger] es[j]).lsn
}

proof fn lemma_max_lsn(es: Seq<LogEntry>, i: int)
    requires
        0 <= i < es.len(),
    ensures
        es[i].lsn <= reader::max_lsn(es),
    decreases es.len(),
{
    if i < es.len() - 1 {
        lemma_max_lsn(es.drop_last(), i);
    }
}

pub(crate) proof fn lemma_last_lsn(f: Seq<u8>, size: nat, n: nat)
    requires
        lsns_ascend(reader::entries_upto(f, size, n)),
    ensures
        reader::last_lsn_upto(f, size, n) is None <==> reader::entries_upto(f, size, n).len() == 0,
        reader::last_lsn_upto(f, size, n) matches Some(last) ==> forall|i: int|
            0 <= i < reader::entries_upto(f, size, n).len() ==> (#[trigger] reader::entries_upto(
                f,
                size,
                n,
            )[i]).lsn <= last,
    decreases n,
{
    if n > 0 {
        let front = reader::entries_upto(f, size, (n - 1) as nat);
        let es = reader::entries_from(reader::segment_of(f, size, n - 1), 0);
        let all = reader::entries_upto(f, size, n);
        assert(all == front + es);
        if es.len() == 0 {
            assert(all =~= front);
            lemma_last_lsn(f, size, (n - 1) as nat);
        } else {
            let m = es.len() - 1;
            lemma_max_lsn(es, m);
            assert forall|i: int| 0 <= i < all.len() implies (#[trigger] all[i]).lsn
                <= reader::max_lsn(es) by {
                if i < all.len() - 1 {
                    assert(all[i].lsn < all[all.len() - 1].lsn);
                }
                assert(all[all.len() - 1] == es[m]);
            }
        }
    }
}

/// A log that goes on in a file numbers its entries after all that are there.
pub proof fn law_reopened_log_numbers_on(f: Seq<u8>, size: nat)
    requires
        lsns_ascend(reader::log_entries(f, size)),
        forall|i: int|
            0 <= i < reader::log_entries(f, size).len() ==> (#[trigger] reader::log_entries(
                f,
                size,
            )[i]).lsn < u64::MAX,
    ensures
        forall|i: int|
            0 <= i < reader::log_entries(f, size).len() ==> (#[trigger] reader::log_entries(
                f,
                size,
            )[i]).lsn < resumed_lsn(f, size),
{
    let n = reader::segment_count(f, size);
    let es = reader::log_entries(f, size);
    lemma_last_lsn(f, size, n);
    lemma_last_lsn_known(f, size, n);
    assert forall|i: int| 0 <= i < es.len() implies (#[trigger] es[i]).lsn < resumed_lsn(
        f,
        size,
    ) by {
        let last = reader::last_lsn_upto(f, size, n)->0;
        assert(es[i].lsn <= last);
    }
}

/// The numbers of the entries ascend and `next` is behind them all.
pub open spec fn numbered(es: Seq<LogEntry>, next: int) -> bool {
    &&& lsns_ascend(es)
    &&& forall|i: int| 0 <= i < es.len() ==> (#[trigger] es[i]).lsn < next
}

/// An entry that takes the next number leaves the numbers ascending.
pub proof fn law_appended_entries_ascend(es: Seq<LogEntry>, e: LogEntry)
    requires
        numbered(es, e.lsn as int),
    ensures
        numbered(es.push(e), e.lsn + 1),
{
}

/// The last number belongs to an entry.
pub(crate) proof fn lemma_last_lsn_known(f: Seq<u8>, size: nat, n: nat)
    ensures
        reader::last_lsn_upto(f, size, n) matches Some(last) ==> exists|i: int|
            0 <= i < reader::entries_upto(f, size, n).len() && (#[trigger] reader::entries_upto(
                f,
                size,
                n,
            )[i]).lsn == last,
    decreases n,
{
    if n > 0 {
        let front = reader::entries_upto(f, size, (n - 1) as nat);
        let es = reader::entries_from(reader::segment_of(f, size, n - 1), 0);
        let all = reader::entries_upto(f, size, n);
        assert(all == front + es);
        if es.len() == 0 {
            assert(all =~= front);
            lemma_last_lsn_known(f, size, (n - 1) as nat);
        } else {
            lemma_max_lsn_known(es);
            let i = choose|i: int|
                0 <= i < es.len() && (#[trigger] es[i]).lsn == reader::max_lsn(es);
            assert(all[front.len() + i] == es[i]);
        }
    }
}

proof fn lemma_max_lsn_known(es: Seq<LogEntry>)
    requires
        es.len() > 0,
    ensures
        exists|i: int| 0 <= i < es.len() && (#[trigger] es[i]).lsn == reader::max_lsn(es),
    decreases es.len(),
{
    let last = es.len() - 1;
    if es.len() == 1 {
        assert(reader::max_lsn(es.drop_last()) == 0);
        assert(es[last].lsn == reader::max_lsn(es));
    } else {
        lemma_max_lsn_known(es.drop_last());
        let i = choose|i: int|
            0 <= i < es.drop_last().len() && (#[trigger] es.drop_last()[i]).lsn == reader::max_lsn(
                es.drop_last(),
            );
        assert(es[i] == es.drop_last()[i]);
        assert(es[last].lsn == es.last().lsn);
    }
}

/// A log whose file is kept in memory.
#[derive(Debug)]
pub struct WriteAheadLog {
    pub inner: WriteAheadLogInner,
    pub log_file: Vec<u8>,
    pub config: WalConfig,
}

/// What a log finds of its file: a log in memory starts anew.
pub open spec fn kept_file(config: WalConfig, log_file: Seq<u8>) -> Seq<u8> {
    if config.storage_backend == StorageBackend::Memory {
        Seq::empty()
    } else {
        log_file
    }
}

impl View for WriteAheadLog {
    type V = Seq<LogEntry>;

    /// All entries of the log.
    open spec fn view(&self) -> Seq<LogEntry> {
        self.inner.entries(self.log_file@)
    }
}

impl WriteAheadLog {
    pub open spec fn wf(&self) -> bool {
        &&& self.inner.wf()
        &&& self.inner.size() == self.config.segment_size
        &&& self.inner.follows(self.log_file@)
    }

    /// The file holds all entries.
    pub open spec fn durable(&self) -> bool {
        reader::log_entries(self.log_file@, self.config.segment_size as nat) == self@
    }

    /// A log without entries.
    pub open spec fn is_fresh(&self, config: WalConfig) -> bool {
        &&& self.wf()
        &&& self.durable()
        &&& self.config == config
        &&& self@ == Seq::<LogEntry>::empty()
        &&& self.inner.next_lsn == 0
        &&& self.inner.file_offset == 0
    }

    /// An entry of `n` bytes can be appended.
    pub open spec fn admits(&self, n: nat) -> bool {
        &&& LOG_HEADER_SIZE + n <= self.config.segment_size
        &&& self.inner.next_lsn < u64::MAX
        &&& self.inner.file_offset + 4 * self.config.segment_size <= usize::MAX
    }

    /// A log that goes on where a log file ends.
    pub open spec fn resumes(&self, config: WalConfig, log_file: Seq<u8>) -> bool {
        let f = kept_file(config, log_file);
        &&& self.wf()
        &&& self.durable()
        &&& self.config == config
        &&& self.log_file@ == f
        &&& self@ == reader::log_entries(f, config.segment_size as nat)
        &&& self.inner.next_lsn == resumed_lsn(f, config.segment_size as nat)
        &&& self.inner.buffer_cursor == 0
        &&& self.inner.file_offset == reader::segment_count(f, config.segment_size as nat)
            * config.segment_size
        &&& self.inner.file_offset < f.len() + config.segment_size
    }

    /// A log that goes on in a log file. The segment size is a positive
    /// multiple of the block size.
    pub fn new(config: WalConfig, log_file: Vec<u8>) -> (r: WriteAheadLog)
        requires
            config.ok(),
            log_file@.len() + config.segment_size <= usize::MAX,
        ensures
            r.resumes(config, log_file@),
    {
        let f = match config.storage_backend {
            StorageBackend::Memory => Vec::new(),
            StorageBackend::Std => log_file,
        };
        let reader = WalReader::new(f, config.segment_size);
        let (file_offset, next_lsn) = resume_state(&reader);
        let inner = WriteAheadLogInner::resume(config.segment_size, file_offset, next_lsn);
        proof {
            assert(inner.follows(reader.log_file@));
        }
        WriteAheadLog { inner, log_file: reader.log_file, config }
    }

    /// A log in an empty file.
    pub fn create(config: WalConfig) -> (r: WriteAheadLog)
        requires
            config.ok(),
        ensures
            r.is_fresh(config),
            r@.len() == 0,
            r.inner.next_lsn == 0,
            r.log_file@.len() == 0,
    {
        let r = WriteAheadLog::new(config, Vec::new());
        proof {
            let size = config.segment_size as nat;
            let f = Seq::<u8>::empty();
            lemma_segments(0, size as int);
            assert(reader::segment_count(f, size) == 0) by {
                vstd::arithmetic::div_mod::lemma_basic_div(size - 1, size as int);
            }
            let k = r.inner.segment_no();
            assert(r.log_file@ =~= f);
            if k > 0 {
                assert(k * size >= size) by (nonlinear_arith)
                    requires
                        k > 0,
                ;
            }
            assert(k == 0);
            vstd::arithmetic::mul::lemma_mul_basics(size as int);
            assert(r@ =~= Seq::<LogEntry>::empty());
        }
        r
    }

    /// Writes to the file.
    fn apply(&mut self, write: Option<WalWrite>)
        requires
            write matches Some(w) ==> w.offset + w.bytes@.len() <= usize::MAX,
        ensures
            *final(self) == (WriteAheadLog { log_file: final(self).log_file, ..*old(self) }),
            final(self).log_file@ == written(old(self).log_file@, write),
    {
        match write {
            None => {},
            Some(w) => {
                write_at(&mut self.log_file, w.offset, w.bytes.as_slice());
            },
        }
    }

    /// Writes everything to the file.
    pub fn flush(&mut self, rotate_segment: bool)
        requires
            old(self).wf(),
            old(self).inner.has_space(),
        ensures
            final(self).wf(),
            final(self)@ == old(self)@,
            final(self).durable(),
            final(self).config == old(self).config,
            final(self).inner.next_lsn == old(self).inner.next_lsn,
            final(self).inner.next_flushed_lsn == old(self).inner.next_lsn,
            final(self).inner.placed_after(&old(self).inner, rotate_segment),
            old(self).inner.buffer_cursor == 0 ==> final(self).log_file@ == old(self).log_file@,
            old(self).inner.buffer_cursor > 0 ==> exists|w: WalWrite| #[trigger]
                old(self).inner.blocks_to_write(w) && final(self).log_file@ == fs::overwrite(
                    old(self).log_file@,
                    w.offset as int,
                    w.bytes@,
                ),
    {
        let ghost f = self.log_file@;
        assert(self.inner.follows(f));
        let write = self.inner.flush(rotate_segment);
        self.apply(write);
    }

    /// Appends an entry and returns its number; the entry is in the file then.
    pub fn append_and_wait(&mut self, data: &[u8], page_offset: u64) -> (lsn: u64)
        requires
            old(self).wf(),
            old(self).admits(data@.len()),
        ensures
            final(self).wf(),
            lsn == old(self).inner.next_lsn,
            final(self).inner.next_lsn == lsn + 1,
            final(self)@ == old(self)@.push(LogEntry { lsn, page_offset, data: data@ }),
            final(self).durable(),
            final(self).config == old(self).config,
            final(self).inner.next_flushed_lsn > lsn,
            (final(self).inner.file_offset as int, final(self).inner.buffer_cursor as int)
                == old(self).inner.place_behind(data@.len()),
            old(self).inner.file_offset <= final(self).inner.file_offset <= old(
                self).inner.file_offset + 2 * old(self).config.segment_size,
    {
        if !self.inner.has_room(data.len()) {
            // The entry does not fit the rest of the segment.
            self.flush(true);
        }
        assert(self.inner.follows(self.log_file@));
        let lsn = self.inner.append(data, page_offset);
        self.flush(false);
        lsn
    }

    /// Ends the log: everything is in the file.
    pub fn stop_background_job(&mut self)
        requires
            old(self).wf(),
            old(self).inner.has_space(),
        ensures
            final(self).wf(),
            final(self)@ == old(self)@,
            final(self).durable(),
            final(self).config == old(self).config,
            final(self).inner.next_lsn == old(self).inner.next_lsn,
            final(self).inner.next_flushed_lsn == old(self).inner.next_lsn,
            final(self).inner.placed_after(&old(self).inner, false),
            old(self).inner.buffer_cursor == 0 ==> final(self).log_file@ == old(self).log_file@,
            old(self).inner.buffer_cursor > 0 ==> exists|w: WalWrite| #[trigger]
                old(self).inner.blocks_to_write(w) && final(self).log_file@ == fs::overwrite(
                    old(self).log_file@,
                    w.offset as int,
                    w.bytes@,
                ),
    {
        self.flush(false);
    }
}

} // verus!
