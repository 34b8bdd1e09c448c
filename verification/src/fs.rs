//! Files as byte strings: where pages are placed and what a file holds.
use vstd::prelude::*;

use crate::codec::{copy_range, pad_to};
use crate::nodes::DISK_PAGE_SIZE;

verus! {

/// Hands out places in a file, one after the other. The first page of the file
/// is never handed out.
#[derive(Debug)]
pub struct OffsetAlloc {
    pub next_available_offset: u64,
}

/// Where allocation starts in a file that has `offset` bytes.
pub open spec fn first_offset(offset: u64) -> u64 {
    if offset < DISK_PAGE_SIZE {
        DISK_PAGE_SIZE as u64
    } else {
        offset
    }
}

impl OffsetAlloc {
    pub fn new_with(offset: u64) -> (r: OffsetAlloc)
        ensures
            r.next_available_offset == first_offset(offset),
            r.next_available_offset >= 4096,
            r.next_available_offset == offset || offset < r.next_available_offset == 4096,
    {
        let start: u64 = if offset < DISK_PAGE_SIZE as u64 {
            DISK_PAGE_SIZE as u64
        } else {
            offset
        };
        OffsetAlloc { next_available_offset: start }
    }

    /// Takes the next `size` bytes of the file.
    pub fn alloc_offset(&mut self, size: u64) -> (r: u64)
        requires
            old(self).next_available_offset + size <= u64::MAX,
        ensures
            r == old(self).next_available_offset,
            final(self).next_available_offset == old(self).next_available_offset + size,
    {
        let r = self.next_available_offset;
        self.next_available_offset = r + size;
        r
    }

    /// Places are not reused.
    pub fn dealloc_offset(&mut self, offset: u64)
        ensures
            *final(self) == *old(self),
    {
    }

    pub fn reset(&mut self, offset: u64)
        ensures
            final(self).next_available_offset == first_offset(offset),
            final(self).next_available_offset >= 4096,
            final(self).next_available_offset == offset || offset < final(
                self).next_available_offset == 4096,
    {
        *self = OffsetAlloc::new_with(offset);
    }
}

/// A buffer that is moved to or from a place in a file, in as many pieces as the
/// file takes or gives.
#[derive(Debug)]
pub struct Transfer {
    pub offset: u64,
    pub len: usize,
    pub done: usize,
}

impl Transfer {
    pub open spec fn wf(&self) -> bool {
        self.done <= self.len && self.offset + self.len <= u64::MAX
    }

    pub fn new(offset: u64, len: usize) -> (r: Transfer)
        requires
            offset + len <= u64::MAX,
        ensures
            r.wf(),
            r == (Transfer { offset, len, done: 0 }),
    {
        Transfer { offset, len, done: 0 }
    }

    /// Where the next piece starts, in the buffer and in the file; `None` once
    /// the whole buffer was moved.
    pub fn next_piece(&self) -> (r: Option<(usize, u64)>)
        requires
            self.wf(),
        ensures
            r == (if self.done < self.len {
                Some((self.done, (self.offset + self.done) as u64))
            } else {
                None
            }),
    {
        if self.done < self.len {
            Some((self.done, self.offset + self.done as u64))
        } else {
            None
        }
    }

    /// Takes note that `n` bytes were moved. A file that moves none will not move
    /// the rest: the transfer has then failed.
    pub fn advance(&mut self, n: usize) -> (r: bool)
        requires
            old(self).wf(),
            n <= old(self).len - old(self).done,
        ensures
            final(self).wf(),
            r == (n > 0),
            *final(self) == (Transfer { done: (old(self).done + n) as usize, ..*old(self) }),
    {
        self.done = self.done + n;
        n > 0
    }
}

/// A file's bytes after `b` was written at `offset`; a gap reads as zeros.
pub open spec fn overwrite(d: Seq<u8>, offset: int, b: Seq<u8>) -> Seq<u8> {
    Seq::new(
        if d.len() >= offset + b.len() {
            d.len()
        } else {
            (offset + b.len()) as nat
        },
        |i: int|
            if offset <= i < offset + b.len() {
                b[i - offset]
            } else if i < d.len() {
                d[i]
            } else {
                0u8
            },
    )
}

/// A write is read back at its place and leaves everything else alone. A file that ends
/// before it is filled up with zeros.
pub proof fn law_read_after_write(d: Seq<u8>, offset: int, b: Seq<u8>)
    requires
        0 <= offset,
    ensures
        overwrite(d, offset, b).subrange(offset, offset + b.len()) == b,
        forall|from: int, to: int|
            0 <= from <= to <= d.len() && (to <= offset || offset + b.len() <= from)
                ==> #[trigger] overwrite(d, offset, b).subrange(from, to) == d.subrange(from, to),
        overwrite(d, offset, b).len() == if d.len() < offset + b.len() {
            offset + b.len()
        } else {
            d.len() as int
        },
        forall|i: int| d.len() <= i < offset ==> #[trigger] overwrite(d, offset, b)[i] == 0,
{
    assert(overwrite(d, offset, b).subrange(offset, offset + b.len()) =~= b);
    assert forall|from: int, to: int|
        0 <= from <= to <= d.len() && (to <= offset || offset + b.len() <= from) implies #[trigger] overwrite(
        d,
        offset,
        b,
    ).subrange(from, to) == d.subrange(from, to) by {
        assert(overwrite(d, offset, b).subrange(from, to) =~= d.subrange(from, to));
    }
}

/// Writes `buf` to a file's bytes at `offset`.
pub fn write_at(data: &mut Vec<u8>, offset: usize, buf: &[u8])
    requires
        offset + buf@.len() <= usize::MAX,
    ensures
        final(data)@ == overwrite(old(data)@, offset as int, buf@),
{
    let ghost d = data@;
    let n = buf.len();
    let end: usize = offset + n;
    if data.len() < end {
        pad_to(data, end);
    }
    let ghost e = data@;
    let mut i: usize = 0;
    while i < n
        invariant
            i <= n,
            n == buf@.len(),
            end == offset + n,
            end <= data@.len(),
            data@.len() == e.len(),
            forall|j: int|
                0 <= j < e.len() ==> #[trigger] data@[j] == if offset <= j < offset + i {
                    buf@[j - offset]
                } else {
                    e[j]
                },
        decreases n - i,
    {
        data[offset + i] = buf[i];
        i += 1;
    }
    assert(data@ =~= overwrite(d, offset as int, buf@));
}

/// A file that is kept in memory. Once it can grow no further it is `full`,
/// and no longer takes writes.
#[derive(Debug)]
pub struct MemoryVfs {
    pub data: Vec<u8>,
    pub next_offset: usize,
    pub full: bool,
}

impl MemoryVfs {
    /// The content lies within what was handed out.
    pub open spec fn wf(&self) -> bool {
        &&& DISK_PAGE_SIZE <= self.next_offset
        &&& self.data@.len() <= self.next_offset
    }

    /// An empty file.
    pub fn open() -> (r: MemoryVfs)
        ensures
            r.wf(),
            r.data@ == Seq::<u8>::empty(),
            r.next_offset == DISK_PAGE_SIZE,
            !r.full,
    {
        MemoryVfs { data: Vec::new(), next_offset: DISK_PAGE_SIZE, full: false }
    }

    /// Takes the next `size` bytes of the file.
    pub fn alloc_offset(&mut self, size: usize) -> (r: usize)
        requires
            old(self).wf(),
        ensures
            final(self).wf(),
            final(self).data@ == old(self).data@,
            if !old(self).full && old(self).next_offset + size <= usize::MAX {
                &&& !final(self).full
                &&& r == old(self).next_offset
                &&& final(self).next_offset == old(self).next_offset + size
            } else {
                &&& final(self).full
                &&& r == 0
                &&& final(self).next_offset == old(self).next_offset
            },
    {
        if self.full || size > usize::MAX - self.next_offset {
            self.full = true;
            return 0;
        }
        let r = self.next_offset;
        self.next_offset = r + size;
        r
    }

    /// Writes `buf` at `offset`, which was handed out before.
    pub fn write(&mut self, offset: usize, buf: &[u8])
        requires
            old(self).wf(),
            !old(self).full ==> offset + buf@.len() <= old(self).next_offset,
        ensures
            final(self).wf(),
            final(self).full == old(self).full,
            final(self).next_offset == old(self).next_offset,
            final(self).data@ == if old(self).full {
                old(self).data@
            } else {
                overwrite(old(self).data@, offset as int, buf@)
            },
    {
        if self.full {
            return;
        }
        write_at(&mut self.data, offset, buf);
    }

    /// Reads `len` bytes at `offset`.
    pub fn read(&self, offset: usize, len: usize) -> (r: Vec<u8>)
        requires
            offset + len <= self.data@.len(),
        ensures
            r@ == self.data@.subrange(offset as int, offset + len),
    {
        let n = self.data.len();
        assert(offset + len <= n);
        copy_range(self.data.as_slice(), offset, offset + len)
    }

    /// Empties the file.
    pub fn reset(&mut self)
        ensures
            final(self).wf(),
            final(self).data@ == Seq::<u8>::empty(),
            final(self).next_offset == DISK_PAGE_SIZE,
            !final(self).full,
    {
        *self = MemoryVfs::open();
    }
}

/// What was written to handed-out places stays when more is handed out and
/// written.
pub proof fn lemma_append_keeps(d: Seq<u8>, next: int, b: Seq<u8>, from: int, to: int)
    requires
        d.len() <= next,
        0 <= from <= to <= d.len(),
    ensures
        overwrite(d, next, b).subrange(from, to) == d.subrange(from, to),
        overwrite(d, next, b).len() == next + b.len(),
{
    assert(overwrite(d, next, b).subrange(from, to) =~= d.subrange(from, to));
}

} // verus!
