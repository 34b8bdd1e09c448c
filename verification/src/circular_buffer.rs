//! The page cache's bookkeeping: which pages are cached, in the order in which
//! they came, and how many bytes they take.
use vstd::prelude::*;

use crate::error::TreeError;

verus! {

pub struct CircularBuffer {
    pub capacity: usize,
    pub used: usize,
    /// Page ids and sizes, oldest first.
    pub entries: Vec<(u64, usize)>,
}

pub open spec fn total(entries: Seq<(u64, usize)>) -> nat
    decreases entries.len(),
{
    if entries.len() == 0 {
        0
    } else {
        total(entries.drop_last()) + entries.last().1 as nat
    }
}

pub proof fn lemma_total_remove(entries: Seq<(u64, usize)>, i: int)
    requires
        0 <= i < entries.len(),
    ensures
        total(entries.remove(i)) + entries[i].1 == total(entries),
    decreases entries.len(),
{
    if i == entries.len() - 1 {
        assert(entries.remove(i) =~= entries.drop_last());
    } else {
        assert(entries.remove(i).drop_last() =~= entries.drop_last().remove(i));
        assert(entries.remove(i).last() == entries.last());
        lemma_total_remove(entries.drop_last(), i);
    }
}

/// How many of the oldest entries have to go until the others take no more than
/// `most` bytes.
pub open spec fn evictions(entries: Seq<(u64, usize)>, most: int) -> nat
    decreases entries.len(),
{
    if entries.len() == 0 || total(entries) <= most {
        0
    } else {
        1 + evictions(entries.remove(0), most)
    }
}

/// Page `id` is named by one of the `n` oldest entries.
pub open spec fn among_oldest(entries: Seq<(u64, usize)>, n: nat, id: int) -> bool {
    exists|i: int| 0 <= i < n && i < entries.len() && (#[trigger] entries[i]).0 == id
}

/// Entry `i` is the oldest one of page `id`.
pub open spec fn first_of(entries: Seq<(u64, usize)>, id: u64, i: int) -> bool {
    &&& 0 <= i < entries.len()
    &&& entries[i].0 == id
    &&& forall|j: int| 0 <= j < i ==> (#[trigger] entries[j]).0 != id
}

impl CircularBuffer {
    pub open spec fn wf(&self) -> bool {
        &&& self.used == total(self.entries@)
        &&& self.used <= self.capacity
    }

    /// Page `id` has room for `size` bytes.
    pub open spec fn has(&self, id: u64, size: nat) -> bool {
        exists|i: int|
            0 <= i < self.entries@.len() && (#[trigger] self.entries@[i]).0 == id
                && self.entries@[i].1 == size
    }

    pub fn new(capacity: usize) -> (r: CircularBuffer)
        ensures
            r.wf(),
            r.capacity == capacity,
            r.entries@ == Seq::<(u64, usize)>::empty(),
    {
        CircularBuffer { capacity, used: 0, entries: Vec::new() }
    }

    /// Makes room for page `id` of `size` bytes, if there is room.
    pub fn alloc_page(&mut self, id: u64, size: usize) -> (r: Result<(), TreeError>)
        requires
            old(self).wf(),
        ensures
            final(self).wf(),
            final(self).capacity == old(self).capacity,
            if old(self).used + size <= old(self).capacity {
                &&& r is Ok
                &&& final(self).used == old(self).used + size
                &&& final(self).entries@ == old(self).entries@.push((id, size))
                &&& final(self).has(id, size as nat)
                &&& forall|x: u64, n: nat| #[trigger] old(self).has(x, n) ==> final(self).has(x, n)
            } else {
                &&& r == Err::<(), TreeError>(TreeError::CircularBufferFull)
                &&& *final(self) == *old(self)
            },
    {
        if size > self.capacity - self.used {
            return Err(TreeError::CircularBufferFull);
        }
        let ghost before = self.entries@;
        self.entries.push((id, size));
        self.used = self.used + size;
        assert(self.entries@.drop_last() =~= before);
        assert(self.entries@[before.len() as int].0 == id);
        assert forall|x: u64, n: nat| #[trigger] old(self).has(x, n) implies self.has(x, n) by {
            let i = choose|i: int|
                0 <= i < before.len() && (#[trigger] before[i]).0 == x && before[i].1 == n;
            assert(self.entries@[i] == before[i]);
        }
        Ok(())
    }

    /// Gives back the room of page `id`.
    pub fn dealloc_page(&mut self, id: u64)
        requires
            old(self).wf(),
        ensures
            final(self).wf(),
            final(self).capacity == old(self).capacity,
            final(self).used <= old(self).used,
            forall|x: u64, n: nat|
                x != id && #[trigger] old(self).has(x, n) ==> final(self).has(x, n),
            final(self).entries@.len() <= old(self).entries@.len(),
            forall|n: nat| #[trigger]
                old(self).has(id, n) ==> final(self).entries@.len() + 1
                    == old(self).entries@.len(),
            forall|i: int| #[trigger]
                first_of(old(self).entries@, id, i) ==> final(self).entries@
                    == old(self).entries@.remove(i),
    {
        let ghost before = self.entries@;
        let n = self.entries.len();
        let mut i: usize = 0;
        while i < n
            invariant
                i <= n,
                n == self.entries@.len(),
                *self == *old(self),
                before == self.entries@,
                self.wf(),
                forall|j: int| 0 <= j < i ==> (#[trigger] self.entries@[j]).0 != id,
            decreases n - i,
        {
            if self.entries[i].0 == id {
                proof {
                    lemma_total_remove(before, i as int);
                }
                let e = self.entries.remove(i);
                self.used = self.used - e.1;
                assert forall|k: int| #[trigger] first_of(before, id, k) implies k == i by {
                    if k < i {
                        assert(before[k].0 == id);
                    } else if i < k {
                        assert(before[i as int].0 == id);
                    }
                }
                assert forall|x: u64, n: nat|
                    x != id && #[trigger] old(self).has(x, n) implies self.has(x, n) by {
                    let j = choose|j: int|
                        0 <= j < before.len() && (#[trigger] before[j]).0 == x && before[j].1 == n;
                    if j < i {
                        assert(self.entries@[j] == before[j]);
                    } else {
                        assert(self.entries@[j - 1] == before[j]);
                    }
                }
                return;
            }
            i += 1;
        }
    }

    /// Takes out the page that came first.
    pub fn pop_oldest(&mut self) -> (r: Option<u64>)
        requires
            old(self).wf(),
        ensures
            final(self).wf(),
            final(self).capacity == old(self).capacity,
            match r {
                Some(id) => {
                    &&& old(self).entries@.len() > 0
                    &&& id == old(self).entries@[0].0
                    &&& final(self).entries@ == old(self).entries@.remove(0)
                    &&& final(self).used <= old(self).used
                    &&& forall|x: u64, n: nat|
                        x != id && #[trigger] old(self).has(x, n) ==> final(self).has(x, n)
                },
                None => {
                    &&& old(self).entries@.len() == 0
                    &&& old(self).used == 0
                    &&& *final(self) == *old(self)
                },
            },
    {
        if self.entries.len() == 0 {
            return None;
        }
        let ghost before = self.entries@;
        proof {
            lemma_total_remove(before, 0);
        }
        let e = self.entries.remove(0);
        self.used = self.used - e.1;
        assert forall|x: u64, n: nat| x != e.0 && #[trigger] old(self).has(x, n) implies self.has(
            x,
            n,
        ) by {
            let j = choose|j: int|
                0 <= j < before.len() && (#[trigger] before[j]).0 == x && before[j].1 == n;
            assert(self.entries@[j - 1] == before[j]);
        }
        Some(e.0)
    }
}

} // verus!
