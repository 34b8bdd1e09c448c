//! An append-only table of records that are found by consecutive numbers.
use vstd::prelude::*;

verus! {

/// A table never has more than this many batches.
pub const MAX_BATCHES: usize = 128;

pub const DEFAULT_RECORD_PER_BATCH: usize = 1_048_576;

/// Records in batches of `record_per_batch`; only the last batch may be
/// partly filled.
pub struct MappingTable<T> {
    batches: Vec<Vec<T>>,
    initialized: u64,
    record_per_batch: usize,
}

impl<T> View for MappingTable<T> {
    type V = Seq<T>;

    closed spec fn view(&self) -> Seq<T> {
        Seq::new(
            self.initialized as nat,
            |i: int|
                self.batches@[i / self.record_per_batch as int]@[i % self.record_per_batch as int],
        )
    }
}

impl<T> MappingTable<T> {
    /// The number of records that the table has room for in all.
    pub closed spec fn capacity(&self) -> nat {
        let c = MAX_BATCHES as nat * self.record_per_batch as nat;
        if c < u64::MAX {
            c
        } else {
            u64::MAX as nat
        }
    }

    pub closed spec fn batch_len(&self) -> nat {
        self.record_per_batch as nat
    }

    pub closed spec fn wf(&self) -> bool {
        let n = self.initialized as int;
        let per = self.record_per_batch as int;
        &&& per > 0
        &&& n <= MAX_BATCHES * per
        &&& self.batches@.len() == (n + per - 1) / per
        &&& self.batches@.len() <= MAX_BATCHES
        &&& forall|b: int|
            #![trigger self.batches@[b]]
            0 <= b < self.batches@.len() ==> self.batches@[b]@.len() == (if n - b * per < per {
                n - b * per
            } else {
                per
            })
    }

    /// An empty table.
    pub fn new(record_per_batch: usize) -> (r: Self)
        requires
            record_per_batch > 0,
        ensures
            r.wf(),
            r@ == Seq::<T>::empty(),
            r.batch_len() == record_per_batch,
            r.capacity() == (if MAX_BATCHES * record_per_batch < u64::MAX {
                MAX_BATCHES * record_per_batch
            } else {
                u64::MAX as int
            }),
    {
        let r = MappingTable { batches: Vec::new(), initialized: 0, record_per_batch };
        proof {
            assert((record_per_batch as int - 1) / record_per_batch as int == 0) by {
                vstd::arithmetic::div_mod::lemma_basic_div(
                    record_per_batch as int - 1,
                    record_per_batch as int,
                );
            }
        }
        assert(r@ =~= Seq::<T>::empty());
        r
    }

    /// A table for 128 Mi records.
    pub fn default() -> (r: Self)
        ensures
            r.wf(),
            r@ == Seq::<T>::empty(),
            r.batch_len() == DEFAULT_RECORD_PER_BATCH,
            r.capacity() == MAX_BATCHES * DEFAULT_RECORD_PER_BATCH,
    {
        Self::new(DEFAULT_RECORD_PER_BATCH)
    }

    /// The number of records.
    pub fn peek_next_id(&self) -> (r: u64)
        ensures
            r == self@.len(),
    {
        self.initialized
    }

    proof fn lemma_place(&self, id: int)
        requires
            self.wf(),
            0 <= id < self@.len(),
        ensures
            0 <= id / (self.record_per_batch as int) < self.batches@.len(),
            0 <= id % (self.record_per_batch as int) < self.batches@[id
                / self.record_per_batch as int]@.len(),
            self@[id] == self.batches@[id / self.record_per_batch as int]@[id
                % self.record_per_batch as int],
    {
        let per = self.record_per_batch as int;
        let n = self.initialized as int;
        vstd::arithmetic::div_mod::lemma_fundamental_div_mod(id, per);
        vstd::arithmetic::div_mod::lemma_mod_bound(id, per);
        let b = id / per;
        let r = id % per;
        assert(id == per * b + r);
        assert(b * per == per * b) by (nonlinear_arith);
        vstd::arithmetic::div_mod::lemma_div_is_ordered(0, id, per);
        assert(0int / per == 0) by {
            vstd::arithmetic::div_mod::lemma_div_of0(per);
        }
        vstd::arithmetic::div_mod::lemma_div_is_ordered(id + per, n + per - 1, per);
        assert((id + per) / per == b + 1) by {
            vstd::arithmetic::div_mod::lemma_div_plus_one(id, per);
        }
    }

    /// The record with number `id`.
    pub fn get(&self, id: u64) -> (r: &T)
        requires
            self.wf(),
            id < self@.len(),
        ensures
            *r == self@[id as int],
    {
        proof {
            self.lemma_place(id as int);
        }
        let per: u64 = self.record_per_batch as u64;
        let q: u64 = id / per;
        let m: u64 = id % per;
        assert(q as int == id as int / per as int);
        assert(m as int == id as int % per as int);
        let batch_id = q as usize;
        let record_id = m as usize;
        let batch: &Vec<T> = &self.batches[batch_id];
        &batch[record_id]
    }

    /// Replaces the record with number `id` and returns the one before.
    pub fn replace(&mut self, id: u64, val: T) -> (r: T)
        requires
            old(self).wf(),
            id < old(self)@.len(),
        ensures
            final(self).wf(),
            final(self)@ == old(self)@.update(id as int, val),
            r == old(self)@[id as int],
            final(self).capacity() == old(self).capacity(),
            final(self).batch_len() == old(self).batch_len(),
    {
        proof {
            self.lemma_place(id as int);
        }
        let ghost before = *self;
        let per = self.record_per_batch;
        let per64: u64 = per as u64;
        let q: u64 = id / per64;
        let m: u64 = id % per64;
        assert(q as int == id as int / per as int);
        assert(m as int == id as int % per as int);
        let batch_id = q as usize;
        let record_id = m as usize;
        let mut val = val;
        let ghost new_val = val;
        let batch: &mut Vec<T> = &mut self.batches[batch_id];
        let slot: &mut T = &mut batch[record_id];
        std::mem::swap(slot, &mut val);
        proof {
            assert forall|b: int| 0 <= b < self.batches@.len() implies #[trigger] self.batches@[b]@.len()
                == before.batches@[b]@.len() by {}
            assert(self.wf());
            assert forall|i: int| 0 <= i < self@.len() implies #[trigger] self@[i] == before@.update(
                id as int,
                new_val,
            )[i] by {
                before.lemma_place(i);
                self.lemma_place(i);
                if i != id {
                    let p = per as int;
                    vstd::arithmetic::div_mod::lemma_fundamental_div_mod(i, p);
                    vstd::arithmetic::div_mod::lemma_fundamental_div_mod(id as int, p);
                    if i / p == id as int / p && i % p == id as int % p {
                        assert(false);
                    }
                }
            }
            assert(self@ =~= before@.update(id as int, new_val));
        }
        val
    }

    /// Appends a record; returns its number and the record.
    pub fn insert(&mut self, val: T) -> (r: (u64, &T))
        requires
            old(self).wf(),
            old(self)@.len() < old(self).capacity(),
        ensures
            r.0 == old(self)@.len(),
            *r.1 == val,
            final(self).wf(),
            final(self)@ == old(self)@.push(val),
            final(self).capacity() == old(self).capacity(),
            final(self).batch_len() == old(self).batch_len(),
    {
        let id = self.insert_locked(val);
        (id, self.get(id))
    }

    fn insert_locked(&mut self, val: T) -> (id: u64)
        requires
            old(self).wf(),
            old(self)@.len() < old(self).capacity(),
        ensures
            id == old(self)@.len(),
            final(self).wf(),
            final(self)@ == old(self)@.push(val),
            final(self).capacity() == old(self).capacity(),
            final(self).batch_len() == old(self).batch_len(),
    {
        let ghost before = *self;
        let id = self.initialized;
        let per = self.record_per_batch;
        let ghost n = id as int;
        let ghost p = per as int;
        proof {
            vstd::arithmetic::div_mod::lemma_fundamental_div_mod(n, p);
            vstd::arithmetic::div_mod::lemma_mod_bound(n, p);
            let b = n / p;
            let r = n % p;
            assert(b * p == p * b) by (nonlinear_arith);
            vstd::arithmetic::div_mod::lemma_div_plus_one(n, p);
            if r == 0 {
                assert((n + p - 1) / p == b) by {
                    vstd::arithmetic::div_mod::lemma_fundamental_div_mod_converse(
                        n + p - 1,
                        p,
                        b,
                        p - 1,
                    );
                }
            } else {
                assert((n + p - 1) / p == b + 1) by {
                    assert((b + 1) * p == b * p + p) by (nonlinear_arith);
                    vstd::arithmetic::div_mod::lemma_fundamental_div_mod_converse(
                        n + p - 1,
                        p,
                        b + 1,
                        r - 1,
                    );
                }
            }
            assert((n + p) / p == b + 1);
            assert(0 <= b) by {
                vstd::arithmetic::div_mod::lemma_div_pos_is_pos(n, p);
            }
            assert(b < MAX_BATCHES) by {
                if b >= MAX_BATCHES {
                    assert(b * p >= MAX_BATCHES * p) by (nonlinear_arith)
                        requires
                            b >= MAX_BATCHES,
                            p > 0,
                    ;
                }
            }
        }
        let per64: u64 = per as u64;
        let q: u64 = id / per64;
        let m: u64 = id % per64;
        assert(q as int == id as int / per as int);
        assert(m as int == id as int % per as int);
        let batch_id = q as usize;
        let record_id = m as usize;
        if record_id == 0 {
            // Records stay where they are when others are added.
            let room: usize = if per < DEFAULT_RECORD_PER_BATCH {
                per
            } else {
                DEFAULT_RECORD_PER_BATCH
            };
            let batch: Vec<T> = Vec::with_capacity(room);
            self.batches.push(batch);
        }
        let ghost mid = self.batches@;
        proof {
            assert(mid.len() == n / p + 1);
            assert(mid[batch_id as int]@.len() == record_id) by {
                if record_id != 0 {
                    assert(before.batches@[batch_id as int]@.len() == n - batch_id * p);
                }
            }
        }
        let batch: &mut Vec<T> = &mut self.batches[batch_id];
        batch.push(val);
        self.initialized = id + 1;
        proof {
            let bs = self.batches@;
            assert forall|b: int| 0 <= b < bs.len() implies #[trigger] bs[b]@.len() == (if n + 1
                - b * p < p {
                n + 1 - b * p
            } else {
                p
            }) by {
                if b < batch_id {
                    assert((b + 1) * p <= batch_id * p) by (nonlinear_arith)
                        requires
                            b + 1 <= batch_id,
                            p > 0,
                    ;
                    assert((b + 1) * p == b * p + p) by (nonlinear_arith);
                    assert(bs[b] == mid[b]);
                    assert(mid[b] == before.batches@[b]);
                    assert(before.batches@[b]@.len() == (if n - b * p < p {
                        n - b * p
                    } else {
                        p
                    }));
                }
            }
            assert(self.wf());
            assert(self@ =~= before@.push(val)) by {
                assert forall|i: int| 0 <= i < self@.len() implies #[trigger] self@[i]
                    == before@.push(val)[i] by {
                    self.lemma_place(i);
                    if i < n {
                        before.lemma_place(i);
                        vstd::arithmetic::div_mod::lemma_fundamental_div_mod(i, p);
                        if i / p == batch_id as int {
                            assert(self.batches@[i / p]@[i % p] == mid[i / p]@[i % p]);
                        }
                    }
                }
            }
        }
        id
    }

    /// A table that holds the given records; `None` where their numbers are
    /// not 0, 1, 2 and so on, or there are too many of them.
    pub fn new_from_iter(mapping: Vec<(u64, T)>) -> (r: Option<Self>)
        ensures
            r is Some <==> mapping@.len() <= MAX_BATCHES * DEFAULT_RECORD_PER_BATCH && (forall|
                i: int,
            |
                0 <= i < mapping@.len() ==> (#[trigger] mapping@[i]).0 == i),
            r matches Some(t) ==> {
                &&& t.wf()
                &&& t@.len() == mapping@.len()
                &&& forall|i: int| 0 <= i < mapping@.len() ==> #[trigger] t@[i] == mapping@[i].1
                &&& t.batch_len() == DEFAULT_RECORD_PER_BATCH
                &&& t.capacity() == MAX_BATCHES * DEFAULT_RECORD_PER_BATCH
            },
    {
        let mut mt = Self::default();
        let n = mapping.len();
        if n > MAX_BATCHES * DEFAULT_RECORD_PER_BATCH {
            return None;
        }
        let ghost all = mapping@;
        let mut rest = mapping;
        let mut reversed: Vec<(u64, T)> = Vec::with_capacity(n);
        while rest.len() > 0
            invariant
                rest@ == all.take(rest@.len() as int),
                rest@.len() <= all.len(),
                reversed@.len() == all.len() - rest@.len(),
                forall|i: int| 0 <= i < reversed@.len() ==> #[trigger] reversed@[i] == all[all.len() - 1 - i],
            decreases rest@.len(),
        {
            let ghost k = rest@.len();
            match rest.pop() {
                Some(x) => {
                    assert(x == all[k - 1]);
                    reversed.push(x);
                    assert(rest@ =~= all.take(k - 1));
                },
                None => {},
            }
        }
        let mut next_id: u64 = 0;
        while reversed.len() > 0
            invariant
                all == mapping@,
                mt.wf(),
                all.len() <= MAX_BATCHES * DEFAULT_RECORD_PER_BATCH,
                mt.capacity() == MAX_BATCHES * DEFAULT_RECORD_PER_BATCH,
                mt.batch_len() == DEFAULT_RECORD_PER_BATCH,
                next_id == mt@.len(),
                mt@.len() + reversed@.len() == all.len(),
                forall|i: int| 0 <= i < next_id ==> (#[trigger] all[i]).0 == i && mt@[i] == all[i].1,
                forall|i: int| 0 <= i < reversed@.len() ==> #[trigger] reversed@[i] == all[all.len() - 1 - i],
            decreases reversed@.len(),
        {
            match reversed.pop() {
                Some(x) => {
                    assert(x == all[next_id as int]);
                    if x.0 != next_id {
                        return None;
                    }
                    let ghost before = mt@;
                    mt.insert_locked(x.1);
                    assert forall|i: int| 0 <= i < next_id + 1 implies (#[trigger] all[i]).0 == i
                        && mt@[i] == all[i].1 by {
                        if i < next_id {
                            assert(before[i] == all[i].1);
                        }
                    }
                    next_id = next_id + 1;
                },
                None => {},
            }
        }
        Some(mt)
    }
}

/// A record keeps its number and content whatever is inserted later.
pub proof fn law_records_are_stable<T>(before: Seq<T>, after: Seq<T>, val: T, id: int)
    requires
        after == before.push(val),
        0 <= id < before.len(),
    ensures
        after[id] == before[id],
        after[before.len() as int] == val,
{
}

} // verus!
