//! What a snapshot holds of each worker's inserts: a prefix without gaps.
use vstd::prelude::*;

use crate::config::Config;
use crate::model::Core;
use crate::snapshot::finalize;
use crate::snapshot::steps;
use crate::snapshot::steps::{SnapshotRun, StepResult};
use crate::tree::BfTree;

verus! {

/// An insert by a worker.
pub struct WorkerInsert {
    pub worker: nat,
    pub key: Seq<u8>,
    pub value: Seq<u8>,
}

/// From each moment to the next a worker carries out an insert, or nothing happens
/// that readers see.
pub open spec fn inserts_happen(
    trees: Seq<BfTree>,
    events: Seq<Option<WorkerInsert>>,
) -> bool {
    &&& events.len() + 1 == trees.len()
    &&& forall|j: int|
        #![trigger events[j]]
        0 <= j < events.len() ==> match events[j] {
            Some(e) => trees[j + 1].inserted(&trees[j], e.key, e.value),
            None => trees[j + 1]@ == trees[j]@,
        }
}

/// No key is inserted twice, and none is there at the start.
pub open spec fn keys_apart(start: &BfTree, events: Seq<Option<WorkerInsert>>) -> bool {
    &&& forall|i: int, j: int|
        #![trigger events[i], events[j]]
        0 <= i < j < events.len() && events[i] is Some && events[j] is Some ==> (events[i]->0).key
            != (events[j]->0).key
    &&& forall|i: int|
        0 <= i < events.len() && #[trigger] events[i] is Some ==> !start@.contains_key(
            (events[i]->0).key,
        )
}

/// At every moment there is a disk.
pub open spec fn all_on_disk(trees: Seq<BfTree>) -> bool {
    forall|j: int| 0 <= j < trees.len() ==> !(#[trigger] trees[j]).cache_only
}

/// What a worker inserted up to moment `n`, in order.
pub open spec fn inserts_of(
    events: Seq<Option<WorkerInsert>>,
    worker: nat,
    n: nat,
) -> Seq<(Seq<u8>, Seq<u8>)>
    decreases n,
{
    if n == 0 {
        Seq::empty()
    } else {
        let front = inserts_of(events, worker, (n - 1) as nat);
        match events[n - 1] {
            Some(e) => if e.worker == worker {
                front.push((e.key, e.value))
            } else {
                front
            },
            None => front,
        }
    }
}

/// The first `m` of `inserts` are there, and none after them.
pub open spec fn holds_first(
    view: Map<Seq<u8>, Seq<u8>>,
    inserts: Seq<(Seq<u8>, Seq<u8>)>,
    m: nat,
) -> bool {
    &&& m <= inserts.len()
    &&& forall|r: int|
        0 <= r < m ==> view.contains_pair((#[trigger] inserts[r]).0, inserts[r].1)
    &&& forall|r: int| m <= r < inserts.len() ==> !view.contains_key((#[trigger] inserts[r]).0)
}

/// Insert `r` of a worker is one of the events; it comes after moment `m` if the
/// worker had inserted fewer until then.
proof fn lemma_insert_is_event(
    events: Seq<Option<WorkerInsert>>,
    worker: nat,
    m: nat,
    n: nat,
    r: int,
) -> (x: int)
    requires
        m <= n <= events.len(),
        0 <= r < inserts_of(events, worker, n).len(),
    ensures
        0 <= x < n,
        events[x] matches Some(e) && (e.key, e.value) == inserts_of(events, worker, n)[r],
        inserts_of(events, worker, m).len() <= inserts_of(events, worker, n).len(),
        r >= inserts_of(events, worker, m).len() <==> x >= m,
        r < inserts_of(events, worker, m).len() ==> inserts_of(events, worker, m)[r]
            == inserts_of(events, worker, n)[r],
    decreases n,
{
    let all = inserts_of(events, worker, n);
    let front = inserts_of(events, worker, (n - 1) as nat);
    if r < front.len() {
        if m < n {
            lemma_insert_is_event(events, worker, m, (n - 1) as nat, r)
        } else {
            lemma_insert_is_event(events, worker, (n - 1) as nat, (n - 1) as nat, r)
        }
    } else {
        lemma_inserts_grow(events, worker, m, n);
        if m < n {
            lemma_inserts_grow(events, worker, m, (n - 1) as nat);
        }
        n - 1
    }
}

proof fn lemma_inserts_grow(events: Seq<Option<WorkerInsert>>, worker: nat, m: nat, n: nat)
    requires
        m <= n,
    ensures
        inserts_of(events, worker, m).len() <= inserts_of(events, worker, n).len(),
    decreases n,
{
    if m < n {
        lemma_inserts_grow(events, worker, m, (n - 1) as nat);
    }
}

/// At moment `n` the tree has what was inserted until then and nothing of what is
/// inserted later.
proof fn lemma_held_at(
    trees: Seq<BfTree>,
    events: Seq<Option<WorkerInsert>>,
    n: int,
    x: int,
)
    requires
        all_on_disk(trees),
        inserts_happen(trees, events),
        keys_apart(&trees[0], events),
        0 <= n < trees.len(),
        0 <= x < events.len(),
        events[x] is Some,
    ensures
        x < n ==> trees[n]@.contains_pair((events[x]->0).key, (events[x]->0).value),
        x >= n ==> !trees[n]@.contains_key((events[x]->0).key),
    decreases n,
{
    if n > 0 {
        lemma_held_at(trees, events, n - 1, x);
        let e = events[n - 1];
        assert(!trees[n - 1].cache_only);
        if x < n - 1 {
            assert(events[x] is Some && (e is Some ==> (events[x]->0).key != (e->0).key));
        } else if x >= n {
            assert(e is Some ==> (e->0).key != (events[x]->0).key);
        }
    }
}

/// Each worker's inserts are captured as a prefix without gaps: a tree with a disk
/// that comes back from a snapshot has the first `m` inserts of a worker and none
/// after them, however the inserts of all workers and the snapshot interleave.
pub proof fn law_snapshot_holds_a_prefix_of_each_worker(
    runs: Seq<SnapshotRun>,
    trees: Seq<BfTree>,
    events: Seq<Option<WorkerInsert>>,
    run: &SnapshotRun,
    tree: &BfTree,
    file: Vec<u8>,
    back: &BfTree,
    worker: nat,
)
    requires
        steps::moments(runs, trees),
        !trees[0].config.cache_only,
        inserts_happen(trees, events),
        keys_apart(&trees[0], events),
        steps::stepped(&runs.last(), &trees.last(), run, tree, &StepResult::Done(file)),
        forall|f: Core, config: Config, v: u64| #[trigger]
            finalize::holds(file@, f, config, v) ==> back@ == f.view(),
    ensures
        exists|m: nat| #[trigger]
            holds_first(back@, inserts_of(events, worker, events.len()), m),
{
    steps::law_snapshot_holds_one_moment(runs, trees, run, tree, file);
    let i = choose|i: int| #[trigger]
        steps::ends_prepare(trees, i) && finalize::holds(
            file@,
            trees[i].model(),
            trees[0].config,
            runs[0].version,
        );
    assert(back@ == trees[i]@);
    assert(all_on_disk(trees)) by {
        assert forall|j: int| 0 <= j < trees.len() implies !(#[trigger] trees[j]).cache_only by {
            steps::lemma_frozen_at(runs, trees, j);
        }
    }
    let n = events.len();
    let done = inserts_of(events, worker, n);
    let m = inserts_of(events, worker, i as nat).len();
    lemma_inserts_grow(events, worker, i as nat, n);
    assert forall|r: int| 0 <= r < m implies back@.contains_pair(
        (#[trigger] done[r]).0,
        done[r].1,
    ) by {
        let x = lemma_insert_is_event(events, worker, i as nat, n, r);
        lemma_held_at(trees, events, i, x);
    }
    assert forall|r: int| m <= r < done.len() implies !back@.contains_key((#[trigger] done[r]).0) by {
        let x = lemma_insert_is_event(events, worker, i as nat, n, r);
        lemma_held_at(trees, events, i, x);
    }
    assert(holds_first(back@, done, m));
}

/// What is there at one moment is there later.
proof fn lemma_covered(
    trees: Seq<BfTree>,
    events: Seq<Option<WorkerInsert>>,
    i: int,
    j: int,
)
    requires
        all_on_disk(trees),
        inserts_happen(trees, events),
        0 <= i <= j < trees.len(),
    ensures
        trees[i]@.dom().subset_of(trees[j]@.dom()),
        keys_apart(&trees[0], events) ==> trees[i]@.submap_of(trees[j]@),
    decreases j,
{
    if i < j {
        lemma_covered(trees, events, i, j - 1);
        let e = events[j - 1];
        assert(!trees[j - 1].cache_only);
        if e is Some && keys_apart(&trees[0], events) {
            lemma_held_at(trees, events, i, j - 1);
        }
    }
}

/// The steps `runs` of a snapshot are taken at the moments `trees`, until it is `done`
/// with `file`, and tree `back` comes back from that.
#[verifier::opaque]
pub open spec fn taken(
    trees: Seq<BfTree>,
    runs: Seq<SnapshotRun>,
    done: (&SnapshotRun, &BfTree),
    file: Vec<u8>,
    back: &BfTree,
) -> bool {
    &&& steps::moments(runs, trees)
    &&& steps::stepped(&runs.last(), &trees.last(), done.0, done.1, &StepResult::Done(file))
    &&& forall|f: Core, config: Config, v: u64| #[trigger]
        finalize::holds(file@, f, config, v) ==> back@ == f.view()
}

/// A tree that comes back from a snapshot is as it was at a moment while the snapshot
/// was taken.
proof fn lemma_comes_back(
    trees: Seq<BfTree>,
    runs: Seq<SnapshotRun>,
    done: (&SnapshotRun, &BfTree),
    file: Vec<u8>,
    back: &BfTree,
) -> (i: int)
    requires
        taken(trees, runs, done, file, back),
    ensures
        0 <= i < trees.len(),
        back@ == trees[i]@,
{
    reveal(taken);
    steps::law_snapshot_holds_one_moment(runs, trees, done.0, done.1, file);
    choose|i: int| #[trigger]
        steps::ends_prepare(trees, i) && finalize::holds(
            file@,
            trees[i].model(),
            trees[0].config,
            runs[0].version,
        )
}

/// A snapshot that is taken later covers the earlier ones. `trees` is one tree with a
/// disk from moment to moment, while workers insert and two snapshots are taken: one at
/// the moments from `a` to `b`, and after it one at those from `c` to `d`. A tree that
/// comes back from the later snapshot has all keys that one that comes back from the
/// earlier has, with the same values if no key was inserted twice.
pub proof fn law_later_snapshot_covers_the_earlier(
    trees: Seq<BfTree>,
    events: Seq<Option<WorkerInsert>>,
    a: int,
    b: int,
    first: Seq<SnapshotRun>,
    first_done: (&SnapshotRun, &BfTree),
    first_file: Vec<u8>,
    first_back: &BfTree,
    c: int,
    d: int,
    later: Seq<SnapshotRun>,
    later_done: (&SnapshotRun, &BfTree),
    later_file: Vec<u8>,
    later_back: &BfTree,
)
    requires
        all_on_disk(trees),
        inserts_happen(trees, events),
        0 <= a <= b <= c <= d <= trees.len(),
        taken(trees.subrange(a, b), first, first_done, first_file, first_back),
        taken(trees.subrange(c, d), later, later_done, later_file, later_back),
    ensures
        first_back@.dom().subset_of(later_back@.dom()),
        keys_apart(&trees[0], events) ==> first_back@.submap_of(later_back@),
{
    let i = lemma_comes_back(trees.subrange(a, b), first, first_done, first_file, first_back);
    let j = lemma_comes_back(trees.subrange(c, d), later, later_done, later_file, later_back);
    lemma_covered(trees, events, a + i, c + j);
}

} // verus!
