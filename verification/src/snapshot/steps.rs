//! Taking a snapshot, step by step: each phase lasts until all operations that
//! run have entered it, so the steps between are taken one at a time.
use vstd::prelude::*;

use crate::config::Config;
use crate::model;
use crate::nodes::DISK_PAGE_SIZE;
use crate::snapshot;
use crate::snapshot::capture;
use crate::snapshot::finalize;
use crate::snapshot::meta;
use crate::snapshot::run;
use crate::snapshot::run::SweepLists;
use crate::snapshot::{
    CPRSnapShotMgr, Capture, PhaseId, INVALID_SNAPSHOT_STATE, SNAPSHOT_STATE_VERSION_NUM,
};
use crate::storage;
use crate::storage::PAGE_LIMIT;
use crate::tree::ops;
use crate::tree::BfTree;

verus! {

/// A snapshot in progress, seen from the thread that takes it.
pub struct SnapshotRun {
    /// The version that the snapshot is of.
    pub version: u64,
    pub lists: SweepLists,
    pub inner_count: usize,
    pub leaf_count: usize,
}

/// What came of a step.
#[derive(Debug)]
pub enum StepResult {
    /// Operations that run have to go on first.
    Wait,
    /// The next phase has begun.
    Advanced,
    /// The snapshot is finished; this is its file.
    Done(Vec<u8>),
    /// The snapshot is over, but its file found no room.
    TooLarge,
}

/// What came of the request for a snapshot.
#[derive(Debug)]
pub enum SnapshotResult {
    /// Another snapshot is in progress.
    Busy,
    /// The file of the snapshot.
    Done(Vec<u8>),
    /// The file found no room.
    TooLarge,
}

/// Room that is enough for the file of any tree.
pub const SNAPSHOT_ROOM: u64 = 0x2000_0000_0000;

/// The state of a coordinator before anything is captured.
pub open spec fn no_capture() -> Capture {
    Capture {
        inner: snapshot::empty_mappings(),
        base: snapshot::empty_mappings(),
        mini: snapshot::empty_mappings(),
        mini_size: snapshot::empty_mappings(),
        root_id: 0,
        data: Seq::empty(),
        next_offset: DISK_PAGE_SIZE,
        full: false,
    }
}

/// Everything but the coordinator is as before.
pub open spec fn only_mgr_differs(before: &BfTree, after: &BfTree) -> bool {
    &&& after.model() == before.model()
    &&& after.config == before.config
    &&& after.cache_only == before.cache_only
    &&& after.storage == before.storage
    &&& after.inners == before.inners
    &&& after.shape == before.shape
    &&& after.root == before.root
    &&& after.wal == before.wal
    &&& before.snapshot_mgr is Some
    &&& after.snapshot_mgr is Some
    &&& (after.snapshot_mgr->0).thread_slots@ == (before.snapshot_mgr->0).thread_slots@
    &&& (after.snapshot_mgr->0).thread_local_states@
        == (before.snapshot_mgr->0).thread_local_states@
}

/// The run belongs to the snapshot that the tree's coordinator is at.
pub open spec fn run_ok(r: &SnapshotRun, t: &BfTree) -> bool {
    &&& t.snapshot_mgr is Some
    &&& r.version + 1 < SNAPSHOT_STATE_VERSION_NUM
    &&& ({
        let m = t.snapshot_mgr->0;
        &&& m.snapshot_in_progress
        &&& m.phase() != PhaseId::Sweep ==> !m.pause_snapshot
        &&& m.past_the_old_version() ==> m.workers_in(r.version + 1)
        &&& match m.phase() {
            PhaseId::Prepare => {
                &&& m.version() == r.version
                &&& m.capture() == no_capture()
                &&& r.lists@ == run::Lists::none()
            },
            PhaseId::Rest => {
                &&& m.version() == r.version + 1
                &&& finalize::frozen_ok(m.frozen@, t.params(), r.version)
                &&& model::mini_total(m.frozen@.pages) <= t.config.cb_size_byte
                &&& run::swept(m.frozen@, m.capture(), r.lists@, t.cache_only)
                &&& m.frozen@.sk.nodes.len() <= r.inner_count <= PAGE_LIMIT
                &&& m.frozen@.pages.len() <= r.leaf_count <= PAGE_LIMIT
            },
            _ => {
                &&& m.version() == r.version + 1
                &&& finalize::frozen_ok(m.frozen@, t.params(), r.version)
                &&& model::mini_total(m.frozen@.pages) <= t.config.cb_size_byte
                &&& r.lists@ == run::Lists::none()
            },
        }
    })
}

/// What workers may do to the coordinator: take slots, which then carry the present
/// state, and give them back, and capture pages while the phase calls for it.
pub open spec fn worked(before: &BfTree, after: &BfTree) -> bool {
    &&& after.wf()
    &&& after.config == before.config
    &&& before.snapshot_mgr is Some
    &&& after.snapshot_mgr is Some
    &&& ({
        let m0 = before.snapshot_mgr->0;
        let m1 = after.snapshot_mgr->0;
        &&& m1.global_state == m0.global_state
        &&& m1.pause_snapshot == m0.pause_snapshot
        &&& m1.snapshot_in_progress == m0.snapshot_in_progress
        &&& m1.frozen == m0.frozen
        &&& !m0.phase().captures() ==> m1.capture() == m0.capture()
        &&& forall|i: int|
            0 <= i < m1.thread_local_states@.len() ==> (#[trigger] m1.thread_local_states@[i])
                == INVALID_SNAPSHOT_STATE || m1.thread_local_states@[i] == m0.global_state
                || m1.thread_local_states@[i] == m0.thread_local_states@[i]
    })
}

/// Workers do not disturb a snapshot in progress: its run goes on, and the tree
/// that it will hold stays the same.
pub proof fn law_operations_keep_the_run(r: &SnapshotRun, before: &BfTree, after: &BfTree)
    requires
        before.wf(),
        run_ok(r, before),
        worked(before, after),
    ensures
        run_ok(r, after),
        (after.snapshot_mgr->0).frozen == (before.snapshot_mgr->0).frozen,
{
}

/// An insert, a delete or a scan is the work of a worker.
pub proof fn law_operations_are_work(before: &BfTree, after: &BfTree)
    requires
        before.snapshot_mgr is Some,
        after.wf(),
        after.config == before.config,
        ops::mgr_after(before.snapshot_mgr, after.snapshot_mgr),
    ensures
        worked(before, after),
{
}

/// What [BfTree::are_all_threads_in_next_snapshot_version] says is so: while a
/// snapshot of version `v` is in progress, every worker runs in version `v + 1`
/// once it answers true, and before the phase `InProgress` ends it answers false.
pub proof fn law_all_threads_are_in_the_next_version(r: &SnapshotRun, t: &BfTree)
    requires
        t.wf(),
        run_ok(r, t),
    ensures
        ({
            let m = t.snapshot_mgr->0;
            &&& m.past_the_old_version() ==> m.version() == r.version + 1 && forall|i: int|
                0 <= i < m.thread_slots@.len() && (#[trigger] m.thread_slots@[i])
                    && m.thread_local_states@[i] != INVALID_SNAPSHOT_STATE ==> snapshot::version_of(
                    m.thread_local_states@[i],
                ) == r.version + 1
            &&& m.version() == r.version ==> !m.past_the_old_version()
        }),
{
}

impl SnapshotRun {
    /// Begins a snapshot, unless another is in progress.
    pub fn start(tree: &mut BfTree) -> (r: Option<SnapshotRun>)
        requires
            old(tree).wf(),
            old(tree).snapshot_mgr is Some,
            !(old(tree).snapshot_mgr->0).snapshot_in_progress ==> {
                &&& (old(tree).snapshot_mgr->0).phase() == PhaseId::Rest
                &&& (old(tree).snapshot_mgr->0).version() + 1 < SNAPSHOT_STATE_VERSION_NUM
                &&& !(old(tree).snapshot_mgr->0).pause_snapshot
            },
        ensures
            final(tree).wf(),
            r is None <==> (old(tree).snapshot_mgr->0).snapshot_in_progress,
            r is None ==> *final(tree) == *old(tree),
            r matches Some(run) ==> {
                &&& run_ok(&run, &*final(tree))
                &&& only_mgr_differs(&*old(tree), &*final(tree))
                &&& run.version == (old(tree).snapshot_mgr->0).version()
                &&& (final(tree).snapshot_mgr->0).phase() == PhaseId::Prepare
            },
    {
        let ghost c = tree.model();
        let mut version: u64 = 0;
        match &mut tree.snapshot_mgr {
            None => {},
            Some(mgr) => {
                // Allowing only one active snapshot at a time.
                if mgr.snapshot_in_progress {
                    return None;
                }
                mgr.snapshot_in_progress = true;
                mgr.reset();
                mgr.vfs.reset();
                assert(mgr.capture() =~= no_capture());
                // The version of the snapshot is set.
                version = mgr.get_global_version();
                let _state = mgr.advance_global_state();
            },
        }
        assert(tree.model() == c);
        Some(
            SnapshotRun {
                version,
                lists: SweepLists {
                    inner: Vec::new(),
                    mini: Vec::new(),
                    mini_size: Vec::new(),
                    base: Vec::new(),
                },
                inner_count: 0,
                leaf_count: 0,
            },
        )
    }

    /// All operations that run have entered the present phase.
    pub open spec fn entered(t: &BfTree) -> bool {
        snapshot::phase_completed(
            (t.snapshot_mgr->0).thread_local_states@,
            (t.snapshot_mgr->0).global_state,
        )
    }

    /// No operation runs.
    pub open spec fn drained(t: &BfTree) -> bool {
        snapshot::phase_completed(
            (t.snapshot_mgr->0).thread_local_states@,
            INVALID_SNAPSHOT_STATE,
        )
    }

    /// From `Prepare` to `InProgress`: the tree as it is now is what the
    /// snapshot will hold.
    fn freeze(&self, tree: &mut BfTree)
        requires
            old(tree).wf(),
            run_ok(self, &*old(tree)),
            (old(tree).snapshot_mgr->0).phase() == PhaseId::Prepare,
        ensures
            final(tree).wf(),
            run_ok(self, &*final(tree)),
            only_mgr_differs(&*old(tree), &*final(tree)),
            (final(tree).snapshot_mgr->0).phase() == PhaseId::InProgress,
            (final(tree).snapshot_mgr->0).frozen@ == old(tree).model(),
            (final(tree).snapshot_mgr->0).capture() == no_capture(),
    {
        let ghost c = tree.model();
        match &mut tree.snapshot_mgr {
            None => {},
            Some(mgr) => {
                let _state = mgr.advance_global_state();
                proof {
                    mgr.frozen@ = c;
                }
            },
        }
        assert(tree.model() == c);
        proof {
            let cap = (tree.snapshot_mgr->0).capture();
            assert(cap == no_capture());
            capture::lemma_tracks_start(c, cap, self.version);
            assert forall|i: int| 0 <= i < c.pages.len() && (
            #[trigger] c.pages[i]).is_cached() implies tree.storage.circular_buffer.has(
                i as u64,
                c.pages[i].size(),
            ) by {
                assert(c.pages[i] == tree.storage.page_table@[i]@);
            }
            storage::lemma_minis_fit(c.pages, &tree.storage.circular_buffer);
        }
    }

    /// From `InProgress` to `Sweep`.
    fn begin_sweep(&self, tree: &mut BfTree)
        requires
            old(tree).wf(),
            run_ok(self, &*old(tree)),
            (old(tree).snapshot_mgr->0).phase() == PhaseId::InProgress,
            SnapshotRun::entered(&*old(tree)),
        ensures
            final(tree).wf(),
            run_ok(self, &*final(tree)),
            only_mgr_differs(&*old(tree), &*final(tree)),
            (final(tree).snapshot_mgr->0).phase() == PhaseId::Sweep,
            !(final(tree).snapshot_mgr->0).pause_snapshot,
            (final(tree).snapshot_mgr->0).frozen == (old(tree).snapshot_mgr->0).frozen,
            (final(tree).snapshot_mgr->0).capture() == (old(tree).snapshot_mgr->0).capture(),
    {
        let ghost c = tree.model();
        match &mut tree.snapshot_mgr {
            None => {},
            Some(mgr) => {
                let _state = mgr.advance_global_state();
            },
        }
        assert(tree.model() == c);
    }

    /// No operation is admitted until the sweep is done.
    fn pause(&self, tree: &mut BfTree)
        requires
            old(tree).wf(),
            run_ok(self, &*old(tree)),
            (old(tree).snapshot_mgr->0).phase() == PhaseId::Sweep,
        ensures
            final(tree).wf(),
            run_ok(self, &*final(tree)),
            only_mgr_differs(&*old(tree), &*final(tree)),
            (final(tree).snapshot_mgr->0).global_state == (old(tree).snapshot_mgr->0).global_state,
            (final(tree).snapshot_mgr->0).pause_snapshot,
            (final(tree).snapshot_mgr->0).frozen == (old(tree).snapshot_mgr->0).frozen,
            (final(tree).snapshot_mgr->0).capture() == (old(tree).snapshot_mgr->0).capture(),
    {
        let ghost c = tree.model();
        match &mut tree.snapshot_mgr {
            None => {},
            Some(mgr) => {
                mgr.pause_snapshot = true;
                assert(mgr.capture() =~= (old(tree).snapshot_mgr->0).capture());
            },
        }
        assert(tree.model() == c);
    }

    /// From `Sweep` to `Rest`: everything that no operation has copied is
    /// copied. No operation runs meanwhile.
    fn finish_sweep(&mut self, tree: &mut BfTree)
        requires
            old(tree).wf(),
            run_ok(&*old(self), &*old(tree)),
            (old(tree).snapshot_mgr->0).phase() == PhaseId::Sweep,
        ensures
            final(tree).wf(),
            run_ok(&*final(self), &*final(tree)),
            final(self).version == old(self).version,
            final(self).inner_count == old(tree).model().sk.nodes.len(),
            final(self).leaf_count == old(tree).model().pages.len(),
            run::lists_exact(
                old(tree).model(),
                old(tree).cache_only,
                (old(self).version + 1) as u64,
                final(self).lists@,
            ),
            only_mgr_differs(&*old(tree), &*final(tree)),
            (final(tree).snapshot_mgr->0).phase() == PhaseId::Rest,
            (final(tree).snapshot_mgr->0).frozen == (old(tree).snapshot_mgr->0).frozen,
            run::fits(
                (old(tree).snapshot_mgr->0).capture(),
                (final(tree).snapshot_mgr->0).capture(),
                run::sweep_room(
                    old(tree).model().sk.nodes.len(),
                    old(tree).model().pages.len(),
                ),
            ),
    {
        let ghost c = tree.model();
        let ghost f = (tree.snapshot_mgr->0).frozen@;
        let ghost p = tree.params();
        proof {
            model::lemma_total_keys_min(c.sk.nodes);
            assert(capture::tracks(
                c,
                (tree.snapshot_mgr->0).capture(),
                f,
                ((tree.snapshot_mgr->0).version() - 1) as u64,
            ));
        }
        self.inner_count = tree.inners.len();
        self.leaf_count = tree.sweep(self.version + 1, &mut self.lists);
        let ghost swept = (tree.snapshot_mgr->0).capture();
        match &mut tree.snapshot_mgr {
            None => {},
            Some(mgr) => {
                mgr.pause_snapshot = false;
                assert(mgr.capture() =~= swept);
                let _state = mgr.advance_global_state();
            },
        }
        assert(tree.model() == c);
    }

    /// The end of the snapshot.
    fn finish(&self, tree: &mut BfTree) -> (r: Option<Vec<u8>>)
        requires
            old(tree).wf(),
            run_ok(self, &*old(tree)),
            (old(tree).snapshot_mgr->0).phase() == PhaseId::Rest,
        ensures
            final(tree).wf(),
            only_mgr_differs(&*old(tree), &*final(tree)),
            (final(tree).snapshot_mgr->0).global_state == (old(tree).snapshot_mgr->0).global_state,
            !(final(tree).snapshot_mgr->0).snapshot_in_progress,
            !(final(tree).snapshot_mgr->0).pause_snapshot,
            (final(tree).snapshot_mgr->0).capture() == no_capture(),
            r matches Some(b) ==> finalize::holds(
                b@,
                (old(tree).snapshot_mgr->0).frozen@,
                old(tree).config,
                self.version,
            ) && finalize::finished(
                b@,
                (old(tree).snapshot_mgr->0).capture(),
                self.lists@,
                self.inner_count as nat,
                self.leaf_count as nat,
                old(tree).config.cache_only,
            ),
            (old(tree).snapshot_mgr->0).capture().full ==> r is None,
            !(old(tree).snapshot_mgr->0).capture().full && (old(
                tree).snapshot_mgr->0).capture().next_offset + finalize::lists_room(
                self.inner_count as nat,
                self.leaf_count as nat,
            ) <= usize::MAX ==> r is Some,
    {
        let ghost c = tree.model();
        let config: Config = tree.config;
        let mut r: Option<Vec<u8>> = None;
        match &mut tree.snapshot_mgr {
            None => {},
            Some(mgr) => {
                r =
                mgr.finalize(
                    self.version,
                    &self.lists,
                    self.inner_count,
                    self.leaf_count,
                    &config,
                );
                mgr.snapshot_in_progress = false;
                assert(mgr.capture() =~= no_capture());
            },
        }
        assert(tree.model() == c);
        r
    }

    /// One step of the snapshot: if all operations that run have entered the
    /// present phase, the next one begins. Before the sweep, no operation may
    /// run.
    pub fn step(&mut self, tree: &mut BfTree) -> (r: StepResult)
        requires
            old(tree).wf(),
            run_ok(&*old(self), &*old(tree)),
        ensures
            final(tree).wf(),
            only_mgr_differs(&*old(tree), &*final(tree)),
            final(self).version == old(self).version,
            stepped(&*old(self), &*old(tree), &*final(self), &*final(tree), &r),
    {
        let (phase, paused, entered, drained) = match &tree.snapshot_mgr {
            None => (PhaseId::Rest, false, false, false),
            Some(mgr) => (
                mgr.get_global_phase_id(),
                mgr.pause_snapshot,
                mgr.check_if_phase_completed(mgr.global_state),
                mgr.check_if_phase_completed(INVALID_SNAPSHOT_STATE),
            ),
        };
        match phase {
            PhaseId::Prepare => {
                if !entered {
                    return StepResult::Wait;
                }
                self.freeze(tree);
                StepResult::Advanced
            },
            PhaseId::InProgress => {
                if !entered {
                    return StepResult::Wait;
                }
                self.begin_sweep(tree);
                StepResult::Advanced
            },
            PhaseId::Sweep => {
                if !paused {
                    if !entered {
                        return StepResult::Wait;
                    }
                    self.pause(tree);
                }
                if !drained {
                    return StepResult::Wait;
                }
                self.finish_sweep(tree);
                StepResult::Advanced
            },
            PhaseId::Rest => {
                if !entered {
                    return StepResult::Wait;
                }
                match self.finish(tree) {
                    Some(b) => StepResult::Done(b),
                    None => StepResult::TooLarge,
                }
            },
        }
    }
}

/// What a step of a snapshot does.
pub open spec fn stepped(
    run0: &SnapshotRun,
    t0: &BfTree,
    run1: &SnapshotRun,
    t1: &BfTree,
    r: &StepResult,
) -> bool {
    let m0 = t0.snapshot_mgr->0;
    let m1 = t1.snapshot_mgr->0;
    let goes_on = SnapshotRun::entered(t0) || (m0.phase() == PhaseId::Sweep && m0.pause_snapshot);
    let waits = !goes_on || (m0.phase() == PhaseId::Sweep && !SnapshotRun::drained(t0));
    &&& match r {
        StepResult::Wait => waits,
        StepResult::Advanced => !waits && m0.phase() != PhaseId::Rest,
        _ => !waits && m0.phase() == PhaseId::Rest,
    }
    // Nothing but the start of the pause happens while waiting.
    &&& r is Wait ==> {
        &&& run_ok(run1, t1)
        &&& m1.global_state == m0.global_state
        &&& m1.frozen == m0.frozen
        &&& m1.capture() == m0.capture()
        &&& m1.pause_snapshot == (m0.phase() == PhaseId::Sweep && goes_on)
    }
    &&& r is Advanced ==> {
        &&& run_ok(run1, t1)
        &&& m1.phase() == m0.phase().succ()
        &&& !m1.pause_snapshot
        // The tree at the end of `Prepare` is the one that the snapshot holds.
        &&& m1.frozen@ == if m0.phase() == PhaseId::Prepare {
            t0.model()
        } else {
            m0.frozen@
        }
        &&& m0.phase() == PhaseId::Prepare ==> m1.capture() == no_capture()
        &&& m0.phase() == PhaseId::InProgress ==> m1.capture() == m0.capture()
        &&& m0.phase() == PhaseId::Sweep ==> {
            &&& run1.inner_count == t0.model().sk.nodes.len()
            &&& run1.leaf_count == t0.model().pages.len()
            &&& run::lists_exact(
                t0.model(),
                t0.cache_only,
                (run0.version + 1) as u64,
                run1.lists@,
            )
            &&& run::fits(
                m0.capture(),
                m1.capture(),
                run::sweep_room(t0.model().sk.nodes.len(), t0.model().pages.len()),
            )
        }
    }
    &&& r is Done || r is TooLarge ==> {
        &&& !m1.snapshot_in_progress
        &&& !m1.pause_snapshot
        &&& m1.global_state == m0.global_state
        &&& m1.capture() == no_capture()
    }
    &&& r matches StepResult::Done(b) ==> finalize::holds(
        b@,
        m0.frozen@,
        t0.config,
        run0.version,
    ) && finalize::finished(
        b@,
        m0.capture(),
        run0.lists@,
        run0.inner_count as nat,
        run0.leaf_count as nat,
        t0.config.cache_only,
    )
    // A file that found no room is given up, and only one that cannot be held.
    &&& r is Done ==> !m0.capture().full
    &&& r is TooLarge ==> m0.capture().full || m0.capture().next_offset + finalize::lists_room(
        run0.inner_count as nat,
        run0.leaf_count as nat,
    ) > usize::MAX
}

impl CPRSnapShotMgr {
    /// No operation holds a slot.
    pub open spec fn idle(&self) -> bool {
        forall|i: int| 0 <= i < self.thread_slots@.len() ==> !(#[trigger] self.thread_slots@[i])
    }

    /// Takes a snapshot of `tree` while no operation runs.
    pub fn snapshot(tree: &mut BfTree) -> (r: SnapshotResult)
        requires
            old(tree).wf(),
            old(tree).snapshot_mgr is Some,
            !(old(tree).snapshot_mgr->0).snapshot_in_progress ==> {
                &&& (old(tree).snapshot_mgr->0).idle()
                &&& (old(tree).snapshot_mgr->0).phase() == PhaseId::Rest
                &&& (old(tree).snapshot_mgr->0).version() + 1 < SNAPSHOT_STATE_VERSION_NUM
                &&& !(old(tree).snapshot_mgr->0).pause_snapshot
            },
        ensures
            final(tree).wf(),
            r is Busy <==> (old(tree).snapshot_mgr->0).snapshot_in_progress,
            r is Busy ==> *final(tree) == *old(tree),
            !(r is Busy) ==> snapshot_taken(&*old(tree), &*final(tree)),
            r matches SnapshotResult::Done(b) ==> finalize::holds(
                b@,
                old(tree).model(),
                old(tree).config,
                (old(tree).snapshot_mgr->0).version(),
            ) && pages_counted(b@, &*old(tree)),
            usize::MAX >= SNAPSHOT_ROOM && !(old(tree).snapshot_mgr->0).snapshot_in_progress
                ==> r is Done,
    {
        let mut run = match SnapshotRun::start(tree) {
            None => {
                return SnapshotResult::Busy;
            },
            Some(run) => run,
        };
        let ghost c = tree.model();
        let ghost config = tree.config;
        let ghost before = *tree;
        proof {
            model::lemma_total_keys_min(c.sk.nodes);
        }
        let mut left: u64 = 4;
        loop
            invariant
                1 <= left <= 4,
                tree.wf(),
                run_ok(&run, &*tree),
                only_mgr_differs(&before, &*tree),
                only_mgr_differs(&*old(tree), &before),
                before.model() == c,
                before.config == config,
                config == old(tree).config,
                c == old(tree).model(),
                c.sk.nodes.len() <= PAGE_LIMIT,
                c.pages.len() <= PAGE_LIMIT,
                run.version == (old(tree).snapshot_mgr->0).version(),
                (old(tree).snapshot_mgr->0).wf(),
                (old(tree).snapshot_mgr->0).idle(),
                !(old(tree).snapshot_mgr->0).snapshot_in_progress,
                !(tree.snapshot_mgr->0).pause_snapshot,
                left == 4 ==> (tree.snapshot_mgr->0).phase() == PhaseId::Prepare,
                left == 3 ==> (tree.snapshot_mgr->0).phase() == PhaseId::InProgress && (
                tree.snapshot_mgr->0).capture() == no_capture(),
                left == 2 ==> (tree.snapshot_mgr->0).phase() == PhaseId::Sweep && (
                tree.snapshot_mgr->0).capture() == no_capture(),
                left == 1 ==> {
                    &&& (tree.snapshot_mgr->0).phase() == PhaseId::Rest
                    &&& run.inner_count == c.sk.nodes.len()
                    &&& run.leaf_count == c.pages.len()
                    &&& run::fits(
                        no_capture(),
                        (tree.snapshot_mgr->0).capture(),
                        run::sweep_room(c.sk.nodes.len(), c.pages.len()),
                    )
                },
                left < 4 ==> (tree.snapshot_mgr->0).frozen@ == c,
            decreases left,
        {
            proof {
                assert forall|i: int|
                    0 <= i < (tree.snapshot_mgr->0).thread_local_states@.len() implies #[trigger] (
                tree.snapshot_mgr->0).thread_local_states@[i] == INVALID_SNAPSHOT_STATE by {
                    assert(!(old(tree).snapshot_mgr->0).thread_slots@[i]);
                }
            }
            match run.step(tree) {
                StepResult::Wait => {
                    // No operation runs, so there is nothing to wait for.
                    assert(false);
                    return SnapshotResult::TooLarge;
                },
                StepResult::Advanced => {
                    left = left - 1;
                },
                StepResult::Done(b) => {
                    return SnapshotResult::Done(b);
                },
                StepResult::TooLarge => {
                    return SnapshotResult::TooLarge;
                },
            }
        }
    }
}

/// The header of a snapshot file counts the tree's leaf pages: all of them, or
/// those on disk if there is one.
pub open spec fn pages_counted(b: Seq<u8>, t: &BfTree) -> bool {
    &&& meta::parse_meta(b) matches Some(m) && m.leaf_page_num == if t.config.cache_only {
        t.model().pages.len()
    } else {
        (m.base_size / 16) as nat
    }
}

/// A snapshot was taken: the tree is what it was, under the next version.
pub open spec fn snapshot_taken(before: &BfTree, after: &BfTree) -> bool {
    let m0 = before.snapshot_mgr->0;
    let m1 = after.snapshot_mgr->0;
    &&& only_mgr_differs(before, after)
    &&& m1.phase() == PhaseId::Rest
    &&& m1.version() == m0.version() + 1
    &&& !m1.snapshot_in_progress
    &&& !m1.pause_snapshot
    &&& m1.idle()
}

impl BfTree {
    /// Takes a snapshot, while no operation runs. Snapshots are enabled in the
    /// configuration.
    pub fn cpr_snapshot(&mut self) -> (r: SnapshotResult)
        requires
            old(self).wf(),
            old(self).snapshot_mgr is Some,
            !(old(self).snapshot_mgr->0).snapshot_in_progress ==> {
                &&& (old(self).snapshot_mgr->0).idle()
                &&& (old(self).snapshot_mgr->0).phase() == PhaseId::Rest
                &&& (old(self).snapshot_mgr->0).version() + 1 < SNAPSHOT_STATE_VERSION_NUM
                &&& !(old(self).snapshot_mgr->0).pause_snapshot
            },
        ensures
            final(self).wf(),
            r is Busy <==> (old(self).snapshot_mgr->0).snapshot_in_progress,
            r is Busy ==> *final(self) == *old(self),
            !(r is Busy) ==> snapshot_taken(&*old(self), &*final(self)) && final(self)@ == old(
                self)@,
            r matches SnapshotResult::Done(b) ==> finalize::holds(
                b@,
                old(self).model(),
                old(self).config,
                (old(self).snapshot_mgr->0).version(),
            ) && pages_counted(b@, &*old(self)),
            usize::MAX >= SNAPSHOT_ROOM && !(old(self).snapshot_mgr->0).snapshot_in_progress
                ==> r is Done,
    {
        CPRSnapShotMgr::snapshot(self)
    }

    /// No thread runs in the version that the current snapshot captures any more.
    pub open spec fn all_in_the_next_version(&self) -> bool {
        self.snapshot_mgr matches Some(m) && m.past_the_old_version()
    }

    /// Whether all threads are running in the next version of the current
    /// snapshot.
    pub fn are_all_threads_in_next_snapshot_version(&self) -> (r: bool)
        requires
            self.wf(),
        ensures
            r == self.all_in_the_next_version(),
            r == match self.snapshot_mgr {
                Some(m) => m.past_the_old_version(),
                None => false,
            },
            r <==> (self.snapshot_mgr matches Some(m) && m.snapshot_in_progress && m.phase()
                != PhaseId::Prepare && m.phase() != PhaseId::InProgress),
    {
        match &self.snapshot_mgr {
            Some(m) => m.are_all_threads_in_next_version(),
            None => false,
        }
    }
}

/// From one moment to the next while a snapshot is in progress, a worker or the
/// snapshot itself gets on.
pub open spec fn passes(
    run0: &SnapshotRun,
    t0: &BfTree,
    run1: &SnapshotRun,
    t1: &BfTree,
) -> bool {
    ||| run1 == run0 && worked(t0, t1)
    ||| {
        &&& t1.wf()
        &&& only_mgr_differs(t0, t1)
        &&& run1.version == run0.version
        &&& stepped(run0, t0, run1, t1, &StepResult::Wait) || stepped(
            run0,
            t0,
            run1,
            t1,
            &StepResult::Advanced,
        )
    }
}

/// The moments of a snapshot, from its start on.
pub open spec fn moments(runs: Seq<SnapshotRun>, trees: Seq<BfTree>) -> bool {
    &&& 0 < runs.len() == trees.len()
    &&& trees[0].wf()
    &&& run_ok(&runs[0], &trees[0])
    &&& (trees[0].snapshot_mgr->0).phase() == PhaseId::Prepare
    &&& forall|i: int|
        #![trigger runs[i]]
        0 <= i < runs.len() - 1 ==> passes(
            &runs[i],
            &trees[i],
            &runs[i + 1],
            &trees[i + 1],
        )
}

/// Moment `i` is the last one of the phase in which workers still write to the
/// state that is captured.
pub open spec fn ends_prepare(trees: Seq<BfTree>, i: int) -> bool {
    &&& 0 <= i < trees.len() - 1
    &&& (trees[i].snapshot_mgr->0).phase() == PhaseId::Prepare
    &&& (trees[i + 1].snapshot_mgr->0).phase() == PhaseId::InProgress
}

pub(crate) proof fn lemma_frozen_at(runs: Seq<SnapshotRun>, trees: Seq<BfTree>, n: int)
    requires
        moments(runs, trees),
        0 <= n < runs.len(),
    ensures
        trees[n].wf(),
        run_ok(&runs[n], &trees[n]),
        trees[n].config == trees[0].config,
        runs[n].version == runs[0].version,
        (trees[n].snapshot_mgr->0).phase() != PhaseId::Prepare ==> exists|i: int| #[trigger]
            ends_prepare(trees, i) && i < n && (trees[n].snapshot_mgr->0).frozen@
                == trees[i].model(),
    decreases n,
{
    if n > 0 {
        let k = n - 1;
        lemma_frozen_at(runs, trees, k);
        assert(passes(&runs[k], &trees[k], &runs[k + 1], &trees[k + 1]));
        let m0 = trees[k].snapshot_mgr->0;
        let m1 = trees[n].snapshot_mgr->0;
        if m0.phase() == PhaseId::Prepare {
            if m1.phase() != PhaseId::Prepare {
                assert(ends_prepare(trees, k));
            }
        } else {
            let i = choose|i: int| #[trigger]
                ends_prepare(trees, i) && i < k && m0.frozen@ == trees[i].model();
            assert(ends_prepare(trees, i) && i < n && m1.frozen@ == trees[i].model());
        }
    }
}

/// A snapshot captures a consistent prefix: whatever workers did while it was in
/// progress, its file holds the tree as it was at one moment, with all that was
/// done before the phase `Prepare` ended and nothing that was done later.
pub proof fn law_snapshot_holds_one_moment(
    runs: Seq<SnapshotRun>,
    trees: Seq<BfTree>,
    run: &SnapshotRun,
    tree: &BfTree,
    file: Vec<u8>,
)
    requires
        moments(runs, trees),
        stepped(&runs.last(), &trees.last(), run, tree, &StepResult::Done(file)),
    ensures
        exists|i: int| #[trigger]
            ends_prepare(trees, i) && finalize::holds(
                file@,
                trees[i].model(),
                trees[0].config,
                runs[0].version,
            ),
{
    let n = runs.len() - 1;
    lemma_frozen_at(runs, trees, n);
    let m = trees.last().snapshot_mgr->0;
    let i = choose|i: int| #[trigger]
        ends_prepare(trees, i) && i < n && m.frozen@ == trees[i].model();
    assert(ends_prepare(trees, i));
}

} // verus!
