//! Snapshots by concurrent prefix recovery. A snapshot moves through phases;
//! operations that run under its new version copy each page of the old version
//! into the snapshot file before they change it, and a sweep copies the rest.
use vstd::prelude::*;

use crate::fs::MemoryVfs;
use crate::model::Core;
use crate::nodes::inner_node::{InnerNode, INNER_NODE_SIZE};
use crate::nodes::{PageID, DISK_PAGE_SIZE};

pub mod capture;
pub mod finalize;
pub mod meta;
pub mod places;
pub mod prefix;
pub mod recovery;
pub mod run;
pub mod sound_nodes;
pub mod sound_pages;
pub mod steps;

verus! {

/// Stands for a guard without a slot.
pub const INVALID_SNAPSHOT_THREAD_ID: usize = usize::MAX;

/// Stands for the place of an evicted page, which has none.
pub const NULL_PAGE_LOCATION_OFFSET: usize = usize::MAX;

/// The state of a slot that nobody holds.
pub const INVALID_SNAPSHOT_STATE: u64 = 0xffff_ffff_ffff_ffff;

/// The version under which operations run when there are no snapshots.
pub const INVALID_SNAPSHOT_VERSION: u64 = 0x7fff_ffff_ffff_ffff;

/// The number of operations that can run at the same time.
pub const DEFAULT_MAX_SNAPSHOT_THREAD_NUM: usize = 64;

/// States are a phase in the upper three bits and a version below.
pub const SNAPSHOT_STATE_VERSION_NUM: u64 = 0x2000_0000_0000_0000;

/// The number of phases.
pub const SNAPSHOT_STATE_PHASE_NUM: u64 = 4;

/// Snapshot phase identifier.
#[derive(Debug, Clone, Copy, PartialEq, Eq, Structural)]
pub enum PhaseId {
    Rest,
    Prepare,
    InProgress,
    Sweep,
}

impl PhaseId {
    pub open spec fn code(self) -> u64 {
        match self {
            PhaseId::Rest => 0,
            PhaseId::Prepare => 1,
            PhaseId::InProgress => 2,
            PhaseId::Sweep => 3,
        }
    }

    /// The phase that follows.
    pub open spec fn succ(self) -> PhaseId {
        match self {
            PhaseId::Rest => PhaseId::Prepare,
            PhaseId::Prepare => PhaseId::InProgress,
            PhaseId::InProgress => PhaseId::Sweep,
            PhaseId::Sweep => PhaseId::Rest,
        }
    }

    /// Whether operations have to copy old pages before they change them.
    pub open spec fn captures(self) -> bool {
        self == PhaseId::InProgress || self == PhaseId::Sweep
    }

    pub fn from_raw(value: u64) -> (r: PhaseId)
        requires
            value < SNAPSHOT_STATE_PHASE_NUM,
        ensures
            r.code() == value,
            r == PhaseId::Rest <==> value == 0,
            r == PhaseId::Prepare <==> value == 1,
            r == PhaseId::InProgress <==> value == 2,
            r == PhaseId::Sweep <==> value == 3,
    {
        if value == 0 {
            PhaseId::Rest
        } else if value == 1 {
            PhaseId::Prepare
        } else if value == 2 {
            PhaseId::InProgress
        } else {
            PhaseId::Sweep
        }
    }

    pub fn as_raw(self) -> (r: u64)
        ensures
            r == self.code(),
    {
        match self {
            PhaseId::Rest => 0,
            PhaseId::Prepare => 1,
            PhaseId::InProgress => 2,
            PhaseId::Sweep => 3,
        }
    }
}

/// The phase in a state.
pub open spec fn phase_of(state: u64) -> PhaseId {
    let p = state / SNAPSHOT_STATE_VERSION_NUM;
    if p == 0 {
        PhaseId::Rest
    } else if p == 1 {
        PhaseId::Prepare
    } else if p == 2 {
        PhaseId::InProgress
    } else {
        PhaseId::Sweep
    }
}

/// The version in a state.
pub open spec fn version_of(state: u64) -> u64 {
    state % SNAPSHOT_STATE_VERSION_NUM
}

/// A number that is a state.
pub open spec fn is_state(state: u64) -> bool {
    state / SNAPSHOT_STATE_VERSION_NUM < SNAPSHOT_STATE_PHASE_NUM
}

/// A state and its two parts determine each other.
pub proof fn law_a_state_is_its_two_parts(phase: PhaseId, version: u64)
    requires
        version < SNAPSHOT_STATE_VERSION_NUM,
    ensures
        ({
            let s = (phase.code() * SNAPSHOT_STATE_VERSION_NUM + version) as u64;
            &&& s == phase.code() * SNAPSHOT_STATE_VERSION_NUM + version
            &&& is_state(s)
            &&& phase_of(s) == phase
            &&& version_of(s) == version
            &&& s != INVALID_SNAPSHOT_STATE
        }),
{
}

/// Where the pages of one kind were copied to: per slot, page ids and places.
pub type Mappings = Vec<Vec<(PageID, usize)>>;

/// The coordinator of snapshots.
pub struct CPRSnapShotMgr {
    pub global_state: u64,
    /// Which slots are held.
    pub thread_slots: Vec<bool>,
    /// The state that each slot's holder runs in.
    pub thread_local_states: Vec<u64>,
    pub thread_local_inner_mappings: Mappings,
    pub thread_local_base_mappings: Mappings,
    pub thread_local_mini_mappings: Mappings,
    pub thread_local_mini_size_mappings: Mappings,
    /// The root of the tree that is being captured; zero until it is known.
    pub root_id: u64,
    pub pause_snapshot: bool,
    /// The snapshot file.
    pub vfs: MemoryVfs,
    pub snapshot_in_progress: bool,
    /// Counts releases, for whoever waits for one.
    pub phase_waiter: u32,
    /// The tree as it was when the new version began.
    pub frozen: Ghost<Core>,
}

/// The first free slot in turn from `start`.
pub open spec fn is_first_free(slots: Seq<bool>, start: int, tid: int) -> bool {
    let n = DEFAULT_MAX_SNAPSHOT_THREAD_NUM as int;
    exists|i: int|
        #![trigger slots[i % n]]
        start <= i < 2 * n && i % n == tid && !slots[i % n] && forall|h: int|
            start <= h < i ==> #[trigger] slots[h % n]
}

/// Every slot is free or in `target`.
pub open spec fn phase_completed(states: Seq<u64>, target: u64) -> bool {
    forall|i: int|
        0 <= i < states.len() ==> #[trigger] states[i] == INVALID_SNAPSHOT_STATE || states[i]
            == target
}

pub open spec fn empty_mappings() -> Seq<Seq<(PageID, usize)>> {
    Seq::new(DEFAULT_MAX_SNAPSHOT_THREAD_NUM as nat, |i: int| Seq::empty())
}

pub open spec fn maps(m: Mappings) -> Seq<Seq<(PageID, usize)>> {
    m@.map_values(|v: Vec<(PageID, usize)>| v@)
}

/// What the coordinator has captured.
#[verifier::ext_equal]
pub struct Capture {
    pub inner: Seq<Seq<(PageID, usize)>>,
    pub base: Seq<Seq<(PageID, usize)>>,
    pub mini: Seq<Seq<(PageID, usize)>>,
    pub mini_size: Seq<Seq<(PageID, usize)>>,
    pub root_id: u64,
    pub data: Seq<u8>,
    pub next_offset: usize,
    pub full: bool,
}

/// Mapping `m` with one entry more in slot `tid`.
pub open spec fn entry_added(
    m: Seq<Seq<(PageID, usize)>>,
    tid: int,
    e: (PageID, usize),
) -> Seq<Seq<(PageID, usize)>> {
    m.update(tid, m[tid].push(e))
}

impl CPRSnapShotMgr {
    pub open spec fn phase(&self) -> PhaseId {
        phase_of(self.global_state)
    }

    pub open spec fn version(&self) -> u64 {
        version_of(self.global_state)
    }

    pub open spec fn capture(&self) -> Capture {
        Capture {
            inner: maps(self.thread_local_inner_mappings),
            base: maps(self.thread_local_base_mappings),
            mini: maps(self.thread_local_mini_mappings),
            mini_size: maps(self.thread_local_mini_size_mappings),
            root_id: self.root_id,
            data: self.vfs.data@,
            next_offset: self.vfs.next_offset,
            full: self.vfs.full,
        }
    }

    pub open spec fn wf(&self) -> bool {
        let n = DEFAULT_MAX_SNAPSHOT_THREAD_NUM;
        &&& is_state(self.global_state)
        &&& self.thread_slots@.len() == n
        &&& self.thread_local_states@.len() == n
        &&& self.thread_local_inner_mappings@.len() == n
        &&& self.thread_local_base_mappings@.len() == n
        &&& self.thread_local_mini_mappings@.len() == n
        &&& self.thread_local_mini_size_mappings@.len() == n
        &&& self.vfs.wf()
        &&& forall|i: int|
            0 <= i < n && !(#[trigger] self.thread_slots@[i]) ==> self.thread_local_states@[i]
                == INVALID_SNAPSHOT_STATE
    }

    /// Everything but the slots and the waiters' counter is as in `other`.
    pub open spec fn only_slots_differ(&self, other: &CPRSnapShotMgr) -> bool {
        &&& self.global_state == other.global_state
        &&& self.capture() == other.capture()
        &&& self.pause_snapshot == other.pause_snapshot
        &&& self.snapshot_in_progress == other.snapshot_in_progress
        &&& self.frozen == other.frozen
    }

    /// Everything but what was captured is as in `other`.
    pub open spec fn only_capture_differs(&self, other: &CPRSnapShotMgr) -> bool {
        &&& self.global_state == other.global_state
        &&& self.thread_slots == other.thread_slots
        &&& self.thread_local_states == other.thread_local_states
        &&& self.phase_waiter == other.phase_waiter
        &&& self.pause_snapshot == other.pause_snapshot
        &&& self.snapshot_in_progress == other.snapshot_in_progress
        &&& self.frozen == other.frozen
    }

    /// The worker that claimed slot `tid` may go on: what it published is the
    /// present state, and no pause has been asked for.
    pub open spec fn confirms(&self, tid: int) -> bool {
        self.thread_local_states@[tid] == self.global_state && !self.pause_snapshot
    }

    /// A reservation can succeed.
    pub open spec fn admits(&self) -> bool {
        &&& !self.pause_snapshot
        &&& exists|i: int| 0 <= i < self.thread_slots@.len() && !(#[trigger] self.thread_slots@[i])
    }

    /// The snapshot in progress is at a phase that begins only when every worker
    /// has moved on to the version after that of the snapshot.
    pub open spec fn past_the_old_version(&self) -> bool {
        self.snapshot_in_progress && (self.phase() == PhaseId::Sweep || self.phase()
            == PhaseId::Rest)
    }

    /// Every worker that has a state runs in version `v`.
    pub open spec fn workers_in(&self, v: int) -> bool {
        forall|i: int|
            0 <= i < self.thread_local_states@.len() ==> (
            #[trigger] self.thread_local_states@[i]) == INVALID_SNAPSHOT_STATE || version_of(
                self.thread_local_states@[i],
            ) == v
    }

    pub fn are_all_threads_in_next_version(&self) -> (r: bool)
        requires
            self.wf(),
        ensures
            r == self.past_the_old_version(),
            r <==> self.snapshot_in_progress && self.phase() != PhaseId::Prepare && self.phase()
                != PhaseId::InProgress,
    {
        if !self.snapshot_in_progress {
            false
        } else {
            let global_phase_id = self.get_global_phase_id();
            match global_phase_id {
                PhaseId::Sweep | PhaseId::Rest => true,
                PhaseId::Prepare | PhaseId::InProgress => false,
            }
        }
    }

    fn new_mappings() -> (r: Mappings)
        ensures
            maps(r) == empty_mappings(),
            r@.len() == DEFAULT_MAX_SNAPSHOT_THREAD_NUM,
    {
        let mut r: Mappings = Vec::new();
        let mut i: usize = 0;
        while i < DEFAULT_MAX_SNAPSHOT_THREAD_NUM
            invariant
                i <= DEFAULT_MAX_SNAPSHOT_THREAD_NUM,
                r@.len() == i,
                forall|j: int| 0 <= j < i ==> (#[trigger] r@[j])@ == Seq::<(PageID, usize)>::empty(),
            decreases DEFAULT_MAX_SNAPSHOT_THREAD_NUM - i,
        {
            r.push(Vec::new());
            i += 1;
        }
        assert(maps(r) =~= empty_mappings());
        r
    }

    /// Initialize a new snapshot instance.
    pub fn new(version: u64) -> (r: CPRSnapShotMgr)
        requires
            version < SNAPSHOT_STATE_VERSION_NUM,
        ensures
            r.wf(),
            r.phase() == PhaseId::Rest,
            r.version() == version,
            r.global_state == version,
            r.phase_waiter == 0,
            r.capture() == (Capture {
                inner: empty_mappings(),
                base: empty_mappings(),
                mini: empty_mappings(),
                mini_size: empty_mappings(),
                root_id: 0,
                data: Seq::empty(),
                next_offset: DISK_PAGE_SIZE,
                full: false,
            }),
            !r.pause_snapshot,
            !r.snapshot_in_progress,
            forall|i: int|
                0 <= i < DEFAULT_MAX_SNAPSHOT_THREAD_NUM ==> !(#[trigger] r.thread_slots@[i]),
            r.admits(),
    {
        let mut thread_slots: Vec<bool> = Vec::new();
        let mut thread_local_states: Vec<u64> = Vec::new();
        let mut i: usize = 0;
        while i < DEFAULT_MAX_SNAPSHOT_THREAD_NUM
            invariant
                i <= DEFAULT_MAX_SNAPSHOT_THREAD_NUM,
                thread_slots@.len() == i,
                thread_local_states@.len() == i,
                forall|j: int| 0 <= j < i ==> !(#[trigger] thread_slots@[j]),
                forall|j: int|
                    0 <= j < i ==> #[trigger] thread_local_states@[j] == INVALID_SNAPSHOT_STATE,
            decreases DEFAULT_MAX_SNAPSHOT_THREAD_NUM - i,
        {
            thread_slots.push(false);
            thread_local_states.push(INVALID_SNAPSHOT_STATE);
            i += 1;
        }
        assert(!thread_slots@[0]);
        CPRSnapShotMgr {
            global_state: CPRSnapShotMgr::new_snapshot_state(0, version),
            thread_slots,
            thread_local_states,
            thread_local_inner_mappings: CPRSnapShotMgr::new_mappings(),
            thread_local_base_mappings: CPRSnapShotMgr::new_mappings(),
            thread_local_mini_mappings: CPRSnapShotMgr::new_mappings(),
            thread_local_mini_size_mappings: CPRSnapShotMgr::new_mappings(),
            root_id: 0,
            pause_snapshot: false,
            vfs: MemoryVfs::open(),
            snapshot_in_progress: false,
            phase_waiter: 0,
            frozen: Ghost(arbitrary()),
        }
    }

    /// Forgets what was captured.
    pub(crate) fn reset(&mut self)
        requires
            old(self).wf(),
        ensures
            final(self).wf(),
            final(self).capture() == (Capture {
                inner: empty_mappings(),
                base: empty_mappings(),
                mini: empty_mappings(),
                mini_size: empty_mappings(),
                root_id: 0,
                ..old(self).capture()
            }),
            final(self).global_state == old(self).global_state,
            final(self).thread_slots == old(self).thread_slots,
            final(self).thread_local_states == old(self).thread_local_states,
            final(self).vfs == old(self).vfs,
            final(self).pause_snapshot == old(self).pause_snapshot,
            final(self).snapshot_in_progress == old(self).snapshot_in_progress,
            final(self).frozen == old(self).frozen,
            final(self).phase_waiter == old(self).phase_waiter,
    {
        self.thread_local_inner_mappings = CPRSnapShotMgr::new_mappings();
        self.thread_local_mini_mappings = CPRSnapShotMgr::new_mappings();
        self.thread_local_base_mappings = CPRSnapShotMgr::new_mappings();
        self.thread_local_mini_size_mappings = CPRSnapShotMgr::new_mappings();
        self.root_id = 0;
    }

    /// The state of a phase and a version.
    pub fn new_snapshot_state(phase_id: u64, version: u64) -> (r: u64)
        requires
            phase_id < SNAPSHOT_STATE_PHASE_NUM,
            version < SNAPSHOT_STATE_VERSION_NUM,
        ensures
            r == phase_id * SNAPSHOT_STATE_VERSION_NUM + version,
            is_state(r),
            phase_of(r).code() == phase_id,
            version_of(r) == version,
            r != INVALID_SNAPSHOT_STATE,
    {
        phase_id * SNAPSHOT_STATE_VERSION_NUM + version
    }

    pub fn get_global_version(&self) -> (r: u64)
        ensures
            r == self.version(),
            r == self.global_state % 0x2000_0000_0000_0000,
    {
        self.global_state % SNAPSHOT_STATE_VERSION_NUM
    }

    pub(crate) fn get_global_phase_id(&self) -> (r: PhaseId)
        requires
            self.wf(),
        ensures
            r == self.phase(),
    {
        PhaseId::from_raw(self.global_state / SNAPSHOT_STATE_VERSION_NUM)
    }

    /// Retrieve the local state of a thread specified by its slot id.
    pub(crate) fn get_local_state(&self, thread_slot_id: usize) -> (r: u64)
        requires
            self.wf(),
            thread_slot_id < DEFAULT_MAX_SNAPSHOT_THREAD_NUM,
        ensures
            r == self.thread_local_states@[thread_slot_id as int],
    {
        self.thread_local_states[thread_slot_id]
    }

    fn set_local_state(&mut self, thread_slot_id: usize, state: u64)
        requires
            old(self).wf(),
            thread_slot_id < DEFAULT_MAX_SNAPSHOT_THREAD_NUM,
            old(self).thread_slots@[thread_slot_id as int],
        ensures
            final(self).wf(),
            final(self).only_slots_differ(old(self)),
            final(self).thread_slots == old(self).thread_slots,
            final(self).phase_waiter == old(self).phase_waiter,
            final(self).thread_local_states@ == old(self).thread_local_states@.update(
                thread_slot_id as int,
                state,
            ),
    {
        // Don't dirty the existing state if it's the same.
        let current_state = self.get_local_state(thread_slot_id);
        if current_state == state {
            assert(self.thread_local_states@ =~= self.thread_local_states@.update(
                thread_slot_id as int,
                state,
            ));
            return;
        }
        self.thread_local_states[thread_slot_id] = state;
    }

    /// Move the global snapshot state to the next one.
    pub(crate) fn advance_global_state(&mut self) -> (r: u64)
        requires
            old(self).wf(),
            old(self).phase() == PhaseId::Prepare ==> old(self).version() + 1
                < SNAPSHOT_STATE_VERSION_NUM,
        ensures
            final(self).wf(),
            r == final(self).global_state,
            r != INVALID_SNAPSHOT_STATE,
            final(self).phase() == old(self).phase().succ(),
            final(self).version() == old(self).version() + (if old(self).phase()
                == PhaseId::Prepare {
                1int
            } else {
                0int
            }),
            final(self).capture() == old(self).capture(),
            final(self).thread_slots == old(self).thread_slots,
            final(self).thread_local_states == old(self).thread_local_states,
            final(self).pause_snapshot == old(self).pause_snapshot,
            final(self).snapshot_in_progress == old(self).snapshot_in_progress,
            final(self).frozen == old(self).frozen,
            final(self).vfs == old(self).vfs,
            final(self).phase_waiter == old(self).phase_waiter,
    {
        let phase_id = self.get_global_phase_id();
        let version = self.get_global_version();
        let new_state = match phase_id {
            // (REST, v) -> (PREPARE, v)
            PhaseId::Rest => CPRSnapShotMgr::new_snapshot_state(PhaseId::Prepare.as_raw(), version),
            // (PREPARE, v) -> (IN_PROGRESS, v + 1)
            PhaseId::Prepare => CPRSnapShotMgr::new_snapshot_state(
                PhaseId::InProgress.as_raw(),
                version + 1,
            ),
            // (IN_PROGRESS, v + 1) -> (SWEEPING, v + 1)
            PhaseId::InProgress => CPRSnapShotMgr::new_snapshot_state(
                PhaseId::Sweep.as_raw(),
                version,
            ),
            // (SWEEPING, v + 1) -> (REST, v + 1)
            PhaseId::Sweep => CPRSnapShotMgr::new_snapshot_state(PhaseId::Rest.as_raw(), version),
        };
        self.global_state = new_state;
        new_state
    }

    /// If all thread local states are either invalid or equal to the target
    /// state, return true.
    pub fn check_if_phase_completed(&self, target_state: u64) -> (r: bool)
        requires
            self.wf(),
        ensures
            r == phase_completed(self.thread_local_states@, target_state),
            r <==> forall|i: int|
                0 <= i < 64 ==> #[trigger] self.thread_local_states@[i] == 0xffff_ffff_ffff_ffff
                    || self.thread_local_states@[i] == target_state,
    {
        let mut thread_slot_id: usize = 0;
        while thread_slot_id < DEFAULT_MAX_SNAPSHOT_THREAD_NUM
            invariant
                self.wf(),
                thread_slot_id <= DEFAULT_MAX_SNAPSHOT_THREAD_NUM,
                forall|i: int|
                    0 <= i < thread_slot_id ==> #[trigger] self.thread_local_states@[i]
                        == INVALID_SNAPSHOT_STATE || self.thread_local_states@[i] == target_state,
            decreases DEFAULT_MAX_SNAPSHOT_THREAD_NUM - thread_slot_id,
        {
            let local_state = self.thread_local_states[thread_slot_id];
            if local_state != INVALID_SNAPSHOT_STATE && local_state != target_state {
                return false;
            }
            thread_slot_id += 1;
        }
        true
    }

    /// First step of a reservation: take a free slot, unless reservations are
    /// paused. The search starts at slot `start`.
    pub fn claim_slot(&mut self, start: usize) -> (r: Option<usize>)
        requires
            old(self).wf(),
            start < DEFAULT_MAX_SNAPSHOT_THREAD_NUM,
        ensures
            final(self).wf(),
            final(self).only_slots_differ(old(self)),
            final(self).thread_local_states == old(self).thread_local_states,
            final(self).phase_waiter == old(self).phase_waiter,
            match r {
                Some(tid) => {
                    &&& tid < DEFAULT_MAX_SNAPSHOT_THREAD_NUM
                    &&& !old(self).pause_snapshot
                    &&& is_first_free(old(self).thread_slots@, start as int, tid as int)
                    &&& !old(self).thread_slots@[tid as int]
                    &&& final(self).thread_slots@ == old(self).thread_slots@.update(
                        tid as int,
                        true,
                    )
                },
                None => {
                    &&& !old(self).admits()
                    &&& *final(self) == *old(self)
                },
            },
    {
        if self.pause_snapshot {
            return None;
        }
        let end: usize = 2 * DEFAULT_MAX_SNAPSHOT_THREAD_NUM;
        let mut i: usize = start;
        while i < end
            invariant
                self.wf(),
                *self == *old(self),
                !self.pause_snapshot,
                start < DEFAULT_MAX_SNAPSHOT_THREAD_NUM,
                end == 2 * DEFAULT_MAX_SNAPSHOT_THREAD_NUM,
                start <= i <= end,
                forall|h: int|
                    start <= h < i ==> #[trigger] self.thread_slots@[h
                        % DEFAULT_MAX_SNAPSHOT_THREAD_NUM as int],
            decreases end - i,
        {
            let tid: usize = i % DEFAULT_MAX_SNAPSHOT_THREAD_NUM;
            if !self.thread_slots[tid] {
                assert(is_first_free(old(self).thread_slots@, start as int, tid as int)) by {
                    assert(!old(self).thread_slots@[i as int
                        % DEFAULT_MAX_SNAPSHOT_THREAD_NUM as int]);
                }
                self.thread_slots[tid] = true;
                return Some(tid);
            }
            i += 1;
        }
        assert forall|h: int| 0 <= h < self.thread_slots@.len() implies #[trigger] self.thread_slots@[h] by {
            let g = if h >= start {
                h
            } else {
                h + DEFAULT_MAX_SNAPSHOT_THREAD_NUM
            };
            assert(self.thread_slots@[g % DEFAULT_MAX_SNAPSHOT_THREAD_NUM as int]);
        }
        None
    }

    /// Second step of a reservation: announce the state that was read.
    pub fn publish_state(&mut self, thread_slot_id: usize, state: u64)
        requires
            old(self).wf(),
            thread_slot_id < DEFAULT_MAX_SNAPSHOT_THREAD_NUM,
            old(self).thread_slots@[thread_slot_id as int],
        ensures
            final(self).wf(),
            final(self).only_slots_differ(old(self)),
            final(self).thread_slots == old(self).thread_slots,
            final(self).phase_waiter == old(self).phase_waiter,
            final(self).thread_local_states@ == old(self).thread_local_states@.update(
                thread_slot_id as int,
                state,
            ),
    {
        self.set_local_state(thread_slot_id, state);
    }

    /// Last step of a reservation: keep the slot if the announced state is
    /// still the global state and no pause was requested, else give it back.
    pub fn confirm_slot(&mut self, thread_slot_id: usize) -> (r: bool)
        requires
            old(self).wf(),
            thread_slot_id < DEFAULT_MAX_SNAPSHOT_THREAD_NUM,
            old(self).thread_slots@[thread_slot_id as int],
        ensures
            final(self).wf(),
            final(self).only_slots_differ(old(self)),
            r == old(self).confirms(thread_slot_id as int),
            r <==> old(self).thread_local_states@[thread_slot_id as int] == old(self).global_state
                && !old(self).pause_snapshot,
            r ==> *final(self) == *old(self),
            !r ==> {
                &&& final(self).thread_slots@ == old(self).thread_slots@.update(
                    thread_slot_id as int,
                    false,
                )
                &&& final(self).thread_local_states@ == old(self).thread_local_states@.update(
                    thread_slot_id as int,
                    INVALID_SNAPSHOT_STATE,
                )
                &&& final(self).phase_waiter == if old(self).phase_waiter < u32::MAX {
                    (old(self).phase_waiter + 1) as u32
                } else {
                    0u32
                }
            },
    {
        let current_global = self.global_state;
        if self.get_local_state(thread_slot_id) != current_global || self.pause_snapshot {
            self.release_thread_slot(thread_slot_id);
            false
        } else {
            true
        }
    }

    /// Obtain a unique thread slot id for the caller thread, together with the
    /// version and the phase that it runs in. The search for a free slot
    /// starts at `start`.
    pub fn reserve_thread_slot(&mut self, start: usize) -> (r: Result<(usize, u64, PhaseId), ()>)
        requires
            old(self).wf(),
            start < DEFAULT_MAX_SNAPSHOT_THREAD_NUM,
        ensures
            final(self).wf(),
            final(self).only_slots_differ(old(self)),
            match r {
                Ok((tid, version, phase)) => {
                    &&& old(self).admits()
                    &&& tid < DEFAULT_MAX_SNAPSHOT_THREAD_NUM
                    &&& is_first_free(old(self).thread_slots@, start as int, tid as int)
                    &&& !old(self).thread_slots@[tid as int]
                    &&& version == old(self).version()
                    &&& phase == old(self).phase()
                    &&& final(self).thread_slots@ == old(self).thread_slots@.update(
                        tid as int,
                        true,
                    )
                    &&& final(self).thread_local_states@ == old(self).thread_local_states@.update(
                        tid as int,
                        old(self).global_state,
                    )
                    &&& final(self).phase_waiter == old(self).phase_waiter
                },
                Err(_) => {
                    &&& !old(self).admits()
                    &&& *final(self) == *old(self)
                },
            },
    {
        match self.claim_slot(start) {
            None => Err(()),
            Some(tid) => {
                let global_state = self.global_state;
                self.publish_state(tid, global_state);
                assert(self.thread_slots@[tid as int]);
                if self.confirm_slot(tid) {
                    let version = global_state % SNAPSHOT_STATE_VERSION_NUM;
                    let phase_id = PhaseId::from_raw(global_state / SNAPSHOT_STATE_VERSION_NUM);
                    Ok((tid, version, phase_id))
                } else {
                    Err(())
                }
            },
        }
    }

    /// Free up the thread slot specified by the given thread slot id, and
    /// count the release for waiters.
    pub fn release_thread_slot(&mut self, thread_slot_id: usize)
        requires
            old(self).wf(),
            thread_slot_id < DEFAULT_MAX_SNAPSHOT_THREAD_NUM,
            old(self).thread_slots@[thread_slot_id as int],
        ensures
            final(self).wf(),
            final(self).only_slots_differ(old(self)),
            final(self).thread_slots@ == old(self).thread_slots@.update(
                thread_slot_id as int,
                false,
            ),
            final(self).thread_local_states@ == old(self).thread_local_states@.update(
                thread_slot_id as int,
                INVALID_SNAPSHOT_STATE,
            ),
            final(self).phase_waiter == if old(self).phase_waiter < u32::MAX {
                (old(self).phase_waiter + 1) as u32
            } else {
                0u32
            },
    {
        self.set_local_state(thread_slot_id, INVALID_SNAPSHOT_STATE);
        self.thread_slots[thread_slot_id] = false;
        self.phase_waiter = if self.phase_waiter < u32::MAX {
            self.phase_waiter + 1
        } else {
            0
        };
    }

    /// A guard for one operation; without a coordinator it protects nothing.
    pub fn get_snapshot_guard(
        snapshot_mgr: &mut Option<CPRSnapShotMgr>,
        start: usize,
    ) -> (r: Result<CPRSnapshotGuard, ()>)
        requires
            start < DEFAULT_MAX_SNAPSHOT_THREAD_NUM,
            *old(snapshot_mgr) matches Some(m) ==> m.wf(),
        ensures
            guard_taken(*old(snapshot_mgr), *final(snapshot_mgr), r),
            *old(snapshot_mgr) matches Some(m) ==> (r matches Ok(g) ==> is_first_free(
                m.thread_slots@,
                start as int,
                g.thread_slot_id as int,
            )),
    {
        CPRSnapshotGuard::new(snapshot_mgr, start)
    }

    /// Copies a page to the snapshot file, into a room of `size` bytes, and returns its
    /// place there.
    pub fn snapshot_page(&mut self, ptr: &[u8], size: usize) -> (r: usize)
        requires
            old(self).wf(),
            ptr@.len() <= size,
        ensures
            final(self).wf(),
            final(self).only_capture_differs(old(self)),
            room_written(old(self).capture(), final(self).capture(), ptr@, size as nat, r),
    {
        let ghost before = self.capture();
        let offset = self.vfs.alloc_offset(size);
        self.vfs.write(offset, ptr);
        offset
    }

    /// Copies an inner node and notes its place for slot `thread_slot_id`.
    pub fn snapshot_inner_node(&mut self, id: PageID, node: &InnerNode, thread_slot_id: usize)
        requires
            old(self).wf(),
            node@.shaped(),
            node@.fits(),
            thread_slot_id < DEFAULT_MAX_SNAPSHOT_THREAD_NUM,
        ensures
            final(self).wf(),
            final(self).only_capture_differs(old(self)),
            exists|offset: usize|
                #![trigger entry_added(old(self).capture().inner, thread_slot_id as int, (id, offset))]
                {
                    let image = crate::nodes::image::image_bytes(
                        crate::nodes::inner_node::inner_image(node@, node.version_lock),
                    );
                    let inner = entry_added(
                        old(self).capture().inner,
                        thread_slot_id as int,
                        (id, offset),
                    );
                    &&& page_written(
                        Capture { inner, ..old(self).capture() },
                        final(self).capture(),
                        image,
                        offset,
                    )
                },
    {
        let ghost before = self.capture();
        let image = node.as_image();
        let offset = self.snapshot_page(image.as_slice(), INNER_NODE_SIZE);
        self.thread_local_inner_mappings[thread_slot_id].push((id, offset));
        assert(self.capture().inner =~= entry_added(
            before.inner,
            thread_slot_id as int,
            (id, offset),
        ));
    }

    /// Copies a cached delta page and notes its place and size. A page without
    /// bytes is an evicted one, which is only noted.
    pub fn snapshot_mini_page(
        &mut self,
        id: PageID,
        ptr: &[u8],
        size: usize,
        thread_slot_id: usize,
    )
        requires
            old(self).wf(),
            ptr@.len() <= size,
            thread_slot_id < DEFAULT_MAX_SNAPSHOT_THREAD_NUM,
        ensures
            final(self).wf(),
            final(self).only_capture_differs(old(self)),
            exists|offset: usize|
                #![trigger entry_added(old(self).capture().mini, thread_slot_id as int, (id, offset))]
                {
                    let mini = entry_added(
                        old(self).capture().mini,
                        thread_slot_id as int,
                        (id, offset),
                    );
                    let mini_size = entry_added(
                        old(self).capture().mini_size,
                        thread_slot_id as int,
                        (id, size),
                    );
                    let noted = Capture { mini, mini_size, ..old(self).capture() };
                    if size == 0 {
                        offset == NULL_PAGE_LOCATION_OFFSET && final(self).capture() == noted
                    } else {
                        room_written(noted, final(self).capture(), ptr@, size as nat, offset)
                    }
                },
    {
        let ghost before = self.capture();
        let offset = if size != 0 {
            self.snapshot_page(ptr, size)
        } else {
            NULL_PAGE_LOCATION_OFFSET
        };
        self.thread_local_mini_mappings[thread_slot_id].push((id, offset));
        self.thread_local_mini_size_mappings[thread_slot_id].push((id, size));
        assert(self.capture().mini =~= entry_added(
            before.mini,
            thread_slot_id as int,
            (id, offset),
        ));
        assert(self.capture().mini_size =~= entry_added(
            before.mini_size,
            thread_slot_id as int,
            (id, size),
        ));
    }

    /// Copies a page of the disk and notes its place.
    pub fn snapshot_base_page(
        &mut self,
        id: PageID,
        ptr: &[u8],
        size: usize,
        thread_slot_id: usize,
    )
        requires
            old(self).wf(),
            ptr@.len() <= size,
            thread_slot_id < DEFAULT_MAX_SNAPSHOT_THREAD_NUM,
        ensures
            final(self).wf(),
            final(self).only_capture_differs(old(self)),
            exists|offset: usize|
                #![trigger entry_added(old(self).capture().base, thread_slot_id as int, (id, offset))]
                {
                    let base = entry_added(
                        old(self).capture().base,
                        thread_slot_id as int,
                        (id, offset),
                    );
                    room_written(
                        Capture { base, ..old(self).capture() },
                        final(self).capture(),
                        ptr@,
                        size as nat,
                        offset,
                    )
                },
    {
        let ghost before = self.capture();
        let offset = self.snapshot_page(ptr, size);
        self.thread_local_base_mappings[thread_slot_id].push((id, offset));
        assert(self.capture().base =~= entry_added(
            before.base,
            thread_slot_id as int,
            (id, offset),
        ));
    }

    /// Notes the root of the tree that is being captured.
    pub fn snapshot_root_page(&mut self, root_id: PageID)
        requires
            old(self).wf(),
            old(self).root_id == 0 || old(self).root_id == root_id.raw,
        ensures
            final(self).wf(),
            final(self).only_capture_differs(old(self)),
            final(self).capture() == (Capture { root_id: root_id.raw, ..old(self).capture() }),
    {
        self.root_id = root_id.raw;
    }
}

/// `after` is `before` with `bytes` added to the file at `offset`, where `size` bytes
/// are set aside for them, unless the file is full. Of the room that the bytes do not
/// fill nothing is written: it reads as zeros, if the file goes on behind it.
pub open spec fn room_written(
    before: Capture,
    after: Capture,
    bytes: Seq<u8>,
    size: nat,
    offset: usize,
) -> bool {
    if !before.full && before.next_offset + size <= usize::MAX {
        &&& offset == before.next_offset
        &&& after == (Capture {
            data: crate::fs::overwrite(before.data, offset as int, bytes),
            next_offset: (before.next_offset + size) as usize,
            ..before
        })
    } else {
        after == (Capture { full: true, ..before })
    }
}

/// `after` is `before` with `bytes` added to the file at `offset`, unless the
/// file is full.
pub open spec fn page_written(
    before: Capture,
    after: Capture,
    bytes: Seq<u8>,
    offset: usize,
) -> bool {
    room_written(before, after, bytes, bytes.len(), offset)
}

/// Within the lifetime of this guard, operations are protected by the
/// snapshot protocol.
pub struct CPRSnapshotGuard {
    pub thread_slot_id: usize,
    pub snapshot_version: u64,
    pub phase_id: PhaseId,
}

/// What taking a guard does.
pub open spec fn guard_taken(
    before: Option<CPRSnapShotMgr>,
    after: Option<CPRSnapShotMgr>,
    r: Result<CPRSnapshotGuard, ()>,
) -> bool {
    match before {
        None => {
            &&& after is None
            &&& r matches Ok(g) && g.thread_slot_id == INVALID_SNAPSHOT_THREAD_ID
                && g.snapshot_version == INVALID_SNAPSHOT_VERSION && g.phase_id == PhaseId::Rest
        },
        Some(m) => {
            &&& after matches Some(m2) && m2.wf() && m2.only_slots_differ(&m)
            &&& r is Ok <==> m.admits()
            &&& r is Err ==> after == before
            &&& r matches Ok(g) ==> {
                &&& g.thread_slot_id < DEFAULT_MAX_SNAPSHOT_THREAD_NUM
                &&& !m.thread_slots@[g.thread_slot_id as int]
                &&& g.snapshot_version == m.version()
                &&& g.phase_id == m.phase()
                &&& (after->0).thread_slots@ == m.thread_slots@.update(
                    g.thread_slot_id as int,
                    true,
                )
                &&& (after->0).thread_local_states@ == m.thread_local_states@.update(
                    g.thread_slot_id as int,
                    m.global_state,
                )
            }
        },
    }
}

impl CPRSnapshotGuard {
    pub fn new(snapshot_mgr: &mut Option<CPRSnapShotMgr>, start: usize) -> (r: Result<
        CPRSnapshotGuard,
        (),
    >)
        requires
            start < DEFAULT_MAX_SNAPSHOT_THREAD_NUM,
            *old(snapshot_mgr) matches Some(m) ==> m.wf(),
        ensures
            guard_taken(*old(snapshot_mgr), *final(snapshot_mgr), r),
            *old(snapshot_mgr) matches Some(m) ==> (r matches Ok(g) ==> is_first_free(
                m.thread_slots@,
                start as int,
                g.thread_slot_id as int,
            )),
    {
        match snapshot_mgr {
            None => Ok(
                CPRSnapshotGuard {
                    thread_slot_id: INVALID_SNAPSHOT_THREAD_ID,
                    snapshot_version: INVALID_SNAPSHOT_VERSION,
                    phase_id: PhaseId::Rest,
                },
            ),
            Some(mgr) => {
                match mgr.reserve_thread_slot(start) {
                    Err(_) => Err(()),
                    Ok((thread_slot_id, snapshot_version, phase_id)) => Ok(
                        CPRSnapshotGuard { thread_slot_id, snapshot_version, phase_id },
                    ),
                }
            },
        }
    }

    /// Returns the snapshot version for this thread's transaction.
    pub fn snapshot_version(&self) -> (r: u64)
        ensures
            r == self.snapshot_version,
    {
        self.snapshot_version
    }

    /// Returns the phase id at the time the guard was acquired.
    pub fn get_local_phase_id(&self) -> (r: PhaseId)
        ensures
            r == self.phase_id,
    {
        self.phase_id
    }

    /// Returns true if the snapshot guard has a valid thread slot id.
    pub fn is_protected(&self) -> (r: bool)
        ensures
            r == (self.thread_slot_id != INVALID_SNAPSHOT_THREAD_ID),
    {
        self.thread_slot_id != INVALID_SNAPSHOT_THREAD_ID
    }

    /// Copies a page of the disk for this guard's slot.
    pub fn snapshot_base_page(&self, mgr: &mut CPRSnapShotMgr, id: PageID, ptr: &[u8], size: usize)
        requires
            old(mgr).wf(),
            ptr@.len() <= size,
            self.thread_slot_id < DEFAULT_MAX_SNAPSHOT_THREAD_NUM,
        ensures
            final(mgr).wf(),
            final(mgr).only_capture_differs(old(mgr)),
            exists|offset: usize|
                #![trigger entry_added(old(mgr).capture().base, self.thread_slot_id as int, (id, offset))]
                {
                    let base = entry_added(
                        old(mgr).capture().base,
                        self.thread_slot_id as int,
                        (id, offset),
                    );
                    room_written(
                        Capture { base, ..old(mgr).capture() },
                        final(mgr).capture(),
                        ptr@,
                        size as nat,
                        offset,
                    )
                },
    {
        mgr.snapshot_base_page(id, ptr, size, self.thread_slot_id)
    }

    /// Copies a cached delta page for this guard's slot.
    pub fn snapshot_mini_page(&self, mgr: &mut CPRSnapShotMgr, id: PageID, ptr: &[u8], size: usize)
        requires
            old(mgr).wf(),
            ptr@.len() <= size,
            self.thread_slot_id < DEFAULT_MAX_SNAPSHOT_THREAD_NUM,
        ensures
            final(mgr).wf(),
            final(mgr).only_capture_differs(old(mgr)),
            exists|offset: usize|
                #![trigger entry_added(old(mgr).capture().mini, self.thread_slot_id as int, (id, offset))]
                {
                    let mini = entry_added(
                        old(mgr).capture().mini,
                        self.thread_slot_id as int,
                        (id, offset),
                    );
                    let mini_size = entry_added(
                        old(mgr).capture().mini_size,
                        self.thread_slot_id as int,
                        (id, size),
                    );
                    let noted = Capture { mini, mini_size, ..old(mgr).capture() };
                    if size == 0 {
                        offset == NULL_PAGE_LOCATION_OFFSET && final(mgr).capture() == noted
                    } else {
                        room_written(noted, final(mgr).capture(), ptr@, size as nat, offset)
                    }
                },
    {
        mgr.snapshot_mini_page(id, ptr, size, self.thread_slot_id)
    }

    /// Copies an inner node for this guard's slot.
    pub fn snapshot_inner_node(&self, mgr: &mut CPRSnapShotMgr, id: PageID, node: &InnerNode)
        requires
            old(mgr).wf(),
            node@.shaped(),
            node@.fits(),
            self.thread_slot_id < DEFAULT_MAX_SNAPSHOT_THREAD_NUM,
        ensures
            final(mgr).wf(),
            final(mgr).only_capture_differs(old(mgr)),
            exists|offset: usize|
                #![trigger entry_added(old(mgr).capture().inner, self.thread_slot_id as int, (id, offset))]
                {
                    let image = crate::nodes::image::image_bytes(
                        crate::nodes::inner_node::inner_image(node@, node.version_lock),
                    );
                    let inner = entry_added(
                        old(mgr).capture().inner,
                        self.thread_slot_id as int,
                        (id, offset),
                    );
                    &&& page_written(
                        Capture { inner, ..old(mgr).capture() },
                        final(mgr).capture(),
                        image,
                        offset,
                    )
                },
    {
        mgr.snapshot_inner_node(id, node, self.thread_slot_id)
    }

    /// Notes the root of the tree that is being captured.
    pub fn snapshot_root_page(&self, mgr: &mut CPRSnapShotMgr, root_id: PageID)
        requires
            old(mgr).wf(),
            old(mgr).root_id == 0 || old(mgr).root_id == root_id.raw,
        ensures
            final(mgr).wf(),
            final(mgr).only_capture_differs(old(mgr)),
            final(mgr).capture() == (Capture { root_id: root_id.raw, ..old(mgr).capture() }),
    {
        mgr.snapshot_root_page(root_id)
    }
}

/// A phase completes only when nobody who committed to another state is left:
/// while a slot's holder is in `state`, no other state is seen as completed.
pub proof fn law_committed_workers_hold_back_the_phase(
    states: Seq<u64>,
    tid: int,
    state: u64,
    target: u64,
)
    requires
        0 <= tid < states.len(),
        states[tid] == state,
        state != INVALID_SNAPSHOT_STATE,
        target != state,
    ensures
        !phase_completed(states, target),
{
}

/// A worker cannot commit to a state after the coordinator has advanced to
/// another one: whatever it published before, its slot is not confirmed. So
/// either the coordinator sees the worker's state and waits, or the worker
/// gives its slot back.
pub proof fn law_no_commit_to_a_past_state(
    seen: &CPRSnapShotMgr,
    later: &CPRSnapShotMgr,
    tid: int,
    state: u64,
)
    requires
        seen.wf(),
        0 <= tid < DEFAULT_MAX_SNAPSHOT_THREAD_NUM,
        state != INVALID_SNAPSHOT_STATE,
        seen.global_state != state,
        later.global_state == seen.global_state,
        later.thread_local_states@[tid] == state,
    ensures
        !later.confirms(tid),
        seen.thread_local_states@[tid] == state ==> !phase_completed(
            seen.thread_local_states@,
            seen.global_state,
        ),
{
}

/// No worker enters the tree once a pause has been asked for: a slot that is
/// claimed meanwhile is not confirmed, and a slot that was confirmed before
/// keeps the coordinator from taking the tree for frozen.
pub proof fn law_no_worker_enters_a_frozen_tree(m: &CPRSnapShotMgr, tid: int)
    requires
        m.wf(),
        m.pause_snapshot,
        0 <= tid < DEFAULT_MAX_SNAPSHOT_THREAD_NUM,
    ensures
        !m.confirms(tid),
        !m.admits(),
        m.thread_local_states@[tid] != INVALID_SNAPSHOT_STATE ==> !phase_completed(
            m.thread_local_states@,
            INVALID_SNAPSHOT_STATE,
        ),
{
}

} // verus!
