//! Moving buffers on from shared memory to host memory or storage.
//!
//! Buffers that the plan moves on are copied as soon as they are in shared memory. Where room runs
//! out in spite of the plan, others have to go as well. Each buffer is claimed before its copy
//! starts, so that no buffer is copied twice.
use vstd::prelude::*;
use crate::assoc::{assoc_drop, assoc_get, assoc_has};
use crate::ids::{AllocationCount, BufferId, BufferLocation};
use super::store::LocationMap;

verus! {

/// Where a buffer ended up, compared with where it should have.
#[derive(Debug, Clone, Copy, PartialEq, Eq, Structural)]
pub enum LocationReport {
    AsExpected,
    /// It should be in host memory, but is in storage.
    InStorageInstead,
    /// It should be in storage, but is in host memory.
    InHostMemInstead,
    /// It should be where no buffer is moved on to.
    UnexpectedTarget,
}

/// Compares where a buffer ended up with where it should have.
pub fn check_location(expected: BufferLocation, actual: BufferLocation) -> (report: LocationReport)
    ensures
        report == (if expected == actual {
            LocationReport::AsExpected
        } else {
            match expected {
                BufferLocation::HostMem => LocationReport::InStorageInstead,
                BufferLocation::Storage => LocationReport::InHostMemInstead,
                _ => LocationReport::UnexpectedTarget,
            }
        }),
{
    if expected == actual {
        LocationReport::AsExpected
    } else {
        match expected {
            BufferLocation::HostMem => LocationReport::InStorageInstead,
            BufferLocation::Storage => LocationReport::InHostMemInstead,
            _ => LocationReport::UnexpectedTarget,
        }
    }
}

/// What storing a buffer came to.
#[derive(Debug, Clone, Copy, PartialEq, Eq, Structural)]
pub enum StoreResult {
    Stored,
    MemoryExhausted,
    Failed,
}

/// What to do with a buffer that is moved on.
#[derive(Debug, Clone, Copy, PartialEq, Eq, Structural)]
pub enum StoreStep {
    ToHostMem,
    ToStorage,
    /// It is stored: its blocks of shared memory are free.
    Release(BufferLocation),
    GiveUp,
}

/// The first thing to do with a buffer that is moved on to `target`.
pub fn first_store(target: BufferLocation) -> (step: StoreStep)
    requires
        target == BufferLocation::HostMem || target == BufferLocation::Storage,
    ensures
        step == (if target == BufferLocation::HostMem {
            StoreStep::ToHostMem
        } else {
            StoreStep::ToStorage
        }),
{
    if target == BufferLocation::HostMem {
        StoreStep::ToHostMem
    } else {
        StoreStep::ToStorage
    }
}

/// What to do after `step` came to `result`: where host memory is full, storage takes the buffer.
pub fn next_store(step: StoreStep, result: StoreResult) -> (next: StoreStep)
    requires
        step is ToHostMem || step is ToStorage,
    ensures
        next == (match (step, result) {
            (StoreStep::ToHostMem, StoreResult::Stored) => StoreStep::Release(
                BufferLocation::HostMem,
            ),
            (StoreStep::ToHostMem, StoreResult::MemoryExhausted) => StoreStep::ToStorage,
            (StoreStep::ToStorage, StoreResult::Stored) => StoreStep::Release(
                BufferLocation::Storage,
            ),
            _ => StoreStep::GiveUp,
        }),
        next == store_after(step, result),
{
    match step {
        StoreStep::ToHostMem => match result {
            StoreResult::Stored => StoreStep::Release(BufferLocation::HostMem),
            StoreResult::MemoryExhausted => StoreStep::ToStorage,
            StoreResult::Failed => StoreStep::GiveUp,
        },
        _ => match result {
            StoreResult::Stored => StoreStep::Release(BufferLocation::Storage),
            _ => StoreStep::GiveUp,
        },
    }
}

/// Who asks for room in shared memory.
#[derive(Debug, Clone, Copy, PartialEq, Eq, Structural)]
pub enum SpaceSource {
    Gpu,
    Backend,
}

/// Blocks of shared memory that are still needed.
#[derive(Debug, Clone, Copy, PartialEq, Eq, Structural)]
pub struct SpaceRequest {
    pub source: SpaceSource,
    pub remaining: u32,
}

/// What to do with a buffer that has arrived in shared memory.
#[derive(Debug, Clone, Copy, PartialEq, Eq, Structural)]
pub enum Claim {
    /// Copy it to where the plan wants it.
    Copy(BufferLocation),
    /// Nothing: it is claimed already, although the plan names it again.
    AlreadyClaimed,
    /// Nothing: it was moved on before.
    Known,
    /// Nothing: no plan names it.
    Unexpected,
}

/// What to do about a request for room.
#[derive(Debug, Clone, Copy, PartialEq, Eq, Structural)]
pub enum SpaceStep {
    /// Tell the one who asked that there is room.
    Ready,
    /// Copy the buffer to host memory.
    Evict(BufferId),
    /// Wait until a copy is done.
    AwaitCopy,
    /// Tell the one who asked to try again.
    BusyWait,
    /// Nothing can be done.
    GiveUp,
}

/// What the worker attends to.
#[derive(Debug, Clone, Copy, PartialEq, Eq, Structural)]
pub enum WorkerStep {
    /// Wait for arrivals, for requests for room, or for both.
    Listen { arrivals: bool, requests: bool },
    /// Wait until the copies that run are done.
    Drain,
}

#[derive(Debug)]
pub struct BackendWorker {
    /// Buffers that the plan moves on and that were not in shared memory so far.
    pub planned: LocationMap,
    /// Buffers whose copy was started, whether it is done or not.
    pub claimed: Vec<BufferId>,
    /// Processes whose buffers must stay.
    pub excluded: Vec<i32>,
    /// Copies that run.
    pub copies: usize,
    /// Buffers that were moved on beyond the plan.
    pub extra_moves: u64,
    /// Whether a copy failed.
    pub failed: bool,
}

#[verifier::ext_equal]
pub struct WorkerModel {
    pub planned: Seq<(BufferId, BufferLocation)>,
    pub claimed: Set<BufferId>,
    pub excluded: Seq<i32>,
    pub copies: int,
}

impl View for BackendWorker {
    type V = WorkerModel;

    open spec fn view(&self) -> WorkerModel {
        WorkerModel {
            planned: self.planned@,
            claimed: self.claimed@.to_set(),
            excluded: self.excluded@,
            copies: self.copies as int,
        }
    }
}

impl WorkerModel {
    /// What to do with a buffer that has arrived.
    pub open spec fn claim(self, id: BufferId) -> Claim {
        match assoc_get(self.planned, id) {
            Some(to) => if self.claimed.contains(id) {
                Claim::AlreadyClaimed
            } else {
                Claim::Copy(to)
            },
            None => if self.claimed.contains(id) {
                Claim::Known
            } else {
                Claim::Unexpected
            },
        }
    }

    /// The worker after a buffer has arrived.
    pub open spec fn after_arrival(self, id: BufferId) -> WorkerModel {
        if assoc_has(self.planned, id) {
            WorkerModel {
                planned: assoc_drop(self.planned, id),
                claimed: self.claimed.insert(id),
                copies: self.copies + if self.claimed.contains(id) {
                    0int
                } else {
                    1
                },
                ..self
            }
        } else {
            self
        }
    }

    /// Whether a buffer in shared memory may be moved on to make room.
    pub open spec fn may_evict(self, candidate: (BufferId, bool)) -> bool {
        &&& !self.excluded.contains(candidate.0.pid)
        &&& !candidate.1
        &&& !self.claimed.contains(candidate.0)
    }

    /// The first buffer that may be moved on to make room.
    pub open spec fn victim(self, shm: Seq<(BufferId, bool)>) -> Option<BufferId>
        decreases shm.len(),
    {
        if shm.len() == 0 {
            None
        } else if self.may_evict(shm[0]) {
            Some(shm[0].0)
        } else {
            self.victim(shm.drop_first())
        }
    }

    /// What to do about a request for room, where `shm` is in shared memory. The second part of a
    /// pair says whether the buffer is being transferred.
    pub open spec fn make_room(self, request: SpaceRequest, shm: Seq<(BufferId, bool)>) -> SpaceStep {
        if request.remaining == 0 {
            SpaceStep::Ready
        } else {
            match self.victim(shm) {
                Some(id) => SpaceStep::Evict(id),
                None => if self.copies > 0 {
                    SpaceStep::AwaitCopy
                } else if request.source == SpaceSource::Backend {
                    SpaceStep::BusyWait
                } else {
                    SpaceStep::GiveUp
                },
            }
        }
    }

    /// The worker after it decided to move `id` on to make room.
    pub open spec fn after_eviction(self, id: BufferId) -> WorkerModel {
        WorkerModel {
            planned: assoc_drop(self.planned, id),
            claimed: self.claimed.insert(id),
            ..self
        }
    }
}

fn contains_buffer(list: &Vec<BufferId>, id: BufferId) -> (found: bool)
    ensures
        found == list@.contains(id),
        found == list@.to_set().contains(id),
{
    let mut i: usize = 0;
    while i < list.len()
        invariant
            i <= list@.len(),
            forall|j: int| 0 <= j < i ==> list@[j] != id,
        decreases list@.len() - i,
    {
        if list[i] == id {
            assert(list@[i as int] == id);
            return true;
        }
        i = i + 1;
    }
    false
}

fn contains_pid(list: &Vec<i32>, pid: i32) -> (found: bool)
    ensures
        found == list@.contains(pid),
{
    let mut i: usize = 0;
    while i < list.len()
        invariant
            i <= list@.len(),
            forall|j: int| 0 <= j < i ==> list@[j] != pid,
        decreases list@.len() - i,
    {
        if list[i] == pid {
            assert(list@[i as int] == pid);
            return true;
        }
        i = i + 1;
    }
    false
}

proof fn lemma_push_to_set(s: Seq<BufferId>, id: BufferId)
    ensures
        s.push(id).to_set() == s.to_set().insert(id),
{
    assert forall|x: BufferId| #[trigger]
        s.push(id).to_set().contains(x) == s.to_set().insert(id).contains(x) by {
        if s.contains(x) {
            let k = choose|k: int| 0 <= k < s.len() && s[k] == x;
            assert(s.push(id)[k] == x);
        }
        if x == id {
            assert(s.push(id)[s.len() as int] == x);
        }
        if s.push(id).contains(x) && x != id {
            let k = choose|k: int| 0 <= k < s.push(id).len() && s.push(id)[k] == x;
            assert(s[k] == x);
        }
    }
    assert(s.push(id).to_set() =~= s.to_set().insert(id));
}

impl BackendWorker {
    pub open spec fn wf(self) -> bool {
        self.planned.wf()
    }

    /// Starts with a plan and with processes whose buffers must stay.
    pub fn new(excluded: Vec<i32>, planned: LocationMap) -> (worker: Self)
        requires
            planned.wf(),
        ensures
            worker.wf(),
            worker@ == (WorkerModel {
                planned: planned@,
                claimed: Set::empty(),
                excluded: excluded@,
                copies: 0,
            }),
            worker.extra_moves == 0,
            !worker.failed,
    {
        let claimed: Vec<BufferId> = Vec::new();
        assert(claimed@.to_set() =~= Set::empty());
        BackendWorker { planned, claimed, excluded, copies: 0, extra_moves: 0, failed: false }
    }

    /// Takes note of what the first look at a planned buffer came to: `found` says where it was
    /// moved on to, where it was in shared memory at all.
    pub fn scanned(&mut self, id: BufferId, found: Option<BufferLocation>) -> (report: Option<
        LocationReport,
    >)
        requires
            old(self).wf(),
        ensures
            final(self).wf(),
            match (found, assoc_get(old(self)@.planned, id)) {
                (Some(actual), Some(expected)) => {
                    &&& report matches Some(r) && r == if expected == actual {
                        LocationReport::AsExpected
                    } else {
                        match expected {
                            BufferLocation::HostMem => LocationReport::InStorageInstead,
                            BufferLocation::Storage => LocationReport::InHostMemInstead,
                            _ => LocationReport::UnexpectedTarget,
                        }
                    }
                    &&& final(self)@ == (WorkerModel {
                        planned: assoc_drop(old(self)@.planned, id),
                        ..old(self)@
                    })
                },
                _ => report is None && final(self)@ == old(self)@,
            },
            final(self).extra_moves == old(self).extra_moves,
            final(self).failed == old(self).failed,
    {
        match found {
            None => None,
            Some(actual) => match self.planned.remove(&id) {
                Some(expected) => Some(check_location(expected, actual)),
                None => None,
            },
        }
    }

    /// What the worker attends to, where `space_closed` says that nobody will ask for room again.
    pub fn step(&self, space_closed: bool, cancelled: bool) -> (step: WorkerStep)
        ensures
            step == (if cancelled || self@.planned.len() == 0 && space_closed {
                WorkerStep::Drain
            } else {
                WorkerStep::Listen {
                    arrivals: self@.planned.len() > 0,
                    requests: !space_closed,
                }
            }),
    {
        if cancelled || self.planned.is_empty() && space_closed {
            WorkerStep::Drain
        } else {
            WorkerStep::Listen { arrivals: !self.planned.is_empty(), requests: !space_closed }
        }
    }

    /// Takes note that a buffer has arrived in shared memory. Where it has to be copied, it is
    /// claimed from now on.
    pub fn on_arrival(&mut self, id: BufferId) -> (claim: Claim)
        requires
            old(self).wf(),
            old(self).copies < usize::MAX,
        ensures
            final(self).wf(),
            claim == old(self)@.claim(id),
            final(self)@ == old(self)@.after_arrival(id),
            final(self).extra_moves == old(self).extra_moves,
            final(self).failed == old(self).failed,
    {
        let known: bool = contains_buffer(&self.claimed, id);
        match self.planned.remove(&id) {
            Some(to) => {
                if known {
                    assert(self@.claimed =~= self@.claimed.insert(id));
                    return Claim::AlreadyClaimed;
                }
                proof {
                    lemma_push_to_set(self.claimed@, id);
                }
                self.claimed.push(id);
                self.copies = self.copies + 1;
                Claim::Copy(to)
            },
            None => if known {
                Claim::Known
            } else {
                Claim::Unexpected
            },
        }
    }

    /// Decides about a request for room. A buffer that has to go for it is claimed from now on.
    pub fn on_request(&mut self, request: &SpaceRequest, shm: &Vec<(BufferId, bool)>) -> (step:
        SpaceStep)
        requires
            old(self).wf(),
        ensures
            final(self).wf(),
            step == old(self)@.make_room(*request, shm@),
            match step {
                SpaceStep::Evict(id) => {
                    &&& final(self)@ == old(self)@.after_eviction(id)
                    &&& old(self).extra_moves < u64::MAX ==> final(self).extra_moves == old(
                        self,
                    ).extra_moves + if assoc_has(old(self)@.planned, id) {
                        0int
                    } else {
                        1
                    }
                },
                _ => final(self)@ == old(self)@ && final(self).extra_moves == old(
                    self,
                ).extra_moves,
            },
            final(self).failed == old(self).failed,
    {
        if request.remaining == 0 {
            return SpaceStep::Ready;
        }
        let ghost start = self@;
        let mut i: usize = 0;
        proof {
            assert(shm@.skip(0) =~= shm@);
        }
        while i < shm.len()
            invariant
                i <= shm@.len(),
                self@ == start,
                self.wf(),
                start == old(self)@,
                *self == *old(self),
                request.remaining != 0,
                start.victim(shm@) == start.victim(shm@.skip(i as int)),
            decreases shm@.len() - i,
        {
            let (id, in_transfer) = shm[i];
            proof {
                assert(shm@.skip(i as int).drop_first() =~= shm@.skip(i + 1));
                assert(shm@.skip(i as int)[0] == shm@[i as int]);
            }
            if !contains_pid(&self.excluded, id.pid) && !in_transfer && !contains_buffer(
                &self.claimed,
                id,
            ) {
                match self.planned.remove(&id) {
                    Some(_) => {},
                    None => {
                        self.extra_moves = self.extra_moves.saturating_add(1);
                    },
                }
                proof {
                    lemma_push_to_set(self.claimed@, id);
                }
                self.claimed.push(id);
                return SpaceStep::Evict(id);
            }
            i = i + 1;
        }
        if self.copies > 0 {
            SpaceStep::AwaitCopy
        } else if request.source == SpaceSource::Backend {
            SpaceStep::BusyWait
        } else {
            SpaceStep::GiveUp
        }
    }

    /// Takes note that a copy is done, or has failed.
    pub fn on_copy_done(&mut self, succeeded: bool)
        requires
            old(self).wf(),
            old(self).copies > 0,
        ensures
            final(self).wf(),
            final(self)@ == (WorkerModel { copies: old(self)@.copies - 1, ..old(self)@ }),
            final(self).extra_moves == old(self).extra_moves,
            final(self).failed == (old(self).failed || !succeeded),
    {
        self.copies = self.copies - 1;
        if !succeeded {
            self.failed = true;
        }
    }

    /// Whether no copy runs any more. Only then may the blocks of the copied buffers be used again.
    pub fn is_drained(&self) -> (drained: bool)
        ensures
            drained == (self@.copies == 0),
    {
        self.copies == 0
    }
}

impl SpaceRequest {
    /// Counts the blocks that were freed.
    pub fn on_freed(&mut self, freed: AllocationCount)
        ensures
            final(self).source == old(self).source,
            final(self).remaining == if old(self).remaining >= freed.0 {
                old(self).remaining - freed.0
            } else {
                0
            },
            final(self).remaining == still_needed(old(self).remaining, freed.0),
    {
        self.remaining = self.remaining.saturating_sub(freed.0);
    }
}

// Laws.

/// A buffer that is copied is claimed, and a claimed buffer is never copied again, be it for the
/// plan or to make room.
pub proof fn law_claimed_once(m: WorkerModel, id: BufferId, request: SpaceRequest, shm: Seq<
    (BufferId, bool),
>)
    ensures
        m.claim(id) is Copy ==> !m.claimed.contains(id) && m.after_arrival(id).claimed.contains(id),
        m.claimed.contains(id) ==> !(m.claim(id) is Copy) && m.make_room(request, shm)
            != SpaceStep::Evict(id),
        m.after_eviction(id).claimed.contains(id),
{
    lemma_victim(m, shm);
}

/// What is claimed stays claimed.
pub proof fn law_claims_stay(m: WorkerModel, id: BufferId, other: BufferId)
    requires
        m.claimed.contains(id),
    ensures
        m.after_arrival(other).claimed.contains(id),
        m.after_eviction(other).claimed.contains(id),
{
}

proof fn lemma_victim(m: WorkerModel, shm: Seq<(BufferId, bool)>)
    ensures
        m.victim(shm) matches Some(id) ==> exists|k: int|
            0 <= k < shm.len() && (#[trigger] shm[k]).0 == id && m.may_evict(shm[k]) && forall|j: int|
                0 <= j < k ==> !m.may_evict(#[trigger] shm[j]),
        m.victim(shm) is None ==> forall|j: int|
            0 <= j < shm.len() ==> !m.may_evict(#[trigger] shm[j]),
    decreases shm.len(),
{
    if shm.len() > 0 {
        if m.may_evict(shm[0]) {
        } else {
            let rest = shm.drop_first();
            lemma_victim(m, rest);
            match m.victim(shm) {
                Some(id) => {
                    let k = choose|k: int|
                        0 <= k < rest.len() && (#[trigger] rest[k]).0 == id && m.may_evict(rest[k])
                            && forall|j: int| 0 <= j < k ==> !m.may_evict(#[trigger] rest[j]);
                    assert(shm[k + 1] == rest[k]);
                    assert forall|j: int| 0 <= j < k + 1 implies !m.may_evict(
                        #[trigger] shm[j],
                    ) by {
                        if j > 0 {
                            assert(rest[j - 1] == shm[j]);
                        }
                    }
                },
                None => {
                    assert forall|j: int| 0 <= j < shm.len() implies !m.may_evict(
                        #[trigger] shm[j],
                    ) by {
                        if j > 0 {
                            assert(rest[j - 1] == shm[j]);
                        }
                    }
                },
            }
        }
    }
}

/// A buffer that has to go to make room is in shared memory, is not being transferred, was not
/// claimed, and does not belong to a process whose buffers must stay.
pub proof fn law_evicted_buffer_is_free(
    m: WorkerModel,
    request: SpaceRequest,
    shm: Seq<(BufferId, bool)>,
    id: BufferId,
)
    requires
        m.make_room(request, shm) == SpaceStep::Evict(id),
    ensures
        shm.contains((id, false)),
        !m.claimed.contains(id),
        !m.excluded.contains(id.pid),
{
    lemma_victim(m, shm);
    let k = choose|k: int| 0 <= k < shm.len() && (#[trigger] shm[k]).0 == id && m.may_evict(shm[k]);
    assert(shm[k] == (id, false));
}

/// One who asks for room is turned away only when every buffer in shared memory has to stay and
/// no copy runs.
pub proof fn law_turned_away_only_when_nothing_can_go(
    m: WorkerModel,
    request: SpaceRequest,
    shm: Seq<(BufferId, bool)>,
    j: int,
)
    requires
        m.make_room(request, shm) is BusyWait || m.make_room(request, shm) is GiveUp,
        0 <= j < shm.len(),
    ensures
        !m.may_evict(shm[j]),
        m.copies <= 0,
{
    lemma_victim(m, shm);
}

/// A buffer that arrives is copied to where the plan wants it, exactly where the plan names it and
/// it was not claimed. From then on the plan no longer names it, it is claimed, and one more copy
/// runs. Nothing else changes.
pub proof fn law_planned_buffer_is_copied(m: WorkerModel, id: BufferId, other: BufferId)
    requires
        crate::assoc::keys_distinct(m.planned),
    ensures
        ({
            let planned = exists|i: int| 0 <= i < m.planned.len() && (#[trigger] m.planned[i]).0 == id;
            let claimed = m.claimed.contains(id);
            let r = m.after_arrival(id);
            &&& planned && !claimed ==> exists|i: int|
                0 <= i < m.planned.len() && (#[trigger] m.planned[i]).0 == id && m.claim(id)
                    == Claim::Copy(m.planned[i].1)
            &&& planned && claimed ==> m.claim(id) == Claim::AlreadyClaimed
            &&& !planned && claimed ==> m.claim(id) == Claim::Known
            &&& !planned && !claimed ==> m.claim(id) == Claim::Unexpected
            &&& planned ==> r.claimed == m.claimed.insert(id) && r.planned.len() == m.planned.len() - 1
                && forall|i: int| 0 <= i < r.planned.len() ==> (#[trigger] r.planned[i]).0 != id
            &&& r.copies == m.copies + if planned && !claimed {
                1int
            } else {
                0
            }
            &&& !planned ==> r == m
            &&& other != id ==> m.planned.contains((other, BufferLocation::HostMem))
                == r.planned.contains((other, BufferLocation::HostMem)) && m.planned.contains(
                (other, BufferLocation::Storage),
            ) == r.planned.contains((other, BufferLocation::Storage))
            &&& r.excluded == m.excluded
        }),
{
    crate::assoc::lemma_assoc_pos(m.planned, id);
    let at = crate::assoc::assoc_pos(m.planned, id);
    let r = m.after_arrival(id);
    if at < m.planned.len() {
        assert(m.planned[at].0 == id);
        assert forall|i: int| 0 <= i < r.planned.len() implies (#[trigger] r.planned[i]).0 != id by {
            if i < at {
                assert(r.planned[i] == m.planned[i]);
            } else {
                assert(r.planned[i] == m.planned[i + 1]);
            }
        }
        if other != id {
            lemma_removed_keeps(m.planned, at, (other, BufferLocation::HostMem));
            lemma_removed_keeps(m.planned, at, (other, BufferLocation::Storage));
        }
    }
}

proof fn lemma_removed_keeps(
    s: Seq<(BufferId, BufferLocation)>,
    at: int,
    p: (BufferId, BufferLocation),
)
    requires
        0 <= at < s.len(),
        s[at] != p,
    ensures
        s.remove(at).contains(p) == s.contains(p),
{
    let r = s.remove(at);
    if s.contains(p) {
        let i = choose|i: int| 0 <= i < s.len() && s[i] == p;
        if i < at {
            assert(r[i] == p);
        } else {
            assert(r[i - 1] == p);
        }
    }
    if r.contains(p) {
        let i = choose|i: int| 0 <= i < r.len() && r[i] == p;
        if i < at {
            assert(s[i] == p);
        } else {
            assert(s[i + 1] == p);
        }
    }
}

/// The buffer may go: nobody transfers it, nobody claimed it, and its process does not keep it.
pub open spec fn free_to_go(m: WorkerModel, c: (BufferId, bool)) -> bool {
    !c.1 && !m.claimed.contains(c.0) && !m.excluded.contains(c.0.pid)
}

/// What is done about a request for room. Where there is room, the one who asked is told. Else the
/// first buffer that may go is moved on. Where none may, a copy that runs is waited for; where none
/// runs, a store is told to try again, and a GPU is turned away.
pub proof fn law_what_is_done_for_room(
    m: WorkerModel,
    request: SpaceRequest,
    shm: Seq<(BufferId, bool)>,
)
    ensures
        ({
            let step = m.make_room(request, shm);
            let none = forall|j: int| 0 <= j < shm.len() ==> !free_to_go(m, #[trigger] shm[j]);
            &&& step == SpaceStep::Ready <==> request.remaining == 0
            &&& request.remaining > 0 && !none ==> exists|k: int|
                0 <= k < shm.len() && step == SpaceStep::Evict((#[trigger] shm[k]).0) && free_to_go(
                    m,
                    shm[k],
                ) && forall|j: int| 0 <= j < k ==> !free_to_go(m, #[trigger] shm[j])
            &&& request.remaining > 0 && none && m.copies > 0 ==> step == SpaceStep::AwaitCopy
            &&& request.remaining > 0 && none && m.copies <= 0 ==> step == (match request.source {
                SpaceSource::Backend => SpaceStep::BusyWait,
                SpaceSource::Gpu => SpaceStep::GiveUp,
            })
        }),
{
    lemma_victim(m, shm);
    assert forall|j: int| 0 <= j < shm.len() implies free_to_go(m, #[trigger] shm[j]) == m.may_evict(
        shm[j],
    ) by {}
    if m.victim(shm) is Some {
        let id = m.victim(shm)->0;
        let k = choose|k: int|
            0 <= k < shm.len() && (#[trigger] shm[k]).0 == id && m.may_evict(shm[k]) && forall|j: int|
                0 <= j < k ==> !m.may_evict(#[trigger] shm[j]);
        assert(free_to_go(m, shm[k]));
    }
}

/// A buffer that is moved on to make room is claimed and no longer planned; nothing else changes.
pub proof fn law_evicted_buffer_is_claimed(m: WorkerModel, id: BufferId, other: BufferId)
    requires
        crate::assoc::keys_distinct(m.planned),
    ensures
        m.after_eviction(id).claimed == m.claimed.insert(id),
        forall|i: int|
            0 <= i < m.after_eviction(id).planned.len() ==> (#[trigger] m.after_eviction(
                id,
            ).planned[i]).0 != id,
        m.after_eviction(id).excluded == m.excluded,
        m.after_eviction(id).copies == m.copies,
        m.planned.len() - 1 <= m.after_eviction(id).planned.len() <= m.planned.len(),
{
    crate::assoc::lemma_assoc_pos(m.planned, id);
    let at = crate::assoc::assoc_pos(m.planned, id);
    let r = m.after_eviction(id);
    assert forall|i: int| 0 <= i < r.planned.len() implies (#[trigger] r.planned[i]).0 != id by {
        if at < m.planned.len() {
            assert(m.planned[at].0 == id);
            if i < at {
                assert(r.planned[i] == m.planned[i]);
            } else {
                assert(r.planned[i] == m.planned[i + 1]);
            }
        } else {
            assert(m.planned[i].0 != id);
        }
    }
}

/// What follows an attempt to store a buffer.
pub open spec fn store_after(step: StoreStep, result: StoreResult) -> StoreStep {
    match (step, result) {
        (StoreStep::ToHostMem, StoreResult::Stored) => StoreStep::Release(BufferLocation::HostMem),
        (StoreStep::ToHostMem, StoreResult::MemoryExhausted) => StoreStep::ToStorage,
        (StoreStep::ToStorage, StoreResult::Stored) => StoreStep::Release(BufferLocation::Storage),
        _ => StoreStep::GiveUp,
    }
}

/// A buffer's blocks of shared memory are given up exactly where it was stored, and it is then where
/// it was stored. Host memory that is full leads to storage, and nothing else does.
pub proof fn law_released_once_stored(step: StoreStep, result: StoreResult)
    requires
        step is ToHostMem || step is ToStorage,
    ensures
        store_after(step, result) is Release <==> result == StoreResult::Stored,
        result == StoreResult::Stored && step is ToHostMem ==> store_after(step, result)
            == StoreStep::Release(BufferLocation::HostMem),
        result == StoreResult::Stored && step is ToStorage ==> store_after(step, result)
            == StoreStep::Release(BufferLocation::Storage),
        store_after(step, result) is ToStorage <==> step is ToHostMem && result
            == StoreResult::MemoryExhausted,
        !(store_after(step, result) is ToHostMem),
{
}

/// The blocks that are still needed once `freed` of them are free.
pub open spec fn still_needed(remaining: u32, freed: u32) -> int {
    if remaining >= freed {
        remaining - freed
    } else {
        0
    }
}

/// A request for room is met exactly where as many blocks were freed as it asked for.
pub proof fn law_request_is_met(remaining: u32, freed: u32, more: u32)
    requires
        freed + more <= u32::MAX,
    ensures
        still_needed(remaining, freed) == 0 <==> freed >= remaining,
        still_needed(still_needed(remaining, freed) as u32, more) == still_needed(
            remaining,
            (freed + more) as u32,
        ),
        freed <= remaining ==> still_needed(remaining, freed) + freed == remaining,
{
}

/// The state of the worker is read in full.
pub proof fn law_worker_is_read_in_full(worker: BackendWorker, id: BufferId)
    ensures
        worker@.planned == worker.planned.items@,
        worker@.claimed.contains(id) <==> worker.claimed@.contains(id),
        worker@.excluded == worker.excluded@,
        worker@.copies == worker.copies,
{
}

} // verus!
