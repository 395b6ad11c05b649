//! Moving data ahead of time.
use std::collections::VecDeque;
use vstd::prelude::*;
use crate::assoc::{assoc_get, assoc_put, find_device, lemma_assoc_pos_same_keys};
use crate::constant::BLOCK_BYTES;
use crate::control::{PhysicalMemoryData, ProcessResidualData};
use crate::ids::{block_count, blocks_for, AllocationCapacity, BufferId, BufferLocation, GlobalDeviceId};
use crate::sums::{lemma_sum_bounds, lemma_sum_first, lemma_sum_push, sum_of};
use super::realtime::{
    deep_victims,
    entry_size,
    of_others,
    plan_realtime,
    realtime_plan,
    total_size,
    AllocationModel,
    DeviceRequestArgs,
    PlanModel,
    RealtimePlan,
    RequestModel,
};
use super::staging::{capacity_blocks, queued_blocks, PlanFault, Staging, StagingState};
use super::store::{DataManagerHandle, LocationMap};
use super::task::{DataMigrationTask, TaskModel};

verus! {

/// How much of a process should move from one place to another.
#[derive(Debug, Clone, Copy, PartialEq, Eq, Structural)]
pub struct MigrationRequirement {
    pub from: BufferLocation,
    pub to: BufferLocation,
    pub size: u64,
    /// Whether it will do to move less.
    pub allow_incomplete: bool,
}

impl MigrationRequirement {
    pub fn new(from: BufferLocation, to: BufferLocation, size: u64, allow_incomplete: bool) -> (req:
        Self)
        requires
            from != to,
        ensures
            req == (MigrationRequirement { from, to, size, allow_incomplete }),
    {
        MigrationRequirement { from, to, size, allow_incomplete }
    }
}

/// A list of buffers with the bytes reserved for each.
pub type Listing = Seq<(BufferId, AllocationCapacity)>;

pub open spec fn buffer_size() -> spec_fn((BufferId, AllocationCapacity)) -> int {
    |c: (BufferId, AllocationCapacity)| c.0.size as int
}

pub open spec fn listed_id() -> spec_fn((BufferId, AllocationCapacity)) -> BufferId {
    |c: (BufferId, AllocationCapacity)| c.0
}

/// The buffers of `pid`, from the front, that together have `need` bytes.
pub open spec fn chosen(list: Listing, pid: i32, need: int) -> Listing
    decreases list.len(),
{
    if list.len() == 0 {
        list
    } else if list[0].0.pid == pid && need > 0 {
        seq![list[0]] + chosen(list.drop_first(), pid, need - list[0].0.size)
    } else {
        chosen(list.drop_first(), pid, need)
    }
}

/// The other buffers.
pub open spec fn unchosen(list: Listing, pid: i32, need: int) -> Listing
    decreases list.len(),
{
    if list.len() == 0 {
        list
    } else if list[0].0.pid == pid && need > 0 {
        unchosen(list.drop_first(), pid, need - list[0].0.size)
    } else {
        seq![list[0]] + unchosen(list.drop_first(), pid, need)
    }
}

/// Sends each of `ids` to `to`.
pub open spec fn send_all(
    map: Seq<(BufferId, BufferLocation)>,
    ids: Seq<BufferId>,
    to: BufferLocation,
) -> Seq<(BufferId, BufferLocation)>
    decreases ids.len(),
{
    if ids.len() == 0 {
        map
    } else {
        assoc_put(send_all(map, ids.drop_last(), to), ids.last(), to)
    }
}

/// The stores while moves between them are being decided.
#[verifier::ext_equal]
pub struct Moves {
    pub shm_free: int,
    pub host_free: int,
    /// Buffers in shared memory that nothing was decided of.
    pub shm: Listing,
    /// Buffers in host memory that nothing was decided of.
    pub hostmem: Listing,
    pub hostmem_to_shm: Seq<BufferId>,
    pub shm_to_backend: Seq<(BufferId, BufferLocation)>,
    pub hostmem_to_storage: Seq<BufferId>,
}

impl Moves {
    /// Decides which buffers of `pid` move for one requirement. What is in storage stays there.
    pub open spec fn decide(self, pid: i32, req: MigrationRequirement) -> Option<Moves> {
        if req.from is Gpu || req.to is Gpu {
            None
        } else {
            match req.from {
                BufferLocation::Storage => Some(self),
                BufferLocation::Shm => {
                    let moved = chosen(self.shm, pid, req.size as int);
                    if sum_of(moved, buffer_size()) < req.size && !req.allow_incomplete {
                        None
                    } else {
                        Some(
                            Moves {
                                shm: unchosen(self.shm, pid, req.size as int),
                                shm_free: self.shm_free + sum_of(moved, capacity_blocks()),
                                shm_to_backend: send_all(
                                    self.shm_to_backend,
                                    moved.map_values(listed_id()),
                                    req.to,
                                ),
                                ..self
                            },
                        )
                    }
                },
                _ => {
                    let moved = chosen(self.hostmem, pid, req.size as int);
                    let ids = moved.map_values(listed_id());
                    let next = Moves {
                        hostmem: unchosen(self.hostmem, pid, req.size as int),
                        host_free: self.host_free + sum_of(moved, capacity_blocks()),
                        ..self
                    };
                    if sum_of(moved, buffer_size()) < req.size && !req.allow_incomplete {
                        None
                    } else if req.to is Shm {
                        Some(Moves { hostmem_to_shm: self.hostmem_to_shm + ids, ..next })
                    } else if req.to is Storage {
                        Some(Moves { hostmem_to_storage: self.hostmem_to_storage + ids, ..next })
                    } else {
                        None
                    }
                },
            }
        }
    }

    pub open spec fn decide_all(self, pid: i32, reqs: Seq<MigrationRequirement>) -> Option<Moves>
        decreases reqs.len(),
    {
        if reqs.len() == 0 {
            Some(self)
        } else {
            match self.decide(pid, reqs[0]) {
                None => None,
                Some(next) => next.decide_all(pid, reqs.drop_first()),
            }
        }
    }

    /// Takes what is left of `pid` out of consideration.
    pub open spec fn settle(self, pid: i32) -> Moves {
        Moves {
            shm: self.shm.filter(of_others(pid)),
            hostmem: self.hostmem.filter(of_others(pid)),
            ..self
        }
    }

    pub open spec fn decide_requests(self, requests: Seq<(i32, Seq<MigrationRequirement>)>) -> Option<
        Moves,
    >
        decreases requests.len(),
    {
        if requests.len() == 0 {
            Some(self)
        } else {
            match self.decide_all(requests[0].0, requests[0].1) {
                None => None,
                Some(next) => next.settle(requests[0].0).decide_requests(requests.drop_first()),
            }
        }
    }
}

/// Hands out blocks to those that fit, one after the other: what is left, and the sizes of those
/// that did not fit.
pub open spec fn hand_out(free: int, ids: Seq<BufferId>) -> (int, Seq<u32>)
    decreases ids.len(),
{
    if ids.len() == 0 {
        (free, Seq::empty())
    } else {
        let (left, short) = hand_out(free, ids.drop_last());
        let need = block_count(ids.last().size) as int;
        if left >= need {
            (left - need, short)
        } else {
            (left, short.push(ids.last().size))
        }
    }
}

pub open spec fn to_hostmem() -> spec_fn((BufferId, BufferLocation)) -> bool {
    |p: (BufferId, BufferLocation)| p.1 == BufferLocation::HostMem
}

pub open spec fn sent_id() -> spec_fn((BufferId, BufferLocation)) -> BufferId {
    |p: (BufferId, BufferLocation)| p.0
}

/// Why a request to move data leads to no task.
#[derive(Debug, Clone, Copy, PartialEq, Eq, Structural)]
pub enum Refusal {
    /// It names a process twice.
    DuplicatedPids,
    /// It asks for something that is not there, or for a move that is not made.
    Unsatisfiable,
    /// Shared memory has too little that may be moved on.
    NotEnoughShm,
    /// Host memory has too little that may be moved on.
    NotEnoughHostMem,
    /// A buffer does not occupy whole blocks.
    MisalignedCapacity,
}

/// Moves buffers on from shared memory for each size in turn.
pub open spec fn evict_shm(m: Staging, sizes: Seq<u32>) -> Result<Staging, PlanFault>
    decreases sizes.len(),
{
    if sizes.len() == 0 {
        Ok(m)
    } else {
        let need = block_count(sizes[0]) as int;
        match m.make_room(need) {
            Err(fault) => Err(fault),
            Ok(room) => evict_shm(
                Staging { shm_free: room.shm_free - need, ..room },
                sizes.drop_first(),
            ),
        }
    }
}

/// Host memory while buffers are moved on to storage.
#[verifier::ext_equal]
pub struct HostEviction {
    pub free: int,
    pub candidates: Listing,
    pub to_storage: Seq<BufferId>,
}

impl HostEviction {
    /// Moves buffers on to storage until `need` blocks are free.
    pub open spec fn make_room(self, need: int) -> Result<HostEviction, Refusal>
        decreases self.candidates.len(),
    {
        if self.free >= need {
            Ok(self)
        } else if self.candidates.len() == 0 {
            Err(Refusal::NotEnoughHostMem)
        } else {
            let (id, capacity) = self.candidates[0];
            if capacity.0 % BLOCK_BYTES != 0 {
                Err(Refusal::MisalignedCapacity)
            } else {
                HostEviction {
                    free: self.free + capacity.0 as int / BLOCK_BYTES as int,
                    candidates: self.candidates.drop_first(),
                    to_storage: self.to_storage.push(id),
                }.make_room(need)
            }
        }
    }

    pub open spec fn evict(self, sizes: Seq<u32>) -> Result<HostEviction, Refusal>
        decreases sizes.len(),
    {
        if sizes.len() == 0 {
            Ok(self)
        } else {
            let need = block_count(sizes[0]) as int;
            match self.make_room(need) {
                Err(fault) => Err(fault),
                Ok(room) => HostEviction { free: room.free - need, ..room }.evict(
                    sizes.drop_first(),
                ),
            }
        }
    }
}

/// The stores before anything is decided.
pub open spec fn moves_before(h: DataManagerHandle) -> Moves {
    Moves {
        shm_free: h.shm_free_blocks.0 as int,
        host_free: h.hostmem_free_blocks.0 as int,
        shm: h.shm@,
        hostmem: h.hostmem@,
        hostmem_to_shm: Seq::empty(),
        shm_to_backend: Seq::empty(),
        hostmem_to_storage: Seq::empty(),
    }
}

/// Makes room for what was decided.
pub open spec fn make_space(m: Moves) -> Result<TaskModel, Refusal> {
    let (shm_free, shm_short) = hand_out(m.shm_free, m.hostmem_to_shm);
    let (host_free, host_short) = hand_out(
        m.host_free,
        m.shm_to_backend.filter(to_hostmem()).map_values(sent_id()),
    );
    let staging = Staging {
        shm_free,
        host_free,
        candidates: m.shm,
        spilled: m.shm_to_backend,
        queue: Seq::empty(),
    };
    match evict_shm(staging, shm_short) {
        Err(PlanFault::MisalignedCapacity) => Err(Refusal::MisalignedCapacity),
        Err(_) => Err(Refusal::NotEnoughShm),
        Ok(done) => {
            let host = HostEviction {
                free: done.host_free,
                candidates: m.hostmem,
                to_storage: m.hostmem_to_storage,
            };
            match host.evict(host_short) {
                Err(fault) => Err(fault),
                Ok(end) => Ok(
                    TaskModel {
                        out_from_gpu: Seq::empty(),
                        into_gpu: None,
                        storage_to_shm: Seq::empty(),
                        hostmem_to_shm: m.hostmem_to_shm,
                        shm_to_backend: done.spilled,
                        storage_to_hostmem: Seq::empty(),
                        hostmem_to_storage: end.to_storage,
                    },
                ),
            }
        },
    }
}

/// The plan that moves data between the stores.
pub open spec fn local_plan(
    requests: Seq<(i32, Seq<MigrationRequirement>)>,
    h: DataManagerHandle,
) -> Result<TaskModel, Refusal> {
    if !pids_distinct(requests) {
        Err(Refusal::DuplicatedPids)
    } else {
        match moves_before(h).decide_requests(requests) {
            None => Err(Refusal::Unsatisfiable),
            Some(m) => make_space(m),
        }
    }
}

/// Reads requests as sequences.
pub open spec fn deep_requests(s: Seq<(i32, Vec<MigrationRequirement>)>) -> Seq<
    (i32, Seq<MigrationRequirement>),
> {
    s.map_values(|p: (i32, Vec<MigrationRequirement>)| (p.0, p.1@))
}

/// Each process occurs once.
pub open spec fn pids_distinct(s: Seq<(i32, Seq<MigrationRequirement>)>) -> bool {
    forall|i: int, j: int| 0 <= i < j < s.len() ==> (#[trigger] s[i]).0 != (#[trigger] s[j]).0
}

// The plan, computed.

proof fn lemma_split_sum(list: Listing, pid: i32, need: int, f: spec_fn(
    (BufferId, AllocationCapacity),
) -> int)
    ensures
        sum_of(chosen(list, pid, need), f) + sum_of(unchosen(list, pid, need), f) == sum_of(list, f),
    decreases list.len(),
{
    if list.len() > 0 {
        lemma_sum_first(list, f);
        let rest = list.drop_first();
        let one = seq![list[0]];
        assert(one.drop_first() =~= Seq::empty());
        lemma_sum_first(one, f);
        if list[0].0.pid == pid && need > 0 {
            let left = need - list[0].0.size;
            lemma_split_sum(rest, pid, left, f);
            crate::sums::lemma_sum_append(one, chosen(rest, pid, left), f);
        } else {
            lemma_split_sum(rest, pid, need, f);
            crate::sums::lemma_sum_append(one, unchosen(rest, pid, need), f);
        }
    }
}

/// What is kept of a list adds up to no more than the list.
proof fn lemma_filter_sum(list: Listing, keep: spec_fn((BufferId, AllocationCapacity)) -> bool)
    ensures
        sum_of(list.filter(keep), capacity_blocks()) <= sum_of(list, capacity_blocks()),
    decreases list.len(),
{
    if list.len() == 0 {
        reveal(Seq::filter);
    } else {
        lemma_filter_sum(list.drop_last(), keep);
        crate::sorting::lemma_filter_push(list.drop_last(), list.last(), keep);
        assert(list.drop_last().push(list.last()) =~= list);
        lemma_sum_push(list.drop_last().filter(keep), list.last(), capacity_blocks());
    }
}

struct Split {
    moved: Vec<(BufferId, AllocationCapacity)>,
    rest: Vec<(BufferId, AllocationCapacity)>,
    size: u128,
    blocks: u128,
}

fn split(list: &Vec<(BufferId, AllocationCapacity)>, pid: i32, need: u64) -> (s: Split)
    ensures
        s.moved@ == chosen(list@, pid, need as int),
        s.rest@ == unchosen(list@, pid, need as int),
        s.size == sum_of(s.moved@, buffer_size()),
        s.blocks == sum_of(s.moved@, capacity_blocks()),
        s.blocks + sum_of(s.rest@, capacity_blocks()) == sum_of(list@, capacity_blocks()),
{
    let mut moved: Vec<(BufferId, AllocationCapacity)> = Vec::new();
    let mut rest: Vec<(BufferId, AllocationCapacity)> = Vec::new();
    let mut size: u128 = 0;
    let mut blocks: u128 = 0;
    let mut i: usize = 0;
    proof {
        assert(list@.skip(0) =~= list@);
        assert(moved@ + chosen(list@, pid, need as int) =~= chosen(list@, pid, need as int));
        assert(rest@ + unchosen(list@, pid, need as int) =~= unchosen(list@, pid, need as int));
    }
    while i < list.len()
        invariant
            i <= list@.len(),
            chosen(list@, pid, need as int) == moved@ + chosen(
                list@.skip(i as int),
                pid,
                need - size,
            ),
            unchosen(list@, pid, need as int) == rest@ + unchosen(
                list@.skip(i as int),
                pid,
                need - size,
            ),
            size == sum_of(moved@, buffer_size()),
            blocks == sum_of(moved@, capacity_blocks()),
            size <= i * u32::MAX,
            blocks <= i * u32::MAX,
        decreases list@.len() - i,
    {
        let c = list[i];
        let ghost tail = list@.skip(i as int);
        proof {
            assert(tail[0] == c);
            assert(tail.drop_first() =~= list@.skip(i + 1));
        }
        if c.0.pid == pid && size < need as u128 {
            proof {
                let after = chosen(list@.skip(i + 1), pid, need - size - c.0.size);
                assert(moved@ + (seq![c] + after) =~= moved@.push(c) + after);
                lemma_sum_push(moved@, c, buffer_size());
                lemma_sum_push(moved@, c, capacity_blocks());
            }
            moved.push(c);
            size = size + c.0.size as u128;
            blocks = blocks + (c.1.0 / BLOCK_BYTES) as u128;
        } else {
            proof {
                let after = unchosen(list@.skip(i + 1), pid, need - size);
                assert(rest@ + (seq![c] + after) =~= rest@.push(c) + after);
            }
            rest.push(c);
        }
        i = i + 1;
    }
    proof {
        assert(list@.skip(i as int) =~= Seq::empty());
        assert(moved@ + Seq::<(BufferId, AllocationCapacity)>::empty() =~= moved@);
        assert(rest@ + Seq::<(BufferId, AllocationCapacity)>::empty() =~= rest@);
        lemma_split_sum(list@, pid, need as int, capacity_blocks());
    }
    Split { moved, rest, size, blocks }
}

fn keep_others(list: &Vec<(BufferId, AllocationCapacity)>, pid: i32) -> (rest: Vec<
    (BufferId, AllocationCapacity),
>)
    ensures
        rest@ == list@.filter(of_others(pid)),
        sum_of(rest@, capacity_blocks()) <= sum_of(list@, capacity_blocks()),
{
    let mut rest: Vec<(BufferId, AllocationCapacity)> = Vec::new();
    let mut i: usize = 0;
    proof {
        assert(list@.take(0).filter(of_others(pid)) =~= Seq::empty()) by {
            reveal(Seq::filter);
        }
    }
    while i < list.len()
        invariant
            i <= list@.len(),
            rest@ == list@.take(i as int).filter(of_others(pid)),
        decreases list@.len() - i,
    {
        let c = list[i];
        proof {
            assert(list@.take(i + 1) =~= list@.take(i as int).push(c));
            crate::sorting::lemma_filter_push(list@.take(i as int), c, of_others(pid));
        }
        if c.0.pid != pid {
            rest.push(c);
        }
        i = i + 1;
    }
    proof {
        assert(list@.take(i as int) =~= list@);
        lemma_filter_sum(list@, of_others(pid));
    }
    rest
}

fn append_ids(ids: &mut Vec<BufferId>, moved: &Vec<(BufferId, AllocationCapacity)>)
    ensures
        final(ids)@ == old(ids)@ + moved@.map_values(listed_id()),
{
    let ghost start = ids@;
    let mut i: usize = 0;
    while i < moved.len()
        invariant
            i <= moved@.len(),
            ids@ == start + moved@.take(i as int).map_values(listed_id()),
        decreases moved@.len() - i,
    {
        ids.push(moved[i].0);
        proof {
            assert(ids@ =~= start + moved@.take(i + 1).map_values(listed_id()));
        }
        i = i + 1;
    }
    proof {
        assert(moved@.take(i as int) =~= moved@);
    }
}

fn send_each(map: &mut LocationMap, moved: &Vec<(BufferId, AllocationCapacity)>, to: BufferLocation)
    requires
        old(map).wf(),
    ensures
        final(map)@ == send_all(old(map)@, moved@.map_values(listed_id()), to),
        final(map).wf(),
{
    let ghost start = map@;
    let ghost ids = moved@.map_values(listed_id());
    let mut i: usize = 0;
    proof {
        assert(ids.take(0) =~= Seq::empty());
    }
    while i < moved.len()
        invariant
            i <= moved@.len(),
            ids == moved@.map_values(listed_id()),
            map@ == send_all(start, ids.take(i as int), to),
            map.wf(),
        decreases moved@.len() - i,
    {
        proof {
            assert(ids.take(i + 1).drop_last() =~= ids.take(i as int));
        }
        map.insert(moved[i].0, to);
        i = i + 1;
    }
    proof {
        assert(ids.take(i as int) =~= ids);
    }
}

/// The executable counterpart of `Moves`.
struct MovesState {
    shm_free: u128,
    host_free: u128,
    shm: Vec<(BufferId, AllocationCapacity)>,
    hostmem: Vec<(BufferId, AllocationCapacity)>,
    hostmem_to_shm: Vec<BufferId>,
    shm_to_backend: LocationMap,
    hostmem_to_storage: Vec<BufferId>,
}

impl View for MovesState {
    type V = Moves;

    closed spec fn view(&self) -> Moves {
        Moves {
            shm_free: self.shm_free as int,
            host_free: self.host_free as int,
            shm: self.shm@,
            hostmem: self.hostmem@,
            hostmem_to_shm: self.hostmem_to_shm@,
            shm_to_backend: self.shm_to_backend@,
            hostmem_to_storage: self.hostmem_to_storage@,
        }
    }
}

impl MovesState {
    closed spec fn wf(self) -> bool {
        &&& self.shm_free + sum_of(self.shm@, capacity_blocks())
            < 0x10_0000_0000_0000_0000_0000_0000
        &&& self.host_free + sum_of(self.hostmem@, capacity_blocks())
            < 0x10_0000_0000_0000_0000_0000_0000
        &&& self.shm_to_backend.wf()
    }

    fn decide(&mut self, pid: i32, req: &MigrationRequirement) -> (done: bool)
        requires
            old(self).wf(),
        ensures
            match old(self)@.decide(pid, *req) {
                Some(m) => done && final(self)@ == m && final(self).wf(),
                None => !done,
            },
    {
        match req.to {
            BufferLocation::Gpu(_) => {
                return false;
            },
            _ => {},
        }
        match req.from {
            BufferLocation::Gpu(_) => false,
            BufferLocation::Storage => true,
            BufferLocation::Shm => {
                let s = split(&self.shm, pid, req.size);
                proof {
                    lemma_sum_bounds(s.rest@, capacity_blocks(), u32::MAX as int);
                }
                if s.size < req.size as u128 && !req.allow_incomplete {
                    return false;
                }
                self.shm = s.rest;
                self.shm_free = self.shm_free + s.blocks;
                send_each(&mut self.shm_to_backend, &s.moved, req.to);
                true
            },
            BufferLocation::HostMem => {
                let s = split(&self.hostmem, pid, req.size);
                proof {
                    lemma_sum_bounds(s.rest@, capacity_blocks(), u32::MAX as int);
                }
                if s.size < req.size as u128 && !req.allow_incomplete {
                    return false;
                }
                self.hostmem = s.rest;
                self.host_free = self.host_free + s.blocks;
                match req.to {
                    BufferLocation::Shm => {
                        append_ids(&mut self.hostmem_to_shm, &s.moved);
                        true
                    },
                    BufferLocation::Storage => {
                        append_ids(&mut self.hostmem_to_storage, &s.moved);
                        true
                    },
                    _ => false,
                }
            },
        }
    }

    fn decide_all(&mut self, pid: i32, reqs: &Vec<MigrationRequirement>) -> (done: bool)
        requires
            old(self).wf(),
        ensures
            match old(self)@.decide_all(pid, reqs@) {
                Some(m) => done && final(self)@ == m && final(self).wf(),
                None => !done,
            },
    {
        let ghost start = self@;
        let mut i: usize = 0;
        proof {
            assert(reqs@.skip(0) =~= reqs@);
        }
        while i < reqs.len()
            invariant
                i <= reqs@.len(),
                self.wf(),
                start == old(self)@,
                start.decide_all(pid, reqs@) == self@.decide_all(pid, reqs@.skip(i as int)),
            decreases reqs@.len() - i,
        {
            proof {
                assert(reqs@.skip(i as int).drop_first() =~= reqs@.skip(i + 1));
            }
            if !self.decide(pid, &reqs[i]) {
                return false;
            }
            i = i + 1;
        }
        true
    }

    fn settle(&mut self, pid: i32)
        requires
            old(self).wf(),
        ensures
            final(self)@ == old(self)@.settle(pid),
            final(self).wf(),
    {
        self.shm = keep_others(&self.shm, pid);
        self.hostmem = keep_others(&self.hostmem, pid);
    }

    fn decide_requests(&mut self, requests: &Vec<(i32, Vec<MigrationRequirement>)>) -> (done: bool)
        requires
            old(self).wf(),
        ensures
            match old(self)@.decide_requests(deep_requests(requests@)) {
                Some(m) => done && final(self)@ == m && final(self).wf(),
                None => !done,
            },
    {
        let ghost start = self@;
        let ghost deep = deep_requests(requests@);
        let mut i: usize = 0;
        proof {
            assert(deep.skip(0) =~= deep);
        }
        while i < requests.len()
            invariant
                i <= requests@.len(),
                deep == deep_requests(requests@),
                self.wf(),
                start == old(self)@,
                start.decide_requests(deep) == self@.decide_requests(deep.skip(i as int)),
            decreases requests@.len() - i,
        {
            proof {
                assert(deep.skip(i as int).drop_first() =~= deep.skip(i + 1));
                assert(deep[i as int] == (requests@[i as int].0, requests@[i as int].1@));
            }
            if !self.decide_all(requests[i].0, &requests[i].1) {
                return false;
            }
            self.settle(requests[i].0);
            i = i + 1;
        }
        true
    }
}

fn hand_out_blocks(free: u128, ids: &Vec<BufferId>) -> (r: (u128, Vec<u32>))
    ensures
        r.0 == hand_out(free as int, ids@).0,
        r.1@ == hand_out(free as int, ids@).1,
        r.0 <= free,
{
    let mut left: u128 = free;
    let mut short: Vec<u32> = Vec::new();
    let mut i: usize = 0;
    proof {
        assert(ids@.take(0) =~= Seq::empty());
    }
    while i < ids.len()
        invariant
            i <= ids@.len(),
            left == hand_out(free as int, ids@.take(i as int)).0,
            short@ == hand_out(free as int, ids@.take(i as int)).1,
            left <= free,
        decreases ids@.len() - i,
    {
        proof {
            assert(ids@.take(i + 1).drop_last() =~= ids@.take(i as int));
        }
        let need: u32 = blocks_for(ids[i].size);
        if left >= need as u128 {
            left = left - need as u128;
        } else {
            short.push(ids[i].size);
        }
        i = i + 1;
    }
    proof {
        assert(ids@.take(i as int) =~= ids@);
    }
    (left, short)
}

fn sent_to_hostmem(map: &LocationMap) -> (ids: Vec<BufferId>)
    ensures
        ids@ == map@.filter(to_hostmem()).map_values(sent_id()),
{
    let mut ids: Vec<BufferId> = Vec::new();
    let mut i: usize = 0;
    proof {
        assert(map@.take(0).filter(to_hostmem()) =~= Seq::empty()) by {
            reveal(Seq::filter);
        }
    }
    while i < map.items.len()
        invariant
            i <= map@.len(),
            ids@ == map@.take(i as int).filter(to_hostmem()).map_values(sent_id()),
        decreases map@.len() - i,
    {
        let p = map.items[i];
        let ghost before = map@.take(i as int).filter(to_hostmem());
        proof {
            assert(map@.take(i + 1) =~= map@.take(i as int).push(p));
            crate::sorting::lemma_filter_push(map@.take(i as int), p, to_hostmem());
            assert(before.push(p).map_values(sent_id()) =~= before.map_values(sent_id()).push(p.0));
        }
        if p.1 == BufferLocation::HostMem {
            ids.push(p.0);
        }
        i = i + 1;
    }
    proof {
        assert(map@.take(i as int) =~= map@);
    }
    ids
}

fn queue_of(list: &Vec<(BufferId, AllocationCapacity)>) -> (queue: VecDeque<
    (BufferId, AllocationCapacity),
>)
    ensures
        queue@ == list@,
{
    let mut queue: VecDeque<(BufferId, AllocationCapacity)> = VecDeque::new();
    let mut i: usize = 0;
    while i < list.len()
        invariant
            i <= list@.len(),
            queue@ == list@.take(i as int),
        decreases list@.len() - i,
    {
        queue.push_back(list[i]);
        proof {
            assert(queue@ =~= list@.take(i + 1));
        }
        i = i + 1;
    }
    proof {
        assert(list@.take(i as int) =~= list@);
    }
    queue
}

/// Shared memory with the given buffers and nothing placed by the plan itself.
fn evict_from_shm(staging: StagingState, sizes: &Vec<u32>) -> (done: Result<StagingState, PlanFault>)
    requires
        staging.wf(),
    ensures
        match evict_shm(staging@, sizes@) {
            Ok(m) => done matches Ok(s) && s@ == m && s.wf() && s.host_free <= staging.host_free,
            Err(fault) => done matches Err(e) && e == fault,
        },
{
    let mut state = staging;
    let ghost start = state@;
    let mut i: usize = 0;
    proof {
        assert(sizes@.skip(0) =~= sizes@);
    }
    while i < sizes.len()
        invariant
            i <= sizes@.len(),
            start == staging@,
            state.wf(),
            state.host_free <= staging.host_free,
            evict_shm(start, sizes@) == evict_shm(state@, sizes@.skip(i as int)),
        decreases sizes@.len() - i,
    {
        let ghost before = state@;
        proof {
            assert(sizes@.skip(i as int).drop_first() =~= sizes@.skip(i + 1));
        }
        let need: u32 = blocks_for(sizes[i]);
        match state.make_room(need) {
            Err(fault) => {
                return Err(fault);
            },
            Ok(()) => {},
        }
        proof {
            super::staging::lemma_make_room(before, need as int);
        }
        state.shm_free = state.shm_free - need as u128;
        i = i + 1;
    }
    Ok(state)
}

/// The executable counterpart of `HostEviction`.
struct HostEvictionState {
    free: u128,
    candidates: VecDeque<(BufferId, AllocationCapacity)>,
    to_storage: Vec<BufferId>,
}

impl View for HostEvictionState {
    type V = HostEviction;

    closed spec fn view(&self) -> HostEviction {
        HostEviction {
            free: self.free as int,
            candidates: self.candidates@,
            to_storage: self.to_storage@,
        }
    }
}

impl HostEvictionState {
    closed spec fn wf(self) -> bool {
        self.free + sum_of(self.candidates@, capacity_blocks())
            < 0x10_0000_0000_0000_0000_0000_0000
    }

    fn make_room(&mut self, need: u32) -> (done: Result<(), Refusal>)
        requires
            old(self).wf(),
        ensures
            match old(self)@.make_room(need as int) {
                Ok(m) => done is Ok && final(self)@ == m && final(self).wf() && final(self).free
                    >= need,
                Err(e) => done == Err::<(), Refusal>(e),
            },
    {
        let ghost start = self@;
        while self.free < need as u128
            invariant
                start == old(self)@,
                self.wf(),
                start.make_room(need as int) == self@.make_room(need as int),
            decreases self.candidates@.len(),
        {
            let ghost before = self@;
            match self.candidates.pop_front() {
                None => {
                    return Err(Refusal::NotEnoughHostMem);
                },
                Some((id, capacity)) => {
                    proof {
                        assert(self.candidates@ =~= before.candidates.drop_first());
                        lemma_sum_first(before.candidates, capacity_blocks());
                        lemma_sum_bounds(
                            before.candidates.drop_first(),
                            capacity_blocks(),
                            u32::MAX as int,
                        );
                    }
                    if capacity.0 % BLOCK_BYTES != 0 {
                        return Err(Refusal::MisalignedCapacity);
                    }
                    self.to_storage.push(id);
                    self.free = self.free + (capacity.0 / BLOCK_BYTES) as u128;
                },
            }
        }
        Ok(())
    }

    fn evict(&mut self, sizes: &Vec<u32>) -> (done: Result<(), Refusal>)
        requires
            old(self).wf(),
        ensures
            match old(self)@.evict(sizes@) {
                Ok(m) => done is Ok && final(self)@ == m,
                Err(e) => done == Err::<(), Refusal>(e),
            },
    {
        let ghost start = self@;
        let mut i: usize = 0;
        proof {
            assert(sizes@.skip(0) =~= sizes@);
        }
        while i < sizes.len()
            invariant
                i <= sizes@.len(),
                start == old(self)@,
                self.wf(),
                start.evict(sizes@) == self@.evict(sizes@.skip(i as int)),
            decreases sizes@.len() - i,
        {
            proof {
                assert(sizes@.skip(i as int).drop_first() =~= sizes@.skip(i + 1));
            }
            let need: u32 = blocks_for(sizes[i]);
            match self.make_room(need) {
                Err(e) => {
                    return Err(e);
                },
                Ok(()) => {},
            }
            self.free = self.free - need as u128;
            i = i + 1;
        }
        Ok(())
    }
}

fn has_distinct_pids(requests: &Vec<(i32, Vec<MigrationRequirement>)>) -> (distinct: bool)
    ensures
        distinct == pids_distinct(deep_requests(requests@)),
{
    let ghost deep = deep_requests(requests@);
    let mut i: usize = 0;
    while i < requests.len()
        invariant
            i <= requests@.len(),
            deep == deep_requests(requests@),
            forall|a: int, b: int|
                0 <= a < b < deep.len() && a < i ==> (#[trigger] deep[a]).0 != (
                #[trigger] deep[b]).0,
        decreases requests@.len() - i,
    {
        let mut j: usize = i + 1;
        while j < requests.len()
            invariant
                i < j <= requests@.len(),
                deep == deep_requests(requests@),
                forall|b: int| i < b < j ==> deep[i as int].0 != (#[trigger] deep[b]).0,
            decreases requests@.len() - j,
        {
            if requests[i].0 == requests[j].0 {
                assert(deep[i as int].0 == deep[j as int].0);
                return false;
            }
            j = j + 1;
        }
        i = i + 1;
    }
    true
}

/// Plans moves between shared memory, host memory and storage. Each request names a process and
/// what of it should move.
pub fn plan_local_prefetch(
    requests: Vec<(i32, Vec<MigrationRequirement>)>,
    data_manager: DataManagerHandle,
) -> (plan: Result<DataMigrationTask, Refusal>)
    ensures
        match local_plan(deep_requests(requests@), data_manager) {
            Ok(m) => plan matches Ok(task) && task@ == m && task.data_manager == data_manager
                && task.shm_to_backend.wf(),
            Err(e) => plan matches Err(refusal) && refusal == e,
        },
{
    if !has_distinct_pids(&requests) {
        return Err(Refusal::DuplicatedPids);
    }
    let mut moves = MovesState {
        shm_free: data_manager.shm_free_blocks_count().0 as u128,
        host_free: data_manager.hostmem_free_blocks_count().0 as u128,
        shm: data_manager.shm_buffer_ids(),
        hostmem: data_manager.hostmem_buffer_ids(),
        hostmem_to_shm: Vec::new(),
        shm_to_backend: LocationMap::new(),
        hostmem_to_storage: Vec::new(),
    };
    proof {
        assert(data_manager.shm@.len() == data_manager.shm.len());
        assert(data_manager.hostmem@.len() == data_manager.hostmem.len());
        lemma_sum_bounds(moves.shm@, capacity_blocks(), u32::MAX as int);
        lemma_sum_bounds(moves.hostmem@, capacity_blocks(), u32::MAX as int);
        lemma_many(moves.shm@.len());
        lemma_many(moves.hostmem@.len());
        assert(moves@ == moves_before(data_manager));
    }
    if !moves.decide_requests(&requests) {
        return Err(Refusal::Unsatisfiable);
    }
    let ghost decided = moves@;
    let (shm_free, shm_short) = hand_out_blocks(moves.shm_free, &moves.hostmem_to_shm);
    let to_host = sent_to_hostmem(&moves.shm_to_backend);
    let (host_free, host_short) = hand_out_blocks(moves.host_free, &to_host);
    let staging = StagingState {
        shm_free,
        host_free,
        candidates: queue_of(&moves.shm),
        spilled: moves.shm_to_backend,
        queue: VecDeque::new(),
    };
    proof {
        assert(staging@.queue =~= Seq::empty());
        assert(sum_of(staging@.queue, queued_blocks()) == 0);
    }
    let done = match evict_from_shm(staging, &shm_short) {
        Ok(done) => done,
        Err(fault) => {
            if fault == PlanFault::MisalignedCapacity {
                return Err(Refusal::MisalignedCapacity);
            }
            return Err(Refusal::NotEnoughShm);
        },
    };
    let mut host = HostEvictionState {
        free: done.host_free,
        candidates: queue_of(&moves.hostmem),
        to_storage: moves.hostmem_to_storage,
    };
    match host.evict(&host_short) {
        Err(e) => {
            return Err(e);
        },
        Ok(()) => {},
    }
    let task = DataMigrationTask::new(
        Vec::new(),
        None,
        Vec::new(),
        moves.hostmem_to_shm,
        done.spilled,
        Vec::new(),
        host.to_storage,
        data_manager,
    );
    proof {
        assert(task@.out_from_gpu =~= Seq::empty());
        assert(task@.storage_to_shm =~= Seq::empty());
        assert(task@.storage_to_hostmem =~= Seq::empty());
    }
    Ok(task)
}

proof fn lemma_many(n: nat)
    requires
        n <= usize::MAX,
    ensures
        u32::MAX * n < 0x1_0000_0000_0000_0000_0000_0000,
{
}

/// Plans moves between shared memory, host memory and storage. There is no task where a request
/// cannot be met.
pub fn local_prefetch_task(
    requests: Vec<(i32, Vec<MigrationRequirement>)>,
    data_manager: DataManagerHandle,
) -> (task: Option<DataMigrationTask>)
    requires
        pids_distinct(deep_requests(requests@)),
        local_plan(deep_requests(requests@), data_manager) != Err::<TaskModel, Refusal>(
            Refusal::MisalignedCapacity,
        ),
    ensures
        match local_plan(deep_requests(requests@), data_manager) {
            Ok(m) => task matches Some(task) && task@ == m && task.data_manager == data_manager
                && task.shm_to_backend.wf(),
            Err(_) => task is None,
        },
{
    match plan_local_prefetch(requests, data_manager) {
        Ok(task) => Some(task),
        Err(_) => None,
    }
}

// Bringing part of a process onto the GPU.

/// Bytes that each process holds on `device`.
pub open spec fn held_on(device: GlobalDeviceId) -> spec_fn((i32, AllocationModel)) -> int {
    |v: (i32, AllocationModel)|
        match assoc_get(v.1, device) {
            Some(entries) => sum_of(entries, entry_size()),
            None => 0,
        }
}

/// The entries that fit into `room` bytes together, taken one after the other; those that do not
/// fit are passed over.
pub open spec fn fitting(entries: Seq<PhysicalMemoryData>, room: int) -> Seq<PhysicalMemoryData>
    decreases entries.len(),
{
    if entries.len() == 0 {
        entries
    } else {
        let earlier = fitting(entries.drop_last(), room);
        if sum_of(earlier, entry_size()) + entries.last().size > room {
            earlier
        } else {
            earlier.push(entries.last())
        }
    }
}

/// What of the incoming process fits where the others are.
pub open spec fn fitting_allocs(allocs: AllocationModel, victims: Seq<(i32, AllocationModel)>) -> AllocationModel {
    allocs.map_values(
        |p: (GlobalDeviceId, Seq<PhysicalMemoryData>)|
            (p.0, fitting(p.1, sum_of(victims, held_on(p.0)))),
    )
}

/// The plan that brings part of `pid` onto the GPU. Free memory of the GPU is left to the process
/// that runs.
pub open spec fn gpu_prefetch_plan(
    pid: i32,
    allocs: AllocationModel,
    victims: Seq<(i32, AllocationModel)>,
    h: DataManagerHandle,
) -> PlanModel {
    if super::realtime::any_on_gpu(allocs) {
        PlanModel::Fault(PlanFault::AlreadyOnGpu)
    } else {
        realtime_plan(pid, RequestModel::Residual(fitting_allocs(allocs, victims)), victims, h, false)
    }
}

/// Bytes that the processes hold on `device`, as far as they can be counted.
fn held_bytes(victims: &Vec<(i32, ProcessResidualData)>, device: GlobalDeviceId) -> (bytes: u128)
    ensures
        bytes == if sum_of(deep_victims(victims@), held_on(device)) <= u128::MAX {
            sum_of(deep_victims(victims@), held_on(device))
        } else {
            u128::MAX as int
        },
{
    let ghost deep = deep_victims(victims@);
    let mut bytes: u128 = 0;
    let mut i: usize = 0;
    proof {
        assert(deep.take(0) =~= Seq::empty());
    }
    while i < victims.len()
        invariant
            i <= victims@.len(),
            deep == deep_victims(victims@),
            bytes == if sum_of(deep.take(i as int), held_on(device)) <= u128::MAX {
                sum_of(deep.take(i as int), held_on(device))
            } else {
                u128::MAX as int
            },
        decreases victims@.len() - i,
    {
        let held: u128;
        let ghost allocs = victims@[i as int].1.model();
        proof {
            lemma_assoc_pos_same_keys(victims@[i as int].1.allocations@, allocs, device);
            assert(deep.take(i + 1).drop_last() =~= deep.take(i as int));
            assert(deep.take(i + 1).last() == (victims@[i as int].0, allocs));
        }
        match find_device(&victims[i].1.allocations, device) {
            Some(at) => {
                held = total_size(&victims[i].1.allocations[at].1);
                assert(allocs[at as int].1 == victims@[i as int].1.allocations@[at as int].1@);
            },
            None => {
                held = 0;
            },
        }
        bytes = bytes.saturating_add(held);
        i = i + 1;
    }
    proof {
        assert(deep.take(i as int) =~= deep);
    }
    bytes
}

fn keep_fitting(entries: &Vec<PhysicalMemoryData>, room: u128, Ghost(exact): Ghost<int>) -> (kept: Vec<
    PhysicalMemoryData,
>)
    requires
        room == if exact <= u128::MAX {
            exact
        } else {
            u128::MAX as int
        },
    ensures
        kept@ == fitting(entries@, exact),
{
    let mut kept: Vec<PhysicalMemoryData> = Vec::new();
    let mut size: u128 = 0;
    let mut i: usize = 0;
    proof {
        assert(entries@.take(0) =~= Seq::empty());
    }
    while i < entries.len()
        invariant
            i <= entries@.len(),
            room == if exact <= u128::MAX {
                exact
            } else {
                u128::MAX as int
            },
            kept@ == fitting(entries@.take(i as int), exact),
            size == sum_of(kept@, entry_size()),
            size <= i * u32::MAX,
        decreases entries@.len() - i,
    {
        let e = entries[i];
        proof {
            assert(entries@.take(i + 1).drop_last() =~= entries@.take(i as int));
            lemma_sum_push(kept@, e, entry_size());
        }
        if size + e.size as u128 <= room {
            kept.push(e);
            size = size + e.size as u128;
        }
        i = i + 1;
    }
    proof {
        assert(entries@.take(i as int) =~= entries@);
    }
    kept
}

/// Plans how part of `into_pid` gets onto the GPU in place of `victims`. Says so where no plan
/// exists.
pub fn plan_gpu_prefetch(
    into_pid: i32,
    data: ProcessResidualData,
    victims: Vec<(i32, ProcessResidualData)>,
    data_manager: DataManagerHandle,
) -> (plan: RealtimePlan)
    ensures
        plan@ == gpu_prefetch_plan(into_pid, data.model(), deep_victims(victims@), data_manager),
        plan matches RealtimePlan::Task(task) ==> task.data_manager == data_manager
            && task.shm_to_backend.wf(),
{
    if super::realtime::has_resident(&data) {
        return RealtimePlan::Fault(PlanFault::AlreadyOnGpu);
    }
    let ghost deep = deep_victims(victims@);
    let mut allocations: Vec<(GlobalDeviceId, Vec<PhysicalMemoryData>)> = Vec::new();
    let mut i: usize = 0;
    while i < data.allocations.len()
        invariant
            i <= data.allocations@.len(),
            deep == deep_victims(victims@),
            allocations@.len() == i,
            forall|k: int|
                0 <= k < i ==> (#[trigger] allocations@[k]).0 == data.model()[k].0
                    && allocations@[k].1@ == fitting(
                    data.model()[k].1,
                    sum_of(deep, held_on(data.model()[k].0)),
                ),
        decreases data.allocations@.len() - i,
    {
        let device = data.allocations[i].0;
        let room: u128 = held_bytes(&victims, device);
        let kept = keep_fitting(
            &data.allocations[i].1,
            room,
            Ghost(sum_of(deep, held_on(device))),
        );
        assert(data.model()[i as int] == (device, data.allocations@[i as int].1@));
        allocations.push((device, kept));
        i = i + 1;
    }
    let part = ProcessResidualData { pid: into_pid, allocations };
    assert(part.model() =~= fitting_allocs(data.model(), deep));
    plan_realtime(into_pid, DeviceRequestArgs::ResidualData(part), victims, data_manager, false)
}

/// Plans how part of `into_pid` gets onto the GPU in place of `out_from_gpu`, none of which may be
/// the process that runs. There is no task where the others hold too little.
pub fn gpu_prefetch_task(
    current_pid: Option<i32>,
    into_pid: i32,
    data: ProcessResidualData,
    out_from_gpu: Vec<(i32, ProcessResidualData)>,
    data_manager: DataManagerHandle,
) -> (task: Option<DataMigrationTask>)
    requires
        current_pid matches Some(pid) ==> pid != into_pid && forall|i: int|
            0 <= i < out_from_gpu@.len() ==> (#[trigger] out_from_gpu@[i]).0 != pid,
        !(gpu_prefetch_plan(
            into_pid,
            data.model(),
            deep_victims(out_from_gpu@),
            data_manager,
        ) is Fault),
    ensures
        match task {
            Some(task) => {
                &&& PlanModel::Task(task@) == gpu_prefetch_plan(
                    into_pid,
                    data.model(),
                    deep_victims(out_from_gpu@),
                    data_manager,
                )
                &&& task.data_manager == data_manager
                &&& task.shm_to_backend.wf()
            },
            None => PlanModel::NotEnoughData == gpu_prefetch_plan(
                into_pid,
                data.model(),
                deep_victims(out_from_gpu@),
                data_manager,
            ),
        },
{
    match plan_gpu_prefetch(into_pid, data, out_from_gpu, data_manager) {
        RealtimePlan::Task(task) => Some(task),
        RealtimePlan::NotEnoughData => None,
        RealtimePlan::Fault(_) => None,
    }
}

// Laws.

proof fn lemma_chosen_owner(list: Listing, pid: i32, need: int)
    ensures
        forall|i: int| 0 <= i < chosen(list, pid, need).len() ==> (#[trigger] chosen(
            list,
            pid,
            need,
        )[i]).0.pid == pid,
    decreases list.len(),
{
    if list.len() > 0 {
        let rest = list.drop_first();
        if list[0].0.pid == pid && need > 0 {
            let left = need - list[0].0.size;
            lemma_chosen_owner(rest, pid, left);
            let all = chosen(list, pid, need);
            assert forall|i: int| 0 <= i < all.len() implies (#[trigger] all[i]).0.pid == pid by {
                if i > 0 {
                    assert(all[i] == chosen(rest, pid, left)[i - 1]);
                }
            }
        } else {
            lemma_chosen_owner(rest, pid, need);
            assert(chosen(list, pid, need) == chosen(rest, pid, need));
        }
    }
}

/// The buffers chosen for a move are of the process asked for, they are as many as it takes and no
/// more, and what is not chosen stays where it was.
pub proof fn law_choice(list: Listing, pid: i32, need: int)
    ensures
        ({
            let moved = chosen(list, pid, need);
            let kept = unchosen(list, pid, need);
            &&& forall|i: int| 0 <= i < moved.len() ==> (#[trigger] moved[i]).0.pid == pid
            &&& moved.len() + kept.len() == list.len()
            &&& sum_of(moved, buffer_size()) >= need || forall|i: int|
                0 <= i < kept.len() ==> (#[trigger] kept[i]).0.pid != pid
            &&& moved.len() > 0 ==> sum_of(moved.drop_last(), buffer_size()) < need
        }),
    decreases list.len(),
{
    lemma_chosen_owner(list, pid, need);
    let f = buffer_size();
    if list.len() > 0 {
        let rest = list.drop_first();
        let one = seq![list[0]];
        assert(one.drop_first() =~= Seq::empty());
        lemma_sum_first(one, f);
        if list[0].0.pid == pid && need > 0 {
            let left = need - list[0].0.size;
            law_choice(rest, pid, left);
            let tail = chosen(rest, pid, left);
            crate::sums::lemma_sum_append(one, tail, f);
            let moved = chosen(list, pid, need);
            if tail.len() == 0 {
                assert(moved.drop_last() =~= Seq::empty());
            } else {
                assert(moved.drop_last() =~= one + tail.drop_last());
                crate::sums::lemma_sum_append(one, tail.drop_last(), f);
            }
        } else {
            law_choice(rest, pid, need);
            let kept = unchosen(list, pid, need);
            if sum_of(chosen(rest, pid, need), f) < need {
                lemma_sum_bounds(chosen(rest, pid, need), f, u32::MAX as int);
                assert forall|i: int| 0 <= i < kept.len() implies (#[trigger] kept[i]).0.pid
                    != pid by {
                    if i > 0 {
                        assert(kept[i] == unchosen(rest, pid, need)[i - 1]);
                    }
                }
            }
        }
    } else {
        assert(list =~= Seq::empty());
    }
}

/// Nothing that is still undecided belongs to one of the processes.
pub open spec fn none_left(list: Listing, requests: Seq<(i32, Seq<MigrationRequirement>)>) -> bool {
    forall|i: int, k: int|
        0 <= i < list.len() && 0 <= k < requests.len() ==> (#[trigger] list[i]).0.pid != (
        #[trigger] requests[k]).0
}

proof fn lemma_unchosen_subset(list: Listing, pid: i32, need: int)
    ensures
        forall|i: int|
            0 <= i < unchosen(list, pid, need).len() ==> list.contains(
                #[trigger] unchosen(list, pid, need)[i],
            ),
    decreases list.len(),
{
    if list.len() > 0 {
        let rest = list.drop_first();
        let taken = list[0].0.pid == pid && need > 0;
        let left = if taken {
            need - list[0].0.size
        } else {
            need
        };
        lemma_unchosen_subset(rest, pid, left);
        let all = unchosen(list, pid, need);
        let sub = unchosen(rest, pid, left);
        assert forall|i: int| 0 <= i < all.len() implies list.contains(#[trigger] all[i]) by {
            if !taken && i == 0 {
                assert(list[0] == all[0]);
            } else {
                let x = if taken {
                    sub[i]
                } else {
                    sub[i - 1]
                };
                assert(x == all[i]);
                let k = choose|k: int| 0 <= k < rest.len() && rest[k] == x;
                assert(list[k + 1] == x);
            }
        }
    }
}

proof fn lemma_subset_spares(
    list: Listing,
    sub: Listing,
    requests: Seq<(i32, Seq<MigrationRequirement>)>,
)
    requires
        none_left(list, requests),
        forall|i: int| 0 <= i < sub.len() ==> list.contains(#[trigger] sub[i]),
    ensures
        none_left(sub, requests),
{
    assert forall|i: int, k: int| 0 <= i < sub.len() && 0 <= k < requests.len() implies (
    #[trigger] sub[i]).0.pid != (#[trigger] requests[k]).0 by {
        let j = choose|j: int| 0 <= j < list.len() && list[j] == sub[i];
        assert(list[j].0.pid != requests[k].0);
    }
}

proof fn lemma_decide_all_spares(
    m: Moves,
    pid: i32,
    reqs: Seq<MigrationRequirement>,
    done: Seq<(i32, Seq<MigrationRequirement>)>,
)
    requires
        none_left(m.shm, done),
        none_left(m.hostmem, done),
        m.decide_all(pid, reqs) is Some,
    ensures
        none_left(m.decide_all(pid, reqs)->0.shm, done),
        none_left(m.decide_all(pid, reqs)->0.hostmem, done),
    decreases reqs.len(),
{
    if reqs.len() > 0 {
        let next = m.decide(pid, reqs[0])->0;
        lemma_unchosen_subset(m.shm, pid, reqs[0].size as int);
        lemma_unchosen_subset(m.hostmem, pid, reqs[0].size as int);
        lemma_subset_spares(m.shm, unchosen(m.shm, pid, reqs[0].size as int), done);
        lemma_subset_spares(m.hostmem, unchosen(m.hostmem, pid, reqs[0].size as int), done);
        lemma_decide_all_spares(next, pid, reqs.drop_first(), done);
    }
}

proof fn lemma_settled(list: Listing, done: Seq<(i32, Seq<MigrationRequirement>)>, request: (
    i32,
    Seq<MigrationRequirement>,
))
    requires
        none_left(list, done),
    ensures
        none_left(list.filter(of_others(request.0)), done.push(request)),
{
    let sub = list.filter(of_others(request.0));
    crate::sorting::lemma_filter_members(list, of_others(request.0));
    lemma_subset_spares(list, sub, done);
    assert forall|i: int, k: int| 0 <= i < sub.len() && 0 <= k < done.push(request).len() implies (
    #[trigger] sub[i]).0.pid != (#[trigger] done.push(request)[k]).0 by {
        assert(of_others(request.0)(sub[i]));
        if k < done.len() {
            assert(sub[i].0.pid != done[k].0);
        }
    }
}

proof fn lemma_decide_requests_spares(
    m: Moves,
    done: Seq<(i32, Seq<MigrationRequirement>)>,
    requests: Seq<(i32, Seq<MigrationRequirement>)>,
)
    requires
        none_left(m.shm, done),
        none_left(m.hostmem, done),
        m.decide_requests(requests) is Some,
    ensures
        none_left(m.decide_requests(requests)->0.shm, done + requests),
        none_left(m.decide_requests(requests)->0.hostmem, done + requests),
    decreases requests.len(),
{
    if requests.len() == 0 {
        assert(done + requests =~= done);
    } else {
        let request = requests[0];
        lemma_decide_all_spares(m, request.0, request.1, done);
        let next = m.decide_all(request.0, request.1)->0;
        lemma_settled(next.shm, done, request);
        lemma_settled(next.hostmem, done, request);
        lemma_decide_requests_spares(
            next.settle(request.0),
            done.push(request),
            requests.drop_first(),
        );
        assert(done.push(request) + requests.drop_first() =~= done + requests);
    }
}

/// Room is made only at the cost of processes that no request names.
pub proof fn law_requested_processes_are_spared(
    requests: Seq<(i32, Seq<MigrationRequirement>)>,
    h: DataManagerHandle,
)
    requires
        moves_before(h).decide_requests(requests) is Some,
    ensures
        ({
            let m = moves_before(h).decide_requests(requests)->0;
            none_left(m.shm, requests) && none_left(m.hostmem, requests)
        }),
{
    lemma_decide_requests_spares(moves_before(h), Seq::empty(), requests);
    assert(Seq::<(i32, Seq<MigrationRequirement>)>::empty() + requests =~= requests);
}

proof fn lemma_fitting(entries: Seq<PhysicalMemoryData>, room: int)
    requires
        room >= 0,
    ensures
        sum_of(fitting(entries, room), entry_size()) <= room,
    decreases entries.len(),
{
    if entries.len() > 0 {
        lemma_fitting(entries.drop_last(), room);
        lemma_sum_push(fitting(entries.drop_last(), room), entries.last(), entry_size());
    }
}

/// What is brought in ahead of time on a device is no more than the others hold there.
pub proof fn law_prefetch_fits(
    allocs: AllocationModel,
    victims: Seq<(i32, AllocationModel)>,
    i: int,
)
    requires
        0 <= i < allocs.len(),
    ensures
        sum_of(fitting_allocs(allocs, victims)[i].1, entry_size()) <= sum_of(
            victims,
            held_on(allocs[i].0),
        ),
{
    lemma_held(victims, allocs[i].0);
    lemma_fitting(allocs[i].1, sum_of(victims, held_on(allocs[i].0)));
}

proof fn lemma_held(victims: Seq<(i32, AllocationModel)>, device: GlobalDeviceId)
    ensures
        sum_of(victims, held_on(device)) >= 0,
    decreases victims.len(),
{
    if victims.len() > 0 {
        lemma_held(victims.drop_last(), device);
        if let Some(entries) = assoc_get(victims.last().1, device) {
            lemma_sum_bounds(entries, entry_size(), u32::MAX as int);
        }
    }
}

} // verus!
