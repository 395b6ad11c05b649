//! Bringing a process onto the GPU at the cost of others.
use std::collections::VecDeque;
use vstd::prelude::*;
use crate::assoc::{assoc_get, assoc_has, find_device, lemma_assoc_pos_same_keys};
use crate::constant::MAX_ALLOCATION_SIZE;
use crate::control::{PhysicalMemoryData, ProcessResidualData};
use crate::ids::{AllocationCapacity, BufferId, GlobalDeviceId};
use crate::sorting::{lemma_filter_push, sort_stable, stable_sorted};
use crate::sums::{lemma_sum_bounds, lemma_sum_first, lemma_sum_push, sum_of};
use super::staging::{capacity_blocks, queued_blocks, PlanFault, Staging, StagingState};
use super::store::{stored_blocks, DataManagerHandle, LocationMap};
use super::task::{deep_specs, DataMigrationTask, MigrationSpec, MigrationSpecEntry, SpecModel,
    TaskModel};

verus! {

/// The allocations of a process, device by device.
pub type AllocationModel = Seq<(GlobalDeviceId, Seq<PhysicalMemoryData>)>;

/// What a process asks of the GPUs.
#[derive(Debug)]
pub enum DeviceRequestArgs {
    /// To have its memory back.
    ResidualData(ProcessResidualData),
    /// New memory on each device. Each device occurs once.
    Allocation(Vec<(GlobalDeviceId, u64)>),
}

pub enum RequestModel {
    Residual(AllocationModel),
    Allocation(Seq<(GlobalDeviceId, u64)>),
}

impl DeviceRequestArgs {
    pub open spec fn model(self) -> RequestModel {
        match self {
            DeviceRequestArgs::ResidualData(data) => RequestModel::Residual(data.model()),
            DeviceRequestArgs::Allocation(list) => RequestModel::Allocation(list@),
        }
    }
}

/// Reads processes with their allocations as sequences.
pub open spec fn deep_victims(s: Seq<(i32, ProcessResidualData)>) -> Seq<(i32, AllocationModel)> {
    s.map_values(|p: (i32, ProcessResidualData)| (p.0, p.1.model()))
}

/// The buffer that an allocation of a process is stored in.
pub open spec fn buffer_of(pid: i32, device: GlobalDeviceId, e: PhysicalMemoryData) -> BufferId {
    BufferId { pid, device_id: device, block_id: e.handle_idx, size: e.size }
}

pub open spec fn larger_first() -> spec_fn(PhysicalMemoryData, PhysicalMemoryData) -> bool {
    |a: PhysicalMemoryData, b: PhysicalMemoryData| a.size > b.size
}

/// The entries with the largest first; entries of one size keep their order.
pub open spec fn by_size(entries: Seq<PhysicalMemoryData>) -> Seq<PhysicalMemoryData> {
    stable_sorted(entries, larger_first())
}

pub open spec fn entry_size() -> spec_fn(PhysicalMemoryData) -> int {
    |e: PhysicalMemoryData| e.size as int
}

pub open spec fn entry_buffer(pid: i32, device: GlobalDeviceId) -> spec_fn(
    PhysicalMemoryData,
) -> BufferId {
    |e: PhysicalMemoryData| buffer_of(pid, device, e)
}

/// How an allocation on the GPU is sent out.
pub open spec fn outgoing() -> spec_fn(PhysicalMemoryData) -> MigrationSpecEntry {
    |e: PhysicalMemoryData|
        MigrationSpecEntry { size: e.size, handle_idx: e.handle_idx, ready_for_pcie_xfer: true }
}

// What has to be freed.

/// Free bytes of `device` that the plan counts on: two of the largest allocations less than the
/// driver says, since that is not exact.
pub open spec fn free_credit(
    gpu_free: Seq<(GlobalDeviceId, u64)>,
    device: GlobalDeviceId,
    with_free_memory: bool,
) -> int {
    let free = match assoc_get(gpu_free, device) {
        Some(bytes) if with_free_memory => bytes as int,
        _ => 0,
    };
    if free >= 2 * MAX_ALLOCATION_SIZE {
        free - 2 * MAX_ALLOCATION_SIZE
    } else {
        0
    }
}

/// `a` less `b`, but not less than zero.
pub open spec fn less(a: int, b: int) -> int {
    if a >= b {
        a - b
    } else {
        0
    }
}

/// Bytes that other processes have to give up, device by device.
pub open spec fn requirement(
    args: RequestModel,
    gpu_free: Seq<(GlobalDeviceId, u64)>,
    with_free_memory: bool,
) -> Seq<(GlobalDeviceId, int)> {
    match args {
        RequestModel::Residual(allocs) => allocs.map_values(
            |p: (GlobalDeviceId, Seq<PhysicalMemoryData>)|
                (
                    p.0,
                    less(
                        sum_of(p.1, entry_size()),
                        free_credit(gpu_free, p.0, with_free_memory),
                    ),
                ),
        ),
        RequestModel::Allocation(list) => list.map_values(
            |p: (GlobalDeviceId, u64)| (p.0, p.1 as int),
        ),
    }
}

/// Whether some allocation is on the GPU.
pub open spec fn any_on_gpu(allocs: AllocationModel) -> bool {
    exists|i: int, j: int|
        0 <= i < allocs.len() && 0 <= j < allocs[i].1.len() && (#[trigger] allocs[i].1[j]).on_gpu
}

// What comes in.

/// The buffers of the incoming process, device by device, the largest first.
pub open spec fn incoming_ids(pid: i32, allocs: AllocationModel) -> Seq<BufferId>
    decreases allocs.len(),
{
    if allocs.len() == 0 {
        Seq::empty()
    } else {
        incoming_ids(pid, allocs.drop_last()) + by_size(allocs.last().1).map_values(
            entry_buffer(pid, allocs.last().0),
        )
    }
}

/// Whether a buffer waits in host memory.
pub open spec fn waits_in_hostmem(h: DataManagerHandle) -> spec_fn(BufferId) -> bool {
    |id: BufferId| !assoc_has(h.shm@, id) && assoc_has(h.hostmem@, id)
}

/// Whether a buffer waits in storage.
pub open spec fn waits_in_storage(h: DataManagerHandle) -> spec_fn(BufferId) -> bool {
    |id: BufferId|
        !assoc_has(h.shm@, id) && !assoc_has(h.hostmem@, id) && assoc_has(h.storage@, id)
}

/// Whether the buffer of an allocation is stored anywhere.
pub open spec fn located(h: DataManagerHandle, pid: i32, device: GlobalDeviceId) -> spec_fn(
    PhysicalMemoryData,
) -> bool {
    |e: PhysicalMemoryData|
        {
            let id = buffer_of(pid, device, e);
            assoc_has(h.shm@, id) || assoc_has(h.hostmem@, id) || assoc_has(h.storage@, id)
        }
}

/// How an allocation is brought in: at once where it is in shared memory.
pub open spec fn incoming(h: DataManagerHandle, pid: i32, device: GlobalDeviceId) -> spec_fn(
    PhysicalMemoryData,
) -> MigrationSpecEntry {
    |e: PhysicalMemoryData|
        MigrationSpecEntry {
            size: e.size,
            handle_idx: e.handle_idx,
            ready_for_pcie_xfer: assoc_has(h.shm@, buffer_of(pid, device, e)),
        }
}

/// The entries that come in to one device.
pub open spec fn incoming_on(
    h: DataManagerHandle,
    pid: i32,
    device: GlobalDeviceId,
    entries: Seq<PhysicalMemoryData>,
) -> Seq<MigrationSpecEntry> {
    by_size(entries).filter(located(h, pid, device)).map_values(incoming(h, pid, device))
}

/// The entries that come in, device by device.
pub open spec fn incoming_spec(h: DataManagerHandle, pid: i32, allocs: AllocationModel) -> Seq<
    (GlobalDeviceId, Seq<MigrationSpecEntry>),
> {
    allocs.map_values(
        |p: (GlobalDeviceId, Seq<PhysicalMemoryData>)| (p.0, incoming_on(h, pid, p.0, p.1)),
    )
}

/// Blocks that a buffer gives back to shared memory when it enters the GPU.
pub open spec fn shm_returned(h: DataManagerHandle) -> spec_fn(BufferId) -> int {
    |id: BufferId|
        match stored_blocks(h.shm@, id) {
            Some(count) => count.0 as int,
            None => 0,
        }
}

/// Blocks that a buffer gives back to host memory when it enters the GPU.
pub open spec fn hostmem_returned(h: DataManagerHandle) -> spec_fn(BufferId) -> int {
    |id: BufferId|
        match stored_blocks(h.hostmem@, id) {
            Some(count) if !assoc_has(h.shm@, id) => count.0 as int,
            _ => 0,
        }
}

pub open spec fn of_others(pid: i32) -> spec_fn((BufferId, AllocationCapacity)) -> bool {
    |c: (BufferId, AllocationCapacity)| c.0.pid != pid
}

/// The buffers that have to be brought into view for a request.
pub open spec fn requested_ids(pid: i32, args: RequestModel) -> Seq<BufferId> {
    match args {
        RequestModel::Residual(allocs) => incoming_ids(pid, allocs),
        RequestModel::Allocation(_) => Seq::empty(),
    }
}

/// Shared memory before anything leaves the GPU: the buffers that come in are counted as gone,
/// and no buffer of their process may be moved on.
pub open spec fn staging_before(h: DataManagerHandle, pid: i32, args: RequestModel) -> Staging {
    let ids = requested_ids(pid, args);
    Staging {
        shm_free: h.shm_free_blocks.0 + sum_of(ids, shm_returned(h)),
        host_free: h.hostmem_free_blocks.0 + sum_of(ids, hostmem_returned(h)),
        candidates: h.shm@.filter(of_others(pid)),
        spilled: Seq::empty(),
        queue: Seq::empty(),
    }
}

// What goes out.

/// How many entries leave, from the front, until `required` bytes are free, `freed` of which are
/// free already.
pub open spec fn taken_len(entries: Seq<PhysicalMemoryData>, freed: int, required: int) -> nat
    decreases entries.len(),
{
    if entries.len() == 0 || freed >= required {
        0
    } else {
        1 + taken_len(entries.drop_first(), freed + entries[0].size, required)
    }
}

/// A device while it is being cleared.
#[verifier::ext_equal]
pub struct Clearing {
    pub staging: Staging,
    pub out: Seq<SpecModel>,
    /// Bytes freed on the device so far.
    pub freed: int,
}

impl Clearing {
    /// Takes from one process, the largest allocations first, what the device still needs.
    pub open spec fn take_from(
        self,
        victim: (i32, AllocationModel),
        device: GlobalDeviceId,
        required: int,
    ) -> Result<Clearing, PlanFault> {
        match assoc_get(victim.1, device) {
            None => Ok(self),
            Some(entries) => {
                let sorted = by_size(entries);
                let chosen = sorted.take(taken_len(sorted, self.freed, required) as int);
                match self.staging.place_all(chosen.map_values(entry_buffer(victim.0, device))) {
                    Err(fault) => Err(fault),
                    Ok(staging) => Ok(
                        Clearing {
                            staging,
                            out: if chosen.len() == 0 {
                                self.out
                            } else {
                                self.out.push(
                                    (victim.0, seq![(device, chosen.map_values(outgoing()))]),
                                )
                            },
                            freed: self.freed + sum_of(chosen, entry_size()),
                        },
                    ),
                }
            },
        }
    }

    /// Takes from one process after the other.
    pub open spec fn take_from_all(
        self,
        victims: Seq<(i32, AllocationModel)>,
        device: GlobalDeviceId,
        required: int,
    ) -> Result<Clearing, PlanFault>
        decreases victims.len(),
    {
        if victims.len() == 0 {
            Ok(self)
        } else {
            match self.take_from_all(victims.drop_last(), device, required) {
                Err(fault) => Err(fault),
                Ok(next) => next.take_from(victims.last(), device, required),
            }
        }
    }
}

/// What clearing the devices comes to.
#[verifier::ext_equal]
pub enum Cleared {
    Enough(Staging, Seq<SpecModel>),
    /// The other processes hold too little on some device.
    NotEnoughData,
    Fault(PlanFault),
}

/// Clears one device after the other. Each device has a queue of its own.
pub open spec fn clear_devices(
    staging: Staging,
    victims: Seq<(i32, AllocationModel)>,
    required: Seq<(GlobalDeviceId, int)>,
) -> Cleared
    decreases required.len(),
{
    if required.len() == 0 {
        Cleared::Enough(staging, Seq::empty())
    } else {
        match clear_devices(staging, victims, required.drop_last()) {
            Cleared::Enough(staging, out) => {
                let (device, bytes) = required.last();
                let start = Clearing {
                    staging: Staging { queue: Seq::empty(), ..staging },
                    out,
                    freed: 0,
                };
                match start.take_from_all(victims, device, bytes) {
                    Err(fault) => Cleared::Fault(fault),
                    Ok(end) => if end.freed < bytes {
                        Cleared::NotEnoughData
                    } else {
                        Cleared::Enough(end.staging, end.out)
                    },
                }
            },
            other => other,
        }
    }
}

/// What planning comes to.
#[verifier::ext_equal]
pub enum PlanModel {
    Task(TaskModel),
    NotEnoughData,
    Fault(PlanFault),
}

/// The plan that brings `pid` onto the GPU.
pub open spec fn realtime_plan(
    pid: i32,
    args: RequestModel,
    victims: Seq<(i32, AllocationModel)>,
    h: DataManagerHandle,
    with_free_memory: bool,
) -> PlanModel {
    let ids = requested_ids(pid, args);
    if args is Residual && any_on_gpu(args->Residual_0) {
        PlanModel::Fault(PlanFault::AlreadyOnGpu)
    } else {
        match clear_devices(
            staging_before(h, pid, args),
            victims,
            requirement(args, h.gpu_free@, with_free_memory),
        ) {
            Cleared::NotEnoughData => PlanModel::NotEnoughData,
            Cleared::Fault(fault) => PlanModel::Fault(fault),
            Cleared::Enough(staging, out) => PlanModel::Task(
                TaskModel {
                    out_from_gpu: out,
                    into_gpu: Some(
                        (
                            pid,
                            match args {
                                RequestModel::Residual(allocs) => incoming_spec(h, pid, allocs),
                                RequestModel::Allocation(_) => Seq::empty(),
                            },
                        ),
                    ),
                    storage_to_shm: ids.filter(waits_in_storage(h)),
                    hostmem_to_shm: ids.filter(waits_in_hostmem(h)),
                    shm_to_backend: staging.spilled,
                    storage_to_hostmem: Seq::empty(),
                    hostmem_to_storage: Seq::empty(),
                },
            ),
        }
    }
}

// The plan, computed.

/// What planning comes to.
#[derive(Debug)]
pub enum RealtimePlan {
    Task(DataMigrationTask),
    /// The other processes hold too little on some device.
    NotEnoughData,
    Fault(PlanFault),
}

impl View for RealtimePlan {
    type V = PlanModel;

    open spec fn view(&self) -> PlanModel {
        match self {
            RealtimePlan::Task(task) => PlanModel::Task(task@),
            RealtimePlan::NotEnoughData => PlanModel::NotEnoughData,
            RealtimePlan::Fault(fault) => PlanModel::Fault(*fault),
        }
    }
}

/// The entries with the largest first.
pub(crate) fn sorted_by_size(entries: &Vec<PhysicalMemoryData>) -> (sorted: Vec<
    PhysicalMemoryData,
>)
    ensures
        sorted@ == by_size(entries@),
{
    let mut sorted: Vec<PhysicalMemoryData> = Vec::new();
    let mut i: usize = 0;
    while i < entries.len()
        invariant
            i <= entries@.len(),
            sorted@ == entries@.take(i as int),
        decreases entries@.len() - i,
    {
        sorted.push(entries[i]);
        i = i + 1;
    }
    assert(sorted@ =~= entries@);
    let precedes = |a: &PhysicalMemoryData, b: &PhysicalMemoryData| -> (r: bool)
        ensures
            r == (a.size > b.size),
        { a.size > b.size };
    sort_stable(&mut sorted, precedes, Ghost(larger_first()));
    sorted
}

/// The bytes of all entries together.
pub(crate) fn total_size(entries: &Vec<PhysicalMemoryData>) -> (total: u128)
    ensures
        total == sum_of(entries@, entry_size()),
        total < 0x1_0000_0000_0000_0000_0000_0000,
{
    let mut total: u128 = 0;
    let mut i: usize = 0;
    while i < entries.len()
        invariant
            i <= entries@.len(),
            total == sum_of(entries@.take(i as int), entry_size()),
            total <= i * u32::MAX,
        decreases entries@.len() - i,
    {
        proof {
            assert(entries@.take(i + 1).drop_last() =~= entries@.take(i as int));
        }
        total = total + entries[i].size as u128;
        i = i + 1;
    }
    proof {
        assert(entries@.take(i as int) =~= entries@);
    }
    total
}

/// Whether some entry is on the GPU.
pub(crate) fn has_resident(data: &ProcessResidualData) -> (found: bool)
    ensures
        found == any_on_gpu(data.model()),
{
    let mut i: usize = 0;
    while i < data.allocations.len()
        invariant
            i <= data.allocations@.len(),
            forall|k: int, j: int|
                0 <= k < i && 0 <= j < data.model()[k].1.len() ==> !(
                #[trigger] data.model()[k].1[j]).on_gpu,
        decreases data.allocations@.len() - i,
    {
        let entries = &data.allocations[i].1;
        assert(data.model()[i as int].1 == entries@);
        let mut j: usize = 0;
        while j < entries.len()
            invariant
                i < data.allocations@.len(),
                j <= entries@.len(),
                data.model()[i as int].1 == entries@,
                forall|k: int| 0 <= k < j ==> !(#[trigger] entries@[k]).on_gpu,
            decreases entries@.len() - j,
        {
            if entries[j].on_gpu {
                assert(data.model()[i as int].1[j as int].on_gpu);
                return true;
            }
            j = j + 1;
        }
        i = i + 1;
    }
    false
}

/// Reads requirements as unbounded numbers.
pub open spec fn wide(s: Seq<(GlobalDeviceId, u128)>) -> Seq<(GlobalDeviceId, int)> {
    s.map_values(|p: (GlobalDeviceId, u128)| (p.0, p.1 as int))
}

/// No device needs more than all entries of the longest list hold.
pub open spec fn within_reach(s: Seq<(GlobalDeviceId, u128)>) -> bool {
    forall|i: int| 0 <= i < s.len() ==> (#[trigger] s[i]).1
        < 0x1_0000_0000_0000_0000_0000_0000
}

fn counted_free(h: &DataManagerHandle, device: GlobalDeviceId, with_free_memory: bool) -> (free:
    u128)
    ensures
        free == free_credit(h.gpu_free@, device, with_free_memory),
{
    let reported: u64 = match h.gpu_free_space(device) {
        Some(bytes) => if with_free_memory {
            bytes
        } else {
            0
        },
        None => 0,
    };
    let free: u128 = reported as u128;
    if free >= 2 * MAX_ALLOCATION_SIZE as u128 {
        free - 2 * MAX_ALLOCATION_SIZE as u128
    } else {
        0
    }
}

/// Bytes that other processes have to give up, device by device.
fn required_sizes(args: &DeviceRequestArgs, h: &DataManagerHandle, with_free_memory: bool) -> (list:
    Vec<(GlobalDeviceId, u128)>)
    ensures
        wide(list@) == requirement(args.model(), h.gpu_free@, with_free_memory),
        within_reach(list@),
{
    let mut list: Vec<(GlobalDeviceId, u128)> = Vec::new();
    match args {
        DeviceRequestArgs::ResidualData(data) => {
            let ghost goal = requirement(args.model(), h.gpu_free@, with_free_memory);
            let mut i: usize = 0;
            while i < data.allocations.len()
                invariant
                    i <= data.allocations@.len(),
                    *args == DeviceRequestArgs::ResidualData(*data),
                    goal == requirement(args.model(), h.gpu_free@, with_free_memory),
                    wide(list@) == goal.take(i as int),
                    within_reach(list@),
                decreases data.allocations@.len() - i,
            {
                let device = data.allocations[i].0;
                let total: u128 = total_size(&data.allocations[i].1);
                let free: u128 = counted_free(h, device, with_free_memory);
                let needed: u128 = if total >= free {
                    total - free
                } else {
                    0
                };
                let ghost before = list@;
                list.push((device, needed));
                proof {
                    assert(data.model()[i as int] == (device, data.allocations@[i as int].1@));
                    assert(goal[i as int] == (device, needed as int));
                    assert(wide(list@) =~= wide(before).push((device, needed as int)));
                    assert(goal.take(i + 1) =~= goal.take(i as int).push(goal[i as int]));
                }
                i = i + 1;
            }
            assert(goal.take(i as int) =~= goal);
        },
        DeviceRequestArgs::Allocation(wanted) => {
            let mut i: usize = 0;
            while i < wanted.len()
                invariant
                    i <= wanted@.len(),
                    list@.len() == i,
                    forall|k: int|
                        0 <= k < i ==> #[trigger] list@[k] == (
                            wanted@[k].0,
                            wanted@[k].1 as u128,
                        ),
                decreases wanted@.len() - i,
            {
                list.push((wanted[i].0, wanted[i].1 as u128));
                i = i + 1;
            }
            proof {
                assert(wide(list@) =~= requirement(args.model(), h.gpu_free@, with_free_memory));
            }
        },
    }
    list
}

/// The buffers of the incoming process, device by device, the largest first.
fn collect_incoming(pid: i32, data: &ProcessResidualData) -> (ids: Vec<BufferId>)
    ensures
        ids@ == incoming_ids(pid, data.model()),
{
    let mut ids: Vec<BufferId> = Vec::new();
    let mut i: usize = 0;
    while i < data.allocations.len()
        invariant
            i <= data.allocations@.len(),
            ids@ == incoming_ids(pid, data.model().take(i as int)),
        decreases data.allocations@.len() - i,
    {
        let device = data.allocations[i].0;
        let sorted = sorted_by_size(&data.allocations[i].1);
        let ghost start = ids@;
        let mut j: usize = 0;
        while j < sorted.len()
            invariant
                j <= sorted@.len(),
                ids@ == start + sorted@.take(j as int).map_values(entry_buffer(pid, device)),
            decreases sorted@.len() - j,
        {
            let e = sorted[j];
            ids.push(BufferId { pid, device_id: device, block_id: e.handle_idx, size: e.size });
            proof {
                assert(ids@ =~= start + sorted@.take(j + 1).map_values(entry_buffer(pid, device)));
            }
            j = j + 1;
        }
        proof {
            let upto = data.model().take(i + 1);
            assert(sorted@.take(j as int) =~= sorted@);
            assert(upto.drop_last() =~= data.model().take(i as int));
            assert(upto.last() == (device, data.allocations@[i as int].1@));
        }
        i = i + 1;
    }
    proof {
        assert(data.model().take(i as int) =~= data.model());
    }
    ids
}

/// The entries that come in to one device.
fn prepare_device(
    pid: i32,
    device: GlobalDeviceId,
    entries: &Vec<PhysicalMemoryData>,
    h: &DataManagerHandle,
) -> (list: Vec<MigrationSpecEntry>)
    ensures
        list@ == incoming_on(*h, pid, device, entries@),
{
    let sorted = sorted_by_size(entries);
    let mut list: Vec<MigrationSpecEntry> = Vec::new();
    let ghost keep = located(*h, pid, device);
    let ghost convert = incoming(*h, pid, device);
    let mut j: usize = 0;
    proof {
        assert(sorted@.take(0).filter(keep) =~= Seq::empty()) by {
            reveal(Seq::filter);
        }
    }
    while j < sorted.len()
        invariant
            j <= sorted@.len(),
            keep == located(*h, pid, device),
            convert == incoming(*h, pid, device),
            list@ == sorted@.take(j as int).filter(keep).map_values(convert),
        decreases sorted@.len() - j,
    {
        let e = sorted[j];
        let id = BufferId { pid, device_id: device, block_id: e.handle_idx, size: e.size };
        let in_shm: bool = h.shm_contains(&id);
        let ghost before = sorted@.take(j as int).filter(keep);
        proof {
            assert(sorted@.take(j + 1) =~= sorted@.take(j as int).push(e));
            lemma_filter_push(sorted@.take(j as int), e, keep);
            assert(id == buffer_of(pid, device, e));
            assert(before.push(e).map_values(convert) =~= before.map_values(convert).push(
                convert(e),
            ));
        }
        if in_shm || h.hostmem_contains(&id) || h.storage_contains(&id) {
            list.push(
                MigrationSpecEntry {
                    size: e.size,
                    handle_idx: e.handle_idx,
                    ready_for_pcie_xfer: in_shm,
                },
            );
        }
        j = j + 1;
    }
    proof {
        assert(sorted@.take(j as int) =~= sorted@);
    }
    list
}

/// The entries that come in, device by device.
fn prepare_incoming(pid: i32, data: &ProcessResidualData, h: &DataManagerHandle) -> (spec:
    MigrationSpec)
    ensures
        spec@ == incoming_spec(*h, pid, data.model()),
{
    let mut device_map: Vec<(GlobalDeviceId, Vec<MigrationSpecEntry>)> = Vec::new();
    let mut i: usize = 0;
    while i < data.allocations.len()
        invariant
            i <= data.allocations@.len(),
            device_map@.len() == i,
            forall|k: int|
                0 <= k < i ==> (#[trigger] device_map@[k]).0 == data.model()[k].0
                    && device_map@[k].1@ == incoming_on(
                    *h,
                    pid,
                    data.model()[k].0,
                    data.model()[k].1,
                ),
        decreases data.allocations@.len() - i,
    {
        let device = data.allocations[i].0;
        let list = prepare_device(pid, device, &data.allocations[i].1, h);
        assert(data.model()[i as int] == (device, data.allocations@[i as int].1@));
        device_map.push((device, list));
        i = i + 1;
    }
    let spec = MigrationSpec { device_map };
    assert(spec@ =~= incoming_spec(*h, pid, data.model()));
    spec
}

/// Where the buffers that come in wait, and the blocks that they give back.
struct Waiting {
    storage_to_shm: Vec<BufferId>,
    hostmem_to_shm: Vec<BufferId>,
    shm_returned: u128,
    hostmem_returned: u128,
}

fn sort_out_incoming(ids: &Vec<BufferId>, h: &DataManagerHandle) -> (waiting: Waiting)
    ensures
        waiting.storage_to_shm@ == ids@.filter(waits_in_storage(*h)),
        waiting.hostmem_to_shm@ == ids@.filter(waits_in_hostmem(*h)),
        waiting.shm_returned == sum_of(ids@, shm_returned(*h)),
        waiting.hostmem_returned == sum_of(ids@, hostmem_returned(*h)),
        waiting.shm_returned < 0x1_0000_0000_0000_0000_0000_0000,
        waiting.hostmem_returned < 0x1_0000_0000_0000_0000_0000_0000,
{
    let mut storage_to_shm: Vec<BufferId> = Vec::new();
    let mut hostmem_to_shm: Vec<BufferId> = Vec::new();
    let mut shm: u128 = 0;
    let mut hostmem: u128 = 0;
    let mut i: usize = 0;
    proof {
        assert(ids@.take(0).filter(waits_in_storage(*h)) =~= Seq::empty()) by {
            reveal(Seq::filter);
        }
        assert(ids@.take(0).filter(waits_in_hostmem(*h)) =~= Seq::empty()) by {
            reveal(Seq::filter);
        }
    }
    while i < ids.len()
        invariant
            i <= ids@.len(),
            storage_to_shm@ == ids@.take(i as int).filter(waits_in_storage(*h)),
            hostmem_to_shm@ == ids@.take(i as int).filter(waits_in_hostmem(*h)),
            shm == sum_of(ids@.take(i as int), shm_returned(*h)),
            hostmem == sum_of(ids@.take(i as int), hostmem_returned(*h)),
            shm <= i * u32::MAX,
            hostmem <= i * u32::MAX,
        decreases ids@.len() - i,
    {
        let id = ids[i];
        proof {
            assert(ids@.take(i + 1) =~= ids@.take(i as int).push(id));
            lemma_filter_push(ids@.take(i as int), id, waits_in_storage(*h));
            lemma_filter_push(ids@.take(i as int), id, waits_in_hostmem(*h));
            lemma_sum_push(ids@.take(i as int), id, shm_returned(*h));
            lemma_sum_push(ids@.take(i as int), id, hostmem_returned(*h));
        }
        match h.get_shm_block_count(&id) {
            Some(count) => {
                shm = shm + count.0 as u128;
            },
            None => match h.get_hostmem_block_count(&id) {
                Some(count) => {
                    hostmem = hostmem + count.0 as u128;
                    hostmem_to_shm.push(id);
                },
                None => if h.storage_contains(&id) {
                    storage_to_shm.push(id);
                },
            },
        }
        i = i + 1;
    }
    proof {
        assert(ids@.take(i as int) =~= ids@);
    }
    Waiting { storage_to_shm, hostmem_to_shm, shm_returned: shm, hostmem_returned: hostmem }
}

/// The buffers in shared memory that do not belong to `pid`, in order.
pub(crate) fn without_process(list: &Vec<(BufferId, AllocationCapacity)>, pid: i32) -> (rest:
    VecDeque<(BufferId, AllocationCapacity)>)
    ensures
        rest@ == list@.filter(of_others(pid)),
        rest@.len() <= list@.len(),
{
    let mut rest: VecDeque<(BufferId, AllocationCapacity)> = VecDeque::new();
    let mut i: usize = 0;
    proof {
        assert(list@.take(0).filter(of_others(pid)) =~= Seq::empty()) by {
            reveal(Seq::filter);
        }
    }
    while i < list.len()
        invariant
            i <= list@.len(),
            rest@ == list@.take(i as int).filter(of_others(pid)),
            rest@.len() <= i,
        decreases list@.len() - i,
    {
        let c = list[i];
        proof {
            assert(list@.take(i + 1) =~= list@.take(i as int).push(c));
            lemma_filter_push(list@.take(i as int), c, of_others(pid));
        }
        if c.0.pid != pid {
            rest.push_back(c);
        }
        i = i + 1;
    }
    proof {
        assert(list@.take(i as int) =~= list@);
    }
    rest
}

/// Where placing some of the buffers fails, placing all of them fails alike.
pub proof fn lemma_place_all_fault(m: Staging, ids: Seq<BufferId>, n: int)
    requires
        0 <= n <= ids.len(),
        m.place_all(ids.take(n)) is Err,
    ensures
        m.place_all(ids) == m.place_all(ids.take(n)),
    decreases ids.len(),
{
    if n == ids.len() {
        assert(ids.take(n) =~= ids);
    } else {
        assert(ids.drop_last().take(n) =~= ids.take(n));
        lemma_place_all_fault(m, ids.drop_last(), n);
    }
}

/// Where taking from some of the processes fails, taking from all of them fails alike.
pub proof fn lemma_take_from_all_fault(
    c: Clearing,
    victims: Seq<(i32, AllocationModel)>,
    device: GlobalDeviceId,
    required: int,
    n: int,
)
    requires
        0 <= n <= victims.len(),
        c.take_from_all(victims.take(n), device, required) is Err,
    ensures
        c.take_from_all(victims, device, required) == c.take_from_all(
            victims.take(n),
            device,
            required,
        ),
    decreases victims.len(),
{
    if n == victims.len() {
        assert(victims.take(n) =~= victims);
    } else {
        assert(victims.drop_last().take(n) =~= victims.take(n));
        lemma_take_from_all_fault(c, victims.drop_last(), device, required, n);
    }
}

/// Where clearing some of the devices fails, clearing all of them fails alike.
pub proof fn lemma_clear_devices_fault(
    staging: Staging,
    victims: Seq<(i32, AllocationModel)>,
    required: Seq<(GlobalDeviceId, int)>,
    n: int,
)
    requires
        0 <= n <= required.len(),
        !(clear_devices(staging, victims, required.take(n)) is Enough),
    ensures
        clear_devices(staging, victims, required) == clear_devices(
            staging,
            victims,
            required.take(n),
        ),
    decreases required.len(),
{
    if n == required.len() {
        assert(required.take(n) =~= required);
    } else {
        assert(required.drop_last().take(n) =~= required.take(n));
        lemma_clear_devices_fault(staging, victims, required.drop_last(), n);
    }
}

/// The executable counterpart of `Clearing`.
struct ClearingState {
    staging: StagingState,
    out: Vec<(i32, MigrationSpec)>,
    freed: u128,
}

impl View for ClearingState {
    type V = Clearing;

    closed spec fn view(&self) -> Clearing {
        Clearing {
            staging: self.staging@,
            out: deep_specs(self.out@),
            freed: self.freed as int,
        }
    }
}

impl ClearingState {
    /// What was freed exceeds what was required by less than one allocation.
    closed spec fn wf(self, required: int) -> bool {
        &&& self.staging.wf()
        &&& required < 0x1_0000_0000_0000_0000_0000_0000
        &&& self.freed == 0 || self.freed < required + u32::MAX
    }

    fn take_from(&mut self, victim: &(i32, ProcessResidualData), device: GlobalDeviceId, required:
        u128) -> (done: Result<(), PlanFault>)
        requires
            old(self).wf(required as int),
        ensures
            match old(self)@.take_from((victim.0, victim.1.model()), device, required as int) {
                Ok(c) => done is Ok && final(self)@ == c && final(self).wf(required as int),
                Err(fault) => done == Err::<(), PlanFault>(fault),
            },
    {
        let ghost start = self@;
        let ghost allocs = victim.1.model();
        proof {
            lemma_assoc_pos_same_keys(victim.1.allocations@, allocs, device);
        }
        let found = find_device(&victim.1.allocations, device);
        let at: usize = match found {
            None => {
                return Ok(());
            },
            Some(at) => at,
        };
        let sorted = sorted_by_size(&victim.1.allocations[at].1);
        assert(assoc_get(allocs, device) == Some(victim.1.allocations@[at as int].1@));
        let ghost to_buffer = entry_buffer(victim.0, device);
        let ghost count = taken_len(sorted@, start.freed, required as int);
        let mut entries: Vec<MigrationSpecEntry> = Vec::new();
        let mut n: usize = 0;
        proof {
            assert(sorted@.skip(0) =~= sorted@);
            assert(sorted@.take(0).map_values(to_buffer) =~= Seq::empty());
            assert(sorted@.take(0).map_values(outgoing()) =~= Seq::empty());
            lemma_taken_len(sorted@, start.freed, required as int);
        }
        while n < sorted.len() && self.freed < required
            invariant
                n <= sorted@.len(),
                count <= sorted@.len(),
                to_buffer == entry_buffer(victim.0, device),
                count == n + taken_len(sorted@.skip(n as int), self.freed as int, required as int),
                self.freed == start.freed + sum_of(sorted@.take(n as int), entry_size()),
                start.staging.place_all(sorted@.take(n as int).map_values(to_buffer)) == Ok::<
                    Staging,
                    PlanFault,
                >(self.staging@),
                entries@ == sorted@.take(n as int).map_values(outgoing()),
                self.wf(required as int),
                deep_specs(self.out@) == start.out,
                start == old(self)@,
                allocs == victim.1.model(),
                assoc_get(allocs, device) is Some,
                sorted@ == by_size(assoc_get(allocs, device)->0),
                count == taken_len(sorted@, start.freed, required as int),
            decreases sorted@.len() - n,
        {
            let e = sorted[n];
            let entry = MigrationSpecEntry {
                size: e.size,
                handle_idx: e.handle_idx,
                ready_for_pcie_xfer: true,
            };
            let id = entry.to_buffer_id(victim.0, device);
            let ghost chosen = sorted@.take(count as int).map_values(to_buffer);
            proof {
                let upto = sorted@.take(n as int);
                assert(sorted@.take(n + 1) =~= upto.push(e));
                assert(id == to_buffer(e));
                assert(upto.push(e).map_values(to_buffer) =~= upto.map_values(to_buffer).push(id));
                assert(upto.map_values(to_buffer).push(id).drop_last() =~= upto.map_values(
                    to_buffer,
                ));
                assert(upto.push(e).map_values(outgoing()) =~= upto.map_values(outgoing()).push(
                    entry,
                ));
                lemma_sum_push(upto, e, entry_size());
                assert(sorted@.skip(n as int).drop_first() =~= sorted@.skip(n + 1));
                assert(sorted@.skip(n as int)[0] == e);
                assert(count >= n + 1);
                assert(chosen.take(n + 1) =~= sorted@.take(n + 1).map_values(to_buffer));
            }
            match self.staging.place(id) {
                Ok(()) => {},
                Err(fault) => {
                    proof {
                        lemma_place_all_fault(start.staging, chosen, n + 1);
                    }
                    return Err(fault);
                },
            }
            entries.push(entry);
            self.freed = self.freed + e.size as u128;
            n = n + 1;
        }
        assert(count == n);
        if entries.len() > 0 {
            let ghost before = self.out@;
            let mut device_map: Vec<(GlobalDeviceId, Vec<MigrationSpecEntry>)> = Vec::new();
            let ghost listed = entries@;
            device_map.push((device, entries));
            let spec = MigrationSpec { device_map };
            proof {
                assert(spec@ =~= seq![(device, listed)]);
                assert(deep_specs(before.push((victim.0, spec))) =~= deep_specs(before).push(
                    (victim.0, spec@),
                ));
            }
            self.out.push((victim.0, spec));
        }
        Ok(())
    }
}

/// Exactly as many entries leave as it takes: what leaves is enough unless everything leaves, and
/// without the last entry that leaves it is not enough.
pub proof fn lemma_taken_len(entries: Seq<PhysicalMemoryData>, freed: int, required: int)
    ensures
        ({
            let n = taken_len(entries, freed, required) as int;
            &&& n <= entries.len()
            &&& n < entries.len() ==> freed + sum_of(entries.take(n), entry_size()) >= required
            &&& n > 0 ==> freed + sum_of(entries.take(n - 1), entry_size()) < required
        }),
    decreases entries.len(),
{
    let n = taken_len(entries, freed, required) as int;
    if entries.len() == 0 || freed >= required {
        assert(entries.take(0) =~= Seq::empty());
    } else {
        let rest = entries.drop_first();
        lemma_taken_len(rest, freed + entries[0].size, required);
        lemma_sum_first(entries.take(n), entry_size());
        assert(entries.take(n).drop_first() =~= rest.take(n - 1));
        if n == 1 {
            assert(entries.take(0) =~= Seq::empty());
        } else {
            lemma_sum_first(entries.take(n - 1), entry_size());
            assert(entries.take(n - 1).drop_first() =~= rest.take(n - 2));
        }
    }
}

/// What clearing the devices comes to.
enum ClearedState {
    Enough(StagingState, Vec<(i32, MigrationSpec)>),
    NotEnoughData,
    Fault(PlanFault),
}

fn clear_all(
    staging: StagingState,
    victims: &Vec<(i32, ProcessResidualData)>,
    required: &Vec<(GlobalDeviceId, u128)>,
) -> (cleared: ClearedState)
    requires
        staging.wf(),
        within_reach(required@),
    ensures
        match clear_devices(staging@, deep_victims(victims@), wide(required@)) {
            Cleared::Enough(m, out) => cleared matches ClearedState::Enough(s, list) && s@ == m
                && deep_specs(list@) == out && s.wf(),
            Cleared::NotEnoughData => cleared is NotEnoughData,
            Cleared::Fault(fault) => cleared == ClearedState::Fault(fault),
        },
{
    let ghost start = staging@;
    let ghost vs = deep_victims(victims@);
    let ghost req = wide(required@);
    let mut state = ClearingState { staging, out: Vec::new(), freed: 0 };
    let mut i: usize = 0;
    proof {
        assert(req.take(0) =~= Seq::empty());
        assert(deep_specs(state.out@) =~= Seq::empty());
    }
    while i < required.len()
        invariant
            i <= required@.len(),
            vs == deep_victims(victims@),
            req == wide(required@),
            within_reach(required@),
            state.staging.wf(),
            clear_devices(start, vs, req.take(i as int)) == Cleared::Enough(
                state@.staging,
                state@.out,
            ),
            start == staging@,
        decreases required@.len() - i,
    {
        let (device, bytes) = required[i];
        let ghost before = state@;
        state.staging.queue.clear();
        state.freed = 0;
        let ghost first = state@;
        proof {
            assert(req.take(i + 1).drop_last() =~= req.take(i as int));
            assert(req.take(i + 1).last() == (device, bytes as int));
            assert(state.staging.queue@ =~= Seq::empty());
            lemma_sum_bounds(before.staging.queue, queued_blocks(), u32::MAX as int);
            assert(first == Clearing {
                staging: Staging { queue: Seq::empty(), ..before.staging },
                out: before.out,
                freed: 0,
            });
            assert(vs.take(0) =~= Seq::empty());
        }
        let mut j: usize = 0;
        while j < victims.len()
            invariant
                i < required@.len(),
                j <= victims@.len(),
                vs == deep_victims(victims@),
                req == wide(required@),
                state.wf(bytes as int),
                first.take_from_all(vs.take(j as int), device, bytes as int) == Ok::<
                    Clearing,
                    PlanFault,
                >(state@),
                start == staging@,
                clear_devices(start, vs, req.take(i as int)) == Cleared::Enough(
                    before.staging,
                    before.out,
                ),
                first == (Clearing {
                    staging: Staging { queue: Seq::empty(), ..before.staging },
                    out: before.out,
                    freed: 0,
                }),
                req.take(i + 1).drop_last() == req.take(i as int),
                req.take(i + 1).last() == (device, bytes as int),
            decreases victims@.len() - j,
        {
            proof {
                assert(vs.take(j + 1).drop_last() =~= vs.take(j as int));
                assert(vs.take(j + 1).last() == (
                    victims@[j as int].0,
                    victims@[j as int].1.model(),
                ));
            }
            match state.take_from(&victims[j], device, bytes) {
                Ok(()) => {},
                Err(fault) => {
                    proof {
                        lemma_take_from_all_fault(first, vs, device, bytes as int, j + 1);
                        lemma_clear_devices_fault(start, vs, req, i + 1);
                    }
                    return ClearedState::Fault(fault);
                },
            }
            j = j + 1;
        }
        proof {
            assert(vs.take(j as int) =~= vs);
        }
        if state.freed < bytes {
            proof {
                lemma_clear_devices_fault(start, vs, req, i + 1);
            }
            return ClearedState::NotEnoughData;
        }
        i = i + 1;
    }
    proof {
        assert(req.take(i as int) =~= req);
    }
    ClearedState::Enough(state.staging, state.out)
}

/// Plans how `into_pid` gets onto the GPU at the cost of `victims`; the earlier one of them
/// stands, the sooner it has to give memory up. Says so where no plan exists.
pub fn plan_realtime(
    into_pid: i32,
    args: DeviceRequestArgs,
    victims: Vec<(i32, ProcessResidualData)>,
    data_manager: DataManagerHandle,
    with_free_memory: bool,
) -> (plan: RealtimePlan)
    ensures
        plan@ == realtime_plan(
            into_pid,
            args.model(),
            deep_victims(victims@),
            data_manager,
            with_free_memory,
        ),
        plan matches RealtimePlan::Task(task) ==> task.data_manager == data_manager
            && task.shm_to_backend.wf(),
{
    let ids: Vec<BufferId>;
    let spec: MigrationSpec;
    match &args {
        DeviceRequestArgs::ResidualData(data) => {
            if has_resident(data) {
                return RealtimePlan::Fault(PlanFault::AlreadyOnGpu);
            }
            ids = collect_incoming(into_pid, data);
            spec = prepare_incoming(into_pid, data, &data_manager);
        },
        DeviceRequestArgs::Allocation(_) => {
            ids = Vec::new();
            spec = MigrationSpec { device_map: Vec::new() };
            assert(spec@ =~= Seq::empty());
        },
    }
    let required = required_sizes(&args, &data_manager, with_free_memory);
    let waiting = sort_out_incoming(&ids, &data_manager);
    let candidates = without_process(&data_manager.shm, into_pid);
    let staging = StagingState {
        shm_free: data_manager.shm_free_blocks_count().0 as u128 + waiting.shm_returned,
        host_free: data_manager.hostmem_free_blocks_count().0 as u128 + waiting.hostmem_returned,
        candidates,
        spilled: LocationMap::new(),
        queue: VecDeque::new(),
    };
    proof {
        assert(staging@.queue =~= Seq::empty());
        assert(data_manager.shm@.len() == data_manager.shm.len());
        lemma_sum_bounds(staging@.candidates, capacity_blocks(), u32::MAX as int);
        assert(u32::MAX * staging@.candidates.len() <= u32::MAX * 0x1_0000_0000_0000_0000)
            by (nonlinear_arith)
            requires
                staging@.candidates.len() <= 0x1_0000_0000_0000_0000,
        ;
        assert(sum_of(staging@.queue, queued_blocks()) == 0);
        assert(staging@ == staging_before(data_manager, into_pid, args.model()));
    }
    match clear_all(staging, &victims, &required) {
        ClearedState::NotEnoughData => RealtimePlan::NotEnoughData,
        ClearedState::Fault(fault) => RealtimePlan::Fault(fault),
        ClearedState::Enough(done, out) => {
            let storage_to_hostmem: Vec<BufferId> = Vec::new();
            let hostmem_to_storage: Vec<BufferId> = Vec::new();
            assert(storage_to_hostmem@ =~= Seq::empty());
            let task = DataMigrationTask::new(
                out,
                Some((into_pid, spec)),
                waiting.storage_to_shm,
                waiting.hostmem_to_shm,
                done.spilled,
                storage_to_hostmem,
                hostmem_to_storage,
                data_manager,
            );
            RealtimePlan::Task(task)
        },
    }
}

/// Plans how `into_pid` gets onto the GPU at the cost of `out_from_gpu`; the earlier one of them
/// stands, the sooner it has to give memory up. There is no task where the others hold too little.
pub fn realtime_migrate_task(
    into_pid: i32,
    args: DeviceRequestArgs,
    out_from_gpu: Vec<(i32, ProcessResidualData)>,
    data_manager: DataManagerHandle,
    with_free_memory: bool,
) -> (task: Option<DataMigrationTask>)
    requires
        !(realtime_plan(
            into_pid,
            args.model(),
            deep_victims(out_from_gpu@),
            data_manager,
            with_free_memory,
        ) is Fault),
    ensures
        match task {
            Some(task) => {
                &&& PlanModel::Task(task@) == realtime_plan(
                    into_pid,
                    args.model(),
                    deep_victims(out_from_gpu@),
                    data_manager,
                    with_free_memory,
                )
                &&& task.data_manager == data_manager
                &&& task.shm_to_backend.wf()
            },
            None => PlanModel::NotEnoughData == realtime_plan(
                into_pid,
                args.model(),
                deep_victims(out_from_gpu@),
                data_manager,
                with_free_memory,
            ),
        },
{
    match plan_realtime(into_pid, args, out_from_gpu, data_manager, with_free_memory) {
        RealtimePlan::Task(task) => Some(task),
        RealtimePlan::NotEnoughData => None,
        RealtimePlan::Fault(_) => None,
    }
}

} // verus!
