//! How much leaves the GPU for a process that comes in, whose memory it is, and what comes in.
use vstd::prelude::*;
use crate::assoc::{assoc_get, assoc_has, keys_distinct};
use crate::control::PhysicalMemoryData;
use crate::ids::{BufferId, GlobalDeviceId};
use crate::sums::{lemma_sum_bounds, lemma_sum_push, sum_of};
use super::gpu_prefetch_laws::{
    all_blocks,
    lemma_asked_of_all,
    lemma_clear_devices_fits,
    lemma_clear_devices_leaves,
    lemma_sorted_sum,
    lemma_take_from_leaves,
};
use super::prefetch::held_on;
use super::realtime::{
    by_size,
    clear_devices,
    entry_size,
    incoming_ids,
    larger_first,
    lemma_taken_len,
    outgoing,
    realtime_plan,
    requested_ids,
    requirement,
    shm_returned,
    staging_before,
    taken_len,
    AllocationModel,
    Cleared,
    Clearing,
    PlanModel,
    RequestModel,
};
use super::realtime_laws::{freed_on, law_plan_frees_enough, lemma_by_size_members};
use super::staging::{PlanFault, Staging};
use super::store::DataManagerHandle;
use super::task::{MigrationSpecEntry, SpecModel};

verus! {

/// The bytes of some allocations.
pub open spec fn bytes_of_allocations(entries: Seq<PhysicalMemoryData>) -> int {
    sum_of(entries, |e: PhysicalMemoryData| e.size as int)
}

/// The bytes that some processes have on `device`.
pub open spec fn bytes_held(victims: Seq<(i32, AllocationModel)>, device: GlobalDeviceId) -> int {
    sum_of(
        victims,
        |v: (i32, AllocationModel)|
            match assoc_get(v.1, device) {
                Some(entries) => bytes_of_allocations(entries),
                None => 0,
            },
    )
}

/// The bytes of `device` that may be counted as free: what the driver says, less two of the largest
/// allocations, and nothing where free memory is not to be used or the driver does not answer.
pub open spec fn counts_as_free(h: DataManagerHandle, device: GlobalDeviceId, with_free_memory: bool) -> int {
    match assoc_get(h.gpu_free@, device) {
        Some(bytes) => if with_free_memory && bytes > 0x1000_0000 {
            bytes - 0x1000_0000
        } else {
            0
        },
        None => 0,
    }
}

proof fn lemma_sizes(entries: Seq<PhysicalMemoryData>)
    ensures
        bytes_of_allocations(entries) == sum_of(entries, entry_size()),
        bytes_of_allocations(entries) >= 0,
{
    assert((|e: PhysicalMemoryData| e.size as int) =~= entry_size());
    lemma_sum_bounds(entries, entry_size(), u32::MAX as int);
}

pub proof fn lemma_held(victims: Seq<(i32, AllocationModel)>, device: GlobalDeviceId)
    ensures
        bytes_held(victims, device) == sum_of(victims, held_on(device)),
{
    let f = |v: (i32, AllocationModel)|
        match assoc_get(v.1, device) {
            Some(entries) => bytes_of_allocations(entries),
            None => 0,
        };
    assert((|e: PhysicalMemoryData| e.size as int) =~= entry_size());
    assert(f =~= held_on(device));
}

/// What is required on a device, as inputs and arithmetic.
proof fn lemma_requirement(
    allocs: AllocationModel,
    h: DataManagerHandle,
    with_free_memory: bool,
    i: int,
)
    requires
        0 <= i < allocs.len(),
    ensures
        ({
            let all = requirement(RequestModel::Residual(allocs), h.gpu_free@, with_free_memory);
            let asked = bytes_of_allocations(allocs[i].1);
            let free = counts_as_free(h, allocs[i].0, with_free_memory);
            &&& all.len() == allocs.len()
            &&& all[i].0 == allocs[i].0
            &&& all[i].1 == if asked >= free {
                asked - free
            } else {
                0
            }
        }),
{
    lemma_sizes(allocs[i].1);
}

// Enough leaves, and no more than enough.

/// On each device, what leaves the GPU and what counts as free there are together at least what is
/// asked for there.
pub proof fn law_room_for_what_comes_back(
    pid: i32,
    allocs: AllocationModel,
    victims: Seq<(i32, AllocationModel)>,
    h: DataManagerHandle,
    with_free_memory: bool,
    i: int,
)
    requires
        realtime_plan(pid, RequestModel::Residual(allocs), victims, h, with_free_memory) is Task,
        0 <= i < allocs.len(),
    ensures
        ({
            let task = realtime_plan(
                pid,
                RequestModel::Residual(allocs),
                victims,
                h,
                with_free_memory,
            )->Task_0;
            let device = allocs[i].0;
            freed_on(task.out_from_gpu, device) + counts_as_free(h, device, with_free_memory)
                >= bytes_of_allocations(allocs[i].1)
        }),
{
    let args = RequestModel::Residual(allocs);
    lemma_requirement(allocs, h, with_free_memory, i);
    law_plan_frees_enough(pid, args, victims, h, with_free_memory, i);
}

/// For new memory as much leaves each device as is asked for there, whatever is free.
pub proof fn law_room_for_new_memory(
    pid: i32,
    list: Seq<(GlobalDeviceId, u64)>,
    victims: Seq<(i32, AllocationModel)>,
    h: DataManagerHandle,
    with_free_memory: bool,
    i: int,
)
    requires
        realtime_plan(pid, RequestModel::Allocation(list), victims, h, with_free_memory) is Task,
        0 <= i < list.len(),
    ensures
        ({
            let task = realtime_plan(
                pid,
                RequestModel::Allocation(list),
                victims,
                h,
                with_free_memory,
            )->Task_0;
            &&& freed_on(task.out_from_gpu, list[i].0) >= list[i].1
            &&& task.into_gpu is Some && (task.into_gpu->0).0 == pid && (task.into_gpu->0).1.len()
                == 0
            &&& task.hostmem_to_shm.len() == 0 && task.storage_to_shm.len() == 0
        }),
{
    let args = RequestModel::Allocation(list);
    law_plan_frees_enough(pid, args, victims, h, with_free_memory, i);
    assert(requested_ids(pid, args) =~= Seq::<BufferId>::empty());
    crate::sorting::lemma_filter_members(
        requested_ids(pid, args),
        super::realtime::waits_in_storage(h),
    );
    crate::sorting::lemma_filter_members(
        requested_ids(pid, args),
        super::realtime::waits_in_hostmem(h),
    );
}

/// Without one of the allocations that leave `device`, what leaves it is less than `required`.
pub open spec fn just_enough(out: Seq<SpecModel>, device: GlobalDeviceId, total: int, required: int) -> bool {
    exists|k: int, j: int|
        0 <= k < out.len() && out[k].1.len() == 1 && out[k].1[0].0 == device && 0 <= j
            < out[k].1[0].1.len() && total - (#[trigger] out[k].1[0].1[j]).size < required
}

proof fn lemma_just_enough_more(
    out: Seq<SpecModel>,
    more: Seq<SpecModel>,
    device: GlobalDeviceId,
    total: int,
    required: int,
)
    requires
        just_enough(out, device, total, required),
        out.len() <= more.len(),
        forall|k: int| 0 <= k < out.len() ==> #[trigger] more[k] == out[k],
    ensures
        just_enough(more, device, total, required),
{
    let (k, j) = choose|k: int, j: int|
        0 <= k < out.len() && out[k].1.len() == 1 && out[k].1[0].0 == device && 0 <= j
            < out[k].1[0].1.len() && total - (#[trigger] out[k].1[0].1[j]).size < required;
    assert(more[k] == out[k]);
    assert(more[k].1[0].1[j] == out[k].1[0].1[j]);
}

proof fn lemma_take_from_tight(
    c: Clearing,
    victim: (i32, AllocationModel),
    device: GlobalDeviceId,
    required: int,
)
    requires
        c.freed >= 0,
        c.freed == 0 || just_enough(c.out, device, c.freed, required),
        c.take_from(victim, device, required) is Ok,
    ensures
        ({
            let r = c.take_from(victim, device, required)->Ok_0;
            &&& r.freed >= c.freed
            &&& required <= 0 ==> r.freed == c.freed
            &&& r.freed == 0 || just_enough(r.out, device, r.freed, required)
            &&& c.out.len() <= r.out.len()
            &&& forall|k: int| 0 <= k < c.out.len() ==> #[trigger] r.out[k] == c.out[k]
        }),
{
    if let Some(entries) = assoc_get(victim.1, device) {
        let sorted = by_size(entries);
        let n = taken_len(sorted, c.freed, required) as int;
        let chosen = sorted.take(n);
        lemma_taken_len(sorted, c.freed, required);
        let r = c.take_from(victim, device, required)->Ok_0;
        if chosen.len() > 0 {
            let listed = chosen.map_values(outgoing());
            let spec: SpecModel = (victim.0, seq![(device, listed)]);
            assert(r.out == c.out.push(spec));
            assert(chosen.drop_last() =~= sorted.take(n - 1));
            lemma_sizes(sorted.take(n - 1));
            assert(sum_of(chosen, entry_size()) == sum_of(sorted.take(n - 1), entry_size())
                + chosen.last().size);
            let k = c.out.len() as int;
            assert(r.out[k].1[0].1[n - 1].size == chosen.last().size);
            assert(just_enough(r.out, device, r.freed, required));
        } else {
            assert(chosen =~= Seq::<PhysicalMemoryData>::empty());
            assert(sum_of(chosen, entry_size()) == 0);
        }
    }
}

proof fn lemma_take_from_all_tight(
    c: Clearing,
    victims: Seq<(i32, AllocationModel)>,
    device: GlobalDeviceId,
    required: int,
)
    requires
        c.freed == 0,
        c.take_from_all(victims, device, required) is Ok,
    ensures
        ({
            let r = c.take_from_all(victims, device, required)->Ok_0;
            &&& r.freed >= 0
            &&& required <= 0 ==> r.freed == 0
            &&& r.freed == 0 || just_enough(r.out, device, r.freed, required)
            &&& c.out.len() <= r.out.len()
            &&& forall|k: int| 0 <= k < c.out.len() ==> #[trigger] r.out[k] == c.out[k]
        }),
    decreases victims.len(),
{
    if victims.len() > 0 {
        lemma_take_from_all_tight(c, victims.drop_last(), device, required);
        let next = c.take_from_all(victims.drop_last(), device, required)->Ok_0;
        lemma_take_from_tight(next, victims.last(), device, required);
    }
}

proof fn lemma_clear_devices_tight(
    staging: Staging,
    victims: Seq<(i32, AllocationModel)>,
    required: Seq<(GlobalDeviceId, int)>,
    i: int,
)
    requires
        keys_distinct(required),
        clear_devices(staging, victims, required) is Enough,
        0 <= i < required.len(),
    ensures
        ({
            let out = clear_devices(staging, victims, required)->Enough_1;
            let (device, bytes) = required[i];
            freed_on(out, device) == 0 || bytes > 0 && just_enough(
                out,
                device,
                freed_on(out, device),
                bytes,
            )
        }),
    decreases required.len(),
{
    let before = clear_devices(staging, victims, required.drop_last());
    let (device, bytes) = required.last();
    let start = Clearing {
        staging: Staging { queue: Seq::empty(), ..before->Enough_0 },
        out: before->Enough_1,
        freed: 0,
    };
    assert forall|a: int, b: int|
        0 <= a < b < required.drop_last().len() implies (#[trigger] required.drop_last()[a]).0 != (
    #[trigger] required.drop_last()[b]).0 by {
        assert(required[a].0 != required[b].0);
    }
    let end = start.take_from_all(victims, device, bytes)->Ok_0;
    lemma_take_from_all_tight(start, victims, device, bytes);
    lemma_take_from_leaves(start, victims, device, bytes, required[i].0);
    if i == required.len() - 1 {
        lemma_clear_devices_leaves(staging, victims, required.drop_last(), device);
        assert forall|a: int| 0 <= a < required.drop_last().len() implies (
        #[trigger] required.drop_last()[a]).0 != device by {
            assert(required[a].0 != required[required.len() - 1].0);
        }
        assert(freed_on(before->Enough_1, device) == 0);
    } else {
        lemma_clear_devices_tight(staging, victims, required.drop_last(), i);
        assert(required.drop_last()[i] == required[i]);
        assert(required[i].0 != required[required.len() - 1].0);
        if freed_on(before->Enough_1, required[i].0) != 0 {
            lemma_just_enough_more(
                before->Enough_1,
                end.out,
                required[i].0,
                freed_on(before->Enough_1, required[i].0),
                required[i].1,
            );
        }
    }
}

/// No more leaves a device than it takes: without some allocation that leaves it, what leaves it
/// and what counts as free there would be too little. Where nothing has to leave, nothing does.
pub proof fn law_no_more_leaves_than_needed(
    pid: i32,
    allocs: AllocationModel,
    victims: Seq<(i32, AllocationModel)>,
    h: DataManagerHandle,
    with_free_memory: bool,
    i: int,
)
    requires
        realtime_plan(pid, RequestModel::Residual(allocs), victims, h, with_free_memory) is Task,
        keys_distinct(allocs),
        0 <= i < allocs.len(),
    ensures
        ({
            let out = realtime_plan(
                pid,
                RequestModel::Residual(allocs),
                victims,
                h,
                with_free_memory,
            )->Task_0.out_from_gpu;
            let device = allocs[i].0;
            let leaving = freed_on(out, device);
            let missing = bytes_of_allocations(allocs[i].1) - counts_as_free(
                h,
                device,
                with_free_memory,
            );
            &&& missing <= 0 ==> leaving == 0
            &&& leaving > 0 ==> exists|k: int, j: int|
                0 <= k < out.len() && out[k].1.len() == 1 && out[k].1[0].0 == device && 0 <= j
                    < out[k].1[0].1.len() && leaving - (#[trigger] out[k].1[0].1[j]).size < missing
        }),
{
    let args = RequestModel::Residual(allocs);
    let all = requirement(args, h.gpu_free@, with_free_memory);
    assert forall|a: int, b: int| 0 <= a < b < all.len() implies (#[trigger] all[a]).0 != (
    #[trigger] all[b]).0 by {
        assert(allocs[a].0 != allocs[b].0);
    }
    lemma_requirement(allocs, h, with_free_memory, i);
    lemma_clear_devices_tight(staging_before(h, pid, args), victims, all, i);
}

// Whether there is a plan.

proof fn lemma_take_from_all_or_enough(
    c: Clearing,
    victims: Seq<(i32, AllocationModel)>,
    device: GlobalDeviceId,
    required: int,
)
    requires
        c.take_from_all(victims, device, required) is Ok,
    ensures
        ({
            let r = c.take_from_all(victims, device, required)->Ok_0;
            r.freed >= required || r.freed == c.freed + sum_of(victims, held_on(device))
        }),
    decreases victims.len(),
{
    if victims.len() > 0 {
        lemma_take_from_all_or_enough(c, victims.drop_last(), device, required);
        let next = c.take_from_all(victims.drop_last(), device, required)->Ok_0;
        let victim = victims.last();
        if let Some(entries) = assoc_get(victim.1, device) {
            let sorted = by_size(entries);
            let n = taken_len(sorted, next.freed, required) as int;
            lemma_taken_len(sorted, next.freed, required);
            lemma_sorted_sum(entries, larger_first(), entry_size());
            lemma_sizes(sorted.take(n));
            if n == sorted.len() {
                assert(sorted.take(n) =~= sorted);
            }
        }
    }
}

proof fn lemma_not_enough(
    staging: Staging,
    victims: Seq<(i32, AllocationModel)>,
    required: Seq<(GlobalDeviceId, int)>,
)
    requires
        clear_devices(staging, victims, required) is NotEnoughData,
    ensures
        exists|i: int|
            0 <= i < required.len() && (#[trigger] required[i]).1 > sum_of(
                victims,
                held_on(required[i].0),
            ),
    decreases required.len(),
{
    if required.len() > 0 {
        let before = clear_devices(staging, victims, required.drop_last());
        if before is NotEnoughData {
            lemma_not_enough(staging, victims, required.drop_last());
            let i = choose|i: int|
                0 <= i < required.drop_last().len() && (#[trigger] required.drop_last()[i]).1
                    > sum_of(victims, held_on(required.drop_last()[i].0));
            assert(required[i] == required.drop_last()[i]);
        } else {
            let (device, bytes) = required.last();
            let start = Clearing {
                staging: Staging { queue: Seq::empty(), ..before->Enough_0 },
                out: before->Enough_1,
                freed: 0,
            };
            lemma_take_from_all_or_enough(start, victims, device, bytes);
            assert(required[required.len() - 1] == required.last());
        }
    }
}

/// There is no plan for want of data only where on some device the others hold too little: what they
/// hold and what counts as free is less than what is asked for. Where there is a plan, they hold
/// enough everywhere.
pub proof fn law_others_hold_enough(
    pid: i32,
    allocs: AllocationModel,
    victims: Seq<(i32, AllocationModel)>,
    h: DataManagerHandle,
    with_free_memory: bool,
)
    requires
        keys_distinct(allocs),
    ensures
        ({
            let plan = realtime_plan(
                pid,
                RequestModel::Residual(allocs),
                victims,
                h,
                with_free_memory,
            );
            &&& plan is NotEnoughData ==> exists|i: int|
                0 <= i < allocs.len() && bytes_held(victims, (#[trigger] allocs[i]).0)
                    + counts_as_free(h, allocs[i].0, with_free_memory) < bytes_of_allocations(
                    allocs[i].1,
                )
            &&& plan is Task ==> forall|i: int|
                0 <= i < allocs.len() ==> bytes_held(victims, (#[trigger] allocs[i]).0)
                    + counts_as_free(h, allocs[i].0, with_free_memory) >= bytes_of_allocations(
                    allocs[i].1,
                )
        }),
{
    let args = RequestModel::Residual(allocs);
    let plan = realtime_plan(pid, args, victims, h, with_free_memory);
    let all = requirement(args, h.gpu_free@, with_free_memory);
    let staging = staging_before(h, pid, args);
    if plan is NotEnoughData {
        lemma_not_enough(staging, victims, all);
        let i = choose|i: int|
            0 <= i < all.len() && (#[trigger] all[i]).1 > sum_of(victims, held_on(all[i].0));
        lemma_requirement(allocs, h, with_free_memory, i);
        lemma_held(victims, allocs[i].0);
        lemma_held_nonneg(victims, allocs[i].0);
        assert(bytes_held(victims, allocs[i].0) + counts_as_free(h, allocs[i].0, with_free_memory)
            < bytes_of_allocations(allocs[i].1));
    }
    if plan is Task {
        assert forall|a: int, b: int| 0 <= a < b < all.len() implies (#[trigger] all[a]).0 != (
        #[trigger] all[b]).0 by {
            assert(allocs[a].0 != allocs[b].0);
        }
        assert forall|i: int| 0 <= i < allocs.len() implies bytes_held(
            victims,
            (#[trigger] allocs[i]).0,
        ) + counts_as_free(h, allocs[i].0, with_free_memory) >= bytes_of_allocations(
            allocs[i].1,
        ) by {
            law_room_for_what_comes_back(pid, allocs, victims, h, with_free_memory, i);
            lemma_clear_devices_leaves(staging, victims, all, allocs[i].0);
            lemma_held(victims, allocs[i].0);
        }
    }
}

pub proof fn lemma_held_nonneg(victims: Seq<(i32, AllocationModel)>, device: GlobalDeviceId)
    ensures
        bytes_held(victims, device) >= 0,
    decreases victims.len(),
{
    if victims.len() > 0 {
        lemma_held_nonneg(victims.drop_last(), device);
        if let Some(entries) = assoc_get(victims.last().1, device) {
            lemma_sizes(entries);
        }
    }
}

/// A process that is on the GPU already, with any allocation, is not brought onto it; and that is
/// the only reason to say so.
pub proof fn law_on_the_gpu_already(
    pid: i32,
    allocs: AllocationModel,
    victims: Seq<(i32, AllocationModel)>,
    h: DataManagerHandle,
    with_free_memory: bool,
)
    ensures
        realtime_plan(pid, RequestModel::Residual(allocs), victims, h, with_free_memory)
            == PlanModel::Fault(PlanFault::AlreadyOnGpu) <==> exists|i: int, j: int|
            0 <= i < allocs.len() && 0 <= j < allocs[i].1.len()
                && (#[trigger] allocs[i].1[j]).on_gpu,
{
    let args = RequestModel::Residual(allocs);
    let all = requirement(args, h.gpu_free@, with_free_memory);
    lemma_clearing_faults(staging_before(h, pid, args), victims, all);
}

proof fn lemma_drain_faults(m: Staging, need: int, got: int)
    ensures
        m.drain(need, got) is Err ==> m.drain(need, got)->Err_0 == PlanFault::NotEnoughShm,
    decreases m.queue.len(),
{
    if got < need && m.queue.len() > 0 {
        let (id, count) = m.queue[0];
        lemma_drain_faults(
            Staging { queue: m.queue.drop_first(), ..m }.spill(id, count as int),
            need,
            got + count,
        );
    }
}

proof fn lemma_make_room_faults(m: Staging, need: int)
    ensures
        m.make_room(need) is Err ==> m.make_room(need)->Err_0 != PlanFault::AlreadyOnGpu,
    decreases m.candidates.len(),
{
    if m.shm_free < need {
        if m.candidates.len() == 0 {
            lemma_drain_faults(m, need, 0);
        } else {
            let (id, capacity) = m.candidates[0];
            lemma_make_room_faults(
                Staging { candidates: m.candidates.drop_first(), ..m }.spill(
                    id,
                    capacity.0 as int / crate::constant::BLOCK_BYTES as int,
                ),
                need,
            );
        }
    }
}

proof fn lemma_place_all_faults(m: Staging, ids: Seq<BufferId>)
    ensures
        m.place_all(ids) is Err ==> m.place_all(ids)->Err_0 != PlanFault::AlreadyOnGpu,
    decreases ids.len(),
{
    if ids.len() > 0 {
        lemma_place_all_faults(m, ids.drop_last());
        if let Ok(next) = m.place_all(ids.drop_last()) {
            lemma_make_room_faults(next, crate::ids::block_count(ids.last().size) as int);
        }
    }
}

proof fn lemma_taking_faults(
    c: Clearing,
    victims: Seq<(i32, AllocationModel)>,
    device: GlobalDeviceId,
    required: int,
)
    ensures
        c.take_from_all(victims, device, required) is Err ==> c.take_from_all(
            victims,
            device,
            required,
        )->Err_0 != PlanFault::AlreadyOnGpu,
    decreases victims.len(),
{
    if victims.len() > 0 {
        lemma_taking_faults(c, victims.drop_last(), device, required);
        if let Ok(next) = c.take_from_all(victims.drop_last(), device, required) {
            let victim = victims.last();
            if let Some(entries) = assoc_get(victim.1, device) {
                let sorted = by_size(entries);
                let chosen = sorted.take(taken_len(sorted, next.freed, required) as int);
                lemma_place_all_faults(
                    next.staging,
                    chosen.map_values(super::realtime::entry_buffer(victim.0, device)),
                );
            }
        }
    }
}

proof fn lemma_clearing_faults(
    staging: Staging,
    victims: Seq<(i32, AllocationModel)>,
    required: Seq<(GlobalDeviceId, int)>,
)
    ensures
        clear_devices(staging, victims, required) != Cleared::Fault(PlanFault::AlreadyOnGpu),
    decreases required.len(),
{
    if required.len() > 0 {
        lemma_clearing_faults(staging, victims, required.drop_last());
        if let Cleared::Enough(next, out) = clear_devices(staging, victims, required.drop_last()) {
            let (device, bytes) = required.last();
            let start = Clearing {
                staging: Staging { queue: Seq::empty(), ..next },
                out,
                freed: 0,
            };
            lemma_taking_faults(start, victims, device, bytes);
        }
    }
}

/// There is a plan wherever nothing that is asked for is on the GPU, the others hold enough, and
/// all that they have fits into free blocks of shared memory.
pub proof fn law_plan_exists(
    pid: i32,
    allocs: AllocationModel,
    victims: Seq<(i32, AllocationModel)>,
    h: DataManagerHandle,
    with_free_memory: bool,
)
    requires
        keys_distinct(allocs),
        forall|i: int, j: int|
            0 <= i < allocs.len() && 0 <= j < allocs[i].1.len() ==> !(
            #[trigger] allocs[i].1[j]).on_gpu,
        sum_of(victims, all_blocks()) <= h.shm_free_blocks.0,
        forall|i: int|
            0 <= i < allocs.len() ==> bytes_held(victims, (#[trigger] allocs[i]).0)
                + counts_as_free(h, allocs[i].0, with_free_memory) >= bytes_of_allocations(
                allocs[i].1,
            ),
    ensures
        realtime_plan(pid, RequestModel::Residual(allocs), victims, h, with_free_memory) is Task,
{
    let args = RequestModel::Residual(allocs);
    let all = requirement(args, h.gpu_free@, with_free_memory);
    let staging = staging_before(h, pid, args);
    assert forall|a: int, b: int| 0 <= a < b < all.len() implies (#[trigger] all[a]).0 != (
    #[trigger] all[b]).0 by {
        assert(allocs[a].0 != allocs[b].0);
    }
    lemma_asked_of_all(victims, all);
    lemma_sum_bounds(requested_ids(pid, args), shm_returned(h), u32::MAX as int);
    assert forall|i: int| 0 <= i < all.len() implies (#[trigger] all[i]).1 <= sum_of(
        victims,
        held_on(all[i].0),
    ) by {
        lemma_requirement(allocs, h, with_free_memory, i);
        lemma_held(victims, allocs[i].0);
        lemma_held_nonneg(victims, allocs[i].0);
        assert(bytes_held(victims, allocs[i].0) + counts_as_free(h, allocs[i].0, with_free_memory)
            >= bytes_of_allocations(allocs[i].1));
    }
    lemma_clear_devices_fits(staging, victims, all);
}

// Whose memory leaves.

/// The allocation is one of those of the process on `device`.
pub open spec fn owns(
    victim: (i32, AllocationModel),
    device: GlobalDeviceId,
    entry: MigrationSpecEntry,
) -> bool {
    assoc_get(victim.1, device) matches Some(entries) && exists|x: int|
        0 <= x < entries.len() && (#[trigger] entries[x]).size == entry.size
            && entries[x].handle_idx == entry.handle_idx
}

/// What leaves belongs to one of the processes and is on its way at once.
pub open spec fn given_up(victims: Seq<(i32, AllocationModel)>, p: SpecModel) -> bool {
    exists|v: int|
        0 <= v < victims.len() && (#[trigger] victims[v]).0 == p.0 && p.1.len() == 1 && p.1[0].1.len()
            > 0 && forall|j: int|
            0 <= j < p.1[0].1.len() ==> owns(victims[v], p.1[0].0, #[trigger] p.1[0].1[j])
                && p.1[0].1[j].ready_for_pcie_xfer
}

proof fn lemma_taken_is_owned(
    c: Clearing,
    victims: Seq<(i32, AllocationModel)>,
    all: Seq<(i32, AllocationModel)>,
    device: GlobalDeviceId,
    required: int,
)
    requires
        c.take_from_all(victims, device, required) is Ok,
        forall|k: int| 0 <= k < c.out.len() ==> given_up(all, #[trigger] c.out[k]),
        forall|v: int| 0 <= v < victims.len() ==> all.contains(#[trigger] victims[v]),
    ensures
        ({
            let r = c.take_from_all(victims, device, required)->Ok_0;
            forall|k: int| 0 <= k < r.out.len() ==> given_up(all, #[trigger] r.out[k])
        }),
    decreases victims.len(),
{
    if victims.len() > 0 {
        assert forall|v: int| 0 <= v < victims.drop_last().len() implies all.contains(
            #[trigger] victims.drop_last()[v],
        ) by {
            assert(victims.drop_last()[v] == victims[v]);
        }
        lemma_taken_is_owned(c, victims.drop_last(), all, device, required);
        let next = c.take_from_all(victims.drop_last(), device, required)->Ok_0;
        let r = c.take_from_all(victims, device, required)->Ok_0;
        let victim = victims.last();
        assert(all.contains(victims[victims.len() - 1]));
        let v = choose|v: int| 0 <= v < all.len() && all[v] == victim;
        if let Some(entries) = assoc_get(victim.1, device) {
            let sorted = by_size(entries);
            let n = taken_len(sorted, next.freed, required) as int;
            lemma_taken_len(sorted, next.freed, required);
            let chosen = sorted.take(n);
            if chosen.len() > 0 {
                let listed = chosen.map_values(outgoing());
                let spec: SpecModel = (victim.0, seq![(device, listed)]);
                assert(r.out == next.out.push(spec));
                assert forall|j: int| 0 <= j < spec.1[0].1.len() implies owns(
                    all[v],
                    spec.1[0].0,
                    #[trigger] spec.1[0].1[j],
                ) && spec.1[0].1[j].ready_for_pcie_xfer by {
                    assert(sorted.contains(sorted[j]));
                    lemma_by_size_members(entries, sorted[j]);
                    let x = choose|x: int| 0 <= x < entries.len() && entries[x] == sorted[j];
                    assert(entries[x].size == spec.1[0].1[j].size);
                }
                assert(all[v].0 == spec.0);
                assert(given_up(all, spec));
                assert forall|k: int| 0 <= k < r.out.len() implies given_up(
                    all,
                    #[trigger] r.out[k],
                ) by {
                    if k < next.out.len() {
                        assert(r.out[k] == next.out[k]);
                    }
                }
            }
        }
    }
}

proof fn lemma_cleared_is_owned(
    staging: Staging,
    victims: Seq<(i32, AllocationModel)>,
    required: Seq<(GlobalDeviceId, int)>,
)
    requires
        clear_devices(staging, victims, required) is Enough,
    ensures
        ({
            let out = clear_devices(staging, victims, required)->Enough_1;
            forall|k: int| 0 <= k < out.len() ==> given_up(victims, #[trigger] out[k])
        }),
    decreases required.len(),
{
    if required.len() > 0 {
        lemma_cleared_is_owned(staging, victims, required.drop_last());
        let before = clear_devices(staging, victims, required.drop_last());
        let start = Clearing {
            staging: Staging { queue: Seq::empty(), ..before->Enough_0 },
            out: before->Enough_1,
            freed: 0,
        };
        assert forall|v: int| 0 <= v < victims.len() implies victims.contains(
            #[trigger] victims[v],
        ) by {}
        lemma_taken_is_owned(start, victims, victims, required.last().0, required.last().1);
    }
}

/// Only allocations of the other processes leave, each from the device that it is on.
pub proof fn law_only_others_leave(
    pid: i32,
    args: RequestModel,
    victims: Seq<(i32, AllocationModel)>,
    h: DataManagerHandle,
    with_free_memory: bool,
    k: int,
)
    requires
        realtime_plan(pid, args, victims, h, with_free_memory) is Task,
        0 <= k < realtime_plan(
            pid,
            args,
            victims,
            h,
            with_free_memory,
        )->Task_0.out_from_gpu.len(),
    ensures
        given_up(
            victims,
            realtime_plan(pid, args, victims, h, with_free_memory)->Task_0.out_from_gpu[k],
        ),
{
    lemma_cleared_is_owned(
        staging_before(h, pid, args),
        victims,
        requirement(args, h.gpu_free@, with_free_memory),
    );
}

proof fn lemma_larger_first_is_an_order()
    ensures
        crate::sorting::strict_weak_order(larger_first()),
{
}

/// Of one process the largest allocations leave first: none that stays on the device is larger than
/// one that leaves it. Each that leaves is one of the process, in order of size.
pub proof fn law_largest_leave_first(
    c: Clearing,
    victim: (i32, AllocationModel),
    device: GlobalDeviceId,
    required: int,
    x: int,
)
    requires
        c.take_from(victim, device, required) is Ok,
        assoc_get(victim.1, device) matches Some(entries) && 0 <= x < entries.len(),
    ensures
        ({
            let entries = assoc_get(victim.1, device)->0;
            let r = c.take_from(victim, device, required)->Ok_0;
            let e = entries[x];
            r.out == c.out || {
                &&& r.out.len() == c.out.len() + 1
                &&& r.out.last().0 == victim.0
                &&& r.out.last().1.len() == 1
                &&& r.out.last().1[0].0 == device
                &&& ({
                    let taken = r.out.last().1[0].1;
                    &&& forall|a: int, b: int|
                        0 <= a < b < taken.len() ==> (#[trigger] taken[a]).size >= (
                        #[trigger] taken[b]).size
                    &&& (exists|a: int|
                        0 <= a < taken.len() && (#[trigger] taken[a]).handle_idx == e.handle_idx
                            && taken[a].size == e.size) || forall|a: int|
                        0 <= a < taken.len() ==> (#[trigger] taken[a]).size >= e.size
                })
            }
        }),
{
    let entries = assoc_get(victim.1, device)->0;
    let sorted = by_size(entries);
    let n = taken_len(sorted, c.freed, required) as int;
    lemma_taken_len(sorted, c.freed, required);
    let chosen = sorted.take(n);
    let r = c.take_from(victim, device, required)->Ok_0;
    lemma_larger_first_is_an_order();
    crate::sorting::lemma_sorted_is_ordered(entries, larger_first());
    if chosen.len() > 0 {
        let taken = chosen.map_values(outgoing());
        assert(r.out == c.out.push((victim.0, seq![(device, taken)])));
        let e = entries[x];
        assert(entries.contains(e));
        lemma_by_size_members(entries, e);
        let at = choose|at: int| 0 <= at < sorted.len() && sorted[at] == e;
        assert forall|a: int, b: int| 0 <= a < b < taken.len() implies (#[trigger] taken[a]).size
            >= (#[trigger] taken[b]).size by {
            assert(!larger_first()(sorted[b], sorted[a]));
        }
        if at < n {
            assert(taken[at].handle_idx == e.handle_idx);
        } else {
            assert forall|a: int| 0 <= a < taken.len() implies (#[trigger] taken[a]).size
                >= e.size by {
                assert(!larger_first()(sorted[at], sorted[a]));
            }
        }
    }
}

// What comes in.

/// The buffer is in one of the stores.
pub open spec fn is_stored(h: DataManagerHandle, id: BufferId) -> bool {
    assoc_has(h.shm@, id) || assoc_has(h.hostmem@, id) || assoc_has(h.storage@, id)
}

/// The buffer of an allocation of `pid` on `device`.
pub open spec fn buffer_for(pid: i32, device: GlobalDeviceId, e: PhysicalMemoryData) -> BufferId {
    BufferId { pid, device_id: device, block_id: e.handle_idx, size: e.size }
}

proof fn lemma_kept_sum(
    s: Seq<PhysicalMemoryData>,
    keep: spec_fn(PhysicalMemoryData) -> bool,
    g: spec_fn(PhysicalMemoryData) -> MigrationSpecEntry,
    f: spec_fn(MigrationSpecEntry) -> int,
    k: spec_fn(PhysicalMemoryData) -> int,
)
    requires
        forall|e: PhysicalMemoryData| #[trigger]
            k(e) == if keep(e) {
                f(g(e))
            } else {
                0
            },
    ensures
        sum_of(s.filter(keep).map_values(g), f) == sum_of(s, k),
    decreases s.len(),
{
    reveal(Seq::filter);
    if s.len() > 0 {
        let t = s.drop_last();
        lemma_kept_sum(t, keep, g, f, k);
        crate::sorting::lemma_filter_push(t, s.last(), keep);
        assert(t.push(s.last()) =~= s);
        if keep(s.last()) {
            assert(s.filter(keep).map_values(g) =~= t.filter(keep).map_values(g).push(
                g(s.last()),
            ));
            lemma_sum_push(t.filter(keep).map_values(g), g(s.last()), f);
        }
    }
}

proof fn lemma_filter_keeps_order(
    s: Seq<PhysicalMemoryData>,
    keep: spec_fn(PhysicalMemoryData) -> bool,
)
    requires
        forall|a: int, b: int| 0 <= a < b < s.len() ==> (#[trigger] s[a]).size >= (#[trigger] s[b]).size,
    ensures
        ({
            let t = s.filter(keep);
            &&& forall|a: int, b: int|
                0 <= a < b < t.len() ==> (#[trigger] t[a]).size >= (#[trigger] t[b]).size
            &&& s.len() > 0 ==> forall|a: int|
                0 <= a < t.len() ==> (#[trigger] t[a]).size >= s.last().size
        }),
    decreases s.len(),
{
    reveal(Seq::filter);
    if s.len() > 0 {
        let u = s.drop_last();
        lemma_filter_keeps_order(u, keep);
        crate::sorting::lemma_filter_push(u, s.last(), keep);
        assert(u.push(s.last()) =~= s);
        let t = s.filter(keep);
        let w = u.filter(keep);
        if u.len() > 0 {
            assert(s[u.len() - 1].size >= s[u.len() as int].size);
            assert(u.last() == s[u.len() - 1]);
        } else {
            assert(w.len() == 0);
        }
        assert forall|a: int, b: int| 0 <= a < b < t.len() implies (#[trigger] t[a]).size >= (
        #[trigger] t[b]).size by {
            if b < w.len() {
                assert(w[a].size >= w[b].size);
            }
        }
    }
}

/// What comes in to a device are the allocations that were asked for there and that are stored,
/// each as often as it was asked for, the largest first. Those in shared memory are ready; the
/// others are not.
pub proof fn law_what_comes_in(
    pid: i32,
    allocs: AllocationModel,
    victims: Seq<(i32, AllocationModel)>,
    h: DataManagerHandle,
    with_free_memory: bool,
    i: int,
)
    requires
        realtime_plan(pid, RequestModel::Residual(allocs), victims, h, with_free_memory) is Task,
        0 <= i < allocs.len(),
    ensures
        ({
            let task = realtime_plan(
                pid,
                RequestModel::Residual(allocs),
                victims,
                h,
                with_free_memory,
            )->Task_0;
            let device = allocs[i].0;
            let asked = allocs[i].1;
            let spec = (task.into_gpu->0).1;
            let entering = spec[i].1;
            &&& task.into_gpu is Some
            &&& (task.into_gpu->0).0 == pid
            &&& spec.len() == allocs.len()
            &&& spec[i].0 == device
            &&& forall|x: int|
                0 <= x < asked.len() && is_stored(
                    h,
                    buffer_for(pid, device, #[trigger] asked[x]),
                ) ==> entering.contains(
                    MigrationSpecEntry {
                        size: asked[x].size,
                        handle_idx: asked[x].handle_idx,
                        ready_for_pcie_xfer: assoc_has(
                            h.shm@,
                            buffer_for(pid, device, asked[x]),
                        ),
                    },
                )
            &&& sum_of(entering, |e: MigrationSpecEntry| 1int) == sum_of(
                asked,
                |e: PhysicalMemoryData|
                    if is_stored(h, buffer_for(pid, device, e)) {
                        1int
                    } else {
                        0
                    },
            )
            &&& sum_of(entering, |e: MigrationSpecEntry| e.size as int) == sum_of(
                asked,
                |e: PhysicalMemoryData|
                    if is_stored(h, buffer_for(pid, device, e)) {
                        e.size as int
                    } else {
                        0
                    },
            )
            &&& forall|a: int, b: int|
                0 <= a < b < entering.len() ==> (#[trigger] entering[a]).size >= (
                #[trigger] entering[b]).size
        }),
{
    let device = allocs[i].0;
    let asked = allocs[i].1;
    let sorted = by_size(asked);
    let keep = super::realtime::located(h, pid, device);
    let g = super::realtime::incoming(h, pid, device);
    let entering = super::realtime::incoming_on(h, pid, device, asked);
    assert(entering == sorted.filter(keep).map_values(g));
    crate::sorting::lemma_filter_members(sorted, keep);
    assert forall|x: int|
        0 <= x < asked.len() && is_stored(
            h,
            buffer_for(pid, device, #[trigger] asked[x]),
        ) implies entering.contains(
        MigrationSpecEntry {
            size: asked[x].size,
            handle_idx: asked[x].handle_idx,
            ready_for_pcie_xfer: assoc_has(h.shm@, buffer_for(pid, device, asked[x])),
        },
    ) by {
        assert(asked.contains(asked[x]));
        lemma_by_size_members(asked, asked[x]);
        let at = choose|at: int| 0 <= at < sorted.len() && sorted[at] == asked[x];
        assert(keep(sorted[at]));
        let y = choose|y: int| 0 <= y < sorted.filter(keep).len() && sorted.filter(keep)[y]
            == asked[x];
        assert(entering[y] == g(asked[x]));
    }
    let one = |e: MigrationSpecEntry| 1int;
    let size = |e: MigrationSpecEntry| e.size as int;
    let stored_one = |e: PhysicalMemoryData|
        if is_stored(h, buffer_for(pid, device, e)) {
            1int
        } else {
            0
        };
    let stored_size = |e: PhysicalMemoryData|
        if is_stored(h, buffer_for(pid, device, e)) {
            e.size as int
        } else {
            0
        };
    lemma_kept_sum(sorted, keep, g, one, stored_one);
    lemma_kept_sum(sorted, keep, g, size, stored_size);
    lemma_sorted_sum(asked, larger_first(), stored_one);
    lemma_sorted_sum(asked, larger_first(), stored_size);
    lemma_larger_first_is_an_order();
    crate::sorting::lemma_sorted_is_ordered(asked, larger_first());
    assert forall|a: int, b: int| 0 <= a < b < sorted.len() implies (#[trigger] sorted[a]).size >= (
    #[trigger] sorted[b]).size by {
        assert(!larger_first()(sorted[b], sorted[a]));
    }
    lemma_filter_keeps_order(sorted, keep);
}

proof fn lemma_incoming_ids_only(pid: i32, allocs: AllocationModel, id: BufferId)
    requires
        incoming_ids(pid, allocs).contains(id),
    ensures
        exists|i: int, x: int|
            0 <= i < allocs.len() && 0 <= x < allocs[i].1.len() && buffer_for(
                pid,
                allocs[i].0,
                #[trigger] allocs[i].1[x],
            ) == id,
    decreases allocs.len(),
{
    if allocs.len() > 0 {
        let before = incoming_ids(pid, allocs.drop_last());
        let (device, entries) = allocs.last();
        let sorted = by_size(entries);
        let at = choose|at: int| 0 <= at < incoming_ids(pid, allocs).len() && incoming_ids(
            pid,
            allocs,
        )[at] == id;
        if at < before.len() {
            assert(before[at] == id);
            lemma_incoming_ids_only(pid, allocs.drop_last(), id);
            let (i, x) = choose|i: int, x: int|
                0 <= i < allocs.drop_last().len() && 0 <= x < allocs.drop_last()[i].1.len()
                    && buffer_for(
                    pid,
                    allocs.drop_last()[i].0,
                    #[trigger] allocs.drop_last()[i].1[x],
                ) == id;
            assert(allocs[i] == allocs.drop_last()[i]);
            assert(allocs[i].1[x] == allocs.drop_last()[i].1[x]);
        } else {
            let e = sorted[at - before.len()];
            assert(sorted.contains(e));
            lemma_by_size_members(entries, e);
            let x = choose|x: int| 0 <= x < entries.len() && entries[x] == e;
            assert(allocs[allocs.len() - 1].1[x] == e);
        }
    }
}

/// A buffer is brought into shared memory, from host memory or from storage, exactly where it is
/// asked for and is nearest there: not in shared memory already, and for storage not in host memory
/// either.
pub proof fn law_what_passes_through_shm(
    pid: i32,
    allocs: AllocationModel,
    victims: Seq<(i32, AllocationModel)>,
    h: DataManagerHandle,
    with_free_memory: bool,
    id: BufferId,
)
    requires
        realtime_plan(pid, RequestModel::Residual(allocs), victims, h, with_free_memory) is Task,
    ensures
        ({
            let task = realtime_plan(
                pid,
                RequestModel::Residual(allocs),
                victims,
                h,
                with_free_memory,
            )->Task_0;
            let asked = exists|i: int, x: int|
                0 <= i < allocs.len() && 0 <= x < allocs[i].1.len() && buffer_for(
                    pid,
                    allocs[i].0,
                    #[trigger] allocs[i].1[x],
                ) == id;
            &&& task.hostmem_to_shm.contains(id) <==> asked && !assoc_has(h.shm@, id) && assoc_has(
                h.hostmem@,
                id,
            )
            &&& task.storage_to_shm.contains(id) <==> asked && !assoc_has(h.shm@, id) && !assoc_has(
                h.hostmem@,
                id,
            ) && assoc_has(h.storage@, id)
            &&& task.storage_to_hostmem.len() == 0 && task.hostmem_to_storage.len() == 0
        }),
{
    let ids = incoming_ids(pid, allocs);
    let host = super::realtime::waits_in_hostmem(h);
    let disk = super::realtime::waits_in_storage(h);
    crate::sorting::lemma_filter_members(ids, host);
    crate::sorting::lemma_filter_members(ids, disk);
    if ids.contains(id) {
        lemma_incoming_ids_only(pid, allocs, id);
        let at = choose|at: int| 0 <= at < ids.len() && ids[at] == id;
        assert(ids[at] == id);
    }
    if exists|i: int, x: int|
        0 <= i < allocs.len() && 0 <= x < allocs[i].1.len() && buffer_for(
            pid,
            allocs[i].0,
            #[trigger] allocs[i].1[x],
        ) == id {
        let (i, x) = choose|i: int, x: int|
            0 <= i < allocs.len() && 0 <= x < allocs[i].1.len() && buffer_for(
                pid,
                allocs[i].0,
                #[trigger] allocs[i].1[x],
            ) == id;
        assert(allocs[i].1.contains(allocs[i].1[x]));
        super::realtime_laws::lemma_incoming_ids_member(pid, allocs, i, allocs[i].1[x]);
        assert(ids.contains(id));
    }
    if ids.filter(host).contains(id) {
        let at = choose|at: int| 0 <= at < ids.filter(host).len() && ids.filter(host)[at] == id;
        assert(host(ids.filter(host)[at]));
    }
    if ids.filter(disk).contains(id) {
        let at = choose|at: int| 0 <= at < ids.filter(disk).len() && ids.filter(disk)[at] == id;
        assert(disk(ids.filter(disk)[at]));
    }
}

// The stores before anything leaves.

/// Before anything leaves the GPU, the blocks that the buffers of the incoming process give back
/// count as free, in shared memory and, for those that are not there, in host memory. Buffers of
/// other processes in shared memory may be moved on, and no others.
pub proof fn law_stores_before(
    h: DataManagerHandle,
    pid: i32,
    args: RequestModel,
    c: (BufferId, crate::ids::AllocationCapacity),
)
    ensures
        ({
            let m = staging_before(h, pid, args);
            let ids = requested_ids(pid, args);
            &&& m.shm_free == h.shm_free_blocks.0 + sum_of(
                ids,
                |id: BufferId|
                    match assoc_get(h.shm@, id) {
                        Some(capacity) => capacity.0 as int / 0x20_0000,
                        None => 0,
                    },
            )
            &&& m.host_free == h.hostmem_free_blocks.0 + sum_of(
                ids,
                |id: BufferId|
                    match assoc_get(h.hostmem@, id) {
                        Some(capacity) if !assoc_has(h.shm@, id) => capacity.0 as int / 0x20_0000,
                        _ => 0,
                    },
            )
            &&& m.candidates.contains(c) <==> h.shm@.contains(c) && c.0.pid != pid
            &&& m.spilled.len() == 0 && m.queue.len() == 0
        }),
{
    let ids = requested_ids(pid, args);
    let shm = |id: BufferId|
        match assoc_get(h.shm@, id) {
            Some(capacity) => capacity.0 as int / 0x20_0000,
            None => 0,
        };
    let host = |id: BufferId|
        match assoc_get(h.hostmem@, id) {
            Some(capacity) if !assoc_has(h.shm@, id) => capacity.0 as int / 0x20_0000,
            _ => 0,
        };
    assert(shm =~= shm_returned(h));
    assert(host =~= super::realtime::hostmem_returned(h));
    let keep = super::realtime::of_others(pid);
    let kept = h.shm@.filter(keep);
    crate::sorting::lemma_filter_members(h.shm@, keep);
    if kept.contains(c) {
        let i = choose|i: int| 0 <= i < kept.len() && kept[i] == c;
        assert(keep(kept[i]));
    }
    if h.shm@.contains(c) && c.0.pid != pid {
        let i = choose|i: int| 0 <= i < h.shm@.len() && h.shm@[i] == c;
        assert(keep(h.shm@[i]));
    }
}

} // verus!
