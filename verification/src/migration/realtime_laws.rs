//! What every plan that brings a process onto the GPU has in common.
use vstd::prelude::*;
use crate::assoc::{assoc_get, assoc_has, assoc_pos, assoc_put, lemma_assoc_pos};
use crate::control::{PhysicalMemoryData, ProcessResidualData};
use crate::ids::{block_count, AllocationCapacity, BufferId, BufferLocation, GlobalDeviceId};
use crate::sorting::{lemma_filter_members, lemma_sorted_is_permutation};
use crate::sums::{lemma_sum_bounds, lemma_sum_first, lemma_sum_push, sum_of};
use super::realtime::{
    buffer_of,
    by_size,
    clear_devices,
    deep_victims,
    entry_buffer,
    entry_size,
    incoming,
    incoming_ids,
    incoming_on,
    larger_first,
    lemma_taken_len,
    located,
    of_others,
    outgoing,
    realtime_plan,
    requested_ids,
    requirement,
    shm_returned,
    staging_before,
    taken_len,
    waits_in_hostmem,
    waits_in_storage,
    AllocationModel,
    Clearing,
    DeviceRequestArgs,
    RequestModel,
};
use super::staging::{capacity_blocks, queued_blocks, Staging};
use super::store::DataManagerHandle;
use super::task::{MigrationSpecEntry, SpecModel};

verus! {

// Enough is freed.

pub open spec fn spec_entry_size() -> spec_fn(MigrationSpecEntry) -> int {
    |e: MigrationSpecEntry| e.size as int
}

/// Bytes of one process that leave `device`.
pub open spec fn bytes_on(device: GlobalDeviceId) -> spec_fn(SpecModel) -> int {
    |p: SpecModel|
        match assoc_get(p.1, device) {
            Some(entries) => sum_of(entries, spec_entry_size()),
            None => 0,
        }
}

/// Bytes that leave `device`.
pub open spec fn freed_on(out: Seq<SpecModel>, device: GlobalDeviceId) -> int {
    sum_of(out, bytes_on(device))
}

proof fn lemma_freed_nonneg(out: Seq<SpecModel>, device: GlobalDeviceId)
    ensures
        freed_on(out, device) >= 0,
    decreases out.len(),
{
    if out.len() > 0 {
        lemma_freed_nonneg(out.drop_last(), device);
        if let Some(entries) = assoc_get(out.last().1, device) {
            lemma_sum_bounds(entries, spec_entry_size(), u32::MAX as int);
        }
    }
}

proof fn lemma_outgoing_sum(entries: Seq<PhysicalMemoryData>)
    ensures
        sum_of(entries.map_values(outgoing()), spec_entry_size()) == sum_of(entries, entry_size()),
    decreases entries.len(),
{
    if entries.len() > 0 {
        lemma_outgoing_sum(entries.drop_last());
        assert(entries.map_values(outgoing()).drop_last() =~= entries.drop_last().map_values(
            outgoing(),
        ));
    }
}

pub proof fn lemma_take_from_frees(
    c: Clearing,
    victim: (i32, AllocationModel),
    device: GlobalDeviceId,
    required: int,
    other: GlobalDeviceId,
)
    requires
        c.take_from(victim, device, required) is Ok,
    ensures
        ({
            let r = c.take_from(victim, device, required)->Ok_0;
            &&& freed_on(r.out, device) - freed_on(c.out, device) == r.freed - c.freed
            &&& freed_on(r.out, other) >= freed_on(c.out, other)
        }),
{
    if let Some(entries) = assoc_get(victim.1, device) {
        let sorted = by_size(entries);
        let chosen = sorted.take(taken_len(sorted, c.freed, required) as int);
        lemma_taken_len(sorted, c.freed, required);
        if chosen.len() == 0 {
        } else {
            let listed = chosen.map_values(outgoing());
            let spec: SpecModel = (victim.0, seq![(device, listed)]);
            lemma_sum_push(c.out, spec, bytes_on(device));
            lemma_sum_push(c.out, spec, bytes_on(other));
            lemma_outgoing_sum(chosen);
            assert(assoc_pos(spec.1, device) == 0);
            assert(bytes_on(device)(spec) == sum_of(chosen, entry_size()));
            lemma_freed_nonneg(seq![spec], other);
            let alone = seq![spec];
            assert(alone.drop_last() =~= Seq::empty());
            assert(sum_of(alone.drop_last(), bytes_on(other)) == 0);
            assert(freed_on(alone, other) == bytes_on(other)(spec));
            let r = c.take_from(victim, device, required)->Ok_0;
            assert(r.out == c.out.push(spec));
            assert(r.freed == c.freed + sum_of(chosen, entry_size()));
        }
    }
}

proof fn lemma_take_from_all_frees(
    c: Clearing,
    victims: Seq<(i32, AllocationModel)>,
    device: GlobalDeviceId,
    required: int,
    other: GlobalDeviceId,
)
    requires
        c.take_from_all(victims, device, required) is Ok,
    ensures
        ({
            let r = c.take_from_all(victims, device, required)->Ok_0;
            &&& freed_on(r.out, device) - freed_on(c.out, device) == r.freed - c.freed
            &&& freed_on(r.out, other) >= freed_on(c.out, other)
        }),
    decreases victims.len(),
{
    if victims.len() > 0 {
        lemma_take_from_all_frees(c, victims.drop_last(), device, required, other);
        let next = c.take_from_all(victims.drop_last(), device, required)->Ok_0;
        lemma_take_from_frees(next, victims.last(), device, required, other);
    }
}

proof fn lemma_clear_devices_frees(
    staging: Staging,
    victims: Seq<(i32, AllocationModel)>,
    required: Seq<(GlobalDeviceId, int)>,
    i: int,
)
    requires
        clear_devices(staging, victims, required) is Enough,
        0 <= i < required.len(),
    ensures
        freed_on(clear_devices(staging, victims, required)->Enough_1, required[i].0)
            >= required[i].1,
    decreases required.len(),
{
    let before = clear_devices(staging, victims, required.drop_last());
    let (device, bytes) = required.last();
    let start = Clearing {
        staging: Staging { queue: Seq::empty(), ..before->Enough_0 },
        out: before->Enough_1,
        freed: 0,
    };
    lemma_take_from_all_frees(start, victims, device, bytes, required[i].0);
    if i == required.len() - 1 {
        lemma_freed_nonneg(before->Enough_1, device);
    } else {
        lemma_clear_devices_frees(staging, victims, required.drop_last(), i);
    }
}

/// A plan frees on every device at least what the request requires of it.
pub proof fn law_plan_frees_enough(
    pid: i32,
    args: RequestModel,
    victims: Seq<(i32, AllocationModel)>,
    h: DataManagerHandle,
    with_free_memory: bool,
    i: int,
)
    requires
        realtime_plan(pid, args, victims, h, with_free_memory) is Task,
        0 <= i < requirement(args, h.gpu_free@, with_free_memory).len(),
    ensures
        ({
            let task = realtime_plan(pid, args, victims, h, with_free_memory)->Task_0;
            let (device, bytes) = requirement(args, h.gpu_free@, with_free_memory)[i];
            freed_on(task.out_from_gpu, device) >= bytes
        }),
{
    lemma_clear_devices_frees(
        staging_before(h, pid, args),
        victims,
        requirement(args, h.gpu_free@, with_free_memory),
        i,
    );
}

// What is moved on.

/// Everything in or through shared memory comes from `from`, and what is moved on goes to host
/// memory or storage.
pub open spec fn drawn_from(m: Staging, from: spec_fn(BufferId) -> bool) -> bool {
    &&& forall|i: int| 0 <= i < m.candidates.len() ==> from((#[trigger] m.candidates[i]).0)
    &&& forall|i: int| 0 <= i < m.queue.len() ==> from((#[trigger] m.queue[i]).0)
    &&& forall|i: int|
        0 <= i < m.spilled.len() ==> from((#[trigger] m.spilled[i]).0) && (m.spilled[i].1
            == BufferLocation::HostMem || m.spilled[i].1 == BufferLocation::Storage)
}

proof fn lemma_spill_from(m: Staging, id: BufferId, count: int, from: spec_fn(BufferId) -> bool)
    requires
        drawn_from(m, from),
        from(id),
    ensures
        drawn_from(m.spill(id, count), from),
{
    lemma_assoc_pos(m.spilled, id);
    let r = m.spill(id, count);
    assert forall|i: int| 0 <= i < r.spilled.len() implies from((#[trigger] r.spilled[i]).0) && (
    r.spilled[i].1 == BufferLocation::HostMem || r.spilled[i].1 == BufferLocation::Storage) by {
        if i < m.spilled.len() && i != assoc_pos(m.spilled, id) {
            assert(r.spilled[i] == m.spilled[i]);
        }
    }
    assert(r.candidates == m.candidates);
    assert(r.queue == m.queue);
}

proof fn lemma_drain_from(m: Staging, need: int, got: int, from: spec_fn(BufferId) -> bool)
    requires
        drawn_from(m, from),
        m.drain(need, got) is Ok,
    ensures
        drawn_from(m.drain(need, got)->Ok_0, from),
    decreases m.queue.len(),
{
    if got < need {
        let (id, count) = m.queue[0];
        let popped = Staging { queue: m.queue.drop_first(), ..m };
        assert(drawn_from(popped, from)) by {
            assert forall|i: int| 0 <= i < popped.queue.len() implies from(
                (#[trigger] popped.queue[i]).0,
            ) by {
                assert(popped.queue[i] == m.queue[i + 1]);
            }
        }
        lemma_spill_from(popped, id, count as int, from);
        lemma_drain_from(popped.spill(id, count as int), need, got + count, from);
    }
}

proof fn lemma_make_room_from(m: Staging, need: int, from: spec_fn(BufferId) -> bool)
    requires
        drawn_from(m, from),
        m.make_room(need) is Ok,
    ensures
        drawn_from(m.make_room(need)->Ok_0, from),
    decreases m.candidates.len(),
{
    if m.shm_free >= need {
    } else if m.candidates.len() == 0 {
        lemma_drain_from(m, need, 0, from);
    } else {
        let (id, capacity) = m.candidates[0];
        let count = capacity.0 as int / crate::constant::BLOCK_BYTES as int;
        let popped = Staging { candidates: m.candidates.drop_first(), ..m };
        assert(drawn_from(popped, from)) by {
            assert forall|i: int| 0 <= i < popped.candidates.len() implies from(
                (#[trigger] popped.candidates[i]).0,
            ) by {
                assert(popped.candidates[i] == m.candidates[i + 1]);
            }
        }
        lemma_spill_from(popped, id, count, from);
        lemma_make_room_from(popped.spill(id, count), need, from);
    }
}

proof fn lemma_place_all_from(m: Staging, ids: Seq<BufferId>, from: spec_fn(BufferId) -> bool)
    requires
        drawn_from(m, from),
        forall|i: int| 0 <= i < ids.len() ==> from(#[trigger] ids[i]),
        m.place_all(ids) is Ok,
    ensures
        drawn_from(m.place_all(ids)->Ok_0, from),
    decreases ids.len(),
{
    if ids.len() > 0 {
        let fewer = ids.drop_last();
        assert forall|i: int| 0 <= i < fewer.len() implies from(#[trigger] fewer[i]) by {
            assert(fewer[i] == ids[i]);
        }
        lemma_place_all_from(m, fewer, from);
        let next = m.place_all(fewer)->Ok_0;
        let need = block_count(ids.last().size) as int;
        lemma_make_room_from(next, need, from);
        let room = next.make_room(need)->Ok_0;
        let r = next.place(ids.last())->Ok_0;
        assert forall|i: int| 0 <= i < r.queue.len() implies from((#[trigger] r.queue[i]).0) by {
            if i < room.queue.len() {
                assert(r.queue[i] == room.queue[i]);
            } else {
                assert(from(ids[ids.len() - 1]));
            }
        }
    }
}

/// Whether the buffer `id` leaves the GPU.
pub open spec fn leaves(out: Seq<SpecModel>, id: BufferId) -> bool {
    exists|k: int|
        0 <= k < out.len() && (#[trigger] out[k]).0 == id.pid && leaves_with(out[k].1, id)
}

/// Whether the buffer `id` is among the entries of its process.
pub open spec fn leaves_with(
    devices: Seq<(GlobalDeviceId, Seq<MigrationSpecEntry>)>,
    id: BufferId,
) -> bool {
    exists|d: int, j: int|
        0 <= d < devices.len() && devices[d].0 == id.device_id && 0 <= j < devices[d].1.len()
            && (#[trigger] devices[d].1[j]).buffer(id.pid, id.device_id) == id
}

/// Whether the buffer `id` is in shared memory or leaves the GPU.
pub open spec fn shared_or_leaving(h: DataManagerHandle, out: Seq<SpecModel>) -> spec_fn(
    BufferId,
) -> bool {
    |id: BufferId| assoc_has(h.shm@, id) || leaves(out, id)
}

proof fn lemma_drawn_from_more(h: DataManagerHandle, m: Staging, out: Seq<SpecModel>, add: SpecModel)
    requires
        drawn_from(m, shared_or_leaving(h, out)),
    ensures
        drawn_from(m, shared_or_leaving(h, out.push(add))),
{
    let from = shared_or_leaving(h, out);
    let more = shared_or_leaving(h, out.push(add));
    assert forall|id: BufferId| #[trigger] from(id) implies more(id) by {
        if leaves(out, id) {
            let k = choose|k: int|
                0 <= k < out.len() && (#[trigger] out[k]).0 == id.pid && leaves_with(out[k].1, id);
            assert(out.push(add)[k] == out[k]);
        }
    }
}

proof fn lemma_take_from_drawn(
    h: DataManagerHandle,
    c: Clearing,
    victim: (i32, AllocationModel),
    device: GlobalDeviceId,
    required: int,
)
    requires
        drawn_from(c.staging, shared_or_leaving(h, c.out)),
        c.take_from(victim, device, required) is Ok,
    ensures
        ({
            let r = c.take_from(victim, device, required)->Ok_0;
            drawn_from(r.staging, shared_or_leaving(h, r.out))
        }),
{
    if let Some(entries) = assoc_get(victim.1, device) {
        let sorted = by_size(entries);
        lemma_taken_len(sorted, c.freed, required);
        let chosen = sorted.take(taken_len(sorted, c.freed, required) as int);
        let ids = chosen.map_values(entry_buffer(victim.0, device));
        let r = c.take_from(victim, device, required)->Ok_0;
        let from = shared_or_leaving(h, r.out);
        if chosen.len() > 0 {
            let listed = chosen.map_values(outgoing());
            let spec: SpecModel = (victim.0, seq![(device, listed)]);
            lemma_drawn_from_more(h, c.staging, c.out, spec);
            assert forall|i: int| 0 <= i < ids.len() implies from(#[trigger] ids[i]) by {
                assert(r.out[c.out.len() as int] == spec);
                assert(spec.1[0].1[i].buffer(ids[i].pid, ids[i].device_id) == ids[i]);
                assert(leaves_with(spec.1, ids[i]));
                assert(leaves(r.out, ids[i]));
            }
        }
        lemma_place_all_from(c.staging, ids, from);
    }
}

proof fn lemma_take_from_all_drawn(
    h: DataManagerHandle,
    c: Clearing,
    victims: Seq<(i32, AllocationModel)>,
    device: GlobalDeviceId,
    required: int,
)
    requires
        drawn_from(c.staging, shared_or_leaving(h, c.out)),
        c.take_from_all(victims, device, required) is Ok,
    ensures
        ({
            let r = c.take_from_all(victims, device, required)->Ok_0;
            drawn_from(r.staging, shared_or_leaving(h, r.out))
        }),
    decreases victims.len(),
{
    if victims.len() > 0 {
        lemma_take_from_all_drawn(h, c, victims.drop_last(), device, required);
        let next = c.take_from_all(victims.drop_last(), device, required)->Ok_0;
        lemma_take_from_drawn(h, next, victims.last(), device, required);
    }
}

proof fn lemma_clear_devices_drawn(
    h: DataManagerHandle,
    staging: Staging,
    victims: Seq<(i32, AllocationModel)>,
    required: Seq<(GlobalDeviceId, int)>,
)
    requires
        drawn_from(staging, shared_or_leaving(h, Seq::empty())),
        clear_devices(staging, victims, required) is Enough,
    ensures
        ({
            let r = clear_devices(staging, victims, required);
            drawn_from(r->Enough_0, shared_or_leaving(h, r->Enough_1))
        }),
    decreases required.len(),
{
    if required.len() > 0 {
        lemma_clear_devices_drawn(h, staging, victims, required.drop_last());
        let before = clear_devices(staging, victims, required.drop_last());
        let (device, bytes) = required.last();
        let start = Clearing {
            staging: Staging { queue: Seq::empty(), ..before->Enough_0 },
            out: before->Enough_1,
            freed: 0,
        };
        lemma_take_from_all_drawn(h, start, victims, device, bytes);
    }
}

proof fn lemma_candidates(h: DataManagerHandle, pid: i32)
    ensures
        forall|i: int|
            0 <= i < h.shm@.filter(of_others(pid)).len() ==> {
                let c = #[trigger] h.shm@.filter(of_others(pid))[i];
                c.0.pid != pid && assoc_has(h.shm@, c.0) && h.shm@.contains(c)
            },
{
    let list = h.shm@.filter(of_others(pid));
    lemma_filter_members(h.shm@, of_others(pid));
    assert forall|i: int| 0 <= i < list.len() implies {
        let c = #[trigger] list[i];
        c.0.pid != pid && assoc_has(h.shm@, c.0) && h.shm@.contains(c)
    } by {
        let c = list[i];
        assert(of_others(pid)(c));
        assert(h.shm@.contains(c));
        let k = choose|k: int| 0 <= k < h.shm@.len() && h.shm@[k] == c;
        lemma_assoc_pos(h.shm@, c.0);
        assert(h.shm@[k].0 == c.0);
    }
}

/// Whatever a plan moves on is in shared memory already or leaves the GPU by the same plan, and it
/// goes to host memory or to storage.
pub proof fn law_moved_on_from_shm_or_gpu(
    pid: i32,
    args: RequestModel,
    victims: Seq<(i32, AllocationModel)>,
    h: DataManagerHandle,
    with_free_memory: bool,
    i: int,
)
    requires
        realtime_plan(pid, args, victims, h, with_free_memory) is Task,
        ({
            let task = realtime_plan(pid, args, victims, h, with_free_memory)->Task_0;
            0 <= i < task.shm_to_backend.len()
        }),
    ensures
        ({
            let task = realtime_plan(pid, args, victims, h, with_free_memory)->Task_0;
            let (id, to) = task.shm_to_backend[i];
            &&& assoc_has(h.shm@, id) || leaves(task.out_from_gpu, id)
            &&& to == BufferLocation::HostMem || to == BufferLocation::Storage
        }),
{
    lemma_candidates(h, pid);
    let start = staging_before(h, pid, args);
    assert(drawn_from(start, shared_or_leaving(h, Seq::empty())));
    let required = requirement(args, h.gpu_free@, with_free_memory);
    lemma_clear_devices_drawn(h, start, victims, required);
    let r = clear_devices(start, victims, required);
    let from = shared_or_leaving(h, r->Enough_1);
    assert(from(r->Enough_0.spilled[i].0));
}

/// A plan moves no buffer of the incoming process out of shared memory.
pub proof fn law_incoming_process_is_spared(
    pid: i32,
    args: RequestModel,
    victims: Seq<(i32, AllocationModel)>,
    h: DataManagerHandle,
    with_free_memory: bool,
    i: int,
)
    requires
        realtime_plan(pid, args, victims, h, with_free_memory) is Task,
        ({
            let task = realtime_plan(pid, args, victims, h, with_free_memory)->Task_0;
            0 <= i < task.shm_to_backend.len()
        }),
        forall|k: int| 0 <= k < victims.len() ==> (#[trigger] victims[k]).0 != pid,
    ensures
        ({
            let task = realtime_plan(pid, args, victims, h, with_free_memory)->Task_0;
            task.shm_to_backend[i].0.pid != pid
        }),
{
    lemma_candidates(h, pid);
    let start = staging_before(h, pid, args);
    let required = requirement(args, h.gpu_free@, with_free_memory);
    let from = |id: BufferId| id.pid != pid;
    assert(drawn_from(start, from));
    lemma_clear_devices_spares(start, victims, required, pid);
    let r = clear_devices(start, victims, required);
    assert(from(r->Enough_0.spilled[i].0));
}

proof fn lemma_clear_devices_spares(
    staging: Staging,
    victims: Seq<(i32, AllocationModel)>,
    required: Seq<(GlobalDeviceId, int)>,
    pid: i32,
)
    requires
        drawn_from(staging, |id: BufferId| id.pid != pid),
        forall|k: int| 0 <= k < victims.len() ==> (#[trigger] victims[k]).0 != pid,
        clear_devices(staging, victims, required) is Enough,
    ensures
        drawn_from(
            clear_devices(staging, victims, required)->Enough_0,
            |id: BufferId| id.pid != pid,
        ),
    decreases required.len(),
{
    if required.len() > 0 {
        lemma_clear_devices_spares(staging, victims, required.drop_last(), pid);
        let before = clear_devices(staging, victims, required.drop_last());
        let (device, bytes) = required.last();
        let start = Clearing {
            staging: Staging { queue: Seq::empty(), ..before->Enough_0 },
            out: before->Enough_1,
            freed: 0,
        };
        lemma_take_from_all_spares(start, victims, device, bytes, pid);
    }
}

proof fn lemma_take_from_all_spares(
    c: Clearing,
    victims: Seq<(i32, AllocationModel)>,
    device: GlobalDeviceId,
    required: int,
    pid: i32,
)
    requires
        drawn_from(c.staging, |id: BufferId| id.pid != pid),
        forall|k: int| 0 <= k < victims.len() ==> (#[trigger] victims[k]).0 != pid,
        c.take_from_all(victims, device, required) is Ok,
    ensures
        drawn_from(
            c.take_from_all(victims, device, required)->Ok_0.staging,
            |id: BufferId| id.pid != pid,
        ),
    decreases victims.len(),
{
    if victims.len() > 0 {
        let fewer = victims.drop_last();
        assert forall|k: int| 0 <= k < fewer.len() implies (#[trigger] fewer[k]).0 != pid by {
            assert(fewer[k] == victims[k]);
        }
        lemma_take_from_all_spares(c, fewer, device, required, pid);
        let next = c.take_from_all(fewer, device, required)->Ok_0;
        let victim = victims[victims.len() - 1];
        if let Some(entries) = assoc_get(victim.1, device) {
            let sorted = by_size(entries);
            lemma_taken_len(sorted, next.freed, required);
            let chosen = sorted.take(taken_len(sorted, next.freed, required) as int);
            let ids = chosen.map_values(entry_buffer(victim.0, device));
            lemma_place_all_from(next.staging, ids, |id: BufferId| id.pid != pid);
        }
    }
}

// Memory is not promised twice.

/// Free blocks are never negative, and host memory only fills up.
pub open spec fn sound_blocks(m: Staging, before: Staging) -> bool {
    &&& m.shm_free >= 0
    &&& 0 <= m.host_free <= before.host_free
}

proof fn lemma_place_all_sound(m: Staging, ids: Seq<BufferId>, before: Staging)
    requires
        sound_blocks(m, before),
        m.place_all(ids) is Ok,
    ensures
        sound_blocks(m.place_all(ids)->Ok_0, before),
        m.place_all(ids)->Ok_0.budget() == m.budget(),
    decreases ids.len(),
{
    if ids.len() > 0 {
        lemma_place_all_sound(m, ids.drop_last(), before);
        super::staging::lemma_place(m.place_all(ids.drop_last())->Ok_0, ids.last());
    }
}

proof fn lemma_take_from_all_sound(
    c: Clearing,
    victims: Seq<(i32, AllocationModel)>,
    device: GlobalDeviceId,
    required: int,
    before: Staging,
)
    requires
        sound_blocks(c.staging, before),
        c.take_from_all(victims, device, required) is Ok,
    ensures
        sound_blocks(c.take_from_all(victims, device, required)->Ok_0.staging, before),
        c.take_from_all(victims, device, required)->Ok_0.staging.budget() == c.staging.budget(),
    decreases victims.len(),
{
    if victims.len() > 0 {
        lemma_take_from_all_sound(c, victims.drop_last(), device, required, before);
        let next = c.take_from_all(victims.drop_last(), device, required)->Ok_0;
        let victim = victims.last();
        if let Some(entries) = assoc_get(victim.1, device) {
            let sorted = by_size(entries);
            let chosen = sorted.take(taken_len(sorted, next.freed, required) as int);
            let ids = chosen.map_values(entry_buffer(victim.0, device));
            lemma_place_all_sound(next.staging, ids, before);
        }
    }
}

/// Clearing devices never takes blocks of shared or host memory that are not free, and the blocks
/// at the plan's disposal do not grow.
pub proof fn law_memory_is_not_promised_twice(
    staging: Staging,
    victims: Seq<(i32, AllocationModel)>,
    required: Seq<(GlobalDeviceId, int)>,
)
    requires
        staging.shm_free >= 0,
        staging.host_free >= 0,
        clear_devices(staging, victims, required) is Enough,
    ensures
        ({
            let r = clear_devices(staging, victims, required)->Enough_0;
            &&& r.shm_free >= 0
            &&& 0 <= r.host_free <= staging.host_free
            &&& r.budget() <= staging.budget()
        }),
    decreases required.len(),
{
    if required.len() > 0 {
        law_memory_is_not_promised_twice(staging, victims, required.drop_last());
        let before = clear_devices(staging, victims, required.drop_last());
        let (device, bytes) = required.last();
        let start = Clearing {
            staging: Staging { queue: Seq::empty(), ..before->Enough_0 },
            out: before->Enough_1,
            freed: 0,
        };
        lemma_sum_bounds(before->Enough_0.queue, queued_blocks(), u32::MAX as int);
        lemma_take_from_all_sound(start, victims, device, bytes, staging);
    }
}

// No deadlock.

/// Once something has to be moved on, the first move can start: shared memory has a free block,
/// or something that is moved on is in shared memory already.
pub open spec fn no_deadlock(h: DataManagerHandle, moved_on: Seq<(BufferId, BufferLocation)>) -> bool {
    ||| moved_on.len() == 0
    ||| h.shm_free_blocks.0 > 0
    ||| exists|i: int|
        0 <= i < moved_on.len() && assoc_has(h.shm@, (#[trigger] moved_on[i]).0)
            && moved_on[i].0.size > 0
}

/// Either nothing was moved on so far, or the first candidate was.
spec fn starts_in_shm(m: Staging, first: Seq<(BufferId, AllocationCapacity)>) -> bool {
    if first.len() > 0 {
        ||| m.candidates == first && m.spilled.len() == 0
        ||| assoc_has(m.spilled, first[0].0)
    } else {
        &&& m.candidates.len() == 0
        &&& m.spilled.len() == 0
        &&& m.shm_free >= 0
        &&& m.host_free >= 0
        &&& m.budget() == 0
    }
}

proof fn lemma_put_keeps<K, V>(s: Seq<(K, V)>, k: K, v: V, other: K)
    requires
        assoc_has(s, other) || other == k,
    ensures
        assoc_has(assoc_put(s, k, v), other),
{
    crate::assoc::lemma_assoc_put_get(s, k, v, other);
}

proof fn lemma_drain_keeps(m: Staging, need: int, got: int, id: BufferId)
    requires
        assoc_has(m.spilled, id),
        m.drain(need, got) is Ok,
    ensures
        assoc_has(m.drain(need, got)->Ok_0.spilled, id),
    decreases m.queue.len(),
{
    if got < need {
        let (other, count) = m.queue[0];
        let popped = Staging { queue: m.queue.drop_first(), ..m };
        lemma_put_keeps(m.spilled, other, BufferLocation::HostMem, id);
        lemma_put_keeps(m.spilled, other, BufferLocation::Storage, id);
        lemma_drain_keeps(popped.spill(other, count as int), need, got + count, id);
    }
}

proof fn lemma_make_room_keeps(m: Staging, need: int, id: BufferId)
    requires
        assoc_has(m.spilled, id),
        m.make_room(need) is Ok,
    ensures
        assoc_has(m.make_room(need)->Ok_0.spilled, id),
    decreases m.candidates.len(),
{
    if m.shm_free >= need {
    } else if m.candidates.len() == 0 {
        lemma_drain_keeps(m, need, 0, id);
    } else {
        let (other, capacity) = m.candidates[0];
        let count = capacity.0 as int / crate::constant::BLOCK_BYTES as int;
        let popped = Staging { candidates: m.candidates.drop_first(), ..m };
        lemma_put_keeps(m.spilled, other, BufferLocation::HostMem, id);
        lemma_put_keeps(m.spilled, other, BufferLocation::Storage, id);
        lemma_make_room_keeps(popped.spill(other, count), need, id);
    }
}

proof fn lemma_drain_of_nothing(m: Staging, need: int, got: int)
    requires
        got < need,
        sum_of(m.queue, queued_blocks()) == 0,
    ensures
        m.drain(need, got) is Err,
    decreases m.queue.len(),
{
    if m.queue.len() > 0 {
        let (id, count) = m.queue[0];
        lemma_sum_first(m.queue, queued_blocks());
        lemma_sum_bounds(m.queue.drop_first(), queued_blocks(), u32::MAX as int);
        let popped = Staging { queue: m.queue.drop_first(), ..m };
        lemma_drain_of_nothing(popped.spill(id, count as int), need, got + count);
    }
}

proof fn lemma_make_room_starts(m: Staging, need: int, first: Seq<(BufferId, AllocationCapacity)>)
    requires
        starts_in_shm(m, first),
        m.make_room(need) is Ok,
    ensures
        starts_in_shm(m.make_room(need)->Ok_0, first),
        first.len() == 0 ==> m.make_room(need)->Ok_0 == m && need <= m.shm_free,
{
    if m.shm_free >= need {
    } else if first.len() == 0 {
        lemma_sum_bounds(m.queue, queued_blocks(), u32::MAX as int);
        assert(sum_of(m.candidates, capacity_blocks()) == 0);
        lemma_drain_of_nothing(m, need, 0);
    } else if assoc_has(m.spilled, first[0].0) {
        lemma_make_room_keeps(m, need, first[0].0);
    } else {
        let (id, capacity) = m.candidates[0];
        let count = capacity.0 as int / crate::constant::BLOCK_BYTES as int;
        let popped = Staging { candidates: m.candidates.drop_first(), ..m };
        lemma_put_keeps(m.spilled, id, BufferLocation::HostMem, id);
        lemma_put_keeps(m.spilled, id, BufferLocation::Storage, id);
        lemma_make_room_keeps(popped.spill(id, count), need, id);
    }
}

proof fn lemma_place_all_starts(
    m: Staging,
    ids: Seq<BufferId>,
    first: Seq<(BufferId, AllocationCapacity)>,
)
    requires
        starts_in_shm(m, first),
        m.place_all(ids) is Ok,
    ensures
        starts_in_shm(m.place_all(ids)->Ok_0, first),
    decreases ids.len(),
{
    if ids.len() > 0 {
        lemma_place_all_starts(m, ids.drop_last(), first);
        let next = m.place_all(ids.drop_last())->Ok_0;
        let id = ids.last();
        let need = block_count(id.size) as int;
        lemma_make_room_starts(next, need, first);
        let room = next.make_room(need)->Ok_0;
        lemma_sum_push(room.queue, (id, need as u32), queued_blocks());
    }
}

proof fn lemma_take_from_all_starts(
    c: Clearing,
    victims: Seq<(i32, AllocationModel)>,
    device: GlobalDeviceId,
    required: int,
    first: Seq<(BufferId, AllocationCapacity)>,
)
    requires
        starts_in_shm(c.staging, first),
        c.take_from_all(victims, device, required) is Ok,
    ensures
        starts_in_shm(c.take_from_all(victims, device, required)->Ok_0.staging, first),
    decreases victims.len(),
{
    if victims.len() > 0 {
        lemma_take_from_all_starts(c, victims.drop_last(), device, required, first);
        let next = c.take_from_all(victims.drop_last(), device, required)->Ok_0;
        let victim = victims.last();
        if let Some(entries) = assoc_get(victim.1, device) {
            let sorted = by_size(entries);
            let chosen = sorted.take(taken_len(sorted, next.freed, required) as int);
            let ids = chosen.map_values(entry_buffer(victim.0, device));
            lemma_place_all_starts(next.staging, ids, first);
        }
    }
}

proof fn lemma_clear_devices_starts(
    staging: Staging,
    victims: Seq<(i32, AllocationModel)>,
    required: Seq<(GlobalDeviceId, int)>,
    first: Seq<(BufferId, AllocationCapacity)>,
)
    requires
        starts_in_shm(staging, first),
        clear_devices(staging, victims, required) is Enough,
    ensures
        starts_in_shm(clear_devices(staging, victims, required)->Enough_0, first),
    decreases required.len(),
{
    if required.len() > 0 {
        lemma_clear_devices_starts(staging, victims, required.drop_last(), first);
        let before = clear_devices(staging, victims, required.drop_last());
        let (device, bytes) = required.last();
        let start = Clearing {
            staging: Staging { queue: Seq::empty(), ..before->Enough_0 },
            out: before->Enough_1,
            freed: 0,
        };
        lemma_sum_bounds(before->Enough_0.queue, queued_blocks(), u32::MAX as int);
        lemma_sum_bounds(before->Enough_0.candidates, capacity_blocks(), u32::MAX as int);
        lemma_take_from_all_starts(start, victims, device, bytes, first);
    }
}

/// A plan can start, as long as no buffer of another process in shared memory is empty. Left out is
/// one case: shared memory is full, and all that gives blocks back there is the incoming process.
pub proof fn law_no_deadlock(
    pid: i32,
    args: RequestModel,
    victims: Seq<(i32, AllocationModel)>,
    h: DataManagerHandle,
    with_free_memory: bool,
)
    requires
        realtime_plan(pid, args, victims, h, with_free_memory) is Task,
        h.shm_free_blocks.0 > 0 || sum_of(requested_ids(pid, args), shm_returned(h)) == 0
            || exists|i: int| 0 <= i < h.shm@.len() && (#[trigger] h.shm@[i]).0.pid != pid,
        forall|i: int|
            0 <= i < h.shm@.len() && (#[trigger] h.shm@[i]).0.pid != pid ==> h.shm@[i].0.size > 0,
    ensures
        no_deadlock(
            h,
            realtime_plan(pid, args, victims, h, with_free_memory)->Task_0.shm_to_backend,
        ),
{
    lemma_candidates(h, pid);
    let start = staging_before(h, pid, args);
    let required = requirement(args, h.gpu_free@, with_free_memory);
    if h.shm_free_blocks.0 == 0 {
        let first = start.candidates;
        lemma_sum_bounds(
            requested_ids(pid, args),
            super::realtime::hostmem_returned(h),
            u32::MAX as int,
        );
        if exists|i: int| 0 <= i < h.shm@.len() && (#[trigger] h.shm@[i]).0.pid != pid {
            let i = choose|i: int| 0 <= i < h.shm@.len() && (#[trigger] h.shm@[i]).0.pid != pid;
            lemma_filter_members(h.shm@, of_others(pid));
            assert(of_others(pid)(h.shm@[i]));
            assert(first.contains(h.shm@[i]));
        }
        assert(starts_in_shm(start, first));
        lemma_clear_devices_starts(start, victims, required, first);
        let r = clear_devices(start, victims, required)->Enough_0;
        if r.spilled.len() > 0 {
            let id = first[0].0;
            lemma_assoc_pos(r.spilled, id);
            let i = assoc_pos(r.spilled, id);
            assert(r.spilled[i].0 == id);
            let k = choose|k: int| 0 <= k < h.shm@.len() && h.shm@[k] == first[0];
            assert(h.shm@[k].0.size > 0);
        }
    }
}

// Everything comes in.

pub proof fn lemma_by_size_members(entries: Seq<PhysicalMemoryData>, e: PhysicalMemoryData)
    ensures
        by_size(entries).contains(e) == entries.contains(e),
{
    broadcast use vstd::seq_lib::group_to_multiset_ensures;

    lemma_sorted_is_permutation(entries, larger_first());
    assert(by_size(entries).contains(e) <==> by_size(entries).to_multiset().count(e) > 0);
    assert(entries.contains(e) <==> entries.to_multiset().count(e) > 0);
}

/// Every allocation of the incoming process that is stored anywhere comes in to its device.
pub proof fn law_stored_allocations_come_in(
    h: DataManagerHandle,
    pid: i32,
    device: GlobalDeviceId,
    entries: Seq<PhysicalMemoryData>,
    e: PhysicalMemoryData,
)
    requires
        entries.contains(e),
        located(h, pid, device)(e),
    ensures
        incoming_on(h, pid, device, entries).contains(incoming(h, pid, device)(e)),
{
    let keep = located(h, pid, device);
    let sorted = by_size(entries);
    lemma_by_size_members(entries, e);
    lemma_filter_members(sorted, keep);
    let k = choose|k: int| 0 <= k < sorted.len() && sorted[k] == e;
    assert(keep(sorted[k]));
    let kept = sorted.filter(keep);
    assert(kept.contains(e));
    let j = choose|j: int| 0 <= j < kept.len() && kept[j] == e;
    assert(incoming_on(h, pid, device, entries)[j] == incoming(h, pid, device)(e));
}

pub proof fn lemma_incoming_ids_member(
    pid: i32,
    allocs: AllocationModel,
    i: int,
    e: PhysicalMemoryData,
)
    requires
        0 <= i < allocs.len(),
        allocs[i].1.contains(e),
    ensures
        incoming_ids(pid, allocs).contains(buffer_of(pid, allocs[i].0, e)),
    decreases allocs.len(),
{
    let earlier = incoming_ids(pid, allocs.drop_last());
    let last = by_size(allocs.last().1).map_values(entry_buffer(pid, allocs.last().0));
    let all = incoming_ids(pid, allocs);
    let id = buffer_of(pid, allocs[i].0, e);
    if i == allocs.len() - 1 {
        lemma_by_size_members(allocs[i].1, e);
        let sorted = by_size(allocs[i].1);
        let k = choose|k: int| 0 <= k < sorted.len() && sorted[k] == e;
        assert(last[k] == id);
        assert(all[earlier.len() + k] == id);
    } else {
        lemma_incoming_ids_member(pid, allocs.drop_last(), i, e);
        let k = choose|k: int| 0 <= k < earlier.len() && earlier[k] == id;
        assert(all[k] == id);
    }
}

/// An allocation that comes in is in shared memory already, or the plan brings it there from host
/// memory or storage.
pub proof fn law_incoming_passes_through_shm(
    pid: i32,
    allocs: AllocationModel,
    victims: Seq<(i32, AllocationModel)>,
    h: DataManagerHandle,
    with_free_memory: bool,
    i: int,
    e: PhysicalMemoryData,
)
    requires
        realtime_plan(pid, RequestModel::Residual(allocs), victims, h, with_free_memory) is Task,
        0 <= i < allocs.len(),
        allocs[i].1.contains(e),
        located(h, pid, allocs[i].0)(e),
    ensures
        ({
            let task = realtime_plan(
                pid,
                RequestModel::Residual(allocs),
                victims,
                h,
                with_free_memory,
            )->Task_0;
            let id = buffer_of(pid, allocs[i].0, e);
            &&& incoming(h, pid, allocs[i].0)(e).ready_for_pcie_xfer == assoc_has(h.shm@, id)
            &&& assoc_has(h.shm@, id) || task.hostmem_to_shm.contains(id)
                || task.storage_to_shm.contains(id)
        }),
{
    let ids = incoming_ids(pid, allocs);
    let id = buffer_of(pid, allocs[i].0, e);
    lemma_incoming_ids_member(pid, allocs, i, e);
    let k = choose|k: int| 0 <= k < ids.len() && ids[k] == id;
    lemma_filter_members(ids, waits_in_hostmem(h));
    lemma_filter_members(ids, waits_in_storage(h));
    if !assoc_has(h.shm@, id) {
        if assoc_has(h.hostmem@, id) {
            assert(waits_in_hostmem(h)(ids[k]));
        } else {
            assert(waits_in_storage(h)(ids[k]));
        }
    }
}

// Who gives first.

proof fn lemma_freed_grows(
    c: Clearing,
    victims: Seq<(i32, AllocationModel)>,
    device: GlobalDeviceId,
    required: int,
    n: int,
)
    requires
        0 <= n <= victims.len(),
        c.take_from_all(victims, device, required) is Ok,
    ensures
        c.take_from_all(victims.take(n), device, required) is Ok,
        c.take_from_all(victims.take(n), device, required)->Ok_0.freed <= c.take_from_all(
            victims,
            device,
            required,
        )->Ok_0.freed,
    decreases victims.len(),
{
    if n == victims.len() {
        assert(victims.take(n) =~= victims);
    } else {
        assert(victims.drop_last().take(n) =~= victims.take(n));
        lemma_freed_grows(c, victims.drop_last(), device, required, n);
        let next = c.take_from_all(victims.drop_last(), device, required)->Ok_0;
        if let Some(entries) = assoc_get(victims.last().1, device) {
            let sorted = by_size(entries);
            let chosen = sorted.take(taken_len(sorted, next.freed, required) as int);
            lemma_sum_bounds(chosen, entry_size(), u32::MAX as int);
        }
    }
}

/// A process has to give memory up only once every process before it has given up everything that
/// it holds on the device.
pub proof fn law_earlier_process_gives_first(
    c: Clearing,
    victims: Seq<(i32, AllocationModel)>,
    device: GlobalDeviceId,
    required: int,
    i: int,
    j: int,
)
    requires
        0 <= i < j < victims.len(),
        c.take_from_all(victims, device, required) is Ok,
        c.take_from_all(victims.take(j), device, required) matches Ok(before) && before.freed
            < required,
        assoc_get(victims[i].1, device) is Some,
    ensures
        ({
            let sorted = by_size(assoc_get(victims[i].1, device)->0);
            let before = c.take_from_all(victims.take(i), device, required)->Ok_0;
            taken_len(sorted, before.freed, required) == sorted.len()
        }),
{
    let upto = victims.take(j);
    lemma_freed_grows(c, upto, device, required, i);
    lemma_freed_grows(c, upto, device, required, i + 1);
    assert(upto.take(i) =~= victims.take(i));
    assert(upto.take(i + 1) =~= victims.take(i + 1));
    assert(victims.take(i + 1).drop_last() =~= victims.take(i));
    assert(victims.take(i + 1).last() == victims[i]);
    let before = c.take_from_all(victims.take(i), device, required)->Ok_0;
    let sorted = by_size(assoc_get(victims[i].1, device)->0);
    lemma_taken_len(sorted, before.freed, required);
}

/// Requests and the processes that give memory up are read in full: process by process, device by
/// device, and allocation by allocation.
pub proof fn law_requests_are_read_in_full(
    data: ProcessResidualData,
    list: Vec<(GlobalDeviceId, u64)>,
    victims: Seq<(i32, ProcessResidualData)>,
    v: int,
    d: int,
)
    ensures
        data.model().len() == data.allocations@.len(),
        0 <= d < data.allocations@.len() ==> data.model()[d].0 == data.allocations@[d].0
            && data.model()[d].1 == data.allocations@[d].1@,
        DeviceRequestArgs::ResidualData(data).model() == RequestModel::Residual(data.model()),
        DeviceRequestArgs::Allocation(list).model() == RequestModel::Allocation(list@),
        deep_victims(victims).len() == victims.len(),
        0 <= v < victims.len() ==> deep_victims(victims)[v].0 == victims[v].0
            && deep_victims(victims)[v].1 == victims[v].1.model(),
{
}

} // verus!
