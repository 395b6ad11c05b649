//! What carrying a task out comes to: everything that the task names is moved, and nothing else.
use vstd::prelude::*;
use crate::assoc::{assoc_get, lemma_assoc_pos};
use crate::ids::{BufferId, BufferLocation, GlobalDeviceId};
use crate::runtime::mapping::DeviceOrdinalMapping;
use crate::sorting::lemma_filter_members;
use crate::sums::sum_of;
use super::run::{
    arriving,
    background_jobs,
    carries_out,
    entry_bytes,
    first_unseen,
    first_unseen_by,
    job_on,
    largest_arriving,
    largest_leaving,
    leaving,
    leaving_of,
    on_device,
    run_fails,
    run_succeeds,
    takes_part,
    transfer_of,
    BackgroundJob,
    DeviceTransfer,
    Leaving,
    MissingDevice,
    RunPlan,
};
use super::task::{MigrationSpecEntry, SpecModel, TaskModel};

verus! {

// Transfers that belong to no device.

/// The place of a transfer in the order in which they start.
pub open spec fn starting_place(job: BackgroundJob) -> int {
    match job {
        BackgroundJob::HostMemToShm => 0,
        BackgroundJob::StorageToShm => 1,
        BackgroundJob::ShmToBackend => 2,
        BackgroundJob::HostMemToStorage => 3,
        BackgroundJob::StorageToHostMem => 4,
    }
}

/// For each list of a task the transfer of that list is started exactly where something is in the
/// list, and moving buffers on from shared memory is always started. Each is started once, and what
/// fills shared memory is started first.
pub proof fn law_every_list_is_moved(
    plan: RunPlan,
    mappings: Seq<(i32, DeviceOrdinalMapping)>,
    task: TaskModel,
)
    requires
        run_succeeds(plan, mappings, task),
    ensures
        plan.background@.contains(BackgroundJob::HostMemToShm) <==> task.hostmem_to_shm.len() > 0,
        plan.background@.contains(BackgroundJob::StorageToShm) <==> task.storage_to_shm.len() > 0,
        plan.background@.contains(BackgroundJob::HostMemToStorage)
            <==> task.hostmem_to_storage.len() > 0,
        plan.background@.contains(BackgroundJob::StorageToHostMem)
            <==> task.storage_to_hostmem.len() > 0,
        plan.background@.contains(BackgroundJob::ShmToBackend),
        plan.background@.no_duplicates(),
        forall|i: int, j: int|
            0 <= i < j < plan.background@.len() ==> starting_place(#[trigger] plan.background@[i])
                < starting_place(#[trigger] plan.background@[j]),
{
    let jobs = plan.background@;
    assert(jobs == background_jobs(task));
    let a: int = if task.hostmem_to_shm.len() > 0 {
        1
    } else {
        0
    };
    let b: int = if task.storage_to_shm.len() > 0 {
        1
    } else {
        0
    };
    let c: int = if task.hostmem_to_storage.len() > 0 {
        1
    } else {
        0
    };
    let d: int = if task.storage_to_hostmem.len() > 0 {
        1
    } else {
        0
    };
    assert(jobs.len() == a + b + 1 + c + d);
    assert(a == 1 ==> jobs[0] == BackgroundJob::HostMemToShm);
    assert(b == 1 ==> jobs[a] == BackgroundJob::StorageToShm);
    assert(jobs[a + b] == BackgroundJob::ShmToBackend);
    assert(c == 1 ==> jobs[a + b + 1] == BackgroundJob::HostMemToStorage);
    assert(d == 1 ==> jobs[a + b + 1 + c] == BackgroundJob::StorageToHostMem);
}

/// The buffers of the process that comes in, and of no other, must stay in shared memory.
pub proof fn law_incoming_process_stays(
    plan: RunPlan,
    mappings: Seq<(i32, DeviceOrdinalMapping)>,
    task: TaskModel,
    pid: i32,
)
    requires
        run_succeeds(plan, mappings, task),
    ensures
        plan.excluded@.contains(pid) <==> (task.into_gpu matches Some((into, _)) && into == pid),
{
    if task.into_gpu is Some {
        let into = (task.into_gpu->0).0;
        assert(plan.excluded@ == seq![into]);
        assert(seq![into][0] == into);
    }
}

// Transfers on devices.

proof fn lemma_leaving_has(out: Seq<SpecModel>, p: int, d: int)
    requires
        0 <= p < out.len(),
        0 <= d < out[p].1.len(),
    ensures
        leaving(out).contains((out[p].0, out[p].1[d].0, out[p].1[d].1)),
    decreases out.len(),
{
    let l = (out[p].0, out[p].1[d].0, out[p].1[d].1);
    let before = leaving(out.drop_last());
    if p == out.len() - 1 {
        assert(leaving_of(out.last())[d] == l);
        assert(leaving(out)[before.len() + d] == l);
    } else {
        lemma_leaving_has(out.drop_last(), p, d);
        let k = choose|k: int| 0 <= k < before.len() && before[k] == l;
        assert(leaving(out)[k] == l);
    }
}

/// A process of the list and a device of the process.
pub open spec fn is_listed(out: Seq<SpecModel>, l: Leaving, p: int, d: int) -> bool {
    0 <= p < out.len() && 0 <= d < out[p].1.len() && out[p].0 == l.0 && out[p].1[d] == (l.1, l.2)
}

proof fn lemma_leaving_only(out: Seq<SpecModel>, i: int)
    requires
        0 <= i < leaving(out).len(),
    ensures
        exists|p: int, d: int| is_listed(out, leaving(out)[i], p, d),
    decreases out.len(),
{
    let before = leaving(out.drop_last());
    if i < before.len() {
        lemma_leaving_only(out.drop_last(), i);
        let (p, d) = choose|p: int, d: int| is_listed(out.drop_last(), before[i], p, d);
        assert(leaving(out)[i] == before[i]);
        assert(is_listed(out, leaving(out)[i], p, d));
    } else {
        assert(leaving(out)[i] == leaving_of(out.last())[i - before.len()]);
        assert(is_listed(out, leaving(out)[i], out.len() - 1, i - before.len()));
    }
}

/// `pid` sees `device` as `local`.
pub open spec fn sees(
    mappings: Seq<(i32, DeviceOrdinalMapping)>,
    pid: i32,
    device: GlobalDeviceId,
    local: crate::ids::ProcessLocalDeviceId,
) -> bool {
    assoc_get(mappings, pid) matches Some(mapping) && assoc_get(mapping.real_to_visible@, device)
        == Some(local)
}

/// `pid` does not see `device`.
pub open spec fn is_blind(
    mappings: Seq<(i32, DeviceOrdinalMapping)>,
    pid: i32,
    device: GlobalDeviceId,
) -> bool {
    assoc_get(mappings, pid) matches Some(mapping) ==> assoc_get(
        mapping.real_to_visible@,
        device,
    ) is None
}

proof fn lemma_first_unseen_is(mappings: Seq<(i32, DeviceOrdinalMapping)>, list: Seq<Leaving>)
    ensures
        match first_unseen(mappings, list) {
            Some(missing) => is_blind(mappings, missing.pid, missing.device) && exists|i: int|
                0 <= i < list.len() && (#[trigger] list[i]).0 == missing.pid && list[i].1
                    == missing.device,
            None => forall|i: int|
                0 <= i < list.len() ==> !is_blind(mappings, (#[trigger] list[i]).0, list[i].1),
        },
    decreases list.len(),
{
    if list.len() > 0 {
        let before = list.drop_last();
        lemma_first_unseen_is(mappings, before);
        assert(forall|i: int| 0 <= i < before.len() ==> #[trigger] before[i] == list[i]);
        match first_unseen(mappings, before) {
            Some(missing) => {
                let i = choose|i: int|
                    0 <= i < before.len() && (#[trigger] before[i]).0 == missing.pid && before[i].1
                        == missing.device;
                assert(list[i] == before[i]);
            },
            None => {
                assert(list[list.len() - 1] == list.last());
                assert forall|i: int|
                    0 <= i < list.len() && first_unseen(mappings, list)
                        is None implies !is_blind(mappings, (#[trigger] list[i]).0, list[i].1) by {
                    if i < before.len() {
                        assert(before[i] == list[i]);
                    }
                }
            },
        }
    }
}

proof fn lemma_first_unseen_by_is(
    mappings: Seq<(i32, DeviceOrdinalMapping)>,
    pid: i32,
    devices: Seq<GlobalDeviceId>,
)
    ensures
        match first_unseen_by(mappings, pid, devices) {
            Some(missing) => missing.pid == pid && is_blind(mappings, pid, missing.device)
                && devices.contains(missing.device),
            None => forall|i: int|
                0 <= i < devices.len() ==> !is_blind(mappings, pid, #[trigger] devices[i]),
        },
    decreases devices.len(),
{
    if devices.len() > 0 {
        let before = devices.drop_last();
        lemma_first_unseen_by_is(mappings, pid, before);
        match first_unseen_by(mappings, pid, before) {
            Some(missing) => {
                let i = choose|i: int| 0 <= i < before.len() && before[i] == missing.device;
                assert(devices[i] == missing.device);
            },
            None => {
                assert(devices[devices.len() - 1] == devices.last());
                assert forall|i: int|
                    0 <= i < devices.len() && first_unseen_by(mappings, pid, devices)
                        is None implies !is_blind(mappings, pid, #[trigger] devices[i]) by {
                    if i < before.len() {
                        assert(before[i] == devices[i]);
                    }
                }
            },
        }
    }
}

/// Something of the task leaves `device` or enters it.
pub open spec fn touches(task: TaskModel, device: GlobalDeviceId) -> bool {
    ||| exists|p: int, d: int|
        0 <= p < task.out_from_gpu.len() && 0 <= d < task.out_from_gpu[p].1.len()
            && (#[trigger] task.out_from_gpu[p].1[d]).0 == device
    ||| task.into_gpu matches Some((_, spec)) && exists|d: int|
        0 <= d < spec.len() && (#[trigger] spec[d]).0 == device
}

proof fn lemma_touches(task: TaskModel, device: GlobalDeviceId)
    ensures
        takes_part(task, device) == touches(task, device),
{
    let out = task.out_from_gpu;
    if exists|i: int| 0 <= i < leaving(out).len() && (#[trigger] leaving(out)[i]).1 == device {
        let i = choose|i: int| 0 <= i < leaving(out).len() && (#[trigger] leaving(out)[i]).1
            == device;
        lemma_leaving_only(out, i);
        let (p, d) = choose|p: int, d: int| is_listed(out, leaving(out)[i], p, d);
        assert(out[p].1[d].0 == device);
    }
    if exists|p: int, d: int|
        0 <= p < out.len() && 0 <= d < out[p].1.len() && (#[trigger] out[p].1[d]).0 == device {
        let (p, d) = choose|p: int, d: int|
            0 <= p < out.len() && 0 <= d < out[p].1.len() && (#[trigger] out[p].1[d]).0 == device;
        lemma_leaving_has(out, p, d);
        let l = (out[p].0, out[p].1[d].0, out[p].1[d].1);
        let i = choose|i: int| 0 <= i < leaving(out).len() && leaving(out)[i] == l;
        assert(leaving(out)[i].1 == device);
    }
}

/// A task fails only where a process takes part on a device that it does not see: something of it
/// leaves the device, or it is the one that comes in while something moves on the device.
pub proof fn law_only_unseen_devices_fail(
    missing: MissingDevice,
    mappings: Seq<(i32, DeviceOrdinalMapping)>,
    task: TaskModel,
)
    requires
        run_fails(missing, mappings, task),
    ensures
        is_blind(mappings, missing.pid, missing.device),
        touches(task, missing.device),
        (task.into_gpu matches Some((pid, _)) && pid == missing.pid) || exists|p: int, d: int|
            0 <= p < task.out_from_gpu.len() && task.out_from_gpu[p].0 == missing.pid && 0 <= d
                < task.out_from_gpu[p].1.len() && (#[trigger] task.out_from_gpu[p].1[d]).0
                == missing.device,
{
    let out = task.out_from_gpu;
    let devices = choose|devices: Seq<GlobalDeviceId>| #[trigger]
        super::run::is_missing(missing, mappings, task, devices);
    lemma_first_unseen_is(mappings, leaving(out));
    lemma_touches(task, missing.device);
    match first_unseen(mappings, leaving(out)) {
        Some(m) => {
            let i = choose|i: int|
                0 <= i < leaving(out).len() && (#[trigger] leaving(out)[i]).0 == m.pid && leaving(
                    out,
                )[i].1 == m.device;
            lemma_leaving_only(out, i);
            let (p, d) = choose|p: int, d: int| is_listed(out, leaving(out)[i], p, d);
            assert(out[p].1[d].0 == missing.device);
        },
        None => {
            lemma_first_unseen_by_is(mappings, (task.into_gpu->0).0, devices);
            assert(devices.contains(missing.device));
        },
    }
}

/// A task that is carried out has a job for each device on which something moves, and for no other,
/// each once. Every process that takes part sees the device.
pub proof fn law_devices_of_a_run(
    plan: RunPlan,
    mappings: Seq<(i32, DeviceOrdinalMapping)>,
    task: TaskModel,
    device: GlobalDeviceId,
)
    requires
        run_succeeds(plan, mappings, task),
    ensures
        touches(task, device) <==> exists|k: int|
            0 <= k < plan.devices@.len() && (#[trigger] plan.devices@[k]).device == device,
        forall|i: int, j: int|
            0 <= i < j < plan.devices@.len() ==> (#[trigger] plan.devices@[i]).device.0 < (
            #[trigger] plan.devices@[j]).device.0,
        forall|p: int, d: int|
            0 <= p < task.out_from_gpu.len() && 0 <= d < task.out_from_gpu[p].1.len() ==> !is_blind(
                mappings,
                task.out_from_gpu[p].0,
                (#[trigger] task.out_from_gpu[p].1[d]).0,
            ),
        task.into_gpu matches Some((pid, _)) && touches(task, device) ==> !is_blind(
            mappings,
            (task.into_gpu->0).0,
            device,
        ),
{
    let out = task.out_from_gpu;
    let devices = choose|devices: Seq<GlobalDeviceId>| #[trigger]
        carries_out(plan, mappings, task, devices);
    lemma_touches(task, device);
    lemma_first_unseen_is(mappings, leaving(out));
    if task.into_gpu is Some {
        lemma_first_unseen_by_is(mappings, (task.into_gpu->0).0, devices);
    }
    assert(super::run::deep_jobs(plan.devices@).len() == plan.devices@.len());
    assert(devices.map_values(job_on(mappings, task)).len() == devices.len());
    assert forall|k: int| 0 <= k < devices.len() implies (#[trigger] plan.devices@[k]).device
        == devices[k] by {
        assert(super::run::deep_jobs(plan.devices@)[k] == plan.devices@[k]@);
        assert(devices.map_values(job_on(mappings, task))[k].device == devices[k]);
    }
    assert(devices.contains(device) == takes_part(task, device));
    if devices.contains(device) {
        let k = choose|k: int| 0 <= k < devices.len() && devices[k] == device;
        assert(plan.devices@[k].device == device);
    }
    assert forall|p: int, d: int|
        0 <= p < out.len() && 0 <= d < out[p].1.len() implies !is_blind(
        mappings,
        out[p].0,
        (#[trigger] out[p].1[d]).0,
    ) by {
        lemma_leaving_has(out, p, d);
        let l = (out[p].0, out[p].1[d].0, out[p].1[d].1);
        let i = choose|i: int| 0 <= i < leaving(out).len() && leaving(out)[i] == l;
        assert(!is_blind(mappings, leaving(out)[i].0, leaving(out)[i].1));
    }
}

/// What leaves a device is what the task sends out from it, under the number by which its process
/// knows the device: nothing is left out, and nothing is added. What enters it is what the task
/// brings in to it.
pub proof fn law_transfers_of_a_run(
    plan: RunPlan,
    mappings: Seq<(i32, DeviceOrdinalMapping)>,
    task: TaskModel,
    k: int,
)
    requires
        run_succeeds(plan, mappings, task),
        0 <= k < plan.devices@.len(),
    ensures
        ({
            let out = task.out_from_gpu;
            let device = plan.devices@[k].device;
            let job = plan.devices@[k]@;
            &&& forall|p: int, d: int|
                0 <= p < out.len() && 0 <= d < out[p].1.len() && (#[trigger] out[p].1[d]).0 == device
                    ==> exists|i: int|
                    0 <= i < job.out_from_gpu.len() && (#[trigger] job.out_from_gpu[i]).pid
                        == out[p].0 && job.out_from_gpu[i].entries == out[p].1[d].1
            &&& forall|i: int|
                0 <= i < job.out_from_gpu.len() ==> {
                    let t = #[trigger] job.out_from_gpu[i];
                    &&& sees(mappings, t.pid, device, t.local)
                    &&& exists|p: int, d: int| is_listed(out, (t.pid, device, t.entries), p, d)
                }
            &&& job.into_gpu is Some <==> task.into_gpu is Some
            &&& job.into_gpu matches Some(t) ==> {
                &&& t.pid == (task.into_gpu->0).0
                &&& sees(mappings, t.pid, device, t.local)
                &&& match assoc_get((task.into_gpu->0).1, device) {
                    Some(entries) => t.entries == entries,
                    None => t.entries.len() == 0,
                }
            }
        }),
{
    let out = task.out_from_gpu;
    let devices = choose|devices: Seq<GlobalDeviceId>| #[trigger]
        carries_out(plan, mappings, task, devices);
    let job = plan.devices@[k]@;
    assert(super::run::deep_jobs(plan.devices@).len() == plan.devices@.len());
    assert(devices.map_values(job_on(mappings, task)).len() == devices.len());
    assert(super::run::deep_jobs(plan.devices@)[k] == job);
    assert(devices.map_values(job_on(mappings, task))[k] == job_on(mappings, task)(devices[k]));
    let device = devices[k];
    let here = leaving(out).filter(on_device(device));
    lemma_filter_members(leaving(out), on_device(device));
    lemma_first_unseen_is(mappings, leaving(out));
    if task.into_gpu is Some {
        lemma_first_unseen_by_is(mappings, (task.into_gpu->0).0, devices);
        assert(!is_blind(mappings, (task.into_gpu->0).0, devices[k]));
    }
    assert forall|p: int, d: int|
        0 <= p < out.len() && 0 <= d < out[p].1.len() && (#[trigger] out[p].1[d]).0
            == device implies exists|i: int|
        0 <= i < job.out_from_gpu.len() && (#[trigger] job.out_from_gpu[i]).pid == out[p].0
            && job.out_from_gpu[i].entries == out[p].1[d].1 by {
        lemma_leaving_has(out, p, d);
        let l = (out[p].0, out[p].1[d].0, out[p].1[d].1);
        let i = choose|i: int| 0 <= i < leaving(out).len() && leaving(out)[i] == l;
        assert(on_device(device)(leaving(out)[i]));
        let j = choose|j: int| 0 <= j < here.len() && here[j] == l;
        assert(job.out_from_gpu[j] == transfer_of(mappings)(here[j]));
    }
    assert forall|i: int| 0 <= i < job.out_from_gpu.len() implies ({
        let t = #[trigger] job.out_from_gpu[i];
        &&& sees(mappings, t.pid, device, t.local)
        &&& exists|p: int, d: int| is_listed(out, (t.pid, device, t.entries), p, d)
    }) by {
        let t = job.out_from_gpu[i];
        assert(t == transfer_of(mappings)(here[i]));
        assert(leaving(out).contains(here[i]));
        let j = choose|j: int| 0 <= j < leaving(out).len() && leaving(out)[j] == here[i];
        lemma_leaving_only(out, j);
        assert(!is_blind(mappings, leaving(out)[j].0, leaving(out)[j].1));
        assert(here[i] == (t.pid, device, t.entries));
    }
}

// The largest transfer.

/// The bytes of some entries.
pub open spec fn bytes_of_entries(entries: Seq<MigrationSpecEntry>) -> int {
    sum_of(entries, |e: MigrationSpecEntry| e.size as int)
}

/// The bytes of some buffers.
pub open spec fn bytes_of_buffers(ids: Seq<BufferId>) -> int {
    sum_of(ids, |id: BufferId| id.size as int)
}

/// The bytes of buffers that are moved on.
pub open spec fn bytes_moved_on(items: Seq<(BufferId, BufferLocation)>) -> int {
    sum_of(items, |p: (BufferId, BufferLocation)| p.0.size as int)
}

proof fn lemma_entry_bytes(entries: Seq<MigrationSpecEntry>)
    ensures
        bytes_of_entries(entries) == sum_of(entries, entry_bytes()),
        bytes_of_entries(entries) >= 0,
    decreases entries.len(),
{
    let f = |e: MigrationSpecEntry| e.size as int;
    assert(f =~= entry_bytes());
    if entries.len() > 0 {
        lemma_entry_bytes(entries.drop_last());
    }
}

proof fn lemma_largest_leaving(list: Seq<Leaving>, floor: int)
    ensures
        largest_leaving(list, floor) >= floor,
        forall|i: int|
            0 <= i < list.len() ==> largest_leaving(list, floor) >= bytes_of_entries(
                (#[trigger] list[i]).2,
            ),
        largest_leaving(list, floor) == floor || exists|i: int|
            0 <= i < list.len() && largest_leaving(list, floor) == bytes_of_entries(
                (#[trigger] list[i]).2,
            ),
    decreases list.len(),
{
    if list.len() > 0 {
        let before = list.drop_last();
        lemma_largest_leaving(before, floor);
        lemma_entry_bytes(list.last().2);
        assert(list[list.len() - 1] == list.last());
        assert forall|i: int| 0 <= i < list.len() implies largest_leaving(list, floor)
            >= bytes_of_entries((#[trigger] list[i]).2) by {
            if i < before.len() {
                assert(before[i] == list[i]);
            }
        }
        if largest_leaving(list, floor) == largest_leaving(before, floor) && largest_leaving(
            before,
            floor,
        ) != floor {
            let i = choose|i: int|
                0 <= i < before.len() && largest_leaving(before, floor) == bytes_of_entries(
                    (#[trigger] before[i]).2,
                );
            assert(list[i] == before[i]);
        }
    }
}

proof fn lemma_largest_arriving(
    spec: Seq<(GlobalDeviceId, Seq<MigrationSpecEntry>)>,
    devices: Seq<GlobalDeviceId>,
    floor: int,
)
    ensures
        largest_arriving(spec, devices, floor) >= floor,
        forall|i: int|
            0 <= i < devices.len() ==> largest_arriving(spec, devices, floor) >= bytes_of_entries(
                arriving(spec, #[trigger] devices[i]),
            ),
        largest_arriving(spec, devices, floor) == floor || exists|i: int|
            0 <= i < devices.len() && largest_arriving(spec, devices, floor) == bytes_of_entries(
                arriving(spec, #[trigger] devices[i]),
            ),
    decreases devices.len(),
{
    if devices.len() > 0 {
        let before = devices.drop_last();
        lemma_largest_arriving(spec, before, floor);
        lemma_entry_bytes(arriving(spec, devices.last()));
        assert(devices[devices.len() - 1] == devices.last());
        assert forall|i: int| 0 <= i < devices.len() implies largest_arriving(spec, devices, floor)
            >= bytes_of_entries(arriving(spec, #[trigger] devices[i])) by {
            if i < before.len() {
                assert(before[i] == devices[i]);
            }
        }
        if largest_arriving(spec, devices, floor) == largest_arriving(spec, before, floor)
            && largest_arriving(spec, before, floor) != floor {
            let i = choose|i: int|
                0 <= i < before.len() && largest_arriving(spec, before, floor) == bytes_of_entries(
                    arriving(spec, #[trigger] before[i]),
                );
            assert(devices[i] == before[i]);
        }
    }
}

/// No transfer of a task has more bytes than the largest one, and one of them has as many.
pub proof fn law_largest_transfer(
    plan: RunPlan,
    mappings: Seq<(i32, DeviceOrdinalMapping)>,
    task: TaskModel,
)
    requires
        run_succeeds(plan, mappings, task),
    ensures
        ({
            let most = plan.largest_transfer_size as int;
            let out = task.out_from_gpu;
            &&& most >= bytes_of_buffers(task.hostmem_to_shm)
            &&& most >= bytes_of_buffers(task.storage_to_shm)
            &&& most >= bytes_of_buffers(task.hostmem_to_storage)
            &&& most >= bytes_of_buffers(task.storage_to_hostmem)
            &&& most >= bytes_moved_on(task.shm_to_backend)
            &&& forall|p: int, d: int|
                0 <= p < out.len() && 0 <= d < out[p].1.len() ==> most >= bytes_of_entries(
                    (#[trigger] out[p].1[d]).1,
                )
            &&& task.into_gpu matches Some((_, spec)) ==> forall|d: int|
                0 <= d < spec.len() && assoc_get(spec, spec[d].0) == Some(spec[d].1) ==> most
                    >= bytes_of_entries((#[trigger] spec[d]).1)
            &&& {
                ||| most == bytes_of_buffers(task.hostmem_to_shm)
                ||| most == bytes_of_buffers(task.storage_to_shm)
                ||| most == bytes_of_buffers(task.hostmem_to_storage)
                ||| most == bytes_of_buffers(task.storage_to_hostmem)
                ||| most == bytes_moved_on(task.shm_to_backend)
                ||| exists|p: int, d: int|
                    0 <= p < out.len() && 0 <= d < out[p].1.len() && most == bytes_of_entries(
                        (#[trigger] out[p].1[d]).1,
                    )
                ||| task.into_gpu matches Some((_, spec)) && exists|d: int|
                    0 <= d < spec.len() && most == bytes_of_entries((#[trigger] spec[d]).1)
            }
        }),
{
    let out = task.out_from_gpu;
    let devices = choose|devices: Seq<GlobalDeviceId>| #[trigger]
        carries_out(plan, mappings, task, devices);
    let most = plan.largest_transfer_size as int;
    assert((|id: BufferId| id.size as int) =~= super::run::buffer_bytes());
    assert((|p: (BufferId, BufferLocation)| p.0.size as int) =~= super::run::sent_bytes());
    let a = bytes_of_buffers(task.hostmem_to_shm);
    let b = bytes_of_buffers(task.storage_to_shm);
    let c = bytes_moved_on(task.shm_to_backend);
    let d = bytes_of_buffers(task.storage_to_hostmem);
    let e = bytes_of_buffers(task.hostmem_to_storage);
    let stores = super::run::larger(
        a,
        super::run::larger(b, super::run::larger(c, super::run::larger(d, e))),
    );
    lemma_largest_leaving(leaving(out), stores);
    let after_out = largest_leaving(leaving(out), stores);
    assert forall|p: int, d: int| 0 <= p < out.len() && 0 <= d < out[p].1.len() implies after_out
        >= bytes_of_entries((#[trigger] out[p].1[d]).1) by {
        lemma_leaving_has(out, p, d);
        let l = (out[p].0, out[p].1[d].0, out[p].1[d].1);
        let i = choose|i: int| 0 <= i < leaving(out).len() && leaving(out)[i] == l;
        assert(after_out >= bytes_of_entries(leaving(out)[i].2));
    }
    if after_out != stores {
        let i = choose|i: int|
            0 <= i < leaving(out).len() && after_out == bytes_of_entries(
                (#[trigger] leaving(out)[i]).2,
            );
        lemma_leaving_only(out, i);
        let (p, d) = choose|p: int, d: int| is_listed(out, leaving(out)[i], p, d);
        assert(after_out == bytes_of_entries(out[p].1[d].1));
    }
    if task.into_gpu is Some {
        let spec = (task.into_gpu->0).1;
        lemma_largest_arriving(spec, devices, after_out);
        assert forall|d: int|
            0 <= d < spec.len() && assoc_get(spec, spec[d].0) == Some(spec[d].1) implies most
            >= bytes_of_entries((#[trigger] spec[d]).1) by {
            assert(takes_part(task, spec[d].0));
            assert(devices.contains(spec[d].0));
            let i = choose|i: int| 0 <= i < devices.len() && devices[i] == spec[d].0;
            assert(most >= bytes_of_entries(arriving(spec, devices[i])));
        }
        if most != after_out {
            let i = choose|i: int|
                0 <= i < devices.len() && most == bytes_of_entries(
                    arriving(spec, #[trigger] devices[i]),
                );
            lemma_assoc_pos(spec, devices[i]);
            if assoc_get(spec, devices[i]) is Some {
                let at = crate::assoc::assoc_pos(spec, devices[i]);
                assert(most == bytes_of_entries(spec[at].1));
            } else {
                assert(most == 0);
                lemma_buffer_bytes(task.hostmem_to_shm);
            }
        }
    }
}

proof fn lemma_buffer_bytes(ids: Seq<BufferId>)
    ensures
        bytes_of_buffers(ids) >= 0,
    decreases ids.len(),
{
    if ids.len() > 0 {
        lemma_buffer_bytes(ids.drop_last());
    }
}

/// The entries of the first `n` transfers.
pub open spec fn entries_before(list: Seq<DeviceTransfer>, n: int) -> int
    decreases n,
{
    if n <= 0 {
        0
    } else {
        entries_before(list, n - 1) + list[n - 1].entries@.len()
    }
}

pub proof fn lemma_entries_before(a: Seq<DeviceTransfer>, b: Seq<DeviceTransfer>, n: int)
    requires
        a.len() <= b.len(),
        forall|i: int| 0 <= i < a.len() ==> #[trigger] a[i] == b[i],
        n <= a.len(),
    ensures
        entries_before(a, n) == entries_before(b, n),
        entries_before(a, n) >= 0,
    decreases n,
{
    if n > 0 {
        lemma_entries_before(a, b, n - 1);
        assert(a[n - 1] == b[n - 1]);
    }
}

/// The plan of a run is read in full: job by job and transfer by transfer.
pub proof fn law_plan_is_read_in_full(plan: RunPlan, k: int, t: int)
    requires
        0 <= k < plan.devices@.len(),
    ensures
        ({
            let job = plan.devices@[k];
            &&& job@.device == job.device
            &&& job@.out_from_gpu.len() == job.out_from_gpu@.len()
            &&& 0 <= t < job.out_from_gpu@.len() ==> {
                &&& job@.out_from_gpu[t].pid == job.out_from_gpu@[t].pid
                &&& job@.out_from_gpu[t].local == job.out_from_gpu@[t].local
                &&& job@.out_from_gpu[t].entries == job.out_from_gpu@[t].entries@
            }
            &&& job@.into_gpu is Some <==> job.into_gpu is Some
            &&& job.into_gpu matches Some(into) ==> (job@.into_gpu matches Some(read) && read.pid
                == into.pid && read.local == into.local && read.entries == into.entries@)
        }),
{
}

} // verus!
