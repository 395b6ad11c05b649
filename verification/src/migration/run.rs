//! How a task is carried out: which transfers run, and what each of them moves.
use vstd::prelude::*;
use crate::assoc::{assoc_get, find_device, lemma_assoc_pos_same_keys};
use crate::ids::{BufferId, BufferLocation, GlobalDeviceId, ProcessLocalDeviceId};
use crate::runtime::mapping::DeviceOrdinalMapping;
use crate::sums::{lemma_sum_push, sum_of};
use super::task::{DataMigrationTask, MigrationSpec, MigrationSpecEntry, SpecModel, TaskModel};

verus! {

/// A process takes part in a transfer on a device that it does not see.
#[derive(Debug, Clone, Copy, PartialEq, Eq, Structural)]
pub struct MissingDevice {
    pub pid: i32,
    pub device: GlobalDeviceId,
}

/// A transfer that does not belong to a device.
#[derive(Debug, Clone, Copy, PartialEq, Eq, Structural)]
pub enum BackgroundJob {
    HostMemToShm,
    StorageToShm,
    ShmToBackend,
    HostMemToStorage,
    StorageToHostMem,
}

/// What one process moves on one device.
#[derive(Debug)]
pub struct DeviceTransfer {
    pub pid: i32,
    /// The device as the process numbers it.
    pub local: ProcessLocalDeviceId,
    pub entries: Vec<MigrationSpecEntry>,
}

/// What is moved on one device.
#[derive(Debug)]
pub struct DeviceJob {
    pub device: GlobalDeviceId,
    pub out_from_gpu: Vec<DeviceTransfer>,
    pub into_gpu: Option<DeviceTransfer>,
}

/// How a task is carried out.
#[derive(Debug)]
pub struct RunPlan {
    /// What is moved on each device, the devices in order.
    pub devices: Vec<DeviceJob>,
    /// The other transfers, in the order in which they start.
    pub background: Vec<BackgroundJob>,
    /// The processes whose buffers must stay in shared memory.
    pub excluded: Vec<i32>,
    /// The bytes of the largest single transfer.
    pub largest_transfer_size: u128,
}

#[verifier::ext_equal]
pub struct TransferModel {
    pub pid: i32,
    pub local: ProcessLocalDeviceId,
    pub entries: Seq<MigrationSpecEntry>,
}

#[verifier::ext_equal]
pub struct JobModel {
    pub device: GlobalDeviceId,
    pub out_from_gpu: Seq<TransferModel>,
    pub into_gpu: Option<TransferModel>,
}

impl View for DeviceTransfer {
    type V = TransferModel;

    open spec fn view(&self) -> TransferModel {
        TransferModel { pid: self.pid, local: self.local, entries: self.entries@ }
    }
}

/// Reads transfers as sequences.
pub open spec fn deep_transfers(s: Seq<DeviceTransfer>) -> Seq<TransferModel> {
    s.map_values(|t: DeviceTransfer| t@)
}

impl View for DeviceJob {
    type V = JobModel;

    open spec fn view(&self) -> JobModel {
        JobModel {
            device: self.device,
            out_from_gpu: deep_transfers(self.out_from_gpu@),
            into_gpu: match self.into_gpu {
                Some(t) => Some(t@),
                None => None,
            },
        }
    }
}

/// Reads jobs as sequences.
pub open spec fn deep_jobs(s: Seq<DeviceJob>) -> Seq<JobModel> {
    s.map_values(|j: DeviceJob| j@)
}

/// The entries of one process on one device.
pub type Leaving = (i32, GlobalDeviceId, Seq<MigrationSpecEntry>);

/// The entries of one process, device by device.
pub open spec fn leaving_of(p: SpecModel) -> Seq<Leaving> {
    p.1.map_values(|d: (GlobalDeviceId, Seq<MigrationSpecEntry>)| (p.0, d.0, d.1))
}

/// All entries that leave the GPU, process by process and device by device.
pub open spec fn leaving(out: Seq<SpecModel>) -> Seq<Leaving>
    decreases out.len(),
{
    if out.len() == 0 {
        Seq::empty()
    } else {
        leaving(out.drop_last()) + leaving_of(out.last())
    }
}

/// The number under which `pid` sees `device`.
pub open spec fn seen_as(
    mappings: Seq<(i32, DeviceOrdinalMapping)>,
    pid: i32,
    device: GlobalDeviceId,
) -> Option<ProcessLocalDeviceId> {
    match assoc_get(mappings, pid) {
        Some(mapping) => assoc_get(mapping.real_to_visible@, device),
        None => None,
    }
}

/// The first of `list` that its process does not see.
pub open spec fn first_unseen(mappings: Seq<(i32, DeviceOrdinalMapping)>, list: Seq<Leaving>) -> Option<
    MissingDevice,
>
    decreases list.len(),
{
    if list.len() == 0 {
        None
    } else {
        match first_unseen(mappings, list.drop_last()) {
            Some(missing) => Some(missing),
            None => match seen_as(mappings, list.last().0, list.last().1) {
                Some(_) => None,
                None => Some(MissingDevice { pid: list.last().0, device: list.last().1 }),
            },
        }
    }
}

pub open spec fn on_device(device: GlobalDeviceId) -> spec_fn(Leaving) -> bool {
    |l: Leaving| l.1 == device
}

pub open spec fn transfer_of(mappings: Seq<(i32, DeviceOrdinalMapping)>) -> spec_fn(
    Leaving,
) -> TransferModel {
    |l: Leaving|
        TransferModel { pid: l.0, local: seen_as(mappings, l.0, l.1)->0, entries: l.2 }
}

/// The entries that come in on `device`.
pub open spec fn arriving(spec: Seq<(GlobalDeviceId, Seq<MigrationSpecEntry>)>, device: GlobalDeviceId) -> Seq<
    MigrationSpecEntry,
> {
    match assoc_get(spec, device) {
        Some(entries) => entries,
        None => Seq::empty(),
    }
}

/// What is moved on `device`.
pub open spec fn job_on(
    mappings: Seq<(i32, DeviceOrdinalMapping)>,
    task: TaskModel,
) -> spec_fn(GlobalDeviceId) -> JobModel {
    |device: GlobalDeviceId|
        JobModel {
            device,
            out_from_gpu: leaving(task.out_from_gpu).filter(on_device(device)).map_values(
                transfer_of(mappings),
            ),
            into_gpu: match task.into_gpu {
                Some((pid, spec)) => Some(
                    TransferModel {
                        pid,
                        local: seen_as(mappings, pid, device)->0,
                        entries: arriving(spec, device),
                    },
                ),
                None => None,
            },
        }
}

/// Whether something leaves or enters `device`.
pub open spec fn takes_part(task: TaskModel, device: GlobalDeviceId) -> bool {
    ||| exists|i: int|
        0 <= i < leaving(task.out_from_gpu).len() && (#[trigger] leaving(
            task.out_from_gpu,
        )[i]).1 == device
    ||| task.into_gpu matches Some((pid, spec)) && exists|i: int|
        0 <= i < spec.len() && (#[trigger] spec[i]).0 == device
}

/// `devices` are those that take part, in order, each once.
pub open spec fn lists_devices(task: TaskModel, devices: Seq<GlobalDeviceId>) -> bool {
    &&& forall|i: int, j: int|
        0 <= i < j < devices.len() ==> (#[trigger] devices[i]).0 < (#[trigger] devices[j]).0
    &&& forall|device: GlobalDeviceId| #[trigger]
        devices.contains(device) == takes_part(task, device)
}

/// The first of `devices` that `pid` does not see.
pub open spec fn first_unseen_by(
    mappings: Seq<(i32, DeviceOrdinalMapping)>,
    pid: i32,
    devices: Seq<GlobalDeviceId>,
) -> Option<MissingDevice>
    decreases devices.len(),
{
    if devices.len() == 0 {
        None
    } else {
        match first_unseen_by(mappings, pid, devices.drop_last()) {
            Some(missing) => Some(missing),
            None => match seen_as(mappings, pid, devices.last()) {
                Some(_) => None,
                None => Some(MissingDevice { pid, device: devices.last() }),
            },
        }
    }
}

pub open spec fn buffer_bytes() -> spec_fn(BufferId) -> int {
    |id: BufferId| id.size as int
}

pub open spec fn sent_bytes() -> spec_fn((BufferId, BufferLocation)) -> int {
    |p: (BufferId, BufferLocation)| p.0.size as int
}

pub open spec fn entry_bytes() -> spec_fn(MigrationSpecEntry) -> int {
    |e: MigrationSpecEntry| e.size as int
}

pub open spec fn larger(a: int, b: int) -> int {
    if a >= b {
        a
    } else {
        b
    }
}

/// The most bytes that leave a device of one process.
pub open spec fn largest_leaving(list: Seq<Leaving>, floor: int) -> int
    decreases list.len(),
{
    if list.len() == 0 {
        floor
    } else {
        larger(largest_leaving(list.drop_last(), floor), sum_of(list.last().2, entry_bytes()))
    }
}

/// The most bytes that enter one of `devices`.
pub open spec fn largest_arriving(
    spec: Seq<(GlobalDeviceId, Seq<MigrationSpecEntry>)>,
    devices: Seq<GlobalDeviceId>,
    floor: int,
) -> int
    decreases devices.len(),
{
    if devices.len() == 0 {
        floor
    } else {
        larger(
            largest_arriving(spec, devices.drop_last(), floor),
            sum_of(arriving(spec, devices.last()), entry_bytes()),
        )
    }
}

/// The bytes of the largest single transfer.
pub open spec fn largest_transfer(task: TaskModel, devices: Seq<GlobalDeviceId>) -> int {
    let stores = larger(
        sum_of(task.hostmem_to_shm, buffer_bytes()),
        larger(
            sum_of(task.storage_to_shm, buffer_bytes()),
            larger(
                sum_of(task.shm_to_backend, sent_bytes()),
                larger(
                    sum_of(task.storage_to_hostmem, buffer_bytes()),
                    sum_of(task.hostmem_to_storage, buffer_bytes()),
                ),
            ),
        ),
    );
    let out = largest_leaving(leaving(task.out_from_gpu), stores);
    match task.into_gpu {
        Some((pid, spec)) => largest_arriving(spec, devices, out),
        None => out,
    }
}

pub open spec fn job_if(cond: bool, job: BackgroundJob) -> Seq<BackgroundJob> {
    if cond {
        seq![job]
    } else {
        Seq::empty()
    }
}

/// The transfers that do not belong to a device. Moving buffers on from shared memory is always
/// among them, since room may run out in spite of the plan.
pub open spec fn background_jobs(task: TaskModel) -> Seq<BackgroundJob> {
    job_if(task.hostmem_to_shm.len() > 0, BackgroundJob::HostMemToShm) + job_if(
        task.storage_to_shm.len() > 0,
        BackgroundJob::StorageToShm,
    ) + job_if(true, BackgroundJob::ShmToBackend) + job_if(
        task.hostmem_to_storage.len() > 0,
        BackgroundJob::HostMemToStorage,
    ) + job_if(task.storage_to_hostmem.len() > 0, BackgroundJob::StorageToHostMem)
}

/// `plan` carries `task` out.
pub open spec fn carries_out(
    plan: RunPlan,
    mappings: Seq<(i32, DeviceOrdinalMapping)>,
    task: TaskModel,
    devices: Seq<GlobalDeviceId>,
) -> bool {
    &&& lists_devices(task, devices)
    &&& task.into_gpu matches Some((pid, _)) ==> first_unseen_by(mappings, pid, devices) is None
    &&& deep_jobs(plan.devices@) == devices.map_values(job_on(mappings, task))
    &&& plan.background@ == background_jobs(task)
    &&& plan.excluded@ == match task.into_gpu {
        Some((pid, _)) => seq![pid],
        None => Seq::empty(),
    }
    &&& plan.largest_transfer_size == largest_transfer(task, devices)
}

/// Some process does not see a device that `missing` names, and that is noticed first.
pub open spec fn is_missing(
    missing: MissingDevice,
    mappings: Seq<(i32, DeviceOrdinalMapping)>,
    task: TaskModel,
    devices: Seq<GlobalDeviceId>,
) -> bool {
    match first_unseen(mappings, leaving(task.out_from_gpu)) {
        Some(m) => missing == m,
        None => {
            &&& lists_devices(task, devices)
            &&& task.into_gpu matches Some((pid, _)) && first_unseen_by(mappings, pid, devices)
                == Some(missing)
        },
    }
}

/// Every process sees the devices that it takes part on, and `plan` carries `task` out.
pub open spec fn run_succeeds(
    plan: RunPlan,
    mappings: Seq<(i32, DeviceOrdinalMapping)>,
    task: TaskModel,
) -> bool {
    &&& first_unseen(mappings, leaving(task.out_from_gpu)) is None
    &&& exists|devices: Seq<GlobalDeviceId>| #[trigger]
        carries_out(plan, mappings, task, devices)
}

/// Some process does not see a device that it takes part on.
pub open spec fn run_fails(
    missing: MissingDevice,
    mappings: Seq<(i32, DeviceOrdinalMapping)>,
    task: TaskModel,
) -> bool {
    exists|devices: Seq<GlobalDeviceId>| #[trigger] is_missing(missing, mappings, task, devices)
}

fn look_up(mappings: &Vec<(i32, DeviceOrdinalMapping)>, pid: i32, device: GlobalDeviceId) -> (local:
    Option<ProcessLocalDeviceId>)
    ensures
        local == seen_as(mappings@, pid, device),
{
    let mut i: usize = 0;
    while i < mappings.len()
        invariant
            i <= mappings@.len(),
            forall|j: int| 0 <= j < i ==> (#[trigger] mappings@[j]).0 != pid,
        decreases mappings@.len() - i,
    {
        if mappings[i].0 == pid {
            proof {
                crate::assoc::lemma_assoc_pos_is(mappings@, pid, i as int);
            }
            return mappings[i].1.real_to_visible(device);
        }
        i = i + 1;
    }
    proof {
        crate::assoc::lemma_assoc_pos_is(mappings@, pid, i as int);
    }
    None
}

fn copy_entries(entries: &Vec<MigrationSpecEntry>) -> (copy: Vec<MigrationSpecEntry>)
    ensures
        copy@ == entries@,
{
    let mut copy: Vec<MigrationSpecEntry> = Vec::new();
    let mut i: usize = 0;
    while i < entries.len()
        invariant
            i <= entries@.len(),
            copy@ == entries@.take(i as int),
        decreases entries@.len() - i,
    {
        copy.push(entries[i]);
        i = i + 1;
    }
    assert(entries@.take(i as int) =~= entries@);
    copy
}

fn sum_entries(entries: &Vec<MigrationSpecEntry>) -> (bytes: u128)
    ensures
        bytes == sum_of(entries@, entry_bytes()),
{
    let mut bytes: u128 = 0;
    let mut i: usize = 0;
    while i < entries.len()
        invariant
            i <= entries@.len(),
            bytes == sum_of(entries@.take(i as int), entry_bytes()),
            bytes <= i * u32::MAX,
        decreases entries@.len() - i,
    {
        proof {
            assert(entries@.take(i + 1) =~= entries@.take(i as int).push(entries@[i as int]));
            lemma_sum_push(entries@.take(i as int), entries@[i as int], entry_bytes());
        }
        bytes = bytes + entries[i].size as u128;
        i = i + 1;
    }
    assert(entries@.take(i as int) =~= entries@);
    bytes
}

fn sum_buffers(ids: &Vec<BufferId>) -> (bytes: u128)
    ensures
        bytes == sum_of(ids@, buffer_bytes()),
{
    let mut bytes: u128 = 0;
    let mut i: usize = 0;
    while i < ids.len()
        invariant
            i <= ids@.len(),
            bytes == sum_of(ids@.take(i as int), buffer_bytes()),
            bytes <= i * u32::MAX,
        decreases ids@.len() - i,
    {
        proof {
            assert(ids@.take(i + 1) =~= ids@.take(i as int).push(ids@[i as int]));
            lemma_sum_push(ids@.take(i as int), ids@[i as int], buffer_bytes());
        }
        bytes = bytes + ids[i].size as u128;
        i = i + 1;
    }
    assert(ids@.take(i as int) =~= ids@);
    bytes
}

fn sum_sent(items: &Vec<(BufferId, BufferLocation)>) -> (bytes: u128)
    ensures
        bytes == sum_of(items@, sent_bytes()),
{
    let mut bytes: u128 = 0;
    let mut i: usize = 0;
    while i < items.len()
        invariant
            i <= items@.len(),
            bytes == sum_of(items@.take(i as int), sent_bytes()),
            bytes <= i * u32::MAX,
        decreases items@.len() - i,
    {
        proof {
            assert(items@.take(i + 1) =~= items@.take(i as int).push(items@[i as int]));
            lemma_sum_push(items@.take(i as int), items@[i as int], sent_bytes());
        }
        bytes = bytes + items[i].0.size as u128;
        i = i + 1;
    }
    assert(items@.take(i as int) =~= items@);
    bytes
}

fn max(a: u128, b: u128) -> (m: u128)
    ensures
        m == larger(a as int, b as int),
{
    if a >= b {
        a
    } else {
        b
    }
}

/// Adds `device` to a list of devices in order, where it is not there yet.
fn add_device(devices: &mut Vec<GlobalDeviceId>, device: GlobalDeviceId)
    requires
        forall|i: int, j: int|
            0 <= i < j < old(devices)@.len() ==> (#[trigger] old(devices)@[i]).0 < (#[trigger] old(
                devices,
            )@[j]).0,
    ensures
        forall|i: int, j: int|
            0 <= i < j < final(devices)@.len() ==> (#[trigger] final(devices)@[i]).0 < (
            #[trigger] final(devices)@[j]).0,
        forall|d: GlobalDeviceId| #[trigger]
            final(devices)@.contains(d) == (old(devices)@.contains(d) || d == device),
{
    let ghost before = devices@;
    let mut at: usize = 0;
    while at < devices.len() && devices[at].0 < device.0
        invariant
            at <= devices@.len(),
            devices@ == before,
            forall|i: int| 0 <= i < at ==> (#[trigger] devices@[i]).0 < device.0,
        decreases devices@.len() - at,
    {
        at = at + 1;
    }
    if at < devices.len() && devices[at].0 == device.0 {
        assert(before[at as int] == device);
        return;
    }
    devices.insert(at, device);
    proof {
        assert forall|d: GlobalDeviceId| #[trigger] devices@.contains(d) == (before.contains(d)
            || d == device) by {
            if before.contains(d) {
                let k = choose|k: int| 0 <= k < before.len() && before[k] == d;
                if k < at {
                    assert(devices@[k] == d);
                } else {
                    assert(devices@[k + 1] == d);
                }
            }
            if d == device {
                assert(devices@[at as int] == d);
            }
            if devices@.contains(d) && d != device {
                let k = choose|k: int| 0 <= k < devices@.len() && devices@[k] == d;
                if k < at {
                    assert(before[k] == d);
                } else {
                    assert(before[k - 1] == d);
                }
            }
        }
        assert forall|i: int, j: int| 0 <= i < j < devices@.len() implies (
        #[trigger] devices@[i]).0 < (#[trigger] devices@[j]).0 by {
            if j < at {
                assert(before[i].0 < before[j].0);
            } else if j == at {
                assert(before[i].0 < device.0);
            } else if i == at {
                assert(before[j - 1] == devices@[j]);
                if at < j - 1 {
                    assert(before[at as int].0 < before[j - 1].0);
                }
            } else if i > at {
                assert(before[i - 1].0 < before[j - 1].0);
            } else {
                assert(before[i].0 < before[j - 1].0);
            }
        }
    }
}

/// What leaves the GPU, flat.
struct Flat {
    pid: i32,
    device: GlobalDeviceId,
    local: ProcessLocalDeviceId,
    entries: Vec<MigrationSpecEntry>,
}

spec fn flat_model(s: Seq<Flat>) -> Seq<Leaving> {
    s.map_values(|f: Flat| (f.pid, f.device, f.entries@))
}

proof fn lemma_first_unseen_fault(
    mappings: Seq<(i32, DeviceOrdinalMapping)>,
    list: Seq<Leaving>,
    n: int,
)
    requires
        0 <= n <= list.len(),
        first_unseen(mappings, list.take(n)) is Some,
    ensures
        first_unseen(mappings, list) == first_unseen(mappings, list.take(n)),
    decreases list.len(),
{
    if n == list.len() {
        assert(list.take(n) =~= list);
    } else {
        assert(list.drop_last().take(n) =~= list.take(n));
        lemma_first_unseen_fault(mappings, list.drop_last(), n);
    }
}

/// The beginning of what leaves the GPU is what its first processes send out.
proof fn lemma_leaving_prefix(out: Seq<SpecModel>, n: int)
    requires
        0 <= n <= out.len(),
    ensures
        leaving(out.take(n)).len() <= leaving(out).len(),
        leaving(out).take(leaving(out.take(n)).len() as int) == leaving(out.take(n)),
    decreases out.len(),
{
    if n == out.len() {
        assert(out.take(n) =~= out);
        assert(leaving(out).take(leaving(out).len() as int) =~= leaving(out));
    } else {
        lemma_leaving_prefix(out.drop_last(), n);
        assert(out.drop_last().take(n) =~= out.take(n));
        let short = leaving(out.take(n));
        let mid = leaving(out.drop_last());
        assert(leaving(out).take(short.len() as int) =~= mid.take(short.len() as int));
    }
}

fn flatten(out: &Vec<(i32, MigrationSpec)>, mappings: &Vec<(i32, DeviceOrdinalMapping)>) -> (flat: Result<
    Vec<Flat>,
    MissingDevice,
>)
    ensures
        match first_unseen(mappings@, leaving(super::task::deep_specs(out@))) {
            Some(missing) => flat matches Err(m) && m == missing,
            None => flat matches Ok(f) && flat_model(f@) == leaving(super::task::deep_specs(out@))
                && forall|i: int|
                0 <= i < f@.len() ==> seen_as(
                    mappings@,
                    (#[trigger] f@[i]).pid,
                    f@[i].device,
                ) == Some(f@[i].local),
        },
{
    let ghost deep = super::task::deep_specs(out@);
    let ghost all = leaving(deep);
    let mut flat: Vec<Flat> = Vec::new();
    let mut i: usize = 0;
    proof {
        assert(deep.take(0) =~= Seq::empty());
        assert(flat_model(flat@) =~= Seq::empty());
    }
    while i < out.len()
        invariant
            i <= out@.len(),
            deep == super::task::deep_specs(out@),
            all == leaving(deep),
            flat_model(flat@) == leaving(deep.take(i as int)),
            first_unseen(mappings@, leaving(deep.take(i as int))) is None,
            forall|k: int|
                0 <= k < flat@.len() ==> seen_as(
                    mappings@,
                    (#[trigger] flat@[k]).pid,
                    flat@[k].device,
                ) == Some(flat@[k].local),
        decreases out@.len() - i,
    {
        let pid: i32 = out[i].0;
        let map = &out[i].1.device_map;
        let ghost start = leaving(deep.take(i as int));
        let ghost part = leaving_of(deep[i as int]);
        let ghost next = leaving(deep.take(i + 1));
        proof {
            assert(deep.take(i + 1).drop_last() =~= deep.take(i as int));
            assert(next == start + part);
            assert(deep[i as int] == (pid, out@[i as int].1@));
            lemma_leaving_prefix(deep, i + 1);
            assert(start + part.take(0) =~= start);
        }
        let mut j: usize = 0;
        while j < map.len()
            invariant
                i < out@.len(),
                j <= map@.len(),
                deep == super::task::deep_specs(out@),
                all == leaving(deep),
                next == start + part,
                next == leaving(deep.take(i + 1)),
                next.len() <= all.len(),
                all.take(next.len() as int) == next,
                part == leaving_of((pid, crate::control::deep_lists(map@))),
                flat_model(flat@) == start + part.take(j as int),
                first_unseen(mappings@, start + part.take(j as int)) is None,
                forall|k: int|
                    0 <= k < flat@.len() ==> seen_as(
                        mappings@,
                        (#[trigger] flat@[k]).pid,
                        flat@[k].device,
                    ) == Some(flat@[k].local),
            decreases map@.len() - j,
        {
            let device = map[j].0;
            let ghost upto = start + part.take(j + 1);
            let ghost one: Leaving = (pid, device, map@[j as int].1@);
            proof {
                assert(part[j as int] == one);
                assert(upto.drop_last() =~= start + part.take(j as int));
                assert(upto.last() == one);
            }
            match look_up(mappings, pid, device) {
                None => {
                    proof {
                        assert(all.take(upto.len() as int) =~= next.take(upto.len() as int));
                        assert(next.take(upto.len() as int) =~= upto);
                        lemma_first_unseen_fault(mappings@, all, upto.len() as int);
                    }
                    return Err(MissingDevice { pid, device });
                },
                Some(local) => {
                    let ghost before = flat@;
                    let entries = copy_entries(&map[j].1);
                    flat.push(Flat { pid, device, local, entries });
                    proof {
                        assert(flat_model(flat@) =~= flat_model(before).push(one));
                        assert(flat_model(flat@) =~= upto);
                    }
                },
            }
            j = j + 1;
        }
        proof {
            assert(part.take(j as int) =~= part);
        }
        i = i + 1;
    }
    proof {
        assert(deep.take(i as int) =~= deep);
    }
    Ok(flat)
}

fn arriving_on(spec: &MigrationSpec, device: GlobalDeviceId) -> (entries: Vec<MigrationSpecEntry>)
    ensures
        entries@ == arriving(spec@, device),
{
    proof {
        lemma_assoc_pos_same_keys(spec.device_map@, spec@, device);
    }
    match find_device(&spec.device_map, device) {
        Some(at) => {
            assert(spec@[at as int].1 == spec.device_map@[at as int].1@);
            copy_entries(&spec.device_map[at].1)
        },
        None => Vec::new(),
    }
}

fn leaving_on(flat: &Vec<Flat>, device: GlobalDeviceId, Ghost(mappings): Ghost<
    Seq<(i32, DeviceOrdinalMapping)>,
>) -> (list: Vec<DeviceTransfer>)
    requires
        forall|i: int|
            0 <= i < flat@.len() ==> seen_as(mappings, (#[trigger] flat@[i]).pid, flat@[i].device)
                == Some(flat@[i].local),
    ensures
        deep_transfers(list@) == flat_model(flat@).filter(on_device(device)).map_values(
            transfer_of(mappings),
        ),
{
    let ghost model = flat_model(flat@);
    let mut list: Vec<DeviceTransfer> = Vec::new();
    let mut i: usize = 0;
    proof {
        assert(model.take(0).filter(on_device(device)) =~= Seq::empty()) by {
            reveal(Seq::filter);
        }
        assert(deep_transfers(list@) =~= Seq::empty());
    }
    while i < flat.len()
        invariant
            i <= flat@.len(),
            model == flat_model(flat@),
            forall|k: int|
                0 <= k < flat@.len() ==> seen_as(
                    mappings,
                    (#[trigger] flat@[k]).pid,
                    flat@[k].device,
                ) == Some(flat@[k].local),
            deep_transfers(list@) == model.take(i as int).filter(on_device(device)).map_values(
                transfer_of(mappings),
            ),
        decreases flat@.len() - i,
    {
        let ghost l = model[i as int];
        let ghost kept = model.take(i as int).filter(on_device(device));
        let ghost before = list@;
        proof {
            assert(model.take(i + 1) =~= model.take(i as int).push(l));
            crate::sorting::lemma_filter_push(model.take(i as int), l, on_device(device));
            assert(kept.push(l).map_values(transfer_of(mappings)) =~= kept.map_values(
                transfer_of(mappings),
            ).push(transfer_of(mappings)(l)));
        }
        if flat[i].device == device {
            let t = DeviceTransfer {
                pid: flat[i].pid,
                local: flat[i].local,
                entries: copy_entries(&flat[i].entries),
            };
            proof {
                assert(t@ == transfer_of(mappings)(l));
                assert(deep_transfers(before.push(t)) =~= deep_transfers(before).push(t@));
            }
            list.push(t);
        }
        i = i + 1;
    }
    proof {
        assert(model.take(i as int) =~= model);
    }
    list
}

proof fn lemma_first_unseen_by_fault(
    mappings: Seq<(i32, DeviceOrdinalMapping)>,
    pid: i32,
    devices: Seq<GlobalDeviceId>,
    n: int,
)
    requires
        0 <= n <= devices.len(),
        first_unseen_by(mappings, pid, devices.take(n)) is Some,
    ensures
        first_unseen_by(mappings, pid, devices) == first_unseen_by(mappings, pid, devices.take(n)),
    decreases devices.len(),
{
    if n == devices.len() {
        assert(devices.take(n) =~= devices);
    } else {
        assert(devices.drop_last().take(n) =~= devices.take(n));
        lemma_first_unseen_by_fault(mappings, pid, devices.drop_last(), n);
    }
}

fn list_devices(flat: &Vec<Flat>, task: &DataMigrationTask) -> (devices: Vec<GlobalDeviceId>)
    requires
        flat_model(flat@) == leaving(task@.out_from_gpu),
    ensures
        lists_devices(task@, devices@),
{
    let ghost model = flat_model(flat@);
    let mut devices: Vec<GlobalDeviceId> = Vec::new();
    let mut i: usize = 0;
    while i < flat.len()
        invariant
            i <= flat@.len(),
            model == flat_model(flat@),
            forall|a: int, b: int|
                0 <= a < b < devices@.len() ==> (#[trigger] devices@[a]).0 < (
                #[trigger] devices@[b]).0,
            forall|d: GlobalDeviceId| #[trigger]
                devices@.contains(d) == exists|k: int|
                    0 <= k < i && (#[trigger] model[k]).1 == d,
        decreases flat@.len() - i,
    {
        let ghost before = devices@;
        add_device(&mut devices, flat[i].device);
        proof {
            assert(model[i as int].1 == flat@[i as int].device);
            assert forall|d: GlobalDeviceId| #[trigger] devices@.contains(d) == exists|k: int|
                0 <= k < i + 1 && (#[trigger] model[k]).1 == d by {
                if before.contains(d) {
                    let k = choose|k: int| 0 <= k < i && (#[trigger] model[k]).1 == d;
                    assert(model[k].1 == d);
                }
            }
        }
        i = i + 1;
    }
    let ghost middle = devices@;
    if let Some((_, spec)) = &task.into_gpu {
        let ghost deep = spec@;
        let mut j: usize = 0;
        while j < spec.device_map.len()
            invariant
                j <= spec.device_map@.len(),
                deep == spec@,
                forall|a: int, b: int|
                    0 <= a < b < devices@.len() ==> (#[trigger] devices@[a]).0 < (
                    #[trigger] devices@[b]).0,
                forall|d: GlobalDeviceId| #[trigger]
                    devices@.contains(d) == (middle.contains(d) || exists|k: int|
                        0 <= k < j && (#[trigger] deep[k]).0 == d),
            decreases spec.device_map@.len() - j,
        {
            let ghost before = devices@;
            add_device(&mut devices, spec.device_map[j].0);
            proof {
                assert(deep[j as int].0 == spec.device_map@[j as int].0);
                assert forall|d: GlobalDeviceId| #[trigger] devices@.contains(d) == (
                middle.contains(d) || exists|k: int| 0 <= k < j + 1 && (#[trigger] deep[k]).0
                    == d) by {
                    if before.contains(d) && !middle.contains(d) {
                        let k = choose|k: int| 0 <= k < j && (#[trigger] deep[k]).0 == d;
                        assert(deep[k].0 == d);
                    }
                }
            }
            j = j + 1;
        }
        proof {
            assert(task@.into_gpu matches Some((_, arriving)) && arriving == deep);
        }
    }
    proof {
        assert forall|d: GlobalDeviceId| #[trigger] devices@.contains(d) == takes_part(
            task@,
            d,
        ) by {
            assert(middle.contains(d) == exists|k: int|
                0 <= k < model.len() && (#[trigger] model[k]).1 == d);
        }
    }
    devices
}

/// Decides how a task is carried out. Each process that takes part needs a mapping of its devices.
pub fn plan_run(task: &DataMigrationTask, mappings: &Vec<(i32, DeviceOrdinalMapping)>) -> (plan: Result<
    RunPlan,
    MissingDevice,
>)
    ensures
        match plan {
            Ok(plan) => run_succeeds(plan, mappings@, task@),
            Err(missing) => run_fails(missing, mappings@, task@),
        },
{
    let mut largest: u128 = max(
        sum_buffers(&task.hostmem_to_shm),
        max(
            sum_buffers(&task.storage_to_shm),
            max(
                sum_sent(&task.shm_to_backend.items),
                max(sum_buffers(&task.storage_to_hostmem), sum_buffers(&task.hostmem_to_storage)),
            ),
        ),
    );
    let ghost stores = largest as int;
    let flat = match flatten(&task.out_from_gpu, mappings) {
        Ok(flat) => flat,
        Err(missing) => {
            assert(is_missing(missing, mappings@, task@, Seq::empty()));
            return Err(missing);
        },
    };
    let ghost model = flat_model(flat@);
    let mut i: usize = 0;
    proof {
        assert(model.take(0) =~= Seq::empty());
    }
    while i < flat.len()
        invariant
            i <= flat@.len(),
            model == flat_model(flat@),
            largest == largest_leaving(model.take(i as int), stores),
        decreases flat@.len() - i,
    {
        proof {
            assert(model.take(i + 1).drop_last() =~= model.take(i as int));
            assert(model.take(i + 1).last().2 == flat@[i as int].entries@);
        }
        largest = max(largest, sum_entries(&flat[i].entries));
        i = i + 1;
    }
    let ghost out_largest = largest as int;
    proof {
        assert(model.take(i as int) =~= model);
    }
    let list = list_devices(&flat, task);
    let ghost devices = list@;
    let mut jobs: Vec<DeviceJob> = Vec::new();
    let mut k: usize = 0;
    proof {
        assert(devices.take(0) =~= Seq::empty());
        assert(deep_jobs(jobs@) =~= devices.take(0).map_values(job_on(mappings@, task@)));
    }
    while k < list.len()
        invariant
            k <= list@.len(),
            devices == list@,
            model == flat_model(flat@),
            model == leaving(task@.out_from_gpu),
            lists_devices(task@, devices),
            first_unseen(mappings@, leaving(task@.out_from_gpu)) is None,
            forall|a: int|
                0 <= a < flat@.len() ==> seen_as(
                    mappings@,
                    (#[trigger] flat@[a]).pid,
                    flat@[a].device,
                ) == Some(flat@[a].local),
            deep_jobs(jobs@) == devices.take(k as int).map_values(job_on(mappings@, task@)),
            match task@.into_gpu {
                Some((pid, spec)) => largest == largest_arriving(
                    spec,
                    devices.take(k as int),
                    out_largest,
                ) && first_unseen_by(mappings@, pid, devices.take(k as int)) is None,
                None => largest == out_largest,
            },
        decreases list@.len() - k,
    {
        let device = list[k];
        proof {
            assert(devices.take(k + 1) =~= devices.take(k as int).push(device));
            assert(devices.take(k + 1).drop_last() =~= devices.take(k as int));
        }
        let out_from_gpu = leaving_on(&flat, device, Ghost(mappings@));
        let into_gpu: Option<DeviceTransfer> = match &task.into_gpu {
            None => None,
            Some((pid, spec)) => {
                match look_up(mappings, *pid, device) {
                    None => {
                        let missing = MissingDevice { pid: *pid, device };
                        proof {
                            lemma_first_unseen_by_fault(mappings@, *pid, devices, k + 1);
                            assert(is_missing(missing, mappings@, task@, devices));
                        }
                        return Err(missing);
                    },
                    Some(local) => {
                        let entries = arriving_on(spec, device);
                        largest = max(largest, sum_entries(&entries));
                        Some(DeviceTransfer { pid: *pid, local, entries })
                    },
                }
            },
        };
        let job = DeviceJob { device, out_from_gpu, into_gpu };
        proof {
            assert(job@ =~= job_on(mappings@, task@)(device));
            assert(deep_jobs(jobs@.push(job)) =~= deep_jobs(jobs@).push(job@));
            assert(devices.take(k + 1).map_values(job_on(mappings@, task@)) =~= devices.take(
                k as int,
            ).map_values(job_on(mappings@, task@)).push(job@));
        }
        jobs.push(job);
        k = k + 1;
    }
    proof {
        assert(devices.take(k as int) =~= devices);
    }
    let mut background: Vec<BackgroundJob> = Vec::new();
    if task.hostmem_to_shm.len() > 0 {
        background.push(BackgroundJob::HostMemToShm);
    }
    if task.storage_to_shm.len() > 0 {
        background.push(BackgroundJob::StorageToShm);
    }
    background.push(BackgroundJob::ShmToBackend);
    if task.hostmem_to_storage.len() > 0 {
        background.push(BackgroundJob::HostMemToStorage);
    }
    if task.storage_to_hostmem.len() > 0 {
        background.push(BackgroundJob::StorageToHostMem);
    }
    let mut excluded: Vec<i32> = Vec::new();
    if let Some((pid, _)) = &task.into_gpu {
        excluded.push(*pid);
    }
    let plan = RunPlan { devices: jobs, background, excluded, largest_transfer_size: largest };
    proof {
        assert(plan.background@ =~= background_jobs(task@));
        assert(plan.excluded@ =~= match task@.into_gpu {
            Some((pid, _)) => seq![pid],
            None => Seq::empty(),
        });
        assert(carries_out(plan, mappings@, task@, devices));
    }
    Ok(plan)
}

// Laws.

/// Whatever leaves the GPU leaves it on its own device.
pub proof fn law_nothing_that_leaves_is_left_out(
    plan: RunPlan,
    mappings: Seq<(i32, DeviceOrdinalMapping)>,
    task: TaskModel,
    devices: Seq<GlobalDeviceId>,
    i: int,
)
    requires
        carries_out(plan, mappings, task, devices),
        0 <= i < leaving(task.out_from_gpu).len(),
    ensures
        ({
            let l = leaving(task.out_from_gpu)[i];
            exists|k: int|
                0 <= k < plan.devices@.len() && (#[trigger] plan.devices@[k]).device == l.1
                    && plan.devices@[k]@.out_from_gpu.contains(transfer_of(mappings)(l))
        }),
{
    let all = leaving(task.out_from_gpu);
    let l = all[i];
    assert(takes_part(task, l.1));
    assert(devices.contains(l.1));
    let k = choose|k: int| 0 <= k < devices.len() && devices[k] == l.1;
    let job = job_on(mappings, task)(l.1);
    assert(deep_jobs(plan.devices@).len() == devices.len());
    assert(deep_jobs(plan.devices@)[k] == job);
    assert(plan.devices@[k]@ == job);
    crate::sorting::lemma_filter_members(all, on_device(l.1));
    assert(on_device(l.1)(all[i]));
    let kept = all.filter(on_device(l.1));
    let j = choose|j: int| 0 <= j < kept.len() && kept[j] == l;
    assert(job.out_from_gpu[j] == transfer_of(mappings)(l));
}

/// Whatever enters the GPU enters it on its own device.
pub proof fn law_nothing_that_enters_is_left_out(
    plan: RunPlan,
    mappings: Seq<(i32, DeviceOrdinalMapping)>,
    task: TaskModel,
    devices: Seq<GlobalDeviceId>,
    i: int,
)
    requires
        carries_out(plan, mappings, task, devices),
        task.into_gpu matches Some((_, spec)) && 0 <= i < spec.len()
            && crate::assoc::keys_distinct(spec),
    ensures
        task.into_gpu matches Some((pid, spec)) && exists|k: int|
            0 <= k < plan.devices@.len() && (#[trigger] plan.devices@[k]).device == spec[i].0
                && (plan.devices@[k]@.into_gpu matches Some(t) && t.pid == pid && t.entries
                == spec[i].1),
{
    if let Some((pid, spec)) = task.into_gpu {
        let device = spec[i].0;
        assert(takes_part(task, device));
        assert(devices.contains(device));
        let k = choose|k: int| 0 <= k < devices.len() && devices[k] == device;
        let job = job_on(mappings, task)(device);
        assert(deep_jobs(plan.devices@).len() == devices.len());
        assert(deep_jobs(plan.devices@)[k] == job);
        assert(plan.devices@[k]@ == job);
        crate::assoc::lemma_assoc_distinct(spec, i);
    }
}

} // verus!
