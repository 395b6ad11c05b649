//! What one process has allocated, as the daemon tells others.
use vstd::prelude::*;
use crate::assoc::assoc_get;
use crate::constant::{HANDLE_NUM, MAX_GPUS};
use crate::control::{AllocationData, PhysicalMemoryData, ProcessResidualData};
use crate::ids::{GlobalDeviceId, PhysicalMemoryHandleId, ProcessLocalDeviceId};
use crate::shm::{
    lemma_prefix_sum, lemma_walk_in_range, off_gpu_size, on_gpu_size, AllocationEntry,
    AllocationTable, HandleList, PhysicalMemoryHandle,
};
use crate::sidecar::tables::{chain_of, law_bytes_are_accounted};
use crate::sorting::{lemma_filter_push, lemma_sorted_map, sort_stable, stable_sorted};
use crate::sums::sum_of;
use crate::sync::IpcMutex;
use super::mapping::DeviceOrdinalMapping;

verus! {

// One allocation.

/// What is told of a slot.
pub open spec fn physical_of(handles: Seq<PhysicalMemoryHandle>) -> spec_fn(
    u32,
) -> PhysicalMemoryData {
    |idx: u32|
        PhysicalMemoryData {
            on_gpu: handles[idx as int].on_gpu,
            handle_idx: PhysicalMemoryHandleId {
                alloc_generation: handles[idx as int].alloc_generation,
                idx,
            },
            size: handles[idx as int].size as u32,
        }
}

/// An allocation as it is told: the bytes on the GPU, the bytes elsewhere, and the slots.
pub type ToldAllocation = (int, int, Seq<PhysicalMemoryData>);

/// What is told of an allocation.
pub open spec fn told(list: HandleList) -> spec_fn(AllocationEntry) -> ToldAllocation {
    |e: AllocationEntry|
        {
            let chain = chain_of(list, e);
            (
                sum_of(chain, on_gpu_size(list.handles@)),
                sum_of(chain, off_gpu_size(list.handles@)),
                chain.map_values(physical_of(list.handles@)),
            )
        }
}

/// The links behind the allocation end, and its bytes can be counted.
pub open spec fn listable(list: HandleList, e: AllocationEntry) -> bool {
    &&& list.chain_from(Some(e.handle_idx.idx)) is Some
    &&& sum_of(chain_of(list, e), on_gpu_size(list.handles@)) <= u64::MAX
    &&& sum_of(chain_of(list, e), off_gpu_size(list.handles@)) <= u64::MAX
}

/// All allocations of all tables can be listed.
pub open spec fn all_listable(tables: Seq<IpcMutex<AllocationTable>>) -> bool {
    forall|d: int, i: int|
        0 <= d < tables.len() && 0 <= i < tables[d].inner.entry@.len() ==> listable(
            tables[d].inner.handle_list,
            #[trigger] tables[d].inner.entry@[i],
        )
}

pub open spec fn all_slots_there(tables: Seq<IpcMutex<AllocationTable>>) -> bool {
    forall|d: int|
        0 <= d < tables.len() ==> (#[trigger] tables[d]).inner.handle_list.handles@.len()
            == HANDLE_NUM
}

/// Reads an allocation as it is told.
pub open spec fn deep_allocation() -> spec_fn(AllocationData) -> ToldAllocation {
    |a: AllocationData| (a.on_gpu_bytes as int, a.off_gpu_bytes as int, a.physical@)
}

fn tell_handle(list: &HandleList, idx: u32) -> (data: PhysicalMemoryData)
    requires
        list.handles@.len() == HANDLE_NUM,
        idx < HANDLE_NUM,
    ensures
        data == physical_of(list.handles@)(idx),
{
    let handle = list.handles[idx as usize];
    PhysicalMemoryData {
        on_gpu: handle.on_gpu,
        handle_idx: PhysicalMemoryHandleId::new(handle.alloc_generation, idx),
        size: handle.size as u32,
    }
}

fn tell_entry(list: &HandleList, e: &AllocationEntry) -> (data: AllocationData)
    requires
        list.handles@.len() == HANDLE_NUM,
        listable(*list, *e),
    ensures
        deep_allocation()(data) == told(*list)(*e),
{
    let ghost on = on_gpu_size(list.handles@);
    let ghost off = off_gpu_size(list.handles@);
    let slots = list.chain(Some(e.handle_idx.idx)).unwrap();
    proof {
        lemma_walk_in_range(list.handles@, Some(e.handle_idx.idx), HANDLE_NUM as nat);
    }
    let mut on_gpu_bytes: u64 = 0;
    let mut off_gpu_bytes: u64 = 0;
    let mut physical: Vec<PhysicalMemoryData> = Vec::new();
    let mut i: usize = 0;
    while i < slots.len()
        invariant
            list.handles@.len() == HANDLE_NUM,
            i <= slots@.len(),
            on == on_gpu_size(list.handles@),
            off == off_gpu_size(list.handles@),
            forall|k: int| 0 <= k < slots@.len() ==> #[trigger] slots@[k] < HANDLE_NUM,
            on_gpu_bytes == sum_of(slots@.take(i as int), on),
            off_gpu_bytes == sum_of(slots@.take(i as int), off),
            sum_of(slots@, on) <= u64::MAX,
            sum_of(slots@, off) <= u64::MAX,
            physical@ == slots@.take(i as int).map_values(physical_of(list.handles@)),
        decreases slots@.len() - i,
    {
        proof {
            lemma_prefix_sum(slots@, i as int, on, usize::MAX as int);
            lemma_prefix_sum(slots@, i as int, off, usize::MAX as int);
            assert(slots@.take(i + 1).map_values(physical_of(list.handles@)) =~= slots@.take(
                i as int,
            ).map_values(physical_of(list.handles@)).push(
                physical_of(list.handles@)(slots@[i as int]),
            ));
        }
        let handle = list.handles[slots[i] as usize];
        physical.push(tell_handle(list, slots[i]));
        if handle.on_gpu {
            on_gpu_bytes = on_gpu_bytes + handle.size as u64;
        } else {
            off_gpu_bytes = off_gpu_bytes + handle.size as u64;
        }
        i = i + 1;
    }
    proof {
        assert(slots@.take(i as int) =~= slots@);
    }
    AllocationData { on_gpu_bytes, off_gpu_bytes, physical }
}

// All allocations.

/// What is told of a device.
pub type ToldDevice = (GlobalDeviceId, Seq<ToldAllocation>);

/// What is told of the devices up to `n`, as the process numbers them. A device that the process
/// does not see, or on which it has nothing, is left out.
pub open spec fn told_devices(
    tables: Seq<IpcMutex<AllocationTable>>,
    visible_to_real: Seq<(ProcessLocalDeviceId, GlobalDeviceId)>,
    n: int,
) -> Seq<ToldDevice>
    decreases n,
{
    if n <= 0 {
        Seq::empty()
    } else {
        let before = told_devices(tables, visible_to_real, n - 1);
        let table = tables[n - 1].inner;
        match assoc_get(visible_to_real, ProcessLocalDeviceId((n - 1) as i32)) {
            Some(device) if table.entry@.len() > 0 => before.push(
                (device, table.entry@.map_values(told(table.handle_list))),
            ),
            _ => before,
        }
    }
}

pub open spec fn lower_device() -> spec_fn(ToldDevice, ToldDevice) -> bool {
    |a: ToldDevice, b: ToldDevice| a.0.0 < b.0.0
}

/// Reads a device as it is told.
pub open spec fn deep_device() -> spec_fn((GlobalDeviceId, Vec<AllocationData>)) -> ToldDevice {
    |p: (GlobalDeviceId, Vec<AllocationData>)| (p.0, p.1@.map_values(deep_allocation()))
}

fn tell_table(table: &AllocationTable) -> (list: Vec<AllocationData>)
    requires
        table.handle_list.handles@.len() == HANDLE_NUM,
        forall|i: int|
            0 <= i < table.entry@.len() ==> listable(table.handle_list, #[trigger] table.entry@[i]),
    ensures
        list@.map_values(deep_allocation()) == table.entry@.map_values(told(table.handle_list)),
{
    let entries = table.entry.as_slice();
    let mut list: Vec<AllocationData> = Vec::new();
    let mut i: usize = 0;
    while i < entries.len()
        invariant
            table.handle_list.handles@.len() == HANDLE_NUM,
            entries@ == table.entry@,
            i <= entries@.len(),
            list@.len() == i,
            forall|k: int|
                0 <= k < table.entry@.len() ==> listable(
                    table.handle_list,
                    #[trigger] table.entry@[k],
                ),
            forall|k: int|
                0 <= k < i ==> deep_allocation()(#[trigger] list@[k]) == told(table.handle_list)(
                    table.entry@[k],
                ),
        decreases entries@.len() - i,
    {
        proof {
            assert(listable(table.handle_list, table.entry@[i as int]));
        }
        list.push(tell_entry(&table.handle_list, &entries[i]));
        i = i + 1;
    }
    proof {
        assert(list@.map_values(deep_allocation()) =~= table.entry@.map_values(
            told(table.handle_list),
        ));
    }
    list
}

/// The allocations of a process, device by device, in the order of the machine's numbers.
pub fn list_allocations(
    tables: &Vec<IpcMutex<AllocationTable>>,
    mapping: &DeviceOrdinalMapping,
) -> (allocations: Vec<(GlobalDeviceId, Vec<AllocationData>)>)
    requires
        tables@.len() == MAX_GPUS,
        all_slots_there(tables@),
        all_listable(tables@),
    ensures
        allocations@.map_values(deep_device()) == stable_sorted(
            told_devices(tables@, mapping.visible_to_real@, MAX_GPUS as int),
            lower_device(),
        ),
{
    let mut allocations: Vec<(GlobalDeviceId, Vec<AllocationData>)> = Vec::new();
    let mut device: usize = 0;
    proof {
        assert(allocations@.map_values(deep_device()) =~= Seq::empty());
    }
    while device < MAX_GPUS
        invariant
            tables@.len() == MAX_GPUS,
            all_slots_there(tables@),
            all_listable(tables@),
            device <= MAX_GPUS,
            allocations@.map_values(deep_device()) == told_devices(
                tables@,
                mapping.visible_to_real@,
                device as int,
            ),
        decreases MAX_GPUS - device,
    {
        if let Some(global) = mapping.visible_to_real(ProcessLocalDeviceId(device as i32)) {
            proof {
                assert(tables@[device as int].inner.handle_list.handles@.len() == HANDLE_NUM);
            }
            let list = tell_table(&tables[device].inner);
            proof {
                assert(list@.map_values(deep_allocation()).len() == list@.len());
            }
            if list.len() > 0 {
                let ghost before = allocations@;
                allocations.push((global, list));
                proof {
                    assert(allocations@.map_values(deep_device()) =~= before.map_values(
                        deep_device(),
                    ).push(deep_device()(allocations@.last())));
                }
            }
        }
        device = device + 1;
    }
    let ghost unsorted = allocations@;
    let ghost lower = |a: (GlobalDeviceId, Vec<AllocationData>), b: (GlobalDeviceId, Vec<AllocationData>)|
        a.0.0 < b.0.0;
    let precedes = |a: &(GlobalDeviceId, Vec<AllocationData>), b: &(GlobalDeviceId, Vec<AllocationData>)| -> (r: bool)
        ensures
            r == (a.0.0 < b.0.0),
        { a.0.0 < b.0.0 };
    sort_stable(&mut allocations, precedes, Ghost(lower));
    proof {
        lemma_sorted_map(unsorted, deep_device(), lower, lower_device());
    }
    allocations
}

// What is on the GPU, or is not.

/// The slots are on the GPU, or are not.
pub open spec fn placed(on_gpu: bool) -> spec_fn(PhysicalMemoryData) -> bool {
    |p: PhysicalMemoryData| p.on_gpu == on_gpu
}

/// Everything behind the first `n` allocations of a table.
pub open spec fn all_physical(table: AllocationTable, n: int) -> Seq<PhysicalMemoryData>
    decreases n,
{
    if n <= 0 {
        Seq::empty()
    } else {
        all_physical(table, n - 1) + chain_of(
            table.handle_list,
            table.entry@[n - 1],
        ).map_values(physical_of(table.handle_list.handles@))
    }
}

/// What a process has on a device, on the GPU or elsewhere.
pub open spec fn residual_of(table: AllocationTable, on_gpu: bool) -> Seq<PhysicalMemoryData> {
    all_physical(table, table.entry@.len() as int).filter(placed(on_gpu))
}

/// What a process has on the devices, as far as it sees them. Each device occurs once.
pub open spec fn residuals(
    tables: Seq<IpcMutex<AllocationTable>>,
    real_to_visible: Seq<(GlobalDeviceId, ProcessLocalDeviceId)>,
    devices: Seq<GlobalDeviceId>,
    on_gpu: bool,
) -> Seq<(GlobalDeviceId, Seq<PhysicalMemoryData>)>
    decreases devices.len(),
{
    if devices.len() == 0 {
        Seq::empty()
    } else {
        let before = residuals(tables, real_to_visible, devices.drop_last(), on_gpu);
        match assoc_get(real_to_visible, devices.last()) {
            Some(local) => crate::assoc::assoc_put(
                before,
                devices.last(),
                residual_of(tables[local.0 as int].inner, on_gpu),
            ),
            None => before,
        }
    }
}

/// The links behind every allocation of every table end.
pub open spec fn all_linked(tables: Seq<IpcMutex<AllocationTable>>) -> bool {
    forall|d: int, i: int|
        0 <= d < tables.len() && 0 <= i < tables[d].inner.entry@.len()
            ==> tables[d].inner.handle_list.chain_from(
            Some((#[trigger] tables[d].inner.entry@[i]).handle_idx.idx),
        ) is Some
}

fn residual_in(table: &AllocationTable, on_gpu: bool) -> (list: Vec<PhysicalMemoryData>)
    requires
        table.handle_list.handles@.len() == HANDLE_NUM,
        forall|i: int|
            0 <= i < table.entry@.len() ==> table.handle_list.chain_from(
                Some((#[trigger] table.entry@[i]).handle_idx.idx),
            ) is Some,
    ensures
        list@ == residual_of(*table, on_gpu),
{
    let ghost handles = table.handle_list.handles@;
    let ghost tell = physical_of(handles);
    let ghost keep = placed(on_gpu);
    let entries = table.entry.as_slice();
    let mut list: Vec<PhysicalMemoryData> = Vec::new();
    let mut i: usize = 0;
    proof {
        reveal(Seq::filter);
        assert(all_physical(*table, 0).filter(keep) =~= Seq::empty());
    }
    while i < entries.len()
        invariant
            handles == table.handle_list.handles@,
            handles.len() == HANDLE_NUM,
            tell == physical_of(handles),
            keep == placed(on_gpu),
            entries@ == table.entry@,
            i <= entries@.len(),
            forall|k: int|
                0 <= k < table.entry@.len() ==> table.handle_list.chain_from(
                    Some((#[trigger] table.entry@[k]).handle_idx.idx),
                ) is Some,
            list@ == all_physical(*table, i as int).filter(keep),
        decreases entries@.len() - i,
    {
        proof {
            assert(table.handle_list.chain_from(
                Some(table.entry@[i as int].handle_idx.idx),
            ) is Some);
            lemma_walk_in_range(handles, Some(entries@[i as int].handle_idx.idx), HANDLE_NUM as nat);
        }
        let slots = table.handle_list.chain(Some(entries[i].handle_idx.idx)).unwrap();
        let ghost before = all_physical(*table, i as int);
        let mut k: usize = 0;
        proof {
            assert(before + slots@.take(0).map_values(tell) =~= before);
        }
        while k < slots.len()
            invariant
                handles == table.handle_list.handles@,
                handles.len() == HANDLE_NUM,
                tell == physical_of(handles),
                keep == placed(on_gpu),
                k <= slots@.len(),
                forall|j: int| 0 <= j < slots@.len() ==> #[trigger] slots@[j] < HANDLE_NUM,
                list@ == (before + slots@.take(k as int).map_values(tell)).filter(keep),
            decreases slots@.len() - k,
        {
            let data = tell_handle(&table.handle_list, slots[k]);
            proof {
                let so_far = before + slots@.take(k as int).map_values(tell);
                lemma_filter_push(so_far, data, keep);
                assert(so_far.push(data) =~= before + slots@.take(k + 1).map_values(tell));
            }
            if data.on_gpu == on_gpu {
                list.push(data);
            }
            k = k + 1;
        }
        proof {
            assert(slots@.take(k as int) =~= slots@);
        }
        i = i + 1;
    }
    list
}

/// What a process has on the devices of a request, on the GPU or elsewhere.
pub fn list_residual(
    pid: i32,
    tables: &Vec<IpcMutex<AllocationTable>>,
    mapping: &DeviceOrdinalMapping,
    devices: &Vec<GlobalDeviceId>,
    on_gpu: bool,
) -> (data: ProcessResidualData)
    requires
        all_slots_there(tables@),
        all_linked(tables@),
        forall|i: int|
            0 <= i < devices@.len() ==> match assoc_get(
                mapping.real_to_visible@,
                #[trigger] devices@[i],
            ) {
                Some(local) => 0 <= local.0 < tables@.len(),
                None => true,
            },
    ensures
        data.pid == pid,
        data.model() == residuals(tables@, mapping.real_to_visible@, devices@, on_gpu),
{
    let mut allocations: Vec<(GlobalDeviceId, Vec<PhysicalMemoryData>)> = Vec::new();
    let mut i: usize = 0;
    proof {
        assert(devices@.take(0) =~= Seq::empty());
        assert(crate::control::deep_lists(allocations@) =~= Seq::empty());
    }
    while i < devices.len()
        invariant
            all_slots_there(tables@),
            all_linked(tables@),
            forall|i: int|
                0 <= i < devices@.len() ==> match assoc_get(
                    mapping.real_to_visible@,
                    #[trigger] devices@[i],
                ) {
                    Some(local) => 0 <= local.0 < tables@.len(),
                    None => true,
                },
            i <= devices@.len(),
            crate::control::deep_lists(allocations@) == residuals(
                tables@,
                mapping.real_to_visible@,
                devices@.take(i as int),
                on_gpu,
            ),
        decreases devices@.len() - i,
    {
        let device = devices[i];
        proof {
            assert(devices@.take(i + 1).drop_last() =~= devices@.take(i as int));
            assert(device == devices@[i as int]);
        }
        if let Some(local) = mapping.real_to_visible(device) {
            proof {
                assert(tables@[local.0 as int].inner.handle_list.handles@.len() == HANDLE_NUM);
            }
            let list = residual_in(&tables[local.0 as usize].inner, on_gpu);
            let ghost before = allocations@;
            let ghost deep = crate::control::deep_lists(before);
            let ghost own = list@;
            proof {
                crate::assoc::lemma_assoc_pos_same_keys(before, deep, device);
            }
            match crate::assoc::find_device(&allocations, device) {
                Some(at) => {
                    allocations.set(at, (device, list));
                    proof {
                        assert(crate::control::deep_lists(allocations@) =~= deep.update(
                            at as int,
                            (device, own),
                        ));
                    }
                },
                None => {
                    allocations.push((device, list));
                    proof {
                        assert(crate::control::deep_lists(allocations@) =~= deep.push(
                            (device, own),
                        ));
                    }
                },
            }
        }
        i = i + 1;
    }
    proof {
        assert(devices@.take(i as int) =~= devices@);
    }
    ProcessResidualData { pid, allocations }
}

// Laws.

/// Consistent tables can be listed.
pub proof fn law_consistent_tables_are_listable(tables: Seq<IpcMutex<AllocationTable>>)
    requires
        forall|d: int| 0 <= d < tables.len() ==> (#[trigger] tables[d]).inner.consistent(),
    ensures
        all_slots_there(tables),
        all_listable(tables),
        all_linked(tables),
{
    assert forall|d: int| 0 <= d < tables.len() implies (
    #[trigger] tables[d]).inner.handle_list.handles@.len() == HANDLE_NUM by {
        let list = tables[d].inner.handle_list;
        assert(tables[d].inner.consistent());
        assert(list.links_free(list.free_slots()));
    }
    assert forall|d: int, i: int|
        0 <= d < tables.len() && 0 <= i < tables[d].inner.entry@.len() implies listable(
        tables[d].inner.handle_list,
        #[trigger] tables[d].inner.entry@[i],
    ) by {
        let table = tables[d].inner;
        let chain = chain_of(table.handle_list, table.entry@[i]);
        let handles = table.handle_list.handles@;
        assert(tables[d].inner.consistent());
        assert(crate::sidecar::tables::backs(table.handle_list, table.entry@[i]));
        law_bytes_are_accounted(table, i);
        crate::sums::lemma_sum_bounds(chain, on_gpu_size(handles), usize::MAX as int);
        crate::sums::lemma_sum_bounds(chain, off_gpu_size(handles), usize::MAX as int);
    }
    assert forall|d: int, i: int|
        0 <= d < tables.len() && 0 <= i < tables[d].inner.entry@.len() implies tables[d].inner.handle_list.chain_from(
    Some((#[trigger] tables[d].inner.entry@[i]).handle_idx.idx)) is Some by {
        assert(listable(tables[d].inner.handle_list, tables[d].inner.entry@[i]));
    }
}

// What is told adds up.

/// The bytes of slots that are on the GPU, or are not.
pub open spec fn slot_bytes(slots: Seq<PhysicalMemoryData>, on_gpu: bool) -> int {
    sum_of(
        slots,
        |p: PhysicalMemoryData|
            if p.on_gpu == on_gpu {
                p.size as int
            } else {
                0
            },
    )
}

proof fn lemma_told_sums(list: HandleList, chain: Seq<u32>)
    requires
        forall|k: int|
            0 <= k < chain.len() ==> list.handles@[#[trigger] chain[k] as int].size <= u32::MAX,
    ensures
        ({
            let slots = chain.map_values(physical_of(list.handles@));
            &&& sum_of(chain, on_gpu_size(list.handles@)) == slot_bytes(slots, true)
            &&& sum_of(chain, off_gpu_size(list.handles@)) == slot_bytes(slots, false)
        }),
    decreases chain.len(),
{
    let slots = chain.map_values(physical_of(list.handles@));
    if chain.len() > 0 {
        let rest = chain.drop_last();
        assert forall|k: int| 0 <= k < rest.len() implies list.handles@[#[trigger] rest[k] as int].size
            <= u32::MAX by {
            assert(rest[k] == chain[k]);
        }
        lemma_told_sums(list, rest);
        assert(slots.drop_last() =~= rest.map_values(physical_of(list.handles@)));
        assert(list.handles@[chain[chain.len() - 1] as int].size <= u32::MAX);
    }
}

/// What is told of an allocation adds up: the bytes on the GPU and the bytes elsewhere are those of
/// its slots there, and together all of its bytes. Each slot is told as it is.
pub proof fn law_told_allocation_adds_up(table: AllocationTable, i: int, k: int)
    requires
        table.consistent(),
        0 <= i < table.entry@.len(),
    ensures
        ({
            let e = table.entry@[i];
            let chain = chain_of(table.handle_list, e);
            let (on, off, slots) = told(table.handle_list)(e);
            &&& on + off == e.len
            &&& on == slot_bytes(slots, true)
            &&& off == slot_bytes(slots, false)
            &&& slots.len() == chain.len()
            &&& 0 <= k < chain.len() ==> {
                let handle = table.handle_list.handles@[chain[k] as int];
                &&& slots[k].on_gpu == handle.on_gpu
                &&& slots[k].size == handle.size
                &&& slots[k].handle_idx.idx == chain[k]
                &&& slots[k].handle_idx.alloc_generation == handle.alloc_generation
            }
        }),
{
    let e = table.entry@[i];
    let chain = chain_of(table.handle_list, e);
    law_bytes_are_accounted(table, i);
    assert(crate::sidecar::tables::backs(table.handle_list, e));
    assert forall|j: int| 0 <= j < chain.len() implies table.handle_list.handles@[
    #[trigger] chain[j] as int].size <= u32::MAX by {}
    lemma_told_sums(table.handle_list, chain);
}

/// What a process has on a device is told once: what is on the GPU, and what is elsewhere, have
/// together the bytes of all its allocations there.
pub proof fn law_residual_adds_up(table: AllocationTable)
    requires
        table.consistent(),
    ensures
        ({
            let size = |p: PhysicalMemoryData| p.size as int;
            sum_of(residual_of(table, true), size) + sum_of(residual_of(table, false), size)
                == sum_of(table.entry@, |e: AllocationEntry| e.len as int)
        }),
        forall|j: int|
            0 <= j < residual_of(table, true).len() ==> (#[trigger] residual_of(
                table,
                true,
            )[j]).on_gpu,
        forall|j: int|
            0 <= j < residual_of(table, false).len() ==> !(#[trigger] residual_of(
                table,
                false,
            )[j]).on_gpu,
{
    let n = table.entry@.len() as int;
    let all = all_physical(table, n);
    lemma_all_physical_sum(table, n);
    lemma_placed_sum(all, true);
    lemma_placed_sum(all, false);
    assert(table.entry@.take(n) =~= table.entry@);
    crate::sorting::lemma_filter_members(all, placed(true));
    crate::sorting::lemma_filter_members(all, placed(false));
}

proof fn lemma_placed_sum(all: Seq<PhysicalMemoryData>, on_gpu: bool)
    ensures
        sum_of(all.filter(placed(on_gpu)), |p: PhysicalMemoryData| p.size as int) == slot_bytes(
            all,
            on_gpu,
        ),
    decreases all.len(),
{
    if all.len() > 0 {
        let rest = all.drop_last();
        lemma_placed_sum(rest, on_gpu);
        lemma_filter_push(rest, all.last(), placed(on_gpu));
        assert(rest.push(all.last()) =~= all);
        crate::sums::lemma_sum_push(
            rest.filter(placed(on_gpu)),
            all.last(),
            |p: PhysicalMemoryData| p.size as int,
        );
    } else {
        assert(all.filter(placed(on_gpu)).len() == 0) by {
            reveal(Seq::filter);
        }
    }
}

proof fn lemma_slot_bytes_append(a: Seq<PhysicalMemoryData>, b: Seq<PhysicalMemoryData>, on_gpu: bool)
    ensures
        slot_bytes(a + b, on_gpu) == slot_bytes(a, on_gpu) + slot_bytes(b, on_gpu),
{
    crate::sums::lemma_sum_append(
        a,
        b,
        |p: PhysicalMemoryData|
            if p.on_gpu == on_gpu {
                p.size as int
            } else {
                0
            },
    );
}

proof fn lemma_all_physical_sum(table: AllocationTable, n: int)
    requires
        table.consistent(),
        0 <= n <= table.entry@.len(),
    ensures
        slot_bytes(all_physical(table, n), true) + slot_bytes(all_physical(table, n), false)
            == sum_of(table.entry@.take(n), |e: AllocationEntry| e.len as int),
    decreases n,
{
    if n > 0 {
        lemma_all_physical_sum(table, n - 1);
        law_told_allocation_adds_up(table, n - 1, 0);
        let slots = told(table.handle_list)(table.entry@[n - 1]).2;
        lemma_slot_bytes_append(all_physical(table, n - 1), slots, true);
        lemma_slot_bytes_append(all_physical(table, n - 1), slots, false);
        assert(table.entry@.take(n).drop_last() =~= table.entry@.take(n - 1));
    }
}

/// What a process has on a device of a request is told under that device, and only where the
/// process sees it.
pub proof fn law_residual_by_device(
    tables: Seq<IpcMutex<AllocationTable>>,
    real_to_visible: Seq<(GlobalDeviceId, ProcessLocalDeviceId)>,
    devices: Seq<GlobalDeviceId>,
    on_gpu: bool,
    device: GlobalDeviceId,
)
    ensures
        crate::assoc::keys_distinct(residuals(tables, real_to_visible, devices, on_gpu)),
        assoc_get(residuals(tables, real_to_visible, devices, on_gpu), device) == (match assoc_get(
            real_to_visible,
            device,
        ) {
            Some(local) if devices.contains(device) => Some(
                residual_of(tables[local.0 as int].inner, on_gpu),
            ),
            _ => None,
        }),
    decreases devices.len(),
{
    if devices.len() > 0 {
        let rest = devices.drop_last();
        law_residual_by_device(tables, real_to_visible, rest, on_gpu, device);
        assert(devices[devices.len() - 1] == devices.last());
        if rest.contains(device) {
            let i = choose|i: int| 0 <= i < rest.len() && rest[i] == device;
            assert(devices[i] == device);
        }
        if devices.contains(device) && device != devices.last() {
            let i = choose|i: int| 0 <= i < devices.len() && devices[i] == device;
            assert(rest[i] == device);
        }
        if let Some(local) = assoc_get(real_to_visible, devices.last()) {
            let before = residuals(tables, real_to_visible, rest, on_gpu);
            let value = residual_of(tables[local.0 as int].inner, on_gpu);
            crate::assoc::lemma_assoc_put_get(before, devices.last(), value, device);
            crate::assoc::lemma_assoc_put_distinct(before, devices.last(), value);
        }
    }
}

/// A device is told exactly where the process sees it and has something on it, with everything that
/// is there.
pub proof fn law_told_devices(
    tables: Seq<IpcMutex<AllocationTable>>,
    visible_to_real: Seq<(ProcessLocalDeviceId, GlobalDeviceId)>,
    n: int,
    t: ToldDevice,
)
    requires
        0 <= n <= i32::MAX,
    ensures
        told_devices(tables, visible_to_real, n).contains(t) <==> exists|k: int|
            0 <= k < n && (#[trigger] tables[k]).inner.entry@.len() > 0 && assoc_get(
                visible_to_real,
                ProcessLocalDeviceId(k as i32),
            ) == Some(t.0) && t.1 == tables[k].inner.entry@.map_values(
                told(tables[k].inner.handle_list),
            ),
    decreases n,
{
    if n > 0 {
        law_told_devices(tables, visible_to_real, n - 1, t);
        let before = told_devices(tables, visible_to_real, n - 1);
        let all = told_devices(tables, visible_to_real, n);
        if all.contains(t) {
            let i = choose|i: int| 0 <= i < all.len() && all[i] == t;
            if i < before.len() {
                assert(before[i] == t);
                let k = choose|k: int|
                    0 <= k < n - 1 && (#[trigger] tables[k]).inner.entry@.len() > 0 && assoc_get(
                        visible_to_real,
                        ProcessLocalDeviceId(k as i32),
                    ) == Some(t.0) && t.1 == tables[k].inner.entry@.map_values(
                        told(tables[k].inner.handle_list),
                    );
                assert(tables[k].inner.entry@.len() > 0);
            } else {
                assert(tables[n - 1].inner.entry@.len() > 0);
            }
        }
        if exists|k: int|
            0 <= k < n && (#[trigger] tables[k]).inner.entry@.len() > 0 && assoc_get(
                visible_to_real,
                ProcessLocalDeviceId(k as i32),
            ) == Some(t.0) && t.1 == tables[k].inner.entry@.map_values(
                told(tables[k].inner.handle_list),
            ) {
            let k = choose|k: int|
                0 <= k < n && (#[trigger] tables[k]).inner.entry@.len() > 0 && assoc_get(
                    visible_to_real,
                    ProcessLocalDeviceId(k as i32),
                ) == Some(t.0) && t.1 == tables[k].inner.entry@.map_values(
                    told(tables[k].inner.handle_list),
                );
            if k < n - 1 {
                assert(tables[k].inner.entry@.len() > 0);
                let i = choose|i: int| 0 <= i < before.len() && before[i] == t;
                assert(all[i] == t);
            } else {
                assert(all[before.len() as int] == t);
            }
        }
    }
}

/// Devices are told in the order of the machine's numbers.
pub proof fn law_told_in_order(devices: Seq<ToldDevice>, i: int, j: int)
    requires
        0 <= i < j < stable_sorted(devices, lower_device()).len(),
    ensures
        stable_sorted(devices, lower_device())[i].0.0 <= stable_sorted(
            devices,
            lower_device(),
        )[j].0.0,
        stable_sorted(devices, lower_device()).to_multiset() == devices.to_multiset(),
{
    assert(crate::sorting::strict_weak_order(lower_device()));
    crate::sorting::lemma_sorted_is_ordered(devices, lower_device());
    crate::sorting::lemma_sorted_is_permutation(devices, lower_device());
    let s = stable_sorted(devices, lower_device());
    assert(!lower_device()(s[j], s[i]));
}

} // verus!
