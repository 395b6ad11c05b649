//! Blocks of shared memory and the transfers between them and a device.
use vstd::prelude::*;
use crate::ids::{BufferId, GlobalDeviceId, PhysicalMemoryHandleId, ProcessLocalDeviceId};
use crate::shm_buffer::ShmBuffer;
use super::run::DeviceTransfer;

verus! {

/// Part of a buffer in shared memory.
#[derive(Debug, Clone, Copy, PartialEq, Eq, Structural)]
pub struct ShmBlock {
    pub offset: u64,
    pub data_size: u32,
}

/// The block lies within the region.
pub open spec fn is_mapped(buffer: ShmBuffer, block: ShmBlock) -> bool {
    block.offset + block.data_size <= buffer.shm_size
}

/// The addresses and sizes of the parts of a buffer, in order. There are none where a part lies
/// outside of the region.
pub fn block_ranges(buffer: &ShmBuffer, blocks: &Vec<ShmBlock>) -> (ranges: Option<
    Vec<(u64, u32)>,
>)
    requires
        buffer.wf(),
        forall|i: int|
            0 <= i < blocks@.len() ==> (#[trigger] blocks@[i]).offset + blocks@[i].data_size
                <= u64::MAX,
    ensures
        match ranges {
            Some(ranges) => {
                &&& forall|i: int| 0 <= i < blocks@.len() ==> is_mapped(*buffer, #[trigger] blocks@[i])
                &&& ranges@ == blocks@.map_values(
                    |b: ShmBlock| ((buffer.shm_addr + b.offset) as u64, b.data_size),
                )
            },
            None => exists|i: int|
                0 <= i < blocks@.len() && !is_mapped(*buffer, #[trigger] blocks@[i]),
        },
{
    let mut ranges: Vec<(u64, u32)> = Vec::new();
    let mut i: usize = 0;
    while i < blocks.len()
        invariant
            i <= blocks@.len(),
            buffer.wf(),
            forall|k: int|
                0 <= k < blocks@.len() ==> (#[trigger] blocks@[k]).offset + blocks@[k].data_size
                    <= u64::MAX,
            ranges@.len() == i,
            forall|k: int|
                0 <= k < i ==> is_mapped(*buffer, #[trigger] blocks@[k]) && ranges@[k] == (
                    (buffer.shm_addr + blocks@[k].offset) as u64,
                    blocks@[k].data_size,
                ),
        decreases blocks@.len() - i,
    {
        let block = blocks[i];
        match buffer.at_offset(block.offset, block.data_size as usize) {
            Some(addr) => {
                ranges.push((addr, block.data_size));
            },
            None => {
                assert(!is_mapped(*buffer, blocks@[i as int]));
                return None;
            },
        }
        i = i + 1;
    }
    proof {
        assert(ranges@ =~= blocks@.map_values(
            |b: ShmBlock| ((buffer.shm_addr + b.offset) as u64, b.data_size),
        ));
    }
    Some(ranges)
}

/// What a process needs to know to copy a buffer between shared memory and its device.
#[derive(Debug)]
pub struct MigrationArgs {
    pub host_buffer_offset: Vec<u64>,
    pub size: Vec<u32>,
    pub device: ProcessLocalDeviceId,
    pub handle_idx: PhysicalMemoryHandleId,
    pub host_to_device: bool,
}

/// What a process needs to know to copy the buffer that lies in `blocks`.
pub fn migration_args(
    blocks: &Vec<ShmBlock>,
    device: ProcessLocalDeviceId,
    handle_idx: PhysicalMemoryHandleId,
    host_to_device: bool,
) -> (args: MigrationArgs)
    ensures
        args.host_buffer_offset@ == blocks@.map_values(|b: ShmBlock| b.offset),
        args.size@ == blocks@.map_values(|b: ShmBlock| b.data_size),
        args.device == device,
        args.handle_idx == handle_idx,
        args.host_to_device == host_to_device,
{
    let mut host_buffer_offset: Vec<u64> = Vec::new();
    let mut size: Vec<u32> = Vec::new();
    let mut i: usize = 0;
    while i < blocks.len()
        invariant
            i <= blocks@.len(),
            host_buffer_offset@.len() == i,
            size@.len() == i,
            forall|k: int| 0 <= k < i ==> #[trigger] host_buffer_offset@[k] == blocks@[k].offset,
            forall|k: int| 0 <= k < i ==> #[trigger] size@[k] == blocks@[k].data_size,
        decreases blocks@.len() - i,
    {
        host_buffer_offset.push(blocks[i].offset);
        size.push(blocks[i].data_size);
        i = i + 1;
    }
    proof {
        assert(host_buffer_offset@ =~= blocks@.map_values(|b: ShmBlock| b.offset));
        assert(size@ =~= blocks@.map_values(|b: ShmBlock| b.data_size));
    }
    MigrationArgs { host_buffer_offset, size, device, handle_idx, host_to_device }
}

/// The buffers of one process that leave `device`, in order.
pub open spec fn buffers_of(t: DeviceTransfer, device: GlobalDeviceId) -> Seq<BufferId> {
    t.entries@.map_values(|e: super::task::MigrationSpecEntry| e.buffer(t.pid, device))
}

/// The buffers that leave `device`, in the order in which they leave it.
pub open spec fn leaving_order(list: Seq<DeviceTransfer>, device: GlobalDeviceId) -> Seq<
    (BufferId, ProcessLocalDeviceId),
>
    decreases list.len(),
{
    if list.len() == 0 {
        Seq::empty()
    } else {
        leaving_order(list.drop_last(), device) + buffers_of(list.last(), device).map_values(
            |id: BufferId| (id, list.last().local),
        )
    }
}

/// The buffers that leave `device`, in the order in which they leave it, each with the number
/// under which its process sees the device.
pub fn device_to_host_order(list: &Vec<DeviceTransfer>, device: GlobalDeviceId) -> (order: Vec<
    (BufferId, ProcessLocalDeviceId),
>)
    ensures
        order@ == leaving_order(list@, device),
{
    let mut order: Vec<(BufferId, ProcessLocalDeviceId)> = Vec::new();
    let mut i: usize = 0;
    proof {
        assert(list@.take(0) =~= Seq::empty());
    }
    while i < list.len()
        invariant
            i <= list@.len(),
            order@ == leaving_order(list@.take(i as int), device),
        decreases list@.len() - i,
    {
        let t = &list[i];
        let ghost start = order@;
        let ghost part = buffers_of(*t, device).map_values(|id: BufferId| (id, t.local));
        let mut j: usize = 0;
        proof {
            assert(start + part.take(0) =~= start);
        }
        while j < t.entries.len()
            invariant
                j <= t.entries@.len(),
                part == buffers_of(*t, device).map_values(|id: BufferId| (id, t.local)),
                order@ == start + part.take(j as int),
            decreases t.entries@.len() - j,
        {
            let id = t.entries[j].to_buffer_id(t.pid, device);
            order.push((id, t.local));
            proof {
                assert(part[j as int] == (id, t.local));
                assert(order@ =~= start + part.take(j + 1));
            }
            j = j + 1;
        }
        proof {
            assert(part.take(j as int) =~= part);
            assert(list@.take(i + 1).drop_last() =~= list@.take(i as int));
            assert(list@.take(i + 1).last() == *t);
        }
        i = i + 1;
    }
    proof {
        assert(list@.take(i as int) =~= list@);
    }
    order
}

/// The buffers that leave a device are those of all its transfers, each with the number under which
/// its process knows the device, in the order of the transfers and of their entries.
pub proof fn law_leaving_order(
    list: Seq<DeviceTransfer>,
    device: GlobalDeviceId,
    t: int,
    k: int,
)
    requires
        0 <= t < list.len(),
        0 <= k < list[t].entries@.len(),
    ensures
        ({
            let before = super::run_laws::entries_before(list, t);
            let e = list[t].entries@[k];
            &&& 0 <= before
            &&& before + k < leaving_order(list, device).len()
            &&& leaving_order(list, device)[before + k].0 == (BufferId {
                pid: list[t].pid,
                device_id: device,
                block_id: e.handle_idx,
                size: e.size,
            })
            &&& leaving_order(list, device)[before + k].1 == list[t].local
            &&& leaving_order(list, device).len() == super::run_laws::entries_before(
                list,
                list.len() as int,
            )
        }),
    decreases list.len(),
{
    let rest = list.drop_last();
    lemma_leaving_len(list, device);
    lemma_leaving_len(rest, device);
    super::run_laws::lemma_entries_before(rest, list, t);
    super::run_laws::lemma_entries_before(rest, list, rest.len() as int);
    if t < rest.len() {
        assert(rest[t] == list[t]);
        law_leaving_order(rest, device, t, k);
    }
}

proof fn lemma_leaving_len(list: Seq<DeviceTransfer>, device: GlobalDeviceId)
    ensures
        leaving_order(list, device).len() == super::run_laws::entries_before(
            list,
            list.len() as int,
        ),
    decreases list.len(),
{
    if list.len() > 0 {
        let rest = list.drop_last();
        lemma_leaving_len(rest, device);
        super::run_laws::lemma_entries_before(rest, list, rest.len() as int);
    }
}

} // verus!
