//! Names of devices, memory handles and buffers.
use vstd::prelude::*;
use crate::constant::BLOCK_BYTES;

verus! {

/// A device as the machine numbers it.
#[derive(Debug, Clone, Copy, PartialEq, Eq, PartialOrd, Ord, Hash, Structural)]
pub struct GlobalDeviceId(pub i32);

/// A device as one process numbers it.
#[derive(Debug, Clone, Copy, PartialEq, Eq, PartialOrd, Ord, Hash, Structural)]
pub struct ProcessLocalDeviceId(pub i32);

/// A slot of a handle list together with the allocation that held it. Slot numbers start at one.
#[derive(Debug, Clone, Copy, PartialEq, Eq, PartialOrd, Ord, Hash, Structural)]
pub struct PhysicalMemoryHandleId {
    /// Tells two allocations that used the same slot apart.
    pub alloc_generation: u32,
    pub idx: u32,
}

impl PhysicalMemoryHandleId {
    pub fn new(alloc_generation: u32, idx: u32) -> (id: Self)
        ensures
            id.alloc_generation == alloc_generation,
            id.idx == idx,
    {
        PhysicalMemoryHandleId { alloc_generation, idx }
    }
}

/// A block of process memory, wherever it is stored at the moment.
#[derive(Debug, Clone, Copy, PartialEq, Eq, PartialOrd, Ord, Hash, Structural)]
pub struct BufferId {
    pub pid: i32,
    pub device_id: GlobalDeviceId,
    pub block_id: PhysicalMemoryHandleId,
    pub size: u32,
}

/// Where a buffer is stored.
#[derive(Debug, Clone, Copy, PartialEq, Eq, PartialOrd, Ord, Hash, Structural)]
pub enum BufferLocation {
    Gpu(GlobalDeviceId),
    Shm,
    HostMem,
    Storage,
}

/// A number of blocks.
#[derive(Debug, Clone, Copy, PartialEq, Eq, PartialOrd, Ord, Hash, Structural)]
pub struct AllocationCount(pub u32);

/// A number of bytes reserved for a buffer.
#[derive(Debug, Clone, Copy, PartialEq, Eq, PartialOrd, Ord, Hash, Structural)]
pub struct AllocationCapacity(pub u32);

/// Blocks needed to hold `size` bytes.
pub open spec fn block_count(size: u32) -> nat {
    ((size + BLOCK_BYTES - 1) / BLOCK_BYTES as int) as nat
}

/// Blocks needed to hold `size` bytes.
pub fn blocks_for(size: u32) -> (count: u32)
    ensures
        count == block_count(size),
{
    ((size as u64 + BLOCK_BYTES as u64 - 1) / BLOCK_BYTES as u64) as u32
}

impl BufferId {
    /// Blocks that the buffer occupies.
    pub fn get_allocation_count(&self) -> (count: AllocationCount)
        ensures
            count.0 == block_count(self.size),
    {
        AllocationCount(blocks_for(self.size))
    }
}

/// The blocks of a buffer hold it, and one block fewer would not.
pub proof fn law_blocks_hold_the_buffer(size: u32)
    ensures
        block_count(size) * 0x20_0000 >= size,
        size > 0 ==> (block_count(size) - 1) * 0x20_0000 < size,
        size == 0 ==> block_count(size) == 0,
{
}

} // verus!
