//! A region of shared memory that holds buffers.
use vstd::prelude::*;

verus! {

/// Where the region is mapped and how long it is.
#[derive(Debug)]
pub struct ShmBuffer {
    pub shm_addr: u64,
    pub shm_size: usize,
}

/// The upper and lower half of a size, as the system wants it.
pub fn split_size(shm_size: usize) -> (halves: (u32, u32))
    ensures
        halves.0 * 0x1_0000_0000 + halves.1 == shm_size,
{
    let size: u64 = shm_size as u64;
    proof {
        assert((size >> 32) == size / 0x1_0000_0000) by (bit_vector);
        assert((size & 0xffff_ffff) == size % 0x1_0000_0000) by (bit_vector);
    }
    ((size >> 32) as u32, (size & 0xffff_ffff) as u32)
}

impl ShmBuffer {
    /// The region lies within the address space.
    pub open spec fn wf(self) -> bool {
        self.shm_addr + self.shm_size <= u64::MAX
    }

    pub fn new(shm_addr: u64, shm_size: usize) -> (buffer: Self)
        ensures
            buffer.shm_addr == shm_addr,
            buffer.shm_size == shm_size,
    {
        ShmBuffer { shm_addr, shm_size }
    }

    /// The address of the `size` bytes that start at `offset`, if they lie within the region.
    pub fn at_offset(&self, offset: u64, size: usize) -> (addr: Option<u64>)
        requires
            self.wf(),
            offset + size <= u64::MAX,
        ensures
            addr == (if offset + size > self.shm_size {
                None
            } else {
                Some((self.shm_addr + offset) as u64)
            }),
    {
        if offset + size as u64 > self.shm_size as u64 {
            return None;
        }
        Some(self.shm_addr + offset)
    }

    pub fn size(&self) -> (size: usize)
        ensures
            size == self.shm_size,
    {
        self.shm_size
    }
}

/// Every byte of a range that was handed out lies within the region.
pub proof fn law_range_is_mapped(buffer: ShmBuffer, offset: u64, size: usize, addr: u64, k: int)
    requires
        buffer.wf(),
        offset + size <= buffer.shm_size,
        addr == buffer.shm_addr + offset,
        0 <= k < size,
    ensures
        buffer.shm_addr <= addr + k < buffer.shm_addr + buffer.shm_size,
{
}

} // verus!
