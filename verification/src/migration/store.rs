//! What the three stores outside the GPU hold, as a plan sees it.
use vstd::prelude::*;
use crate::assoc::{assoc_drop, assoc_get, assoc_has, assoc_put, find_buffer, find_device,
    keys_distinct, lemma_assoc_pos, lemma_assoc_put_distinct};
use crate::constant::BLOCK_BYTES;
use crate::ids::{AllocationCapacity, AllocationCount, BufferId, BufferLocation, GlobalDeviceId};

verus! {

/// The contents of shared memory, host memory and storage at the moment of planning. The order of
/// each list is the order in which its store was walked.
#[derive(Debug)]
pub struct DataManagerHandle {
    pub shm: Vec<(BufferId, AllocationCapacity)>,
    pub hostmem: Vec<(BufferId, AllocationCapacity)>,
    pub storage: Vec<(BufferId, AllocationCapacity)>,
    pub shm_free_blocks: AllocationCount,
    pub hostmem_free_blocks: AllocationCount,
    /// Free bytes on each GPU whose driver answered.
    pub gpu_free: Vec<(GlobalDeviceId, u64)>,
    pub shm_capacity: usize,
    pub hostmem_capacity: usize,
}

/// Blocks that a stored buffer occupies.
pub open spec fn stored_blocks(list: Seq<(BufferId, AllocationCapacity)>, id: BufferId) -> Option<
    AllocationCount,
> {
    match assoc_get(list, id) {
        Some(capacity) => Some(AllocationCount(capacity.0 / BLOCK_BYTES)),
        None => None,
    }
}

fn stored_count(list: &Vec<(BufferId, AllocationCapacity)>, id: &BufferId) -> (count: Option<
    AllocationCount,
>)
    ensures
        count == stored_blocks(list@, *id),
{
    match find_buffer(list, *id) {
        Some(i) => Some(AllocationCount(list[i].1.0 / BLOCK_BYTES)),
        None => None,
    }
}

fn copy_listing(list: &Vec<(BufferId, AllocationCapacity)>) -> (copy: Vec<
    (BufferId, AllocationCapacity),
>)
    ensures
        copy@ == list@,
{
    let mut copy: Vec<(BufferId, AllocationCapacity)> = Vec::new();
    let mut i: usize = 0;
    while i < list.len()
        invariant
            i <= list@.len(),
            copy@ == list@.take(i as int),
        decreases list@.len() - i,
    {
        copy.push(list[i]);
        i = i + 1;
    }
    proof {
        assert(list@.take(i as int) =~= list@);
    }
    copy
}

impl DataManagerHandle {
    /// Free bytes on `device`, where its driver answered.
    pub fn gpu_free_space(&self, device: GlobalDeviceId) -> (free: Option<u64>)
        ensures
            free == assoc_get(self.gpu_free@, device),
    {
        match find_device(&self.gpu_free, device) {
            Some(i) => Some(self.gpu_free[i].1),
            None => None,
        }
    }

    /// Blocks that `buf_id` occupies in shared memory.
    pub fn get_shm_block_count(&self, buf_id: &BufferId) -> (count: Option<AllocationCount>)
        ensures
            count == stored_blocks(self.shm@, *buf_id),
    {
        stored_count(&self.shm, buf_id)
    }

    /// Blocks that `buf_id` occupies in host memory.
    pub fn get_hostmem_block_count(&self, buf_id: &BufferId) -> (count: Option<AllocationCount>)
        ensures
            count == stored_blocks(self.hostmem@, *buf_id),
    {
        stored_count(&self.hostmem, buf_id)
    }

    pub fn shm_contains(&self, buf_id: &BufferId) -> (found: bool)
        ensures
            found == assoc_has(self.shm@, *buf_id),
    {
        find_buffer(&self.shm, *buf_id).is_some()
    }

    pub fn hostmem_contains(&self, buf_id: &BufferId) -> (found: bool)
        ensures
            found == assoc_has(self.hostmem@, *buf_id),
    {
        find_buffer(&self.hostmem, *buf_id).is_some()
    }

    pub fn storage_contains(&self, buf_id: &BufferId) -> (found: bool)
        ensures
            found == assoc_has(self.storage@, *buf_id),
    {
        find_buffer(&self.storage, *buf_id).is_some()
    }

    /// The buffers in shared memory with the bytes reserved for each.
    pub fn shm_buffer_ids(&self) -> (list: Vec<(BufferId, AllocationCapacity)>)
        ensures
            list@ == self.shm@,
    {
        copy_listing(&self.shm)
    }

    /// The buffers in host memory with the bytes reserved for each.
    pub fn hostmem_buffer_ids(&self) -> (list: Vec<(BufferId, AllocationCapacity)>)
        ensures
            list@ == self.hostmem@,
    {
        copy_listing(&self.hostmem)
    }

    pub fn shm_free_blocks_count(&self) -> (count: AllocationCount)
        ensures
            count == self.shm_free_blocks,
    {
        self.shm_free_blocks
    }

    pub fn hostmem_free_blocks_count(&self) -> (count: AllocationCount)
        ensures
            count == self.hostmem_free_blocks,
    {
        self.hostmem_free_blocks
    }
}

/// A destination for each of some buffers; no buffer has two.
#[derive(Debug)]
pub struct LocationMap {
    pub items: Vec<(BufferId, BufferLocation)>,
}

impl View for LocationMap {
    type V = Seq<(BufferId, BufferLocation)>;

    open spec fn view(&self) -> Seq<(BufferId, BufferLocation)> {
        self.items@
    }
}

impl LocationMap {
    pub open spec fn wf(self) -> bool {
        keys_distinct(self@)
    }

    pub fn new() -> (map: Self)
        ensures
            map@ == Seq::<(BufferId, BufferLocation)>::empty(),
            map.wf(),
    {
        LocationMap { items: Vec::new() }
    }

    pub fn len(&self) -> (n: usize)
        ensures
            n == self@.len(),
    {
        self.items.len()
    }

    pub fn is_empty(&self) -> (empty: bool)
        ensures
            empty == (self@.len() == 0),
    {
        self.items.len() == 0
    }

    pub fn get(&self, id: &BufferId) -> (loc: Option<BufferLocation>)
        ensures
            loc == assoc_get(self@, *id),
    {
        match find_buffer(&self.items, *id) {
            Some(i) => Some(self.items[i].1),
            None => None,
        }
    }

    /// Sends `id` to `loc`, whatever it was sent to before.
    pub fn insert(&mut self, id: BufferId, loc: BufferLocation)
        ensures
            final(self)@ == assoc_put(old(self)@, id, loc),
            old(self).wf() ==> final(self).wf(),
    {
        proof {
            lemma_assoc_pos(self@, id);
            if self.wf() {
                lemma_assoc_put_distinct(self@, id, loc);
            }
        }
        match find_buffer(&self.items, id) {
            Some(i) => {
                self.items.set(i, (id, loc));
            },
            None => {
                self.items.push((id, loc));
            },
        }
    }

    /// Forgets `id` and says where it was sent.
    pub fn remove(&mut self, id: &BufferId) -> (loc: Option<BufferLocation>)
        ensures
            loc == assoc_get(old(self)@, *id),
            final(self)@ == assoc_drop(old(self)@, *id),
            old(self).wf() ==> final(self).wf(),
    {
        match find_buffer(&self.items, *id) {
            Some(i) => {
                let pair = self.items.remove(i);
                Some(pair.1)
            },
            None => None,
        }
    }
}

} // verus!
