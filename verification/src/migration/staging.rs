//! Finding room in shared memory for buffers that leave the GPU.
use std::collections::VecDeque;
use vstd::prelude::*;
use crate::assoc::assoc_put;
use crate::constant::BLOCK_BYTES;
use crate::ids::{block_count, blocks_for, AllocationCapacity, BufferId, BufferLocation};
use crate::sums::{lemma_sum_bounds, lemma_sum_first, lemma_sum_push, sum_of};
use super::store::LocationMap;

verus! {

/// Why no plan can be made at all.
#[derive(Debug, Clone, Copy, PartialEq, Eq, Structural)]
pub enum PlanFault {
    /// A buffer that should enter the GPU is on it already.
    AlreadyOnGpu,
    /// A buffer in shared memory does not occupy whole blocks.
    MisalignedCapacity,
    /// Shared memory cannot hold what has to leave the GPU.
    NotEnoughShm,
}

/// Blocks and buffers on their way through shared memory.
#[verifier::ext_equal]
pub struct Staging {
    /// Blocks free in shared memory.
    pub shm_free: int,
    /// Blocks free in host memory.
    pub host_free: int,
    /// Buffers in shared memory that may be moved on, the next one first.
    pub candidates: Seq<(BufferId, AllocationCapacity)>,
    /// Where buffers are moved on to.
    pub spilled: Seq<(BufferId, BufferLocation)>,
    /// Buffers placed in shared memory by the plan itself, the oldest first, and their blocks.
    pub queue: Seq<(BufferId, u32)>,
}

pub open spec fn capacity_blocks() -> spec_fn((BufferId, AllocationCapacity)) -> int {
    |c: (BufferId, AllocationCapacity)| c.1.0 as int / BLOCK_BYTES as int
}

pub open spec fn queued_blocks() -> spec_fn((BufferId, u32)) -> int {
    |q: (BufferId, u32)| q.1 as int
}

impl Staging {
    /// All blocks of shared memory that the plan disposes of.
    pub open spec fn budget(self) -> int {
        self.shm_free + sum_of(self.candidates, capacity_blocks()) + sum_of(
            self.queue,
            queued_blocks(),
        )
    }

    /// Moves a buffer of `count` blocks on: to host memory where that has room, else to storage.
    pub open spec fn spill(self, id: BufferId, count: int) -> Staging {
        if self.host_free >= count {
            Staging {
                shm_free: self.shm_free + count,
                host_free: self.host_free - count,
                spilled: assoc_put(self.spilled, id, BufferLocation::HostMem),
                ..self
            }
        } else {
            Staging {
                shm_free: self.shm_free + count,
                spilled: assoc_put(self.spilled, id, BufferLocation::Storage),
                ..self
            }
        }
    }

    /// Moves on the oldest buffers that the plan itself placed until they give `need` blocks,
    /// `got` of which are there already.
    pub open spec fn drain(self, need: int, got: int) -> Result<Staging, PlanFault>
        decreases self.queue.len(),
    {
        if got >= need {
            Ok(self)
        } else if self.queue.len() == 0 {
            Err(PlanFault::NotEnoughShm)
        } else {
            let (id, count) = self.queue[0];
            Staging { queue: self.queue.drop_first(), ..self }.spill(id, count as int).drain(
                need,
                got + count,
            )
        }
    }

    /// Moves buffers on until `need` blocks are free: first those that were in shared memory
    /// before, then those that the plan itself placed.
    pub open spec fn make_room(self, need: int) -> Result<Staging, PlanFault>
        decreases self.candidates.len(),
    {
        if self.shm_free >= need {
            Ok(self)
        } else if self.candidates.len() == 0 {
            self.drain(need, 0)
        } else {
            let (id, capacity) = self.candidates[0];
            if capacity.0 % BLOCK_BYTES != 0 {
                Err(PlanFault::MisalignedCapacity)
            } else {
                Staging { candidates: self.candidates.drop_first(), ..self }.spill(
                    id,
                    capacity.0 as int / BLOCK_BYTES as int,
                ).make_room(need)
            }
        }
    }

    /// Places a buffer in shared memory.
    pub open spec fn place(self, id: BufferId) -> Result<Staging, PlanFault> {
        let need = block_count(id.size);
        match self.make_room(need as int) {
            Ok(room) => Ok(
                Staging {
                    shm_free: room.shm_free - need,
                    queue: room.queue.push((id, need as u32)),
                    ..room
                },
            ),
            Err(fault) => Err(fault),
        }
    }

    /// Places buffers in shared memory, one after the other.
    pub open spec fn place_all(self, ids: Seq<BufferId>) -> Result<Staging, PlanFault>
        decreases ids.len(),
    {
        if ids.len() == 0 {
            Ok(self)
        } else {
            match self.place_all(ids.drop_last()) {
                Ok(next) => next.place(ids.last()),
                Err(fault) => Err(fault),
            }
        }
    }
}

/// Draining the queue moves blocks from the queue to the free ones and loses none.
pub proof fn lemma_drain(m: Staging, need: int, got: int)
    requires
        m.shm_free >= 0,
        m.host_free >= 0,
        got >= 0,
        m.drain(need, got) is Ok,
    ensures
        ({
            let r = m.drain(need, got)->Ok_0;
            &&& r.budget() == m.budget()
            &&& r.shm_free - m.shm_free + got >= need
            &&& r.shm_free >= m.shm_free
            &&& 0 <= r.host_free <= m.host_free
            &&& r.candidates == m.candidates
        }),
    decreases m.queue.len(),
{
    if got < need {
        let (id, count) = m.queue[0];
        let next = Staging { queue: m.queue.drop_first(), ..m }.spill(id, count as int);
        lemma_sum_first(m.queue, queued_blocks());
        lemma_drain(next, need, got + count);
    }
}

/// Making room leaves the asked number of blocks free and loses none.
pub proof fn lemma_make_room(m: Staging, need: int)
    requires
        m.shm_free >= 0,
        m.host_free >= 0,
        m.make_room(need) is Ok,
    ensures
        ({
            let r = m.make_room(need)->Ok_0;
            &&& r.budget() == m.budget()
            &&& r.shm_free >= need
            &&& r.shm_free >= 0
            &&& 0 <= r.host_free <= m.host_free
        }),
    decreases m.candidates.len(),
{
    if m.shm_free >= need {
    } else if m.candidates.len() == 0 {
        lemma_drain(m, need, 0);
    } else {
        let (id, capacity) = m.candidates[0];
        let count = capacity.0 as int / BLOCK_BYTES as int;
        let next = Staging { candidates: m.candidates.drop_first(), ..m }.spill(id, count);
        lemma_sum_first(m.candidates, capacity_blocks());
        lemma_make_room(next, need);
    }
}

/// Placing a buffer loses no block: what it occupies is what is no longer free.
pub proof fn lemma_place(m: Staging, id: BufferId)
    requires
        m.shm_free >= 0,
        m.host_free >= 0,
        m.place(id) is Ok,
    ensures
        ({
            let r = m.place(id)->Ok_0;
            &&& r.budget() == m.budget()
            &&& r.shm_free >= 0
            &&& 0 <= r.host_free <= m.host_free
        }),
{
    let need = block_count(id.size);
    lemma_make_room(m, need as int);
    let room = m.make_room(need as int)->Ok_0;
    lemma_sum_push(room.queue, (id, need as u32), queued_blocks());
    assert(need <= u32::MAX);
}

/// The executable counterpart of `Staging`.
pub struct StagingState {
    pub shm_free: u128,
    pub host_free: u128,
    pub candidates: VecDeque<(BufferId, AllocationCapacity)>,
    pub spilled: LocationMap,
    pub queue: VecDeque<(BufferId, u32)>,
}

impl View for StagingState {
    type V = Staging;

    open spec fn view(&self) -> Staging {
        Staging {
            shm_free: self.shm_free as int,
            host_free: self.host_free as int,
            candidates: self.candidates@,
            spilled: self.spilled@,
            queue: self.queue@,
        }
    }
}

impl StagingState {
    pub open spec fn wf(self) -> bool {
        &&& self@.budget() <= u128::MAX
        &&& self.spilled.wf()
    }

    proof fn lemma_free_within_budget(self)
        ensures
            self@.shm_free + sum_of(self@.queue, queued_blocks()) <= self@.budget(),
            self@.shm_free + sum_of(self@.candidates, capacity_blocks()) <= self@.budget(),
            self@.shm_free <= self@.budget(),
    {
        lemma_sum_bounds(self@.queue, queued_blocks(), u32::MAX as int);
        lemma_sum_bounds(self@.candidates, capacity_blocks(), u32::MAX as int);
    }

    fn spill(&mut self, id: BufferId, count: u32)
        requires
            old(self).shm_free + count <= u128::MAX,
            old(self).spilled.wf(),
        ensures
            final(self)@ == old(self)@.spill(id, count as int),
            final(self).spilled.wf(),
    {
        if self.host_free >= count as u128 {
            self.host_free = self.host_free - count as u128;
            self.spilled.insert(id, BufferLocation::HostMem);
        } else {
            self.spilled.insert(id, BufferLocation::Storage);
        }
        self.shm_free = self.shm_free + count as u128;
    }

    fn drain(&mut self, need: u32) -> (done: Result<(), PlanFault>)
        requires
            old(self).wf(),
        ensures
            match old(self)@.drain(need as int, 0) {
                Ok(m) => done is Ok && final(self)@ == m && final(self).wf(),
                Err(fault) => done == Err::<(), PlanFault>(fault),
            },
    {
        let mut got: u64 = 0;
        let ghost start = self@;
        while got < need as u64
            invariant
                start == old(self)@,
                self.wf(),
                got < 0x2_0000_0000,
                start.drain(need as int, 0) == self@.drain(need as int, got as int),
            decreases self.queue@.len(),
        {
            proof {
                self.lemma_free_within_budget();
                if self.queue@.len() > 0 {
                    lemma_sum_first(self.queue@, queued_blocks());
                    lemma_sum_bounds(
                        self.queue@.drop_first(),
                        queued_blocks(),
                        u32::MAX as int,
                    );
                }
            }
            let ghost before = self@;
            match self.queue.pop_front() {
                Some((id, count)) => {
                    assert(self.queue@ =~= before.queue.drop_first());
                    self.spill(id, count);
                    got = got + count as u64;
                },
                None => {
                    return Err(PlanFault::NotEnoughShm);
                },
            }
        }
        Ok(())
    }

    /// Makes room for `need` blocks.
    pub fn make_room(&mut self, need: u32) -> (done: Result<(), PlanFault>)
        requires
            old(self).wf(),
        ensures
            match old(self)@.make_room(need as int) {
                Ok(m) => done is Ok && final(self)@ == m && final(self).wf(),
                Err(fault) => done == Err::<(), PlanFault>(fault),
            },
    {
        let ghost start = self@;
        while self.shm_free < need as u128
            invariant
                start == old(self)@,
                self.wf(),
                start.make_room(need as int) == self@.make_room(need as int),
            decreases self.candidates@.len(),
        {
            proof {
                self.lemma_free_within_budget();
                if self.candidates@.len() > 0 {
                    lemma_sum_first(self.candidates@, capacity_blocks());
                    lemma_sum_bounds(
                        self.candidates@.drop_first(),
                        capacity_blocks(),
                        u32::MAX as int,
                    );
                }
            }
            let ghost before = self@;
            match self.candidates.pop_front() {
                Some((id, capacity)) => {
                    assert(self.candidates@ =~= before.candidates.drop_first());
                    if capacity.0 % BLOCK_BYTES != 0 {
                        return Err(PlanFault::MisalignedCapacity);
                    }
                    self.spill(id, capacity.0 / BLOCK_BYTES);
                },
                None => {
                    return self.drain(need);
                },
            }
        }
        Ok(())
    }

    /// Places a buffer in shared memory.
    pub fn place(&mut self, id: BufferId) -> (done: Result<(), PlanFault>)
        requires
            old(self).wf(),
        ensures
            match old(self)@.place(id) {
                Ok(m) => done is Ok && final(self)@ == m && final(self).wf(),
                Err(fault) => done == Err::<(), PlanFault>(fault),
            },
    {
        let need: u32 = blocks_for(id.size);
        let ghost start = self@;
        match self.make_room(need) {
            Ok(()) => {
                proof {
                    lemma_make_room(start, need as int);
                    lemma_place(start, id);
                }
                self.shm_free = self.shm_free - need as u128;
                self.queue.push_back((id, need));
                Ok(())
            },
            Err(fault) => Err(fault),
        }
    }
}

// Laws.

/// A buffer that is moved on goes to host memory where that has room for it, and takes its blocks
/// there; else it goes to storage. Its blocks of shared memory are free either way. Where other
/// buffers go does not change.
pub proof fn law_host_memory_before_storage(m: Staging, id: BufferId, count: int, other: BufferId)
    ensures
        ({
            let r = m.spill(id, count);
            &&& r.shm_free == m.shm_free + count
            &&& m.host_free >= count ==> crate::assoc::assoc_get(r.spilled, id) == Some(
                BufferLocation::HostMem,
            ) && r.host_free == m.host_free - count
            &&& m.host_free < count ==> crate::assoc::assoc_get(r.spilled, id) == Some(
                BufferLocation::Storage,
            ) && r.host_free == m.host_free
            &&& other != id ==> crate::assoc::assoc_get(r.spilled, other)
                == crate::assoc::assoc_get(m.spilled, other)
            &&& r.candidates == m.candidates && r.queue == m.queue
        }),
{
    crate::assoc::lemma_assoc_put_get(m.spilled, id, BufferLocation::HostMem, other);
    crate::assoc::lemma_assoc_put_get(m.spilled, id, BufferLocation::Storage, other);
    crate::assoc::lemma_assoc_put_get(m.spilled, id, BufferLocation::HostMem, id);
    crate::assoc::lemma_assoc_put_get(m.spilled, id, BufferLocation::Storage, id);
}

/// The blocks of some buffers in shared memory.
pub open spec fn blocks_reserved(list: Seq<(BufferId, AllocationCapacity)>) -> int {
    sum_of(list, |c: (BufferId, AllocationCapacity)| c.1.0 as int / 0x20_0000)
}

/// `n` of the buffers that were in shared memory before are moved on, from the front, and no more
/// than it takes. As long as not all of them are, nothing that the plan itself placed is.
pub open spec fn moved_on_in_order(m: Staging, r: Staging, need: int, n: int) -> bool {
    &&& 0 <= n <= m.candidates.len()
    &&& r.candidates == m.candidates.skip(n)
    &&& n > 0 ==> m.shm_free + blocks_reserved(m.candidates.take(n - 1)) < need
    &&& n < m.candidates.len() ==> r.queue == m.queue && r.shm_free == m.shm_free + blocks_reserved(
        m.candidates.take(n),
    )
}

/// Room is made only as far as it takes: nothing is moved on where enough blocks are free, and else
/// buffers are moved on one after the other until enough are.
pub proof fn law_room_as_needed(m: Staging, need: int)
    requires
        m.make_room(need) is Ok,
    ensures
        m.shm_free >= need ==> m.make_room(need)->Ok_0 == m,
        exists|n: int| #[trigger] moved_on_in_order(m, m.make_room(need)->Ok_0, need, n),
    decreases m.candidates.len(),
{
    let r = m.make_room(need)->Ok_0;
    if m.shm_free >= need {
        assert(m.candidates.skip(0) =~= m.candidates);
        assert(m.candidates.take(0) =~= Seq::<(BufferId, AllocationCapacity)>::empty());
        assert(moved_on_in_order(m, r, need, 0));
    } else if m.candidates.len() == 0 {
        lemma_drain_candidates(m, need, 0);
        assert(m.candidates.skip(0) =~= m.candidates);
        assert(moved_on_in_order(m, r, need, 0));
    } else {
        let (id, capacity) = m.candidates[0];
        let count = capacity.0 as int / BLOCK_BYTES as int;
        let next = Staging { candidates: m.candidates.drop_first(), ..m }.spill(id, count);
        law_room_as_needed(next, need);
        let n = choose|n: int| #[trigger] moved_on_in_order(next, r, need, n);
        assert(next.candidates.skip(n) =~= m.candidates.skip(n + 1));
        assert(m.candidates.take(n + 1).drop_first() =~= next.candidates.take(n));
        lemma_sum_first(
            m.candidates.take(n + 1),
            |c: (BufferId, AllocationCapacity)| c.1.0 as int / 0x20_0000,
        );
        if n > 0 {
            assert(m.candidates.take(n).drop_first() =~= next.candidates.take(n - 1));
            lemma_sum_first(
                m.candidates.take(n),
                |c: (BufferId, AllocationCapacity)| c.1.0 as int / 0x20_0000,
            );
        } else {
            assert(m.candidates.take(0) =~= Seq::<(BufferId, AllocationCapacity)>::empty());
        }
        assert(moved_on_in_order(m, r, need, n + 1));
    }
}

proof fn lemma_drain_candidates(m: Staging, need: int, got: int)
    ensures
        m.drain(need, got) is Ok ==> m.drain(need, got)->Ok_0.candidates == m.candidates,
    decreases m.queue.len(),
{
    if got < need && m.queue.len() > 0 {
        let (id, count) = m.queue[0];
        lemma_drain_candidates(
            Staging { queue: m.queue.drop_first(), ..m }.spill(id, count as int),
            need,
            got + count,
        );
    }
}

/// A buffer that is placed takes the blocks that it needs, and comes last among those that the plan
/// placed.
pub proof fn law_placed_buffer_takes_its_blocks(m: Staging, id: BufferId)
    requires
        m.place(id) is Ok,
        m.shm_free >= 0,
        m.host_free >= 0,
    ensures
        ({
            let r = m.place(id)->Ok_0;
            let blocks = r.queue.last().1;
            &&& r.queue.len() > 0
            &&& r.queue.last().0 == id
            &&& blocks * 0x20_0000 >= id.size
            &&& id.size > 0 ==> (blocks - 1) * 0x20_0000 < id.size
            &&& id.size == 0 ==> blocks == 0
            &&& r.shm_free >= 0
            &&& m.shm_free * 0x20_0000 >= id.size ==> r.shm_free == m.shm_free - blocks
                && r.spilled == m.spilled && r.host_free == m.host_free && r.candidates
                == m.candidates
        }),
{
    crate::ids::law_blocks_hold_the_buffer(id.size);
    lemma_make_room(m, block_count(id.size) as int);
}

/// The blocks of buffers that the plan itself placed.
pub open spec fn blocks_placed(queue: Seq<(BufferId, u32)>) -> int {
    sum_of(queue, |q: (BufferId, u32)| q.1 as int)
}

/// The first `n` buffers that the plan itself placed are moved on, and no more than it takes.
pub open spec fn oldest_moved_on(m: Staging, r: Staging, need: int, got: int, n: int) -> bool {
    &&& 0 <= n <= m.queue.len()
    &&& r.queue == m.queue.skip(n)
    &&& got + blocks_placed(m.queue.take(n)) >= need
    &&& n > 0 ==> got + blocks_placed(m.queue.take(n - 1)) < need
    &&& r.shm_free == m.shm_free + blocks_placed(m.queue.take(n))
}

/// Of what the plan itself placed, the oldest is moved on first, until it gave enough blocks. Where
/// everything together does not give enough, that fails.
pub proof fn law_oldest_is_moved_on_first(m: Staging, need: int, got: int)
    ensures
        m.drain(need, got) is Ok ==> exists|n: int| #[trigger]
            oldest_moved_on(m, m.drain(need, got)->Ok_0, need, got, n),
        m.drain(need, got) is Err <==> got < need && got + blocks_placed(m.queue) < need,
    decreases m.queue.len(),
{
    assert(m.queue.skip(0) =~= m.queue);
    assert(m.queue.take(0) =~= Seq::<(BufferId, u32)>::empty());
    if got >= need {
        assert(m.drain(need, got) == Ok::<Staging, PlanFault>(m));
        assert(oldest_moved_on(m, m.drain(need, got)->Ok_0, need, got, 0));
    } else if m.queue.len() > 0 {
        let (id, count) = m.queue[0];
        let next = Staging { queue: m.queue.drop_first(), ..m }.spill(id, count as int);
        law_oldest_is_moved_on_first(next, need, got + count);
        lemma_placed_first(m.queue);
        lemma_placed_first(next.queue);
        assert(m.drain(need, got) == next.drain(need, got + count));
        assert(next.drain(need, got + count) is Ok ==> exists|n: int| #[trigger]
            oldest_moved_on(next, next.drain(need, got + count)->Ok_0, need, got + count, n));
        if m.drain(need, got) is Ok {
            let r = m.drain(need, got)->Ok_0;
            let n = choose|n: int| #[trigger] oldest_moved_on(next, r, need, got + count, n);
            assert(next.queue.skip(n) =~= m.queue.skip(n + 1));
            assert(m.queue.take(n + 1).drop_first() =~= next.queue.take(n));
            lemma_placed_first(m.queue.take(n + 1));
            if n > 0 {
                assert(m.queue.take(n).drop_first() =~= next.queue.take(n - 1));
                lemma_placed_first(m.queue.take(n));
            }
            assert(oldest_moved_on(m, m.drain(need, got)->Ok_0, need, got, n + 1));
            assert(exists|n: int| #[trigger]
                oldest_moved_on(m, m.drain(need, got)->Ok_0, need, got, n));
        }
    } else {
        assert(m.drain(need, got) is Err);
    }
}

proof fn lemma_placed_first(queue: Seq<(BufferId, u32)>)
    ensures
        blocks_placed(queue) >= 0,
        queue.len() > 0 ==> blocks_placed(queue) == queue[0].1 + blocks_placed(queue.drop_first()),
{
    let blocks = |q: (BufferId, u32)| q.1 as int;
    lemma_sum_bounds(queue, blocks, u32::MAX as int);
    if queue.len() > 0 {
        lemma_sum_first(queue, blocks);
    }
}

/// Where nothing that was in shared memory before is left to be moved on, what the plan itself placed
/// has to give all the blocks that are needed, whatever is free.
pub proof fn law_own_buffers_go_last(m: Staging, need: int)
    requires
        m.candidates.len() == 0,
        m.shm_free < need,
    ensures
        m.make_room(need) is Ok ==> exists|n: int| #[trigger]
            oldest_moved_on(m, m.make_room(need)->Ok_0, need, 0, n),
        m.make_room(need) is Err <==> 0 < need && blocks_placed(m.queue) < need,
{
    law_oldest_is_moved_on_first(m, need, 0);
    assert(m.make_room(need) == m.drain(need, 0));
    if m.make_room(need) is Ok {
        let n = choose|n: int| #[trigger] oldest_moved_on(m, m.drain(need, 0)->Ok_0, need, 0, n);
        assert(oldest_moved_on(m, m.make_room(need)->Ok_0, need, 0, n));
    }
}

} // verus!
