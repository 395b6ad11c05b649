//! The allocation tables that a process shares with the daemon.
use std::collections::hash_map::DefaultHasher;
use std::hash::Hasher;
use vstd::prelude::*;
use crate::constant::{HANDLE_NUM, MAX_GPUS};
use crate::ids::PhysicalMemoryHandleId;
use crate::shm_vec::ShmVec;
use crate::sums::sum_of;
use crate::sync::IpcMutex;

verus! {

/// One physical allocation on a device.
#[derive(Debug, Clone, Copy, PartialEq, Eq, PartialOrd, Ord, Hash)]
pub struct PhysicalMemoryHandle {
    pub addr: u64,
    pub size: usize,
    /// The driver's handle.
    pub cu_handle: Option<u64>,
    /// Counts how often the slot was handed out, to tell its allocations apart.
    pub alloc_generation: u32,
    /// The next free slot, or the next slot of the same allocation.
    pub next_handle_idx: Option<u32>,
    pub on_gpu: bool,
    pub valid: bool,
}

/// One allocation of the application: a range of addresses and the first of its handles.
#[derive(Debug, Clone, Copy, PartialEq, Eq, PartialOrd, Ord, Hash, Structural)]
pub struct AllocationEntry {
    pub addr: u64,
    pub len: usize,
    pub handle_idx: PhysicalMemoryHandleId,
}

impl Default for AllocationEntry {
    fn default() -> (e: Self)
        ensures
            e == (AllocationEntry {
                addr: 0,
                len: 0,
                handle_idx: PhysicalMemoryHandleId { alloc_generation: u32::MAX, idx: u32::MAX },
            }),
    {
        AllocationEntry {
            addr: 0,
            len: 0,
            handle_idx: PhysicalMemoryHandleId::new(u32::MAX, u32::MAX),
        }
    }
}

/// A slot that was never handed out.
pub open spec fn blank_handle(next_handle_idx: Option<u32>) -> PhysicalMemoryHandle {
    PhysicalMemoryHandle {
        addr: 0,
        size: 0,
        cu_handle: None,
        alloc_generation: 0,
        next_handle_idx,
        on_gpu: false,
        valid: false,
    }
}

/// The slots reached from `cur` by following the links, where the links stay within the list and
/// end after at most `fuel` slots.
pub open spec fn walk(handles: Seq<PhysicalMemoryHandle>, cur: Option<u32>, fuel: nat) -> Option<
    Seq<u32>,
>
    decreases fuel,
{
    match cur {
        None => Some(Seq::empty()),
        Some(idx) => if idx >= handles.len() || fuel == 0 {
            None
        } else {
            match walk(handles, handles[idx as int].next_handle_idx, (fuel - 1) as nat) {
                None => None,
                Some(rest) => Some(seq![idx] + rest),
            }
        },
    }
}

pub open spec fn on_gpu_size(handles: Seq<PhysicalMemoryHandle>) -> spec_fn(u32) -> int {
    |idx: u32|
        if handles[idx as int].on_gpu {
            handles[idx as int].size as int
        } else {
            0
        }
}

pub open spec fn off_gpu_size(handles: Seq<PhysicalMemoryHandle>) -> spec_fn(u32) -> int {
    |idx: u32|
        if handles[idx as int].on_gpu {
            0
        } else {
            handles[idx as int].size as int
        }
}

/// Slots for physical allocations, the free ones linked to each other.
#[derive(Debug)]
pub struct HandleList {
    pub handles: Vec<PhysicalMemoryHandle>,
    pub freelist_head: Option<u32>,
}

impl HandleList {
    /// The links from the head visit the slots `free` in order and then leave the list. All other
    /// slots, but for slot zero, are in use.
    pub open spec fn links_free(self, free: Seq<u32>) -> bool {
        &&& self.handles@.len() == HANDLE_NUM
        &&& self.freelist_head == Some(
            if free.len() == 0 {
                HANDLE_NUM as u32
            } else {
                free[0]
            },
        )
        &&& forall|i: int|
            0 <= i < free.len() ==> {
                let handle = #[trigger] self.handles@[free[i] as int];
                &&& 1 <= free[i] < HANDLE_NUM
                &&& !handle.valid
                &&& handle.next_handle_idx == Some(
                    if i + 1 == free.len() {
                        HANDLE_NUM as u32
                    } else {
                        free[i + 1]
                    },
                )
            }
        &&& forall|i: int, j: int| 0 <= i < j < free.len() ==> free[i] != free[j]
        &&& self.rest_in_use(free)
    }

    /// Every slot but slot zero is in use or one of `free`.
    #[verifier::opaque]
    pub open spec fn rest_in_use(self, free: Seq<u32>) -> bool {
        forall|i: u32|
            1 <= i < HANDLE_NUM ==> self.handles@[i as int].valid || #[trigger] free.contains(i)
    }

    /// The free slots are linked, none of them is in use, and every other slot but slot zero is.
    pub open spec fn wf(self) -> bool {
        exists|free: Seq<u32>| self.links_free(free)
    }

    /// The free slots, in the order in which they are handed out.
    pub open spec fn free_slots(self) -> Seq<u32> {
        choose|free: Seq<u32>| self.links_free(free)
    }

    /// The slots reached from `start`.
    pub open spec fn chain_from(self, start: Option<u32>) -> Option<Seq<u32>> {
        walk(self.handles@, start, HANDLE_NUM as nat)
    }

    /// There is only one way to follow the links.
    pub proof fn lemma_free_slots(self, free: Seq<u32>)
        requires
            self.links_free(free),
        ensures
            self.free_slots() == free,
    {
        let other = self.free_slots();
        assert(self.links_free(other));
        let n = if free.len() < other.len() {
            free.len()
        } else {
            other.len()
        };
        self.lemma_same_links(free, other, n);
        self.lemma_link_end(free, other);
        self.lemma_link_end(other, free);
        assert(free =~= other);
    }

    proof fn lemma_same_links(self, a: Seq<u32>, b: Seq<u32>, n: nat)
        requires
            self.links_free(a),
            self.links_free(b),
            n <= a.len(),
            n <= b.len(),
        ensures
            forall|i: int| 0 <= i < n ==> a[i] == b[i],
        decreases n,
    {
        if n > 0 {
            self.lemma_same_links(a, b, (n - 1) as nat);
            if n > 1 {
                assert(a[n - 2] == b[n - 2]);
                assert(self.handles@[a[n - 2] as int].next_handle_idx == Some(a[n - 1]));
                assert(self.handles@[b[n - 2] as int].next_handle_idx == Some(b[n - 1]));
            }
        }
    }

    /// Links that end cannot also go on.
    proof fn lemma_link_end(self, a: Seq<u32>, b: Seq<u32>)
        requires
            self.links_free(a),
            self.links_free(b),
            forall|i: int| 0 <= i < a.len() && i < b.len() ==> a[i] == b[i],
        ensures
            b.len() <= a.len(),
    {
        let n = a.len() as int;
        if n < b.len() {
            assert(!self.handles@[b[n] as int].valid);
            if n > 0 {
                assert(self.handles@[a[n - 1] as int].next_handle_idx == Some(HANDLE_NUM as u32));
                assert(self.handles@[b[n - 1] as int].next_handle_idx == Some(b[n]));
            }
        }
    }

    /// No slot was ever handed out: all but slot zero are free, in order.
    pub open spec fn fresh(self) -> bool {
        &&& self.handles@ == Seq::new(
            HANDLE_NUM as nat,
            |i: int|
                blank_handle(
                    if i == 0 {
                        None
                    } else {
                        Some((i + 1) as u32)
                    },
                ),
        )
        &&& self.freelist_head == Some(1u32)
    }

    /// A list whose slots, but for the unused slot zero, are all free.
    pub fn new() -> (list: Self)
        ensures
            list.wf(),
            list.fresh(),
            list.free_slots() == Seq::new((HANDLE_NUM - 1) as nat, |k: int| (k + 1) as u32),
    {
        let mut handles: Vec<PhysicalMemoryHandle> = Vec::new();
        let mut i: usize = 0;
        while i < HANDLE_NUM
            invariant
                i <= HANDLE_NUM,
                handles@.len() == i,
                forall|k: int|
                    0 <= k < i ==> #[trigger] handles@[k] == blank_handle(
                        if k == 0 {
                            None
                        } else {
                            Some((k + 1) as u32)
                        },
                    ),
            decreases HANDLE_NUM - i,
        {
            handles.push(
                PhysicalMemoryHandle {
                    addr: 0,
                    size: 0,
                    cu_handle: None,
                    alloc_generation: 0,
                    next_handle_idx: if i == 0 {
                        None
                    } else {
                        Some(i as u32 + 1)
                    },
                    on_gpu: false,
                    valid: false,
                },
            );
            i = i + 1;
        }
        let list = HandleList { handles, freelist_head: Some(1) };
        proof {
            let free = Seq::new((HANDLE_NUM - 1) as nat, |k: int| (k + 1) as u32);
            assert(list.rest_in_use(free)) by {
                reveal(HandleList::rest_in_use);
                assert forall|i: u32| 1 <= i < HANDLE_NUM implies list.handles@[i as int].valid
                    || #[trigger] free.contains(i) by {
                    assert(free[i - 1] == i);
                }
            }
            assert(list.links_free(free));
            list.lemma_free_slots(free);
            assert(list.handles@ =~= Seq::new(
                HANDLE_NUM as nat,
                |i: int|
                    blank_handle(
                        if i == 0 {
                            None
                        } else {
                            Some((i + 1) as u32)
                        },
                    ),
            ));
        }
        list
    }

    /// Forgets everything.
    pub fn reinit(&mut self)
        ensures
            final(self).wf(),
            final(self).fresh(),
            final(self).free_slots() == Seq::new((HANDLE_NUM - 1) as nat, |k: int| (k + 1) as u32),
    {
        *self = HandleList::new();
    }

    /// Whether every slot is in use.
    pub fn is_exhausted(&self) -> (exhausted: bool)
        requires
            self.wf(),
        ensures
            exhausted == (self.freelist_head == Some(HANDLE_NUM as u32)),
            exhausted == (self.free_slots().len() == 0),
    {
        proof {
            let free = self.free_slots();
            assert(self.links_free(free));
            if free.len() > 0 {
                assert(!self.handles@[free[0] as int].valid);
            }
        }
        match self.freelist_head {
            Some(idx) => idx == HANDLE_NUM as u32,
            None => false,
        }
    }

    /// `self` is `before` with its first free slot, `id`, handed out for `size` bytes at `addr`.
    pub open spec fn allocated_from(
        self,
        before: HandleList,
        addr: u64,
        size: usize,
        id: PhysicalMemoryHandleId,
    ) -> bool {
        let slot = before.handles@[id.idx as int];
        &&& before.freelist_head == Some(id.idx)
        &&& 1 <= id.idx < HANDLE_NUM
        &&& !slot.valid
        &&& id.alloc_generation == if slot.alloc_generation == u32::MAX {
            0
        } else {
            slot.alloc_generation + 1
        }
        &&& self.handles@ == before.handles@.update(
            id.idx as int,
            PhysicalMemoryHandle {
                addr,
                size,
                alloc_generation: id.alloc_generation,
                next_handle_idx: None,
                on_gpu: false,
                valid: true,
                ..slot
            },
        )
        &&& self.freelist_head == slot.next_handle_idx
    }

    /// Hands the first free slot out for `size` bytes at `addr`.
    pub fn allocate_handle(&mut self, addr: u64, size: usize) -> (id: Option<
        PhysicalMemoryHandleId,
    >)
        requires
            old(self).wf(),
            old(self).freelist_head != Some(HANDLE_NUM as u32),
        ensures
            final(self).wf(),
            id matches Some(id) && final(self).allocated_from(*old(self), addr, size, id),
            final(self).free_slots() == old(self).free_slots().drop_first(),
    {
        let ghost free = choose|free: Seq<u32>| self.links_free(free);
        let ghost before = *self;
        if let Some(idx) = self.freelist_head {
            assert(free.len() > 0 && self.handles@[free[0] as int] == self.handles@[idx as int]);
            let slot = self.handles[idx as usize];
            self.freelist_head = slot.next_handle_idx;
            let alloc_generation: u32 = slot.alloc_generation.wrapping_add(1);
            self.handles.set(
                idx as usize,
                PhysicalMemoryHandle {
                    addr,
                    size,
                    cu_handle: slot.cu_handle,
                    alloc_generation,
                    next_handle_idx: None,
                    on_gpu: false,
                    valid: true,
                },
            );
            proof {
                let rest = free.drop_first();
                assert forall|i: int| 0 <= i < rest.len() implies {
                    let handle = #[trigger] self.handles@[rest[i] as int];
                    &&& 1 <= rest[i] < HANDLE_NUM
                    &&& !handle.valid
                    &&& handle.next_handle_idx == Some(
                        if i + 1 == rest.len() {
                            HANDLE_NUM as u32
                        } else {
                            rest[i + 1]
                        },
                    )
                } by {
                    assert(rest[i] == free[i + 1]);
                    assert(free[i + 1] != free[0]);
                    assert(before.handles@[free[i + 1] as int] == self.handles@[rest[i] as int]);
                }
                assert(self.rest_in_use(rest)) by {
                    reveal(HandleList::rest_in_use);
                    assert forall|i: u32| 1 <= i < HANDLE_NUM implies self.handles@[i as int].valid
                        || #[trigger] rest.contains(i) by {
                        if i != idx {
                            assert(before.handles@[i as int] == self.handles@[i as int]);
                            if free.contains(i) {
                                let k = choose|k: int| 0 <= k < free.len() && free[k] == i;
                                assert(rest[k - 1] == i);
                            }
                        }
                    }
                }
                assert(self.links_free(rest));
                self.lemma_free_slots(rest);
                before.lemma_free_slots(free);
            }
            Some(PhysicalMemoryHandleId::new(alloc_generation, idx))
        } else {
            None
        }
    }

    /// Gives a slot back.
    pub fn free_handle(&mut self, idx: PhysicalMemoryHandleId)
        requires
            1 <= idx.idx < HANDLE_NUM,
            old(self).handles@.len() == HANDLE_NUM,
        ensures
            final(self).freed_from(*old(self), idx.idx),
            old(self).wf() && old(self).handles@[idx.idx as int].valid ==> final(self).wf()
                && final(self).free_slots() == seq![idx.idx] + old(self).free_slots(),
    {
        self.free_handle_by_raw_idx(idx.idx);
    }

    /// `self` is `before` with slot `idx` put in front of the free ones. Its generation and its
    /// driver handle stay.
    pub open spec fn freed_from(self, before: HandleList, idx: u32) -> bool {
        let slot = before.handles@[idx as int];
        &&& self.handles@ == before.handles@.update(
            idx as int,
            PhysicalMemoryHandle {
                addr: 0,
                size: 0,
                next_handle_idx: before.freelist_head,
                on_gpu: false,
                valid: false,
                ..slot
            },
        )
        &&& self.freelist_head == Some(idx)
    }

    /// Gives a slot back.
    pub fn free_handle_by_raw_idx(&mut self, idx: u32)
        requires
            1 <= idx < HANDLE_NUM,
            old(self).handles@.len() == HANDLE_NUM,
        ensures
            final(self).freed_from(*old(self), idx),
            old(self).wf() && old(self).handles@[idx as int].valid ==> final(self).wf()
                && final(self).free_slots() == seq![idx] + old(self).free_slots(),
    {
        let ghost before = *self;
        let slot = self.handles[idx as usize];
        let next_handle_idx = self.freelist_head;
        self.handles.set(
            idx as usize,
            PhysicalMemoryHandle {
                addr: 0,
                size: 0,
                cu_handle: slot.cu_handle,
                alloc_generation: slot.alloc_generation,
                next_handle_idx,
                on_gpu: false,
                valid: false,
            },
        );
        self.freelist_head = Some(idx);
        proof {
            if before.wf() && slot.valid {
                let free = choose|free: Seq<u32>| before.links_free(free);
                let more = seq![idx] + free;
                assert forall|i: int| 0 <= i < free.len() implies free[i] != idx by {
                    assert(!before.handles@[free[i] as int].valid);
                }
                assert forall|i: int| 0 <= i < more.len() implies {
                    let handle = #[trigger] self.handles@[more[i] as int];
                    &&& 1 <= more[i] < HANDLE_NUM
                    &&& !handle.valid
                    &&& handle.next_handle_idx == Some(
                        if i + 1 == more.len() {
                            HANDLE_NUM as u32
                        } else {
                            more[i + 1]
                        },
                    )
                } by {
                    if i > 0 {
                        assert(more[i] == free[i - 1]);
                        assert(before.handles@[free[i - 1] as int]
                            == self.handles@[more[i] as int]);
                    }
                }
                assert(self.rest_in_use(more)) by {
                    reveal(HandleList::rest_in_use);
                    assert forall|i: u32| 1 <= i < HANDLE_NUM implies self.handles@[i as int].valid
                        || #[trigger] more.contains(i) by {
                        if i == idx {
                            assert(more[0] == i);
                        } else {
                            assert(before.handles@[i as int] == self.handles@[i as int]);
                            if free.contains(i) {
                                let k = choose|k: int| 0 <= k < free.len() && free[k] == i;
                                assert(more[k + 1] == i);
                            }
                        }
                    }
                }
                assert(self.links_free(more));
                self.lemma_free_slots(more);
                before.lemma_free_slots(free);
            }
        }
    }

    pub fn get_handle(&self, idx: PhysicalMemoryHandleId) -> (handle: Option<&PhysicalMemoryHandle>)
        requires
            self.handles@.len() == HANDLE_NUM,
        ensures
            match handle {
                Some(handle) => idx.idx < HANDLE_NUM && *handle == self.handles@[idx.idx as int],
                None => idx.idx >= HANDLE_NUM,
            },
    {
        self.get_handle_by_raw_idx(idx.idx)
    }

    /// The slot `idx`, whether it is in use or not.
    pub fn get_handle_by_raw_idx(&self, idx: u32) -> (handle: Option<&PhysicalMemoryHandle>)
        requires
            self.handles@.len() == HANDLE_NUM,
        ensures
            match handle {
                Some(handle) => idx < HANDLE_NUM && *handle == self.handles@[idx as int],
                None => idx >= HANDLE_NUM,
            },
    {
        if idx as usize >= HANDLE_NUM {
            return None;
        }
        Some(&self.handles[idx as usize])
    }

    pub fn get_handle_mut(&mut self, idx: PhysicalMemoryHandleId) -> (handle: Option<
        &mut PhysicalMemoryHandle,
    >)
        requires
            old(self).handles@.len() == HANDLE_NUM,
        ensures
            final(self).freelist_head == old(self).freelist_head,
            match handle {
                Some(handle) => idx.idx < HANDLE_NUM && *handle
                    == old(self).handles@[idx.idx as int] && final(self).handles@ == old(
                    self,
                ).handles@.update(idx.idx as int, *final(handle)),
                None => idx.idx >= HANDLE_NUM && final(self).handles@ == old(self).handles@,
            },
    {
        self.get_handle_by_raw_idx_mut(idx.idx)
    }

    /// The slot `idx`, to be changed in place.
    pub fn get_handle_by_raw_idx_mut(&mut self, idx: u32) -> (handle: Option<
        &mut PhysicalMemoryHandle,
    >)
        requires
            old(self).handles@.len() == HANDLE_NUM,
        ensures
            final(self).freelist_head == old(self).freelist_head,
            match handle {
                Some(handle) => idx < HANDLE_NUM && *handle == old(self).handles@[idx as int]
                    && final(self).handles@ == old(self).handles@.update(
                    idx as int,
                    *final(handle),
                ),
                None => idx >= HANDLE_NUM && final(self).handles@ == old(self).handles@,
            },
    {
        if idx as usize >= HANDLE_NUM {
            return None;
        }
        Some(&mut self.handles[idx as usize])
    }

    /// The slots reached from `start`; none where the links leave the list or never end.
    pub fn chain(&self, start: Option<u32>) -> (slots: Option<Vec<u32>>)
        requires
            self.handles@.len() == HANDLE_NUM,
        ensures
            match self.chain_from(start) {
                Some(c) => slots is Some && slots->0@ == c,
                None => slots is None,
            },
    {
        let mut slots: Vec<u32> = Vec::new();
        let mut cur: Option<u32> = start;
        let mut fuel: usize = HANDLE_NUM;
        while cur.is_some()
            invariant
                self.handles@.len() == HANDLE_NUM,
                fuel <= HANDLE_NUM,
                match walk(self.handles@, cur, fuel as nat) {
                    Some(rest) => self.chain_from(start) == Some(slots@ + rest),
                    None => self.chain_from(start) is None,
                },
            decreases fuel,
        {
            let idx: u32 = cur.unwrap();
            if idx as usize >= HANDLE_NUM || fuel == 0 {
                return None;
            }
            let ghost next = self.handles@[idx as int].next_handle_idx;
            let ghost seen = slots@;
            slots.push(idx);
            cur = self.handles[idx as usize].next_handle_idx;
            fuel = fuel - 1;
            proof {
                if let Some(rest) = walk(self.handles@, next, fuel as nat) {
                    assert(seen + (seq![idx] + rest) =~= slots@ + rest);
                }
            }
        }
        proof {
            assert(slots@ + Seq::<u32>::empty() =~= slots@);
        }
        Some(slots)
    }

    /// Bytes of the handles reached from `handle_idx`: those on the GPU and the others.
    pub fn memory_usage(&self, handle_idx: PhysicalMemoryHandleId) -> (bytes: (usize, usize))
        requires
            self.handles@.len() == HANDLE_NUM,
            self.chain_from(Some(handle_idx.idx)) is Some,
            ({
                let c = self.chain_from(Some(handle_idx.idx))->0;
                &&& sum_of(c, on_gpu_size(self.handles@)) <= usize::MAX
                &&& sum_of(c, off_gpu_size(self.handles@)) <= usize::MAX
            }),
        ensures
            ({
                let c = self.chain_from(Some(handle_idx.idx))->0;
                &&& bytes.0 == sum_of(c, on_gpu_size(self.handles@))
                &&& bytes.1 == sum_of(c, off_gpu_size(self.handles@))
            }),
    {
        let ghost on = on_gpu_size(self.handles@);
        let ghost off = off_gpu_size(self.handles@);
        let slots = self.chain(Some(handle_idx.idx)).unwrap();
        proof {
            lemma_walk_in_range(self.handles@, Some(handle_idx.idx), HANDLE_NUM as nat);
        }
        let mut on_gpu: usize = 0;
        let mut not_on_gpu: usize = 0;
        let mut i: usize = 0;
        while i < slots.len()
            invariant
                self.handles@.len() == HANDLE_NUM,
                i <= slots@.len(),
                on == on_gpu_size(self.handles@),
                off == off_gpu_size(self.handles@),
                forall|k: int| 0 <= k < slots@.len() ==> #[trigger] slots@[k] < HANDLE_NUM,
                on_gpu == sum_of(slots@.take(i as int), on),
                not_on_gpu == sum_of(slots@.take(i as int), off),
                sum_of(slots@, on) <= usize::MAX,
                sum_of(slots@, off) <= usize::MAX,
            decreases slots@.len() - i,
        {
            proof {
                lemma_prefix_sum(slots@, i as int, on, usize::MAX as int);
                lemma_prefix_sum(slots@, i as int, off, usize::MAX as int);
            }
            let handle = self.handles[slots[i] as usize];
            if handle.on_gpu {
                on_gpu = on_gpu + handle.size;
            } else {
                not_on_gpu = not_on_gpu + handle.size;
            }
            i = i + 1;
        }
        proof {
            assert(slots@.take(i as int) =~= slots@);
        }
        (on_gpu, not_on_gpu)
    }
}

/// The allocations of one device and the handles behind them.
#[derive(Debug)]
pub struct AllocationTable {
    pub entry: ShmVec<AllocationEntry, 8192>,
    pub handle_list: HandleList,
}

impl AllocationTable {
    pub open spec fn wf(self) -> bool {
        &&& self.entry.wf()
        &&& self.handle_list.wf()
    }

    /// Nothing is allocated and nothing ever was.
    pub open spec fn fresh(self) -> bool {
        &&& self.entry@.len() == 0
        &&& self.handle_list.fresh()
    }

    pub fn new() -> (table: Self)
        ensures
            table.wf(),
            table.fresh(),
    {
        AllocationTable { entry: ShmVec::new(), handle_list: HandleList::new() }
    }

    /// Forgets everything.
    pub fn reinit(&mut self)
        ensures
            final(self).wf(),
            final(self).fresh(),
    {
        self.entry.reinit();
        self.handle_list.reinit();
    }
}

/// Bytes that the tables of all devices take in shared memory, where they lie as plain arrays.
pub const SHM_STRUCT_SIZE: u32 = 17301768;

/// Why a region of shared memory cannot hold the tables.
#[derive(Debug, Clone, Copy, PartialEq, Eq, Structural)]
pub enum ShmError {
    RegionTooSmall,
}

/// The tables that one process shares with the daemon, one for each of its devices.
#[derive(Debug)]
pub struct Shm {
    pub all_len: u32,
    pub alloc_tables: Vec<IpcMutex<AllocationTable>>,
}

/// What hashing the characters of a string feeds to a hasher.
pub uninterp spec fn str_hash_writes(s: Seq<char>) -> Seq<Seq<u8>>;

/// `str::hash` with a `DefaultHasher`: what is fed to the hasher depends on the string alone.
#[verifier::external_body]
fn hash_str(s: &str, state: &mut DefaultHasher)
    ensures
        final(state)@ == old(state)@ + str_hash_writes(s@),
{
    std::hash::Hash::hash(s, state)
}

/// The hash of a region's name.
pub open spec fn region_hash_of(name: Seq<char>) -> u64 {
    <DefaultHasher as vstd::std_specs::hash::DefaultHasherAdditionalSpecFns>::spec_finish(
        str_hash_writes(name),
    )
}

/// The hash of a region's name. It is the same in every process.
pub fn region_hash(name: &str) -> (hash: u64)
    ensures
        hash == region_hash_of(name@),
{
    let mut state = DefaultHasher::new();
    hash_str(name, &mut state);
    assert(state@ =~= str_hash_writes(name@));
    state.finish()
}

/// The number of the lock of device `i` in a region whose name has the hash `hash`.
pub open spec fn lock_id_of(hash: u64, i: int) -> int {
    (hash * MAX_GPUS) % 0x1_0000_0000_0000_0000 + i
}

/// The number of the lock of device `i` in a region whose name has the hash `hash`.
pub fn lock_id(hash: u64, i: usize) -> (id: u64)
    requires
        i < MAX_GPUS,
    ensures
        id == lock_id_of(hash, i as int),
{
    proof {
        lemma_lock_base(hash);
    }
    hash.wrapping_mul(MAX_GPUS as u64) + i as u64
}

proof fn lemma_lock_base(hash: u64)
    ensures
        (hash * MAX_GPUS) % 0x1_0000_0000_0000_0000 == MAX_GPUS * (hash % 0x2000_0000_0000_0000),
        (hash * MAX_GPUS) % 0x1_0000_0000_0000_0000 <= 0xffff_ffff_ffff_fff8,
{
    let low = hash % 0x2000_0000_0000_0000;
    assert((hash * 8) % 0x1_0000_0000_0000_0000 == 8 * low) by (nonlinear_arith)
        requires
            low == hash % 0x2000_0000_0000_0000,
    ;
}

/// The locks of a region have different numbers.
pub proof fn law_lock_ids_distinct(hash: u64, i: int, j: int)
    requires
        0 <= i < MAX_GPUS,
        0 <= j < MAX_GPUS,
        lock_id_of(hash, i) == lock_id_of(hash, j),
    ensures
        i == j,
{
}

/// The locks of two regions have different numbers, as long as the hashes of the names differ in
/// their lower 61 bits.
pub proof fn law_lock_ids_distinct_across_regions(a: u64, b: u64, i: int, j: int)
    requires
        a % 0x2000_0000_0000_0000 != b % 0x2000_0000_0000_0000,
        0 <= i < MAX_GPUS,
        0 <= j < MAX_GPUS,
    ensures
        lock_id_of(a, i) != lock_id_of(b, j),
{
    lemma_lock_base(a);
    lemma_lock_base(b);
}

impl Shm {
    pub open spec fn wf(self) -> bool {
        self.alloc_tables@.len() == MAX_GPUS && forall|i: int|
            0 <= i < MAX_GPUS ==> #[trigger] self.alloc_tables@[i].inner.wf()
    }

    /// Lays fresh tables out in a region of `len` bytes.
    pub fn init_at(name: &str, len: u32) -> (shm: Result<Shm, ShmError>)
        ensures
            match shm {
                Ok(shm) => {
                    &&& len >= SHM_STRUCT_SIZE
                    &&& shm.wf()
                    &&& shm.all_len == len
                    &&& forall|i: int|
                        0 <= i < MAX_GPUS ==> {
                            let table = #[trigger] shm.alloc_tables@[i];
                            &&& table.id == lock_id_of(region_hash_of(name@), i)
                            &&& table.ref_count == 1
                            &&& table.inner.fresh()
                        }
                },
                Err(e) => len < SHM_STRUCT_SIZE && e == ShmError::RegionTooSmall,
            },
    {
        if len < SHM_STRUCT_SIZE {
            return Err(ShmError::RegionTooSmall);
        }
        let hash: u64 = region_hash(name);
        let mut alloc_tables: Vec<IpcMutex<AllocationTable>> = Vec::new();
        let mut i: usize = 0;
        while i < MAX_GPUS
            invariant
                i <= MAX_GPUS,
                alloc_tables@.len() == i,
                forall|k: int|
                    0 <= k < i ==> {
                        let table = #[trigger] alloc_tables@[k];
                        &&& table.id == lock_id_of(hash, k)
                        &&& table.ref_count == 1
                        &&& table.inner.fresh()
                        &&& table.inner.wf()
                    },
            decreases MAX_GPUS - i,
        {
            alloc_tables.push(
                IpcMutex { id: lock_id(hash, i), ref_count: 1, inner: AllocationTable::new() },
            );
            i = i + 1;
        }
        Ok(Shm { all_len: len, alloc_tables })
    }

    /// `self` is `before` with `ref_count` applied to the count of every table.
    pub open spec fn recounted(self, before: Shm, ref_count: spec_fn(u8) -> int) -> bool {
        &&& self.all_len == before.all_len
        &&& self.alloc_tables@.len() == before.alloc_tables@.len()
        &&& forall|i: int|
            0 <= i < self.alloc_tables@.len() ==> {
                let table = #[trigger] self.alloc_tables@[i];
                &&& table.id == before.alloc_tables@[i].id
                &&& table.inner == before.alloc_tables@[i].inner
                &&& table.ref_count == ref_count(before.alloc_tables@[i].ref_count)
            }
    }

    /// Notes that one more process has mapped the region, `len` bytes of it.
    pub fn open_copy_at(&mut self, len: u32) -> (opened: Result<(), ShmError>)
        ensures
            match opened {
                Ok(_) => len >= SHM_STRUCT_SIZE && final(self).recounted(
                    *old(self),
                    |count: u8| (count + 1) % 256,
                ),
                Err(e) => len < SHM_STRUCT_SIZE && e == ShmError::RegionTooSmall && *final(self)
                    == *old(self),
            },
    {
        if len < SHM_STRUCT_SIZE {
            return Err(ShmError::RegionTooSmall);
        }
        let ghost before = *self;
        let mut i: usize = 0;
        while i < self.alloc_tables.len()
            invariant
                i <= self.alloc_tables@.len(),
                self.all_len == before.all_len,
                self.alloc_tables@.len() == before.alloc_tables@.len(),
                forall|k: int|
                    0 <= k < self.alloc_tables@.len() ==> {
                        let table = #[trigger] self.alloc_tables@[k];
                        &&& table.id == before.alloc_tables@[k].id
                        &&& table.inner == before.alloc_tables@[k].inner
                        &&& table.ref_count == if k < i {
                            (before.alloc_tables@[k].ref_count + 1) % 256
                        } else {
                            before.alloc_tables@[k].ref_count as int
                        }
                    },
            decreases self.alloc_tables@.len() - i,
        {
            self.alloc_tables[i].increase_ref_count();
            i = i + 1;
        }
        Ok(())
    }

    /// Notes that one process gives the region up.
    pub fn close(&mut self)
        ensures
            final(self).recounted(*old(self), |count: u8| (count + 255) % 256),
    {
        let ghost before = *self;
        let mut i: usize = 0;
        while i < self.alloc_tables.len()
            invariant
                i <= self.alloc_tables@.len(),
                self.all_len == before.all_len,
                self.alloc_tables@.len() == before.alloc_tables@.len(),
                forall|k: int|
                    0 <= k < self.alloc_tables@.len() ==> {
                        let table = #[trigger] self.alloc_tables@[k];
                        &&& table.id == before.alloc_tables@[k].id
                        &&& table.inner == before.alloc_tables@[k].inner
                        &&& table.ref_count == if k < i {
                            (before.alloc_tables@[k].ref_count + 255) % 256
                        } else {
                            before.alloc_tables@[k].ref_count as int
                        }
                    },
            decreases self.alloc_tables@.len() - i,
        {
            self.alloc_tables[i].close();
            i = i + 1;
        }
    }
}

/// Handing a slot out and giving it back leaves the same slots free in the same order. All that
/// stays of the allocation is the slot's generation.
pub proof fn law_allocate_then_free(
    before: HandleList,
    during: HandleList,
    after: HandleList,
    addr: u64,
    size: usize,
    id: PhysicalMemoryHandleId,
)
    requires
        before.wf(),
        during.allocated_from(before, addr, size, id),
        after.freed_from(during, id.idx),
    ensures
        after.wf(),
        after.free_slots() == before.free_slots(),
        after.freelist_head == before.freelist_head,
        after.handles@ == before.handles@.update(
            id.idx as int,
            PhysicalMemoryHandle {
                addr: 0,
                size: 0,
                alloc_generation: id.alloc_generation,
                on_gpu: false,
                ..before.handles@[id.idx as int]
            },
        ),
{
    let free = before.free_slots();
    assert(before.links_free(free));
    assert(after.handles@ =~= before.handles@.update(
        id.idx as int,
        PhysicalMemoryHandle {
            addr: 0,
            size: 0,
            alloc_generation: id.alloc_generation,
            on_gpu: false,
            ..before.handles@[id.idx as int]
        },
    ));
    assert forall|i: int| 0 <= i < free.len() implies {
        let handle = #[trigger] after.handles@[free[i] as int];
        &&& 1 <= free[i] < HANDLE_NUM
        &&& !handle.valid
        &&& handle.next_handle_idx == Some(
            if i + 1 == free.len() {
                HANDLE_NUM as u32
            } else {
                free[i + 1]
            },
        )
    } by {
        assert(!before.handles@[free[i] as int].valid);
    }
    assert(after.rest_in_use(free)) by {
        reveal(HandleList::rest_in_use);
        assert forall|i: u32| 1 <= i < HANDLE_NUM implies after.handles@[i as int].valid
            || #[trigger] free.contains(i) by {
            assert(before.handles@[i as int].valid || free.contains(i));
        }
    }
    assert(after.links_free(free));
    after.lemma_free_slots(free);
}

/// Slots in use from slot one up to below slot `n`.
pub open spec fn in_use(handles: Seq<PhysicalMemoryHandle>, n: int) -> int
    decreases n,
{
    if n <= 1 {
        0
    } else {
        in_use(handles, n - 1) + if handles[n - 1].valid {
            1int
        } else {
            0
        }
    }
}

proof fn lemma_in_use(handles: Seq<PhysicalMemoryHandle>, n: int)
    requires
        1 <= n,
        forall|i: int| 1 <= i < n ==> (#[trigger] handles[i]).valid,
    ensures
        in_use(handles, n) == n - 1,
    decreases n,
{
    if n > 1 {
        lemma_in_use(handles, n - 1);
        assert(handles[n - 1].valid);
    }
}

/// As long as fewer slots are in use than there are, a slot can be handed out.
pub proof fn law_handles_last(list: HandleList)
    requires
        list.wf(),
        in_use(list.handles@, HANDLE_NUM as int) < HANDLE_NUM - 1,
    ensures
        list.free_slots().len() > 0,
        list.freelist_head != Some(HANDLE_NUM as u32),
{
    let free = list.free_slots();
    assert(list.links_free(free));
    reveal(HandleList::rest_in_use);
    if free.len() == 0 {
        assert forall|i: int| 1 <= i < HANDLE_NUM implies (#[trigger] list.handles@[i]).valid by {
            assert(!free.contains(i as u32));
        }
        lemma_in_use(list.handles@, HANDLE_NUM as int);
    } else {
        assert(!list.handles@[free[0] as int].valid);
    }
}

/// Every slot but slot zero is either in use or free, and never both.
pub proof fn law_slot_is_in_use_or_free(list: HandleList, idx: u32)
    requires
        list.wf(),
        1 <= idx < HANDLE_NUM,
    ensures
        list.handles@[idx as int].valid != list.free_slots().contains(idx),
{
    let free = list.free_slots();
    assert(list.links_free(free));
    if free.contains(idx) {
        let k = choose|k: int| 0 <= k < free.len() && free[k] == idx;
        assert(!list.handles@[free[k] as int].valid);
    }
    reveal(HandleList::rest_in_use);
}

/// A slot that is handed out again right after it was given back has another generation, so that
/// a stale id is told from a new one.
pub proof fn law_generation_tells_reuse(
    before: HandleList,
    first: HandleList,
    between: HandleList,
    second: HandleList,
    a: PhysicalMemoryHandleId,
    b: PhysicalMemoryHandleId,
    addr: u64,
    size: usize,
    other_addr: u64,
    other_size: usize,
)
    requires
        before.wf(),
        first.allocated_from(before, addr, size, a),
        between.freed_from(first, a.idx),
        second.allocated_from(between, other_addr, other_size, b),
    ensures
        b.idx == a.idx,
        b.alloc_generation != a.alloc_generation,
{
    law_allocate_then_free(before, first, between, addr, size, a);
}

/// A slot that is in use is never handed out, and stays as it is while others are.
pub proof fn law_slots_in_use_stay(
    before: HandleList,
    after: HandleList,
    addr: u64,
    size: usize,
    id: PhysicalMemoryHandleId,
    idx: u32,
)
    requires
        before.wf(),
        after.allocated_from(before, addr, size, id),
        idx < before.handles@.len(),
        before.handles@[idx as int].valid,
    ensures
        id.idx != idx,
        after.handles@[idx as int] == before.handles@[idx as int],
{
}

/// Every slot of a chain is in the list.
pub proof fn lemma_walk_in_range(
    handles: Seq<PhysicalMemoryHandle>,
    cur: Option<u32>,
    fuel: nat,
)
    requires
        walk(handles, cur, fuel) is Some,
    ensures
        forall|k: int|
            0 <= k < walk(handles, cur, fuel)->0.len() ==> #[trigger] walk(
                handles,
                cur,
                fuel,
            )->0[k] < handles.len(),
    decreases fuel,
{
    if let Some(idx) = cur {
        let next = handles[idx as int].next_handle_idx;
        lemma_walk_in_range(handles, next, (fuel - 1) as nat);
        let rest = walk(handles, next, (fuel - 1) as nat)->0;
        let all = walk(handles, cur, fuel)->0;
        assert forall|k: int| 0 <= k < all.len() implies #[trigger] all[k] < handles.len() by {
            if k > 0 {
                assert(all[k] == rest[k - 1]);
            }
        }
    }
}

/// The sum up to and including position `i` is the next partial sum and is at most the whole.
pub proof fn lemma_prefix_sum<T>(s: Seq<T>, i: int, f: spec_fn(T) -> int, top: int)
    requires
        0 <= i < s.len(),
        forall|k: int| 0 <= k < s.len() ==> 0 <= f(#[trigger] s[k]) <= top,
    ensures
        sum_of(s.take(i + 1), f) == sum_of(s.take(i), f) + f(s[i]),
        0 <= sum_of(s.take(i), f),
        sum_of(s.take(i + 1), f) <= sum_of(s, f),
{
    assert(s.take(i + 1).drop_last() =~= s.take(i));
    assert(s =~= s.take(i + 1) + s.skip(i + 1));
    crate::sums::lemma_sum_append(s.take(i + 1), s.skip(i + 1), f);
    crate::sums::lemma_sum_bounds(s.take(i), f, top);
    crate::sums::lemma_sum_bounds(s.skip(i + 1), f, top);
}

/// What is used by the handles of an allocation adds up: the bytes on the GPU are those of the slots
/// there, and with the bytes elsewhere they are those of all slots.
pub proof fn law_usage_adds_up(handles: Seq<PhysicalMemoryHandle>, chain: Seq<u32>)
    ensures
        sum_of(chain, on_gpu_size(handles)) + sum_of(chain, off_gpu_size(handles)) == sum_of(
            chain,
            |idx: u32| handles[idx as int].size as int,
        ),
        sum_of(chain, on_gpu_size(handles)) == sum_of(
            chain.filter(|idx: u32| handles[idx as int].on_gpu),
            |idx: u32| handles[idx as int].size as int,
        ),
    decreases chain.len(),
{
    let there = |idx: u32| handles[idx as int].on_gpu;
    let size = |idx: u32| handles[idx as int].size as int;
    if chain.len() > 0 {
        let rest = chain.drop_last();
        law_usage_adds_up(handles, rest);
        crate::sorting::lemma_filter_push(rest, chain.last(), there);
        assert(rest.push(chain.last()) =~= chain);
        crate::sums::lemma_sum_push(rest.filter(there), chain.last(), size);
    } else {
        assert(chain.filter(there).len() == 0) by {
            reveal(Seq::filter);
        }
    }
}

/// A slot that was handed out is in use for the bytes it was asked for, is not on the GPU yet, and
/// the next free one takes its place; one that was given back is the next to be handed out.
pub proof fn law_slots_change_hands(
    before: HandleList,
    after: HandleList,
    addr: u64,
    size: usize,
    id: PhysicalMemoryHandleId,
    idx: u32,
)
    requires
        idx < before.handles@.len(),
    ensures
        after.allocated_from(before, addr, size, id) && id.idx < before.handles@.len() ==> {
            let handle = after.handles@[id.idx as int];
            &&& handle.valid && !handle.on_gpu
            &&& handle.addr == addr && handle.size == size
            &&& handle.alloc_generation == id.alloc_generation
            &&& before.freelist_head == Some(id.idx)
            &&& after.freelist_head == before.handles@[id.idx as int].next_handle_idx
        },
        after.freed_from(before, idx) ==> {
            let handle = after.handles@[idx as int];
            &&& !handle.valid && !handle.on_gpu
            &&& after.freelist_head == Some(idx)
            &&& handle.next_handle_idx == before.freelist_head
            &&& handle.alloc_generation == before.handles@[idx as int].alloc_generation
        },
{
}

} // verus!
