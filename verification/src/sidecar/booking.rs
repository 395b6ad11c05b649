//! Allocations and the handles behind them.
use vstd::prelude::*;
use crate::constant::{HANDLE_NUM, MAX_ALLOCATION_SIZE};
use crate::ids::PhysicalMemoryHandleId;
use crate::shm::{walk, HandleList, PhysicalMemoryHandle};

verus! {

// Chunks.

/// Handles needed for `len` bytes.
pub open spec fn chunk_count(len: int) -> nat {
    ((len + MAX_ALLOCATION_SIZE - 1) / MAX_ALLOCATION_SIZE as int) as nat
}

/// Bytes behind the handle at position `k` of those for `len` bytes: all are as large as can be
/// but the last.
pub open spec fn chunk_size(len: int, k: int) -> int {
    if len - k * MAX_ALLOCATION_SIZE < MAX_ALLOCATION_SIZE {
        len - k * MAX_ALLOCATION_SIZE
    } else {
        MAX_ALLOCATION_SIZE as int
    }
}

/// The generation that follows.
pub open spec fn next_generation(generation: u32) -> u32 {
    if generation == u32::MAX {
        0
    } else {
        (generation + 1) as u32
    }
}

/// The slot at position `k` of `slots`, which hold `len` bytes at `addr`. Each leads back to the
/// one before it.
pub open spec fn chunk_handle(
    slot: PhysicalMemoryHandle,
    addr: u64,
    len: int,
    slots: Seq<u32>,
    k: int,
) -> PhysicalMemoryHandle {
    PhysicalMemoryHandle {
        addr: (addr + k * MAX_ALLOCATION_SIZE) as u64,
        size: chunk_size(len, k) as usize,
        cu_handle: slot.cu_handle,
        alloc_generation: next_generation(slot.alloc_generation),
        next_handle_idx: if k == 0 {
            None
        } else {
            Some(slots[k - 1])
        },
        on_gpu: false,
        valid: true,
    }
}

/// `list` is `before` but for `slots`, which hold the first of the `len` bytes at `addr`.
pub open spec fn holds_chunks(
    list: HandleList,
    before: HandleList,
    addr: u64,
    len: int,
    slots: Seq<u32>,
) -> bool {
    &&& list.handles@.len() == before.handles@.len()
    &&& forall|k: int|
        0 <= k < slots.len() ==> list.handles@[#[trigger] slots[k] as int] == chunk_handle(
            before.handles@[slots[k] as int],
            addr,
            len,
            slots,
            k,
        )
    &&& forall|idx: u32|
        idx < before.handles@.len() && !slots.contains(idx)
            ==> #[trigger] list.handles@[idx as int] == before.handles@[idx as int]
}

/// `list` is `before` with handles taken for `len` bytes at `addr`, of which `last` is the last.
/// Where there are too few, all are taken and there is no last one.
pub open spec fn booked(
    list: HandleList,
    before: HandleList,
    addr: u64,
    len: int,
    last: Option<PhysicalMemoryHandleId>,
) -> bool {
    let free = before.free_slots();
    let n = chunk_count(len) as int;
    match last {
        Some(id) => {
            &&& 0 < n <= free.len()
            &&& holds_chunks(list, before, addr, len, free.take(n))
            &&& list.free_slots() == free.skip(n)
            &&& id.idx == free[n - 1]
            &&& id.alloc_generation == list.handles@[id.idx as int].alloc_generation
        },
        None => {
            &&& free.len() < n
            &&& holds_chunks(list, before, addr, len, free)
            &&& list.free_slots() == Seq::<u32>::empty()
        },
    }
}

/// The slots of a list of free ones are its own, and none occurs twice.
pub proof fn lemma_free_slots_distinct(list: HandleList)
    requires
        list.wf(),
    ensures
        list.links_free(list.free_slots()),
        list.free_slots().no_duplicates(),
        list.free_slots().len() < HANDLE_NUM,
        forall|k: int|
            0 <= k < list.free_slots().len() ==> 1 <= (#[trigger] list.free_slots()[k])
                < HANDLE_NUM && !list.handles@[list.free_slots()[k] as int].valid,
{
    let free = list.free_slots();
    assert(list.links_free(free));
    assert forall|k: int| 0 <= k < free.len() implies 1 <= #[trigger] free[k] < HANDLE_NUM
        && !list.handles@[free[k] as int].valid by {
        assert(!list.handles@[free[k] as int].valid);
    }
    lemma_distinct_len(free, HANDLE_NUM as nat);
}

/// Different numbers from one up to below `n` are fewer than `n`.
proof fn lemma_distinct_len(s: Seq<u32>, n: nat)
    requires
        s.no_duplicates(),
        forall|k: int| 0 <= k < s.len() ==> 1 <= #[trigger] s[k] < n,
    ensures
        s.len() <= n,
        n > 0 ==> s.len() < n,
    decreases n,
{
    if n == 0 {
        if s.len() > 0 {
            assert(s[0] < n);
        }
    } else if s.len() > 0 {
        let top = (n - 1) as u32;
        if n > u32::MAX + 1 {
            lemma_distinct_len(s, (n - 1) as nat);
        } else if s.contains(top) {
            let at = choose|k: int| 0 <= k < s.len() && s[k] == top;
            let rest = s.remove(at);
            assert forall|k: int| 0 <= k < rest.len() implies 1 <= #[trigger] rest[k] < n - 1 by {
                if k < at {
                    assert(rest[k] == s[k]);
                } else {
                    assert(rest[k] == s[k + 1]);
                }
            }
            assert(rest.no_duplicates()) by {
                assert forall|i: int, j: int|
                    0 <= i < rest.len() && 0 <= j < rest.len() && i != j implies rest[i]
                    != rest[j] by {
                    let a = if i < at {
                        i
                    } else {
                        i + 1
                    };
                    let b = if j < at {
                        j
                    } else {
                        j + 1
                    };
                    assert(rest[i] == s[a] && rest[j] == s[b]);
                }
            }
            lemma_distinct_len(rest, (n - 1) as nat);
            assert(1 <= s[at]);
        } else {
            assert forall|k: int| 0 <= k < s.len() implies 1 <= #[trigger] s[k] < n - 1 by {
                assert(s.contains(s[k]));
            }
            lemma_distinct_len(s, (n - 1) as nat);
            if n == 1 {
                assert(1 <= s[0] < n);
            }
        }
    }
}

/// Changing a slot that is in use does not touch the free ones.
pub proof fn lemma_change_in_use(
    before: HandleList,
    after: HandleList,
    idx: u32,
    handle: PhysicalMemoryHandle,
)
    requires
        before.wf(),
        idx < HANDLE_NUM,
        before.handles@[idx as int].valid,
        handle.valid,
        after.handles@ == before.handles@.update(idx as int, handle),
        after.freelist_head == before.freelist_head,
    ensures
        after.wf(),
        after.free_slots() == before.free_slots(),
{
    let free = before.free_slots();
    assert(before.links_free(free));
    assert forall|i: int| 0 <= i < free.len() implies {
        let handle = #[trigger] after.handles@[free[i] as int];
        &&& 1 <= free[i] < HANDLE_NUM
        &&& !handle.valid
        &&& handle.next_handle_idx == Some(
            if i + 1 == free.len() {
                HANDLE_NUM as u32
            } else {
                free[i + 1]
            },
        )
    } by {
        assert(!before.handles@[free[i] as int].valid);
    }
    assert(after.rest_in_use(free)) by {
        reveal(HandleList::rest_in_use);
        assert forall|i: u32| 1 <= i < HANDLE_NUM implies after.handles@[i as int].valid
            || #[trigger] free.contains(i) by {
            assert(before.handles@[i as int].valid || free.contains(i));
        }
    }
    assert(after.links_free(free));
    after.lemma_free_slots(free);
}

/// One more slot holds its chunk.
proof fn lemma_chunk_added(
    before: HandleList,
    taken: HandleList,
    after: HandleList,
    addr: u64,
    len: int,
    free: Seq<u32>,
    k: int,
)
    requires
        free.no_duplicates(),
        0 <= k < free.len(),
        forall|i: int| 0 <= i < free.len() ==> (#[trigger] free[i]) < before.handles@.len(),
        holds_chunks(taken, before, addr, len, free.take(k)),
        after.handles@ == taken.handles@.update(
            free[k] as int,
            chunk_handle(taken.handles@[free[k] as int], addr, len, free, k),
        ),
    ensures
        holds_chunks(after, before, addr, len, free.take(k + 1)),
{
    let slots = free.take(k + 1);
    assert(taken.handles@[free[k] as int] == before.handles@[free[k] as int]) by {
        assert(!free.take(k).contains(free[k]));
    }
    assert forall|i: int| 0 <= i < slots.len() implies after.handles@[#[trigger] slots[i] as int]
        == chunk_handle(before.handles@[slots[i] as int], addr, len, slots, i) by {
        if i < k {
            assert(slots[i] == free.take(k)[i]);
            assert(free[i] != free[k]);
        }
    }
    assert forall|idx: u32| idx < before.handles@.len() && !slots.contains(idx) implies
        #[trigger] after.handles@[idx as int] == before.handles@[idx as int] by {
        assert(slots[k] == free[k]);
        if free.take(k).contains(idx) {
            let i = choose|i: int| 0 <= i < k && free.take(k)[i] == idx;
            assert(slots[i] == idx);
        }
    }
}

/// Takes the first free handle for `size` bytes at `addr`, leading back to `prev`.
fn book_one(list: &mut HandleList, addr: u64, size: usize, prev: Option<u32>) -> (idx: u32)
    requires
        old(list).wf(),
        old(list).free_slots().len() > 0,
    ensures
        final(list).wf(),
        idx == old(list).free_slots()[0],
        final(list).free_slots() == old(list).free_slots().drop_first(),
        final(list).handles@ == old(list).handles@.update(
            idx as int,
            PhysicalMemoryHandle {
                addr,
                size,
                cu_handle: old(list).handles@[idx as int].cu_handle,
                alloc_generation: next_generation(
                    old(list).handles@[idx as int].alloc_generation,
                ),
                next_handle_idx: prev,
                on_gpu: false,
                valid: true,
            },
        ),
{
    let ghost before = *list;
    proof {
        lemma_free_slots_distinct(before);
        assert(1 <= before.free_slots()[0] < HANDLE_NUM);
    }
    let id = list.allocate_handle(addr, size).unwrap();
    let ghost handed = *list;
    if let Some(handle) = list.get_handle_mut(id) {
        handle.next_handle_idx = prev;
    }
    proof {
        lemma_change_in_use(handed, *list, id.idx, list.handles@[id.idx as int]);
    }
    id.idx
}

/// Takes handles for `len` bytes at `addr`, each leading back to the one before it, and returns the
/// last. Where the handles run out, those that were taken stay taken.
pub fn book(list: &mut HandleList, addr: u64, len: usize) -> (last: Option<PhysicalMemoryHandleId>)
    requires
        old(list).wf(),
        0 < len,
        addr + len <= u64::MAX,
    ensures
        final(list).wf(),
        booked(*final(list), *old(list), addr, len as int, last),
{
    let ghost before = *list;
    let ghost free = list.free_slots();
    let mut remaining: usize = len;
    let mut cur_addr: u64 = addr;
    let mut handle_idx: Option<u32> = None;
    let ghost mut k: int = 0;
    proof {
        lemma_free_slots_distinct(before);
        assert(free.take(0) =~= Seq::empty());
        assert(free.skip(0) =~= free);
    }
    while remaining > 0
        invariant
            before == *old(list),
            before.wf(),
            free == before.free_slots(),
            free.no_duplicates(),
            forall|i: int|
                0 <= i < free.len() ==> 1 <= (#[trigger] free[i]) < HANDLE_NUM
                    && !before.handles@[free[i] as int].valid,
            list.wf(),
            0 <= k <= free.len(),
            remaining <= len,
            remaining > 0 ==> k * MAX_ALLOCATION_SIZE == len - remaining,
            remaining == 0 ==> (k - 1) * MAX_ALLOCATION_SIZE < len <= k * MAX_ALLOCATION_SIZE,
            cur_addr == addr + (len - remaining),
            addr + len <= u64::MAX,
            list.free_slots() == free.skip(k),
            holds_chunks(*list, before, addr, len as int, free.take(k)),
            handle_idx == (if k == 0 {
                None
            } else {
                Some(free[k - 1])
            }),
        decreases remaining,
    {
        if list.is_exhausted() {
            proof {
                assert(free.take(k) =~= free);
                assert(chunk_count(len as int) > k) by (nonlinear_arith)
                    requires
                        chunk_count(len as int) == (len + MAX_ALLOCATION_SIZE - 1)
                            / MAX_ALLOCATION_SIZE as int,
                        k * MAX_ALLOCATION_SIZE < len,
                        MAX_ALLOCATION_SIZE == 134217728,
                ;
                assert(list.free_slots() =~= Seq::<u32>::empty());
            }
            return None;
        }
        let alloc_size: usize = if remaining < MAX_ALLOCATION_SIZE {
            remaining
        } else {
            MAX_ALLOCATION_SIZE
        };
        let ghost taken = *list;
        let idx: u32 = book_one(list, cur_addr, alloc_size, handle_idx);
        handle_idx = Some(idx);
        cur_addr = cur_addr + alloc_size as u64;
        remaining = remaining - alloc_size;
        proof {
            assert(free.skip(k)[0] == free[k]);
            assert((k + 1) * MAX_ALLOCATION_SIZE == k * MAX_ALLOCATION_SIZE + MAX_ALLOCATION_SIZE)
                by (nonlinear_arith);
            assert(free.skip(k).drop_first() =~= free.skip(k + 1));
            lemma_chunk_added(before, taken, *list, addr, len as int, free, k);
            k = k + 1;
        }
    }
    proof {
        assert(chunk_count(len as int) == k) by (nonlinear_arith)
            requires
                chunk_count(len as int) == (len + MAX_ALLOCATION_SIZE - 1)
                    / MAX_ALLOCATION_SIZE as int,
                (k - 1) * MAX_ALLOCATION_SIZE < len <= k * MAX_ALLOCATION_SIZE,
                MAX_ALLOCATION_SIZE == 134217728,
        ;
        assert(k > 0) by (nonlinear_arith)
            requires
                0 < len <= k * MAX_ALLOCATION_SIZE,
                MAX_ALLOCATION_SIZE == 134217728,
        ;
        assert(free.take(k)[k - 1] == free[k - 1]);
    }
    match handle_idx {
        Some(idx) => {
            let generation: u32 = list.handles[idx as usize].alloc_generation;
            Some(PhysicalMemoryHandleId::new(generation, idx))
        },
        None => None,
    }
}

// Chains.

/// Slots that each lead back to the one before them, as a chain.
proof fn lemma_linked_back(handles: Seq<PhysicalMemoryHandle>, slots: Seq<u32>, k: int, fuel: nat)
    requires
        0 <= k < slots.len(),
        k < fuel,
        forall|i: int|
            0 <= i < slots.len() ==> (#[trigger] slots[i]) < handles.len()
                && handles[slots[i] as int].next_handle_idx == (if i == 0 {
                None
            } else {
                Some(slots[i - 1])
            }),
    ensures
        walk(handles, Some(slots[k]), fuel) == Some(slots.take(k + 1).reverse()),
    decreases k,
{
    let all = slots.take(k + 1).reverse();
    if k == 0 {
        assert(walk(handles, None, (fuel - 1) as nat) == Some(Seq::<u32>::empty()));
        assert(seq![slots[0]] + Seq::<u32>::empty() =~= all);
    } else {
        lemma_linked_back(handles, slots, k - 1, (fuel - 1) as nat);
        assert(seq![slots[k]] + slots.take(k).reverse() =~= all);
    }
}

/// The chain of the chunks of an allocation: from its last handle back to its first.
pub proof fn lemma_chunks_chain(
    list: HandleList,
    before: HandleList,
    addr: u64,
    len: int,
    slots: Seq<u32>,
)
    requires
        holds_chunks(list, before, addr, len, slots),
        0 < slots.len() <= HANDLE_NUM,
        forall|k: int| 0 <= k < slots.len() ==> (#[trigger] slots[k]) < list.handles@.len(),
    ensures
        list.chain_from(Some(slots.last())) == Some(slots.reverse()),
{
    lemma_linked_back(list.handles@, slots, slots.len() - 1, HANDLE_NUM as nat);
    assert(slots.take(slots.len() as int) =~= slots);
}

/// More steps do not change where a chain leads.
proof fn lemma_walk_fuel(
    handles: Seq<PhysicalMemoryHandle>,
    cur: Option<u32>,
    fuel: nat,
    more: nat,
)
    requires
        walk(handles, cur, fuel) is Some,
        fuel <= more,
    ensures
        walk(handles, cur, more) == walk(handles, cur, fuel),
    decreases fuel,
{
    if let Some(idx) = cur {
        lemma_walk_fuel(
            handles,
            handles[idx as int].next_handle_idx,
            (fuel - 1) as nat,
            (more - 1) as nat,
        );
    }
}

/// From any slot of a chain on, the chain is the rest of it.
proof fn lemma_walk_suffix(handles: Seq<PhysicalMemoryHandle>, cur: Option<u32>, fuel: nat, k: int)
    requires
        walk(handles, cur, fuel) is Some,
        0 <= k < walk(handles, cur, fuel)->0.len(),
    ensures
        walk(handles, Some(walk(handles, cur, fuel)->0[k]), fuel) == Some(
            walk(handles, cur, fuel)->0.skip(k),
        ),
    decreases fuel,
{
    let c = walk(handles, cur, fuel)->0;
    let idx = cur->0;
    let next = handles[idx as int].next_handle_idx;
    let rest = walk(handles, next, (fuel - 1) as nat)->0;
    if k == 0 {
        assert(c.skip(0) =~= c);
    } else {
        lemma_walk_suffix(handles, next, (fuel - 1) as nat, k - 1);
        assert(c[k] == rest[k - 1]);
        assert(c.skip(k) =~= rest.skip(k - 1));
        lemma_walk_fuel(handles, Some(c[k]), (fuel - 1) as nat, fuel);
    }
}

/// A chain that ends visits no slot twice.
pub proof fn lemma_walk_distinct(handles: Seq<PhysicalMemoryHandle>, cur: Option<u32>, fuel: nat)
    requires
        walk(handles, cur, fuel) is Some,
    ensures
        walk(handles, cur, fuel)->0.no_duplicates(),
{
    let c = walk(handles, cur, fuel)->0;
    assert forall|i: int, j: int| 0 <= i < c.len() && 0 <= j < c.len() && i != j implies c[i]
        != c[j] by {
        if c[i] == c[j] {
            lemma_walk_suffix(handles, cur, fuel, i);
            lemma_walk_suffix(handles, cur, fuel, j);
            assert(c.skip(i).len() == c.skip(j).len());
        }
    }
}

/// A chain stays the same as long as the links of its slots do.
pub proof fn lemma_walk_frame(
    a: Seq<PhysicalMemoryHandle>,
    b: Seq<PhysicalMemoryHandle>,
    cur: Option<u32>,
    fuel: nat,
)
    requires
        walk(a, cur, fuel) is Some,
        a.len() == b.len(),
        forall|k: int|
            0 <= k < walk(a, cur, fuel)->0.len()
                ==> b[#[trigger] walk(a, cur, fuel)->0[k] as int].next_handle_idx == a[walk(
                a,
                cur,
                fuel,
            )->0[k] as int].next_handle_idx,
    ensures
        walk(b, cur, fuel) == walk(a, cur, fuel),
    decreases fuel,
{
    if let Some(idx) = cur {
        let c = walk(a, cur, fuel)->0;
        let next = a[idx as int].next_handle_idx;
        let rest = walk(a, next, (fuel - 1) as nat)->0;
        assert(c[0] == idx);
        assert forall|k: int| 0 <= k < rest.len() implies b[#[trigger] rest[k] as int].next_handle_idx
            == a[rest[k] as int].next_handle_idx by {
            assert(rest[k] == c[k + 1]);
        }
        lemma_walk_frame(a, b, next, (fuel - 1) as nat);
    }
}

/// A slot as it is once it was given back.
pub open spec fn freed_handle(
    slot: PhysicalMemoryHandle,
    next_handle_idx: Option<u32>,
) -> PhysicalMemoryHandle {
    PhysicalMemoryHandle { addr: 0, size: 0, next_handle_idx, on_gpu: false, valid: false, ..slot }
}

/// `list` is `before` with the slots `chain` put in front of the free ones, one after the other.
pub open spec fn freed_chain(list: HandleList, before: HandleList, chain: Seq<u32>) -> bool {
    &&& list.handles@.len() == before.handles@.len()
    &&& list.freelist_head == (if chain.len() == 0 {
        before.freelist_head
    } else {
        Some(chain.last())
    })
    &&& forall|k: int|
        0 <= k < chain.len() ==> list.handles@[#[trigger] chain[k] as int] == freed_handle(
            before.handles@[chain[k] as int],
            if k == 0 {
                before.freelist_head
            } else {
                Some(chain[k - 1])
            },
        )
    &&& forall|idx: u32|
        idx < before.handles@.len() && !chain.contains(idx)
            ==> #[trigger] list.handles@[idx as int] == before.handles@[idx as int]
}

/// A handle that is given up, and its size.
pub open spec fn released_handle(before: HandleList) -> spec_fn(u32) -> (
    PhysicalMemoryHandleId,
    usize,
) {
    |idx: u32|
        (
            PhysicalMemoryHandleId {
                alloc_generation: before.handles@[idx as int].alloc_generation,
                idx,
            },
            before.handles@[idx as int].size,
        )
}

/// One more slot was given back.
proof fn lemma_slot_freed(
    before: HandleList,
    mid: HandleList,
    after: HandleList,
    chain: Seq<u32>,
    k: int,
)
    requires
        chain.no_duplicates(),
        0 <= k < chain.len(),
        forall|i: int| 0 <= i < chain.len() ==> (#[trigger] chain[i]) < before.handles@.len(),
        freed_chain(mid, before, chain.take(k)),
        after.freed_from(mid, chain[k]),
    ensures
        freed_chain(after, before, chain.take(k + 1)),
{
    let slots = chain.take(k + 1);
    assert(mid.handles@[chain[k] as int] == before.handles@[chain[k] as int]) by {
        assert(!chain.take(k).contains(chain[k]));
    }
    assert forall|i: int| 0 <= i < slots.len() implies after.handles@[#[trigger] slots[i] as int]
        == freed_handle(
        before.handles@[slots[i] as int],
        if i == 0 {
            before.freelist_head
        } else {
            Some(slots[i - 1])
        },
    ) by {
        if i < k {
            assert(slots[i] == chain.take(k)[i]);
            assert(chain[i] != chain[k]);
        }
    }
    assert forall|idx: u32| idx < before.handles@.len() && !slots.contains(idx) implies
        #[trigger] after.handles@[idx as int] == before.handles@[idx as int] by {
        assert(slots[k] == chain[k]);
        if chain.take(k).contains(idx) {
            let i = choose|i: int| 0 <= i < k && chain.take(k)[i] == idx;
            assert(slots[i] == idx);
        }
    }
}

/// What is given back is free, and is handed out again before anything else, the last first.
pub proof fn lemma_freed_chain_is_free(list: HandleList, before: HandleList, chain: Seq<u32>)
    requires
        before.wf(),
        freed_chain(list, before, chain),
        chain.no_duplicates(),
        forall|k: int|
            0 <= k < chain.len() ==> 1 <= (#[trigger] chain[k]) < HANDLE_NUM
                && before.handles@[chain[k] as int].valid,
    ensures
        list.wf(),
        list.free_slots() == chain.reverse() + before.free_slots(),
{
    lemma_free_slots_distinct(before);
    let free = before.free_slots();
    let back = chain.reverse();
    let n = chain.len() as int;
    let more = back + free;
    assert forall|i: int| 0 <= i < more.len() implies {
        let handle = #[trigger] list.handles@[more[i] as int];
        &&& 1 <= more[i] < HANDLE_NUM
        &&& !handle.valid
        &&& handle.next_handle_idx == Some(
            if i + 1 == more.len() {
                HANDLE_NUM as u32
            } else {
                more[i + 1]
            },
        )
    } by {
        if i < n {
            assert(more[i] == chain[n - 1 - i]);
            if i + 1 < n {
                assert(more[i + 1] == chain[n - 2 - i]);
            } else if free.len() > 0 {
                assert(more[i + 1] == free[0]);
            }
        } else {
            let slot = free[i - n];
            assert(!chain.contains(slot)) by {
                if chain.contains(slot) {
                    let k = choose|k: int| 0 <= k < chain.len() && chain[k] == slot;
                    assert(before.handles@[chain[k] as int].valid);
                }
            }
            assert(list.handles@[slot as int] == before.handles@[slot as int]);
            assert(!before.handles@[free[i - n] as int].valid);
            if i + 1 < more.len() {
                assert(more[i + 1] == free[i + 1 - n]);
            }
        }
    }
    assert forall|i: int, j: int| 0 <= i < j < more.len() implies more[i] != more[j] by {
        if i < n {
            assert(before.handles@[chain[n - 1 - i] as int].valid);
        }
    }
    assert(list.freelist_head == Some(
        if more.len() == 0 {
            HANDLE_NUM as u32
        } else {
            more[0]
        },
    ));
    assert(list.rest_in_use(more)) by {
        reveal(HandleList::rest_in_use);
        assert forall|i: u32| 1 <= i < HANDLE_NUM implies list.handles@[i as int].valid
            || #[trigger] more.contains(i) by {
            assert(before.handles@[i as int].valid || free.contains(i));
            if chain.contains(i) {
                let k = choose|k: int| 0 <= k < chain.len() && chain[k] == i;
                assert(more[n - 1 - k] == i);
            } else {
                assert(list.handles@[i as int] == before.handles@[i as int]);
                if free.contains(i) {
                    let k = choose|k: int| 0 <= k < free.len() && free[k] == i;
                    assert(more[n + k] == i);
                }
            }
        }
    }
    assert(list.links_free(more));
    list.lemma_free_slots(more);
}

/// Gives back all handles of an allocation, from its last on, and says which they were.
pub fn release(list: &mut HandleList, last: u32) -> (freed: Vec<(PhysicalMemoryHandleId, usize)>)
    requires
        old(list).handles@.len() == HANDLE_NUM,
        old(list).chain_from(Some(last)) is Some,
        forall|k: int|
            0 <= k < old(list).chain_from(Some(last))->0.len() ==> 1
                <= #[trigger] old(list).chain_from(Some(last))->0[k],
    ensures
        ({
            let chain = old(list).chain_from(Some(last))->0;
            &&& freed@ == chain.map_values(released_handle(*old(list)))
            &&& freed_chain(*final(list), *old(list), chain)
            &&& old(list).wf() && (forall|k: int|
                0 <= k < chain.len() ==> old(list).handles@[#[trigger] chain[k] as int].valid)
                ==> final(list).wf() && final(list).free_slots() == chain.reverse() + old(
                list,
            ).free_slots()
        }),
{
    let ghost before = *list;
    let slots = list.chain(Some(last)).unwrap();
    let ghost chain = slots@;
    proof {
        crate::shm::lemma_walk_in_range(before.handles@, Some(last), HANDLE_NUM as nat);
        lemma_walk_distinct(before.handles@, Some(last), HANDLE_NUM as nat);
        assert(chain.take(0) =~= Seq::empty());
    }
    let mut freed: Vec<(PhysicalMemoryHandleId, usize)> = Vec::new();
    let mut i: usize = 0;
    while i < slots.len()
        invariant
            before == *old(list),
            before.handles@.len() == HANDLE_NUM,
            chain == slots@,
            chain.no_duplicates(),
            forall|k: int| 0 <= k < chain.len() ==> 1 <= (#[trigger] chain[k]) < HANDLE_NUM,
            i <= slots@.len(),
            freed_chain(*list, before, chain.take(i as int)),
            freed@ == chain.take(i as int).map_values(released_handle(before)),
        decreases slots@.len() - i,
    {
        let ghost mid = *list;
        let index: u32 = slots[i];
        proof {
            assert(!chain.take(i as int).contains(chain[i as int]));
            assert(list.handles@[index as int] == before.handles@[index as int]);
        }
        let handle = list.handles[index as usize];
        freed.push((PhysicalMemoryHandleId::new(handle.alloc_generation, index), handle.size));
        list.free_handle_by_raw_idx(index);
        proof {
            lemma_slot_freed(before, mid, *list, chain, i as int);
            assert(chain.take(i + 1).map_values(released_handle(before)) =~= chain.take(
                i as int,
            ).map_values(released_handle(before)).push(released_handle(before)(chain[i as int])));
        }
        i = i + 1;
    }
    proof {
        assert(chain.take(i as int) =~= chain);
        if before.wf() && (forall|k: int|
            0 <= k < chain.len() ==> before.handles@[#[trigger] chain[k] as int].valid) {
            lemma_freed_chain_is_free(*list, before, chain);
        }
    }
    freed
}

// Laws.

/// The handles of an allocation are as few as can be, each of at most 128 megabytes, and together
/// they have its bytes: all but the last are as large as can be.
pub proof fn law_chunks_cover(len: int, k: int)
    requires
        0 < len,
    ensures
        ({
            let n = chunk_count(len) as int;
            &&& n > 0
            &&& (n - 1) * 0x800_0000 < len <= n * 0x800_0000
            &&& 0 <= k < n - 1 ==> chunk_size(len, k) == 0x800_0000
            &&& chunk_size(len, n - 1) == len - (n - 1) * 0x800_0000
        }),
{
}

/// What was booked: the first free slots are taken, in order. Each is in use, is not on the GPU, has
/// the next part of the bytes, and leads back to the one before it. The last one is told. Others
/// are as they were, and the rest of the free ones is free. Where there is no last one, all free
/// slots together could not hold the bytes.
pub proof fn law_what_is_booked(
    list: HandleList,
    before: HandleList,
    addr: u64,
    len: int,
    last: Option<PhysicalMemoryHandleId>,
    k: int,
    other: u32,
)
    requires
        before.wf(),
        0 < len,
        addr + len <= u64::MAX,
        booked(list, before, addr, len, last),
    ensures
        ({
            let free = before.free_slots();
            &&& last is Some <==> free.len() * 0x800_0000 >= len
            &&& last matches Some(id) ==> ({
                let n = chunk_count(len) as int;
                let slot = free[k];
                let handle = list.handles@[slot as int];
                &&& list.free_slots() == free.skip(n)
                &&& id.idx == free[n - 1]
                &&& id.alloc_generation == list.handles@[id.idx as int].alloc_generation
                &&& 0 <= k < n ==> {
                    &&& handle.valid && !handle.on_gpu
                    &&& handle.addr == addr + k * 0x800_0000
                    &&& handle.size == (if len - k * 0x800_0000 < 0x800_0000 {
                        len - k * 0x800_0000
                    } else {
                        0x800_0000
                    })
                    &&& handle.next_handle_idx == (if k == 0 {
                        None
                    } else {
                        Some(free[k - 1])
                    })
                    &&& handle.alloc_generation != before.handles@[slot as int].alloc_generation
                }
                &&& other < before.handles@.len() && before.handles@[other as int].valid
                    ==> list.handles@[other as int] == before.handles@[other as int]
            })
        }),
{
    let free = before.free_slots();
    let n = chunk_count(len) as int;
    lemma_free_slots_distinct(before);
    law_chunks_cover(len, k);
    if last is Some {
        let taken = free.take(n);
        if 0 <= k < n {
            assert(taken[k] == free[k]);
            assert(k > 0 ==> taken[k - 1] == free[k - 1]);
            assert(0 <= k * 0x800_0000 < len);
        }
        if other < before.handles@.len() && before.handles@[other as int].valid {
            assert(!taken.contains(other));
        }
        assert(n * 0x800_0000 <= free.len() * 0x800_0000);
    } else {
        assert(free.len() * 0x800_0000 <= (n - 1) * 0x800_0000);
    }
}

} // verus!
