//! The allocation table of a device: what the application allocated and which handles back it.
use vstd::prelude::*;
use crate::constant::{HANDLE_NUM, MAX_ALLOCATION_SIZE};
use crate::ids::PhysicalMemoryHandleId;
use crate::shm::{
    off_gpu_size, on_gpu_size, AllocationEntry, AllocationTable, HandleList, PhysicalMemoryHandle,
};
use crate::sums::{lemma_sum_push, sum_of};
use crate::sync::IpcMutex;
use super::booking::{
    book, booked, chunk_count, chunk_handle, chunk_size, freed_chain, holds_chunks,
    lemma_chunks_chain, lemma_free_slots_distinct, lemma_freed_chain_is_free, lemma_walk_distinct,
    lemma_walk_frame, release, released_handle,
};

verus! {

/// The handles behind an allocation, the last first.
pub open spec fn chain_of(list: HandleList, e: AllocationEntry) -> Seq<u32> {
    list.chain_from(Some(e.handle_idx.idx))->0
}

/// The handles behind `e` are in use and hold its bytes, without a gap.
pub open spec fn backs(list: HandleList, e: AllocationEntry) -> bool {
    let c = chain_of(list, e);
    let n = chunk_count(e.len as int);
    &&& list.chain_from(Some(e.handle_idx.idx)) is Some
    &&& 0 < e.len
    &&& e.addr + e.len <= u64::MAX
    &&& c.len() == n
    &&& forall|k: int|
        0 <= k < c.len() ==> {
            let handle = list.handles@[#[trigger] c[k] as int];
            &&& 1 <= c[k] < HANDLE_NUM
            &&& handle.valid
            &&& handle.addr == e.addr + (n - 1 - k) * MAX_ALLOCATION_SIZE
            &&& handle.size == chunk_size(e.len as int, n - 1 - k)
        }
    &&& list.handles@[e.handle_idx.idx as int].alloc_generation == e.handle_idx.alloc_generation
}

/// No handle is behind both allocations.
pub open spec fn apart(list: HandleList, e: AllocationEntry, f: AllocationEntry) -> bool {
    forall|a: int, b: int|
        0 <= a < chain_of(list, e).len() && 0 <= b < chain_of(list, f).len() ==> #[trigger] chain_of(
            list,
            e,
        )[a] != #[trigger] chain_of(list, f)[b]
}

impl AllocationTable {
    /// Every allocation has its bytes, and none shares them with another.
    pub open spec fn consistent(self) -> bool {
        &&& self.wf()
        &&& forall|i: int|
            0 <= i < self.entry@.len() ==> backs(self.handle_list, #[trigger] self.entry@[i])
        &&& forall|i: int, j: int|
            0 <= i < j < self.entry@.len() ==> apart(
                self.handle_list,
                #[trigger] self.entry@[i],
                #[trigger] self.entry@[j],
            )
    }

    /// The table could take `e` up.
    pub open spec fn pending(self, e: AllocationEntry) -> bool {
        &&& self.consistent()
        &&& backs(self.handle_list, e)
        &&& forall|i: int|
            0 <= i < self.entry@.len() ==> apart(self.handle_list, #[trigger] self.entry@[i], e)
    }
}

/// The handle is the same, but its data may lie elsewhere.
pub open spec fn same_but_place(a: PhysicalMemoryHandle, b: PhysicalMemoryHandle) -> bool {
    b == PhysicalMemoryHandle { cu_handle: b.cu_handle, on_gpu: b.on_gpu, ..a }
}

/// The handles are the same, but their data may lie elsewhere.
pub open spec fn relocated(a: HandleList, b: HandleList) -> bool {
    &&& a.freelist_head == b.freelist_head
    &&& a.handles@.len() == b.handles@.len()
    &&& forall|i: int|
        0 <= i < a.handles@.len() ==> same_but_place(a.handles@[i], #[trigger] b.handles@[i])
}

/// What is behind an allocation stays there as long as its handles stay.
pub proof fn lemma_backs_frame(a: HandleList, b: HandleList, e: AllocationEntry)
    requires
        backs(a, e),
        a.handles@.len() == HANDLE_NUM,
        b.handles@.len() == HANDLE_NUM,
        forall|k: int|
            0 <= k < chain_of(a, e).len() ==> same_but_place(
                a.handles@[#[trigger] chain_of(a, e)[k] as int],
                b.handles@[chain_of(a, e)[k] as int],
            ),
    ensures
        backs(b, e),
        chain_of(b, e) == chain_of(a, e),
{
    let start = Some(e.handle_idx.idx);
    let c = chain_of(a, e);
    assert forall|k: int| 0 <= k < c.len() implies b.handles@[#[trigger] c[k] as int].next_handle_idx
        == a.handles@[c[k] as int].next_handle_idx by {
        assert(same_but_place(a.handles@[c[k] as int], b.handles@[c[k] as int]));
    }
    lemma_walk_frame(a.handles@, b.handles@, start, HANDLE_NUM as nat);
    assert(chunk_count(e.len as int) > 0) by (nonlinear_arith)
        requires
            e.len > 0,
            chunk_count(e.len as int) == (e.len + MAX_ALLOCATION_SIZE - 1)
                / MAX_ALLOCATION_SIZE as int,
            MAX_ALLOCATION_SIZE == 134217728,
    ;
    assert(c[0] == e.handle_idx.idx);
    assert forall|k: int| 0 <= k < c.len() implies {
        let handle = b.handles@[#[trigger] c[k] as int];
        let n = chunk_count(e.len as int);
        &&& 1 <= c[k] < HANDLE_NUM
        &&& handle.valid
        &&& handle.addr == e.addr + (n - 1 - k) * MAX_ALLOCATION_SIZE
        &&& handle.size == chunk_size(e.len as int, n - 1 - k)
    } by {
        assert(same_but_place(a.handles@[c[k] as int], b.handles@[c[k] as int]));
    }
}

/// A table stays consistent as long as the handles behind its allocations stay.
proof fn lemma_consistent_frame(a: AllocationTable, b: AllocationTable)
    requires
        a.consistent(),
        b.wf(),
        b.entry@ == a.entry@,
        forall|i: int, k: int|
            0 <= i < a.entry@.len() && 0 <= k < chain_of(a.handle_list, a.entry@[i]).len()
                ==> same_but_place(
                a.handle_list.handles@[#[trigger] chain_of(a.handle_list, a.entry@[i])[k] as int],
                b.handle_list.handles@[chain_of(a.handle_list, a.entry@[i])[k] as int],
            ),
    ensures
        b.consistent(),
        forall|i: int|
            0 <= i < a.entry@.len() ==> chain_of(b.handle_list, #[trigger] a.entry@[i]) == chain_of(
                a.handle_list,
                a.entry@[i],
            ),
{
    assert(a.handle_list.links_free(a.handle_list.free_slots()));
    assert(b.handle_list.links_free(b.handle_list.free_slots()));
    assert forall|i: int| 0 <= i < a.entry@.len() implies backs(
        b.handle_list,
        #[trigger] a.entry@[i],
    ) && chain_of(b.handle_list, a.entry@[i]) == chain_of(a.handle_list, a.entry@[i]) by {
        lemma_backs_frame(a.handle_list, b.handle_list, a.entry@[i]);
    }
    assert forall|i: int, j: int| 0 <= i < j < b.entry@.len() implies apart(
        b.handle_list,
        #[trigger] b.entry@[i],
        #[trigger] b.entry@[j],
    ) by {
        assert(apart(a.handle_list, a.entry@[i], a.entry@[j]));
    }
}

/// Moving data between the GPU and elsewhere leaves a table consistent.
pub proof fn law_moving_data_keeps_tables(a: AllocationTable, b: AllocationTable)
    requires
        a.consistent(),
        b.entry@ == a.entry@,
        relocated(a.handle_list, b.handle_list),
    ensures
        b.consistent(),
        b.handle_list.free_slots() == a.handle_list.free_slots(),
        forall|e: AllocationEntry| a.pending(e) ==> #[trigger] b.pending(e),
{
    lemma_relocated_free(a.handle_list, b.handle_list);
    lemma_consistent_frame(a, b);
    assert forall|e: AllocationEntry| a.pending(e) implies #[trigger] b.pending(e) by {
        lemma_backs_frame(a.handle_list, b.handle_list, e);
        assert forall|i: int| 0 <= i < b.entry@.len() implies apart(
            b.handle_list,
            #[trigger] b.entry@[i],
            e,
        ) by {
            assert(apart(a.handle_list, a.entry@[i], e));
        }
    }
}

proof fn lemma_relocated_free(a: HandleList, b: HandleList)
    requires
        a.wf(),
        relocated(a, b),
    ensures
        b.wf(),
        b.free_slots() == a.free_slots(),
{
    lemma_free_slots_distinct(a);
    let free = a.free_slots();
    assert forall|i: int| 0 <= i < free.len() implies {
        let handle = #[trigger] b.handles@[free[i] as int];
        &&& 1 <= free[i] < HANDLE_NUM
        &&& !handle.valid
        &&& handle.next_handle_idx == Some(
            if i + 1 == free.len() {
                HANDLE_NUM as u32
            } else {
                free[i + 1]
            },
        )
    } by {
        assert(!a.handles@[free[i] as int].valid);
        assert(same_but_place(a.handles@[free[i] as int], b.handles@[free[i] as int]));
    }
    assert(b.rest_in_use(free)) by {
        reveal(HandleList::rest_in_use);
        assert forall|i: u32| 1 <= i < HANDLE_NUM implies b.handles@[i as int].valid
            || #[trigger] free.contains(i) by {
            assert(same_but_place(a.handles@[i as int], b.handles@[i as int]));
            assert(a.handles@[i as int].valid || free.contains(i));
        }
    }
    assert(b.links_free(free));
    b.lemma_free_slots(free);
}

/// Slots in use are untouched by booking.
proof fn lemma_booking_frame(
    a: AllocationTable,
    list: HandleList,
    addr: u64,
    len: int,
    slots: Seq<u32>,
)
    requires
        a.consistent(),
        holds_chunks(list, a.handle_list, addr, len, slots),
        forall|k: int|
            0 <= k < slots.len() ==> (#[trigger] slots[k]) < HANDLE_NUM
                && !a.handle_list.handles@[slots[k] as int].valid,
    ensures
        forall|i: int, k: int|
            0 <= i < a.entry@.len() && 0 <= k < chain_of(a.handle_list, a.entry@[i]).len() ==> {
                let slot = #[trigger] chain_of(a.handle_list, a.entry@[i])[k];
                &&& !slots.contains(slot)
                &&& list.handles@[slot as int] == a.handle_list.handles@[slot as int]
            },
{
    assert(a.handle_list.links_free(a.handle_list.free_slots()));
    assert forall|i: int, k: int|
        0 <= i < a.entry@.len() && 0 <= k < chain_of(a.handle_list, a.entry@[i]).len() implies {
        let slot = #[trigger] chain_of(a.handle_list, a.entry@[i])[k];
        &&& !slots.contains(slot)
        &&& list.handles@[slot as int] == a.handle_list.handles@[slot as int]
    } by {
        assert(backs(a.handle_list, a.entry@[i]));
        let slot = chain_of(a.handle_list, a.entry@[i])[k];
        if slots.contains(slot) {
            let j = choose|j: int| 0 <= j < slots.len() && slots[j] == slot;
            assert(!a.handle_list.handles@[slots[j] as int].valid);
        }
    }
}

/// Chunks in freshly taken slots are what is behind the new allocation.
proof fn lemma_chunks_back(
    list: HandleList,
    before: HandleList,
    e: AllocationEntry,
    slots: Seq<u32>,
)
    requires
        before.handles@.len() == HANDLE_NUM,
        0 < e.len,
        e.addr + e.len <= u64::MAX,
        slots.len() == chunk_count(e.len as int),
        0 < slots.len() <= HANDLE_NUM,
        forall|k: int| 0 <= k < slots.len() ==> 1 <= (#[trigger] slots[k]) < HANDLE_NUM,
        holds_chunks(list, before, e.addr, e.len as int, slots),
        e.handle_idx.idx == slots.last(),
        e.handle_idx.alloc_generation == list.handles@[slots.last() as int].alloc_generation,
    ensures
        backs(list, e),
        chain_of(list, e) == slots.reverse(),
{
    lemma_chunks_chain(list, before, e.addr, e.len as int, slots);
    let c = slots.reverse();
    let n = slots.len() as int;
    assert forall|k: int| 0 <= k < c.len() implies {
        let handle = list.handles@[#[trigger] c[k] as int];
        &&& 1 <= c[k] < HANDLE_NUM
        &&& handle.valid
        &&& handle.addr == e.addr + (n - 1 - k) * MAX_ALLOCATION_SIZE
        &&& handle.size == chunk_size(e.len as int, n - 1 - k)
    } by {
        let j = n - 1 - k;
        assert(c[k] == slots[j]);
        assert(list.handles@[slots[j] as int] == chunk_handle(
            before.handles@[slots[j] as int],
            e.addr,
            e.len as int,
            slots,
            j,
        ));
        assert(0 < e.len - j * MAX_ALLOCATION_SIZE && 0 <= j * MAX_ALLOCATION_SIZE)
            by (nonlinear_arith)
            requires
                0 <= j < n,
                n == (e.len + MAX_ALLOCATION_SIZE - 1) / MAX_ALLOCATION_SIZE as int,
                MAX_ALLOCATION_SIZE == 134217728,
        ;
    }
}

/// Takes handles for `len` bytes at `addr`. What comes back is the allocation, which is not in the
/// table yet; nothing comes back where the handles ran out.
pub fn book_entry(table: &mut AllocationTable, addr: u64, len: usize) -> (entry: Option<
    AllocationEntry,
>)
    requires
        old(table).consistent(),
        0 < len,
        addr + len <= u64::MAX,
    ensures
        final(table).consistent(),
        final(table).entry@ == old(table).entry@,
        match entry {
            Some(e) => {
                &&& e.addr == addr
                &&& e.len == len
                &&& booked(
                    final(table).handle_list,
                    old(table).handle_list,
                    addr,
                    len as int,
                    Some(e.handle_idx),
                )
                &&& final(table).pending(e)
            },
            None => booked(
                final(table).handle_list,
                old(table).handle_list,
                addr,
                len as int,
                None,
            ),
        },
{
    let ghost before = *table;
    let last = book(&mut table.handle_list, addr, len);
    let ghost after = *table;
    let ghost free = before.handle_list.free_slots();
    let ghost n = chunk_count(len as int) as int;
    proof {
        lemma_free_slots_distinct(before.handle_list);
        assert(after.handle_list.links_free(after.handle_list.free_slots()));
    }
    match last {
        Some(id) => {
            let entry = AllocationEntry { addr, len, handle_idx: id };
            proof {
                let slots = free.take(n);
                lemma_booking_frame(before, after.handle_list, addr, len as int, slots);
                assert forall|i: int, k: int|
                    0 <= i < before.entry@.len() && 0 <= k < chain_of(
                        before.handle_list,
                        before.entry@[i],
                    ).len() implies same_but_place(
                    before.handle_list.handles@[#[trigger] chain_of(
                        before.handle_list,
                        before.entry@[i],
                    )[k] as int],
                    after.handle_list.handles@[chain_of(
                        before.handle_list,
                        before.entry@[i],
                    )[k] as int],
                ) by {}
                lemma_consistent_frame(before, after);
                assert(slots.last() == free[n - 1]);
                lemma_chunks_back(after.handle_list, before.handle_list, entry, slots);
                assert forall|i: int| 0 <= i < after.entry@.len() implies apart(
                    after.handle_list,
                    #[trigger] after.entry@[i],
                    entry,
                ) by {
                    let c = chain_of(after.handle_list, after.entry@[i]);
                    let d = chain_of(after.handle_list, entry);
                    assert forall|a: int, b: int| 0 <= a < c.len() && 0 <= b < d.len() implies
                        #[trigger] c[a] != #[trigger] d[b] by {
                        assert(d[b] == slots[n - 1 - b]);
                        assert(!slots.contains(chain_of(before.handle_list, before.entry@[i])[a]));
                    }
                }
            }
            Some(entry)
        },
        None => {
            proof {
                lemma_booking_frame(before, after.handle_list, addr, len as int, free);
                assert forall|i: int, k: int|
                    0 <= i < before.entry@.len() && 0 <= k < chain_of(
                        before.handle_list,
                        before.entry@[i],
                    ).len() implies same_but_place(
                    before.handle_list.handles@[#[trigger] chain_of(
                        before.handle_list,
                        before.entry@[i],
                    )[k] as int],
                    after.handle_list.handles@[chain_of(
                        before.handle_list,
                        before.entry@[i],
                    )[k] as int],
                ) by {}
                lemma_consistent_frame(before, after);
            }
            None
        },
    }
}

/// Takes an allocation up into the table. Where the table is full, its handles stay in use all the
/// same.
pub fn admit_entry(table: &mut AllocationTable, entry: AllocationEntry) -> (admitted: bool)
    requires
        old(table).pending(entry),
    ensures
        final(table).consistent(),
        final(table).handle_list == old(table).handle_list,
        admitted == (old(table).entry@.len() < 8192),
        final(table).entry@ == (if admitted {
            old(table).entry@.push(entry)
        } else {
            old(table).entry@
        }),
{
    table.entry.push(entry).is_ok()
}

/// Gives the handles of an allocation back that is in no table.
pub fn cancel_entry(table: &mut AllocationTable, entry: AllocationEntry)
    requires
        old(table).pending(entry),
    ensures
        final(table).consistent(),
        final(table).entry@ == old(table).entry@,
        freed_chain(
            final(table).handle_list,
            old(table).handle_list,
            chain_of(old(table).handle_list, entry),
        ),
        final(table).handle_list.free_slots() == chain_of(old(table).handle_list, entry).reverse()
            + old(table).handle_list.free_slots(),
{
    let ghost before = *table;
    proof {
        assert(before.handle_list.links_free(before.handle_list.free_slots()));
    }
    let _freed = release(&mut table.handle_list, entry.handle_idx.idx);
    proof {
        lemma_freed_frame(before, table.handle_list, entry);
        lemma_consistent_frame(before, *table);
    }
}

/// The first allocation at `addr`.
pub open spec fn entry_at(entries: Seq<AllocationEntry>, addr: u64) -> Option<int>
    decreases entries.len(),
{
    if entries.len() == 0 {
        None
    } else if entry_at(entries.drop_last(), addr) is Some {
        entry_at(entries.drop_last(), addr)
    } else if entries.last().addr == addr {
        Some(entries.len() - 1)
    } else {
        None
    }
}

/// The position of the first allocation at `addr`.
pub fn find_entry(table: &AllocationTable, addr: u64) -> (found: Option<usize>)
    ensures
        match found {
            Some(i) => entry_at(table.entry@, addr) == Some(i as int) && i < table.entry@.len()
                && table.entry@[i as int].addr == addr,
            None => entry_at(table.entry@, addr) is None,
        },
{
    let entries = table.entry.as_slice();
    let mut i: usize = 0;
    proof {
        assert(entries@.take(0) =~= Seq::empty());
    }
    while i < entries.len()
        invariant
            i <= entries@.len(),
            entries@ == table.entry@,
            entry_at(entries@.take(i as int), addr) is None,
        decreases entries@.len() - i,
    {
        proof {
            assert(entries@.take(i + 1).drop_last() =~= entries@.take(i as int));
        }
        if entries[i].addr == addr {
            proof {
                lemma_entry_at_prefix(entries@, addr, i + 1);
            }
            return Some(i);
        }
        i = i + 1;
    }
    proof {
        assert(entries@.take(i as int) =~= entries@);
    }
    None
}

/// What is found among the first allocations is found among all.
proof fn lemma_entry_at_prefix(entries: Seq<AllocationEntry>, addr: u64, n: int)
    requires
        0 <= n <= entries.len(),
        entry_at(entries.take(n), addr) is Some,
    ensures
        entry_at(entries, addr) == entry_at(entries.take(n), addr),
    decreases entries.len() - n,
{
    if n == entries.len() {
        assert(entries.take(n) =~= entries);
    } else {
        assert(entries.take(n + 1).drop_last() =~= entries.take(n));
        lemma_entry_at_prefix(entries, addr, n + 1);
    }
}

/// The first device with an allocation at `addr`, and the first allocation there.
pub open spec fn allocation_at(tables: Seq<IpcMutex<AllocationTable>>, addr: u64) -> Option<
    (int, int),
>
    decreases tables.len(),
{
    if tables.len() == 0 {
        None
    } else {
        match allocation_at(tables.drop_last(), addr) {
            Some(p) => Some(p),
            None => match entry_at(tables.last().inner.entry@, addr) {
                Some(i) => Some((tables.len() - 1, i)),
                None => None,
            },
        }
    }
}

/// The device and the position of the allocation at `addr`.
pub fn find_allocation(tables: &Vec<IpcMutex<AllocationTable>>, addr: u64) -> (found: Option<
    (usize, usize),
>)
    ensures
        match found {
            Some(p) => {
                &&& allocation_at(tables@, addr) == Some((p.0 as int, p.1 as int))
                &&& p.0 < tables@.len()
                &&& p.1 < tables@[p.0 as int].inner.entry@.len()
                &&& tables@[p.0 as int].inner.entry@[p.1 as int].addr == addr
            },
            None => allocation_at(tables@, addr) is None,
        },
{
    let mut device: usize = 0;
    proof {
        assert(tables@.take(0) =~= Seq::empty());
    }
    while device < tables.len()
        invariant
            device <= tables@.len(),
            allocation_at(tables@.take(device as int), addr) is None,
        decreases tables@.len() - device,
    {
        proof {
            assert(tables@.take(device + 1).drop_last() =~= tables@.take(device as int));
        }
        if let Some(i) = find_entry(&tables[device].inner, addr) {
            proof {
                lemma_allocation_at_prefix(tables@, addr, device + 1);
            }
            return Some((device, i));
        }
        device = device + 1;
    }
    proof {
        assert(tables@.take(device as int) =~= tables@);
    }
    None
}

proof fn lemma_allocation_at_prefix(tables: Seq<IpcMutex<AllocationTable>>, addr: u64, n: int)
    requires
        0 <= n <= tables.len(),
        allocation_at(tables.take(n), addr) is Some,
    ensures
        allocation_at(tables, addr) == allocation_at(tables.take(n), addr),
    decreases tables.len() - n,
{
    if n == tables.len() {
        assert(tables.take(n) =~= tables);
    } else {
        assert(tables.take(n + 1).drop_last() =~= tables.take(n));
        lemma_allocation_at_prefix(tables, addr, n + 1);
    }
}

/// Takes the allocation at position `i` out of the table and gives its handles back. What comes
/// back are the handles and their sizes.
pub fn free_entry(table: &mut AllocationTable, i: usize) -> (freed: Vec<
    (PhysicalMemoryHandleId, usize),
>)
    requires
        old(table).consistent(),
        i < old(table).entry@.len(),
    ensures
        final(table).consistent(),
        final(table).entry@ == old(table).entry@.remove(i as int),
        ({
            let chain = chain_of(old(table).handle_list, old(table).entry@[i as int]);
            &&& freed@ == chain.map_values(released_handle(old(table).handle_list))
            &&& freed_chain(final(table).handle_list, old(table).handle_list, chain)
            &&& final(table).handle_list.free_slots() == chain.reverse()
                + old(table).handle_list.free_slots()
        }),
{
    let ghost before = *table;
    let ghost entry = before.entry@[i as int];
    proof {
        assert(backs(before.handle_list, entry));
        assert(before.handle_list.links_free(before.handle_list.free_slots()));
    }
    let last: u32 = match table.entry.at(i) {
        Some(e) => e.handle_idx.idx,
        None => 0,
    };
    let freed = release(&mut table.handle_list, last);
    let _removed = table.entry.remove(i);
    let ghost shorter = AllocationTable { entry: table.entry, handle_list: before.handle_list };
    proof {
        lemma_remove_consistent(before, shorter, i as int);
        lemma_freed_frame(shorter, table.handle_list, entry);
        lemma_consistent_frame(shorter, *table);
    }
    freed
}

/// A table without one of its allocations is consistent, and could take it up again.
proof fn lemma_remove_consistent(before: AllocationTable, after: AllocationTable, i: int)
    requires
        before.consistent(),
        0 <= i < before.entry@.len(),
        after.handle_list == before.handle_list,
        after.entry@ == before.entry@.remove(i),
    ensures
        after.pending(before.entry@[i]),
{
    let list = before.handle_list;
    let kept = after.entry@;
    assert forall|j: int| 0 <= j < kept.len() implies backs(list, #[trigger] kept[j]) && apart(
        list,
        kept[j],
        before.entry@[i],
    ) by {
        if j < i {
            assert(kept[j] == before.entry@[j]);
            assert(apart(list, before.entry@[j], before.entry@[i]));
        } else {
            assert(kept[j] == before.entry@[j + 1]);
            assert(apart(list, before.entry@[i], before.entry@[j + 1]));
        }
    }
    assert forall|a: int, b: int| 0 <= a < b < kept.len() implies apart(
        list,
        #[trigger] kept[a],
        #[trigger] kept[b],
    ) by {
        let x = if a < i {
            a
        } else {
            a + 1
        };
        let y = if b < i {
            b
        } else {
            b + 1
        };
        assert(kept[a] == before.entry@[x] && kept[b] == before.entry@[y]);
        assert(apart(list, before.entry@[x], before.entry@[y]));
    }
}

/// Giving the handles of one allocation back leaves those of the others.
proof fn lemma_freed_frame(before: AllocationTable, list: HandleList, entry: AllocationEntry)
    requires
        before.pending(entry),
        freed_chain(list, before.handle_list, chain_of(before.handle_list, entry)),
    ensures
        forall|i: int, k: int|
            0 <= i < before.entry@.len() && 0 <= k < chain_of(
                before.handle_list,
                before.entry@[i],
            ).len() ==> same_but_place(
                before.handle_list.handles@[#[trigger] chain_of(
                    before.handle_list,
                    before.entry@[i],
                )[k] as int],
                list.handles@[chain_of(before.handle_list, before.entry@[i])[k] as int],
            ),
{
    assert(before.handle_list.links_free(before.handle_list.free_slots()));
    let c = chain_of(before.handle_list, entry);
    assert forall|i: int, k: int|
        0 <= i < before.entry@.len() && 0 <= k < chain_of(
            before.handle_list,
            before.entry@[i],
        ).len() implies same_but_place(
        before.handle_list.handles@[#[trigger] chain_of(before.handle_list, before.entry@[i])[
        k] as int],
        list.handles@[chain_of(before.handle_list, before.entry@[i])[k] as int],
    ) by {
        let slot = chain_of(before.handle_list, before.entry@[i])[k];
        assert(backs(before.handle_list, before.entry@[i]));
        assert(apart(before.handle_list, before.entry@[i], entry));
        if c.contains(slot) {
            let j = choose|j: int| 0 <= j < c.len() && c[j] == slot;
            assert(chain_of(before.handle_list, entry)[j] == slot);
        }
        assert(list.handles@[slot as int] == before.handle_list.handles@[slot as int]);
    }
}

// Laws.

/// A table in which nothing was ever allocated is consistent.
pub proof fn law_fresh_table_is_consistent(table: AllocationTable)
    requires
        table.wf(),
        table.fresh(),
    ensures
        table.consistent(),
{
}

/// The bytes of an allocation are those on the GPU and those elsewhere.
pub proof fn law_bytes_are_accounted(table: AllocationTable, i: int)
    requires
        table.consistent(),
        0 <= i < table.entry@.len(),
    ensures
        ({
            let handles = table.handle_list.handles@;
            let chain = chain_of(table.handle_list, table.entry@[i]);
            sum_of(chain, on_gpu_size(handles)) + sum_of(chain, off_gpu_size(handles))
                == table.entry@[i].len
        }),
{
    let e = table.entry@[i];
    let chain = chain_of(table.handle_list, e);
    assert(backs(table.handle_list, e));
    assert(0 < chain.len() && (chain.len() - 1) * MAX_ALLOCATION_SIZE < e.len <= chain.len()
        * MAX_ALLOCATION_SIZE) by (nonlinear_arith)
        requires
            e.len > 0,
            chain.len() == (e.len + MAX_ALLOCATION_SIZE - 1) / MAX_ALLOCATION_SIZE as int,
            MAX_ALLOCATION_SIZE == 134217728,
    ;
    lemma_bytes_of_first(table.handle_list, e, chain.len() as int);
    assert(chain.take(chain.len() as int) =~= chain);
}

proof fn lemma_bytes_of_first(list: HandleList, e: AllocationEntry, k: int)
    requires
        backs(list, e),
        1 <= k <= chain_of(list, e).len(),
        (chain_of(list, e).len() - 1) * MAX_ALLOCATION_SIZE < e.len <= chain_of(list, e).len()
            * MAX_ALLOCATION_SIZE,
    ensures
        sum_of(chain_of(list, e).take(k), on_gpu_size(list.handles@)) + sum_of(
            chain_of(list, e).take(k),
            off_gpu_size(list.handles@),
        ) == e.len - (chain_of(list, e).len() - k) * MAX_ALLOCATION_SIZE,
    decreases k,
{
    let chain = chain_of(list, e);
    let n = chain.len() as int;
    let on = on_gpu_size(list.handles@);
    let off = off_gpu_size(list.handles@);
    assert(chain.take(k) =~= chain.take(k - 1).push(chain[k - 1]));
    lemma_sum_push(chain.take(k - 1), chain[k - 1], on);
    lemma_sum_push(chain.take(k - 1), chain[k - 1], off);
    let handle = list.handles@[chain[k - 1] as int];
    assert(handle.size == chunk_size(e.len as int, n - k));
    if k == 1 {
        assert(chain.take(0) =~= Seq::empty());
        assert(n * MAX_ALLOCATION_SIZE == (n - 1) * MAX_ALLOCATION_SIZE + MAX_ALLOCATION_SIZE)
            by (nonlinear_arith);
    } else {
        lemma_bytes_of_first(list, e, k - 1);
        assert((n - k + 1) * MAX_ALLOCATION_SIZE == (n - k) * MAX_ALLOCATION_SIZE
            + MAX_ALLOCATION_SIZE && (n - k) * MAX_ALLOCATION_SIZE <= (n - 2)
            * MAX_ALLOCATION_SIZE && (n - 1) * MAX_ALLOCATION_SIZE == (n - 2)
            * MAX_ALLOCATION_SIZE + MAX_ALLOCATION_SIZE) by (nonlinear_arith)
            requires
                2 <= k <= n,
                MAX_ALLOCATION_SIZE == 134217728,
        ;
    }
}

/// Freeing an allocation undoes taking its handles: the same handles are free, in the same order.
pub proof fn law_free_undoes_booking(
    before: HandleList,
    during: HandleList,
    moved: HandleList,
    after: HandleList,
    e: AllocationEntry,
)
    requires
        before.wf(),
        0 < e.len,
        e.addr + e.len <= u64::MAX,
        during.wf(),
        booked(during, before, e.addr, e.len as int, Some(e.handle_idx)),
        relocated(during, moved),
        freed_chain(after, moved, chain_of(moved, e)),
    ensures
        after.wf(),
        after.free_slots() == before.free_slots(),
{
    lemma_booked_back(before, during, e);
    lemma_relocated_free(during, moved);
    assert(backs(moved, e) && chain_of(moved, e) == chain_of(during, e)) by {
        assert(during.links_free(during.free_slots()));
        lemma_backs_frame(during, moved, e);
    }
    lemma_freed_entry_is_free(moved, after, e);
    let free = before.free_slots();
    let n = chunk_count(e.len as int) as int;
    assert(free.take(n).reverse().reverse() =~= free.take(n));
    assert(free.take(n) + free.skip(n) =~= free);
}

/// What was just booked is behind the new allocation.
proof fn lemma_booked_back(before: HandleList, during: HandleList, e: AllocationEntry)
    requires
        before.wf(),
        0 < e.len,
        e.addr + e.len <= u64::MAX,
        booked(during, before, e.addr, e.len as int, Some(e.handle_idx)),
    ensures
        backs(during, e),
        chain_of(during, e) == before.free_slots().take(
            chunk_count(e.len as int) as int,
        ).reverse(),
{
    let free = before.free_slots();
    let slots = free.take(chunk_count(e.len as int) as int);
    lemma_free_slots_distinct(before);
    assert(slots.last() == free[slots.len() - 1]);
    lemma_chunks_back(during, before, e, slots);
}

/// The handles of a freed allocation come first among the free ones.
proof fn lemma_freed_entry_is_free(before: HandleList, after: HandleList, e: AllocationEntry)
    requires
        before.wf(),
        backs(before, e),
        freed_chain(after, before, chain_of(before, e)),
    ensures
        after.wf(),
        after.free_slots() == chain_of(before, e).reverse() + before.free_slots(),
{
    lemma_walk_distinct(before.handles@, Some(e.handle_idx.idx), HANDLE_NUM as nat);
    lemma_freed_chain_is_free(after, before, chain_of(before, e));
}

/// While an allocation lasts, nobody else gets its handles.
pub proof fn law_handles_of_an_allocation_are_not_free(table: AllocationTable, i: int, k: int)
    requires
        table.consistent(),
        0 <= i < table.entry@.len(),
        0 <= k < chain_of(table.handle_list, table.entry@[i]).len(),
    ensures
        !table.handle_list.free_slots().contains(
            chain_of(table.handle_list, table.entry@[i])[k],
        ),
{
    lemma_free_slots_distinct(table.handle_list);
    assert(backs(table.handle_list, table.entry@[i]));
    let slot = chain_of(table.handle_list, table.entry@[i])[k];
    if table.handle_list.free_slots().contains(slot) {
        let free = table.handle_list.free_slots();
        let j = choose|j: int| 0 <= j < free.len() && free[j] == slot;
        assert(!table.handle_list.handles@[free[j] as int].valid);
    }
}

/// The first allocation at an address is found, and there is none only where no allocation is there.
pub proof fn law_first_allocation_is_found(entries: Seq<AllocationEntry>, addr: u64)
    ensures
        match entry_at(entries, addr) {
            Some(i) => 0 <= i < entries.len() && entries[i].addr == addr && forall|j: int|
                0 <= j < i ==> (#[trigger] entries[j]).addr != addr,
            None => forall|j: int| 0 <= j < entries.len() ==> (#[trigger] entries[j]).addr != addr,
        },
    decreases entries.len(),
{
    if entries.len() > 0 {
        let before = entries.drop_last();
        law_first_allocation_is_found(before, addr);
        assert(forall|j: int| 0 <= j < before.len() ==> #[trigger] entries[j] == before[j]);
        assert(entries[entries.len() - 1] == entries.last());
        if entry_at(entries, addr) is None {
            assert forall|j: int| 0 <= j < entries.len() implies (#[trigger] entries[j]).addr
                != addr by {
                if j < before.len() {
                    assert(before[j].addr != addr);
                }
            }
        }
    }
}

/// The first device with an allocation at the address is found, and there is none only where no
/// device has one.
pub proof fn law_first_device_is_found(tables: Seq<IpcMutex<AllocationTable>>, addr: u64)
    ensures
        match allocation_at(tables, addr) {
            Some((d, i)) => {
                &&& 0 <= d < tables.len()
                &&& 0 <= i < tables[d].inner.entry@.len()
                &&& tables[d].inner.entry@[i].addr == addr
                &&& forall|c: int, j: int|
                    0 <= c < d && 0 <= j < tables[c].inner.entry@.len() ==> (
                    #[trigger] tables[c].inner.entry@[j]).addr != addr
            },
            None => forall|c: int, j: int|
                0 <= c < tables.len() && 0 <= j < tables[c].inner.entry@.len() ==> (
                #[trigger] tables[c].inner.entry@[j]).addr != addr,
        },
    decreases tables.len(),
{
    if tables.len() > 0 {
        let before = tables.drop_last();
        law_first_device_is_found(before, addr);
        law_first_allocation_is_found(tables.last().inner.entry@, addr);
        assert(forall|c: int| 0 <= c < before.len() ==> #[trigger] tables[c] == before[c]);
        assert forall|c: int, j: int|
            0 <= c < before.len() && 0 <= j < tables[c].inner.entry@.len() && allocation_at(
                before,
                addr,
            ) is None implies (#[trigger] tables[c].inner.entry@[j]).addr != addr by {
            assert(before[c].inner.entry@[j].addr != addr);
        }
        if let Some((d, i)) = allocation_at(before, addr) {
            assert forall|c: int, j: int|
                0 <= c < d && 0 <= j < tables[c].inner.entry@.len() implies (
            #[trigger] tables[c].inner.entry@[j]).addr != addr by {
                assert(before[c].inner.entry@[j].addr != addr);
            }
        }
    }
}

/// A table can be used again and again: what was booked and then given back leaves the same entries
/// and the same free slots, whether or not the allocation was taken up in between.
pub proof fn law_given_back_slots_are_reusable(
    before: HandleList,
    during: HandleList,
    after: HandleList,
    e: AllocationEntry,
)
    requires
        before.wf(),
        0 < e.len,
        e.addr + e.len <= u64::MAX,
        during.wf(),
        booked(during, before, e.addr, e.len as int, Some(e.handle_idx)),
        freed_chain(after, during, chain_of(during, e)),
    ensures
        after.free_slots() == before.free_slots(),
        forall|idx: u32|
            1 <= idx < HANDLE_NUM ==> after.handles@[idx as int].valid
                == (#[trigger] before.handles@[idx as int]).valid,
{
    law_free_undoes_booking(before, during, during, after, e);
    assert forall|idx: u32| 1 <= idx < HANDLE_NUM implies after.handles@[idx as int].valid == (
    #[trigger] before.handles@[idx as int]).valid by {
        crate::shm::law_slot_is_in_use_or_free(before, idx);
        crate::shm::law_slot_is_in_use_or_free(after, idx);
    }
}

} // verus!
