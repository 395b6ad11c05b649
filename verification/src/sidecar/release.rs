//! Freeing memory: where an address is looked for, and what its table and its counter become.
use vstd::prelude::*;
use crate::constant::MAX_GPUS;
use crate::ids::PhysicalMemoryHandleId;
use crate::shm::{AllocationEntry, AllocationTable};
use crate::sync::IpcMutex;
use super::account::{grown, law_counters_return, shrunk, Account, CudaResult};
use super::booking::{booked, freed_chain, released_handle};
use super::tables::{
    allocation_at, chain_of, entry_at, find_entry, free_entry, law_free_undoes_booking, relocated,
};

verus! {

/// What has happened to a free.
#[derive(Debug, Clone, Copy, PartialEq, Eq, Structural)]
pub enum FreeEvent {
    /// The address was looked for among the small allocations.
    Small(bool),
    /// The address was looked for in the table of a device. Where it is there, it is freed.
    Searched { device: usize, found: bool },
}

/// What is to be done next for a free.
#[derive(Debug, Clone, Copy, PartialEq, Eq, Structural)]
pub enum FreeAction {
    /// The driver frees it.
    FreeSmall,
    /// Look for the address in the table of a device.
    Search(usize),
    /// The call ends.
    Return(CudaResult),
}

/// What follows an event of a free: the tables are searched one after the other.
pub open spec fn free_action(event: FreeEvent) -> FreeAction {
    match event {
        FreeEvent::Small(true) => FreeAction::FreeSmall,
        FreeEvent::Small(false) => FreeAction::Search(0),
        FreeEvent::Searched { device, found } => if found {
            FreeAction::Return(CudaResult::Success)
        } else if device + 1 < MAX_GPUS {
            FreeAction::Search((device + 1) as usize)
        } else {
            FreeAction::Return(CudaResult::InvalidValue)
        },
    }
}

/// What follows an event of a free.
pub fn free_next(event: FreeEvent) -> (action: FreeAction)
    ensures
        action == free_action(event),
{
    match event {
        FreeEvent::Small(found) => if found {
            FreeAction::FreeSmall
        } else {
            FreeAction::Search(0)
        },
        FreeEvent::Searched { device, found } => if found {
            FreeAction::Return(CudaResult::Success)
        } else if device < MAX_GPUS - 1 {
            FreeAction::Search(device + 1)
        } else {
            FreeAction::Return(CudaResult::InvalidValue)
        },
    }
}

/// Frees the allocation at `addr`, where the table of `device` has one: it leaves the table, its
/// handles are given back, and the counter of the device goes down. Else nothing changes.
pub fn free_on(
    table: &mut AllocationTable,
    account: &mut Account,
    device: usize,
    addr: u64,
) -> (freed: Option<Vec<(PhysicalMemoryHandleId, usize)>>)
    requires
        old(table).consistent(),
        device < old(account).current@.len(),
    ensures
        final(table).consistent(),
        final(account).small == old(account).small,
        match entry_at(old(table).entry@, addr) {
            None => {
                &&& freed is None
                &&& *final(table) == *old(table)
                &&& final(account).current@ == old(account).current@
            },
            Some(i) => {
                let entry = old(table).entry@[i];
                let chain = chain_of(old(table).handle_list, entry);
                &&& freed matches Some(list) && list@ == chain.map_values(
                    released_handle(old(table).handle_list),
                )
                &&& final(table).entry@ == old(table).entry@.remove(i)
                &&& freed_chain(final(table).handle_list, old(table).handle_list, chain)
                &&& final(table).handle_list.free_slots() == chain.reverse()
                    + old(table).handle_list.free_slots()
                &&& final(account).current@ == shrunk(
                    old(account).current@,
                    device as int,
                    entry.len as u64,
                )
            },
        },
{
    match find_entry(table, addr) {
        None => None,
        Some(i) => {
            let len: usize = match table.entry.at(i) {
                Some(entry) => entry.len,
                None => 0,
            };
            let freed = free_entry(table, i);
            account.remove_large(device, len as u64);
            Some(freed)
        },
    }
}

/// What a free of `addr` returns, where its tables are searched from `device` on.
pub open spec fn search(tables: Seq<IpcMutex<AllocationTable>>, addr: u64, device: int) -> CudaResult
    decreases MAX_GPUS - device,
{
    let found = 0 <= device < tables.len() && entry_at(tables[device].inner.entry@, addr) is Some;
    match free_action(FreeEvent::Searched { device: device as usize, found }) {
        FreeAction::Return(result) => result,
        _ => if 0 <= device < MAX_GPUS {
            search(tables, addr, device + 1)
        } else {
            CudaResult::InvalidValue
        },
    }
}

proof fn lemma_not_found(tables: Seq<IpcMutex<AllocationTable>>, addr: u64, device: int)
    requires
        allocation_at(tables, addr) is None,
        0 <= device < tables.len(),
    ensures
        entry_at(tables[device].inner.entry@, addr) is None,
    decreases tables.len(),
{
    if device < tables.len() - 1 {
        lemma_not_found(tables.drop_last(), addr, device);
        assert(tables.drop_last()[device] == tables[device]);
    }
}

proof fn lemma_found(tables: Seq<IpcMutex<AllocationTable>>, addr: u64)
    requires
        allocation_at(tables, addr) is Some,
    ensures
        ({
            let (d, i) = allocation_at(tables, addr)->0;
            &&& 0 <= d < tables.len()
            &&& entry_at(tables[d].inner.entry@, addr) == Some(i)
            &&& forall|k: int|
                0 <= k < d ==> entry_at((#[trigger] tables[k]).inner.entry@, addr) is None
        }),
    decreases tables.len(),
{
    let fewer = tables.drop_last();
    if allocation_at(fewer, addr) is Some {
        lemma_found(fewer, addr);
        let (d, i) = allocation_at(fewer, addr)->0;
        assert(fewer[d] == tables[d]);
        assert forall|k: int| 0 <= k < d implies entry_at(
            (#[trigger] tables[k]).inner.entry@,
            addr,
        ) is None by {
            assert(fewer[k] == tables[k]);
        }
    } else {
        assert forall|k: int| 0 <= k < fewer.len() implies entry_at(
            (#[trigger] tables[k]).inner.entry@,
            addr,
        ) is None by {
            lemma_not_found(fewer, addr, k);
            assert(fewer[k] == tables[k]);
        }
    }
}

proof fn lemma_search(tables: Seq<IpcMutex<AllocationTable>>, addr: u64, device: int)
    requires
        tables.len() == MAX_GPUS,
        0 <= device < MAX_GPUS,
        forall|k: int|
            0 <= k < device ==> entry_at((#[trigger] tables[k]).inner.entry@, addr) is None,
    ensures
        search(tables, addr, device) == if allocation_at(tables, addr) is Some {
            CudaResult::Success
        } else {
            CudaResult::InvalidValue
        },
    decreases MAX_GPUS - device,
{
    if allocation_at(tables, addr) is Some {
        lemma_found(tables, addr);
        let (d, i) = allocation_at(tables, addr)->0;
        if d < device {
            assert(entry_at(tables[d].inner.entry@, addr) is None);
        }
        if d != device {
            assert(entry_at(tables[device].inner.entry@, addr) is None);
        }
    } else {
        lemma_not_found(tables, addr, device);
    }
    if entry_at(tables[device].inner.entry@, addr) is None && device + 1 < MAX_GPUS {
        lemma_search(tables, addr, device + 1);
    }
}

/// A free succeeds exactly where some table has the address. For an address that is in no table,
/// every table is left as it is.
pub proof fn law_free_needs_an_allocation(tables: Seq<IpcMutex<AllocationTable>>, addr: u64)
    requires
        tables.len() == MAX_GPUS,
    ensures
        allocation_at(tables, addr) is Some ==> search(tables, addr, 0) == CudaResult::Success,
        allocation_at(tables, addr) is None ==> {
            &&& search(tables, addr, 0) == CudaResult::InvalidValue
            &&& forall|d: int|
                0 <= d < tables.len() ==> entry_at(
                    (#[trigger] tables[d]).inner.entry@,
                    addr,
                ) is None
        },
{
    lemma_search(tables, addr, 0);
    if allocation_at(tables, addr) is None {
        assert forall|d: int| 0 <= d < tables.len() implies entry_at(
            (#[trigger] tables[d]).inner.entry@,
            addr,
        ) is None by {
            lemma_not_found(tables, addr, d);
        }
    }
}

proof fn lemma_found_in(tables: Seq<IpcMutex<AllocationTable>>, addr: u64, d: int)
    requires
        0 <= d < tables.len(),
        entry_at(tables[d].inner.entry@, addr) is Some,
        forall|k: int|
            0 <= k < tables.len() && k != d ==> entry_at(
                (#[trigger] tables[k]).inner.entry@,
                addr,
            ) is None,
    ensures
        allocation_at(tables, addr) == Some((d, entry_at(tables[d].inner.entry@, addr)->0)),
{
    if allocation_at(tables, addr) is None {
        lemma_not_found(tables, addr, d);
    } else {
        lemma_found(tables, addr);
        let (e, i) = allocation_at(tables, addr)->0;
        if e != d {
            assert(entry_at(tables[e].inner.entry@, addr) is None);
        }
    }
}

/// Freeing undoes allocating. An address that is in no table is booked with the handles of a
/// device, its memory comes to lie somewhere, and the table takes it up. A free then finds it and
/// succeeds: the device has the entries that it had, in their order, the same slots are free, the
/// handles of the allocation are no longer valid, and the counter is what it was.
pub proof fn law_free_undoes_malloc(
    tables: Seq<IpcMutex<AllocationTable>>,
    d: int,
    e: AllocationEntry,
    booking: AllocationTable,
    populated: AllocationTable,
    during: Seq<IpcMutex<AllocationTable>>,
    after: AllocationTable,
    current: Seq<u64>,
)
    requires
        tables.len() == MAX_GPUS,
        0 <= d < MAX_GPUS,
        current.len() == MAX_GPUS,
        tables[d].inner.consistent(),
        allocation_at(tables, e.addr) is None,
        0 < e.len,
        e.addr + e.len <= u64::MAX,
        // The handles are taken.
        booking.consistent(),
        booking.entry@ == tables[d].inner.entry@,
        booked(
            booking.handle_list,
            tables[d].inner.handle_list,
            e.addr,
            e.len as int,
            Some(e.handle_idx),
        ),
        // The memory is put behind them.
        populated.entry@ == booking.entry@,
        relocated(booking.handle_list, populated.handle_list),
        // The table takes the allocation up.
        during == tables.update(d, during[d]),
        during[d].inner.handle_list == populated.handle_list,
        during[d].inner.entry@ == populated.entry@.push(e),
        // It is found and freed.
        allocation_at(during, e.addr) matches Some(p) ==> after.entry@
            == during[d].inner.entry@.remove(p.1),
        freed_chain(
            after.handle_list,
            during[d].inner.handle_list,
            chain_of(during[d].inner.handle_list, e),
        ),
    ensures
        allocation_at(during, e.addr) == Some((d, tables[d].inner.entry@.len() as int)),
        search(during, e.addr, 0) == CudaResult::Success,
        after.entry@ == tables[d].inner.entry@,
        after.handle_list.wf(),
        after.handle_list.free_slots() == tables[d].inner.handle_list.free_slots(),
        ({
            let chain = chain_of(during[d].inner.handle_list, e);
            forall|k: int|
                0 <= k < chain.len() ==> !after.handle_list.handles@[#[trigger] chain[k] as int].valid
        }),
        shrunk(grown(current, d, e.len as u64), d, e.len as u64) == current,
{
    let entries = tables[d].inner.entry@;
    assert(during.len() == MAX_GPUS);
    assert forall|k: int| 0 <= k < during.len() && k != d implies entry_at(
        (#[trigger] during[k]).inner.entry@,
        e.addr,
    ) is None by {
        lemma_not_found(tables, e.addr, k);
        assert(during[k] == tables[k]);
    }
    lemma_not_found(tables, e.addr, d);
    assert(entries.push(e).drop_last() =~= entries);
    assert(entry_at(entries.push(e), e.addr) == Some(entries.len() as int));
    lemma_found_in(during, e.addr, d);
    lemma_search(during, e.addr, 0);
    assert(after.entry@ =~= entries);
    law_free_undoes_booking(
        tables[d].inner.handle_list,
        booking.handle_list,
        populated.handle_list,
        after.handle_list,
        e,
    );
    law_counters_return(current, d, e.len as u64);
}

/// An address is looked for among the small allocations first, and then in the tables of the
/// devices, from the first to the last. The search ends where it is found, and fails after the last
/// table.
pub proof fn law_search_goes_through_all(device: usize)
    ensures
        free_action(FreeEvent::Small(true)) == FreeAction::FreeSmall,
        free_action(FreeEvent::Small(false)) == FreeAction::Search(0),
        free_action(FreeEvent::Searched { device, found: true }) == FreeAction::Return(
            CudaResult::Success,
        ),
        device < 7 ==> free_action(FreeEvent::Searched { device, found: false })
            == FreeAction::Search((device + 1) as usize),
        device >= 7 ==> free_action(FreeEvent::Searched { device, found: false })
            == FreeAction::Return(CudaResult::InvalidValue),
{
}

} // verus!
