use nixie::constant::{
    CUDA_CONTROL_PLANE_RESERVATION_SIZE, CUDA_PROCESS_RESERVATION_SIZE, DAEMON_PIPE_NAME,
    HANDLE_NUM, MAX_ALLOCATION_SIZE, MAX_GPUS, MIN_ALLOCATION_SIZE,
};
use nixie::ids::PhysicalMemoryHandleId;
use nixie::shm::{
    lock_id, region_hash, AllocationEntry, AllocationTable, HandleList, Shm, ShmError,
    SHM_STRUCT_SIZE,
};
use nixie::shm_buffer::{split_size, ShmBuffer};
use nixie::shm_vec::ShmVec;
use nixie::sidecar::account::{
    effective_size, round_up, Account, CudaResult, MallocPlan,
};
use nixie::sidecar::allocate::{malloc_next, MallocAction, MallocEvent};
use nixie::sidecar::booking::{book, release};
use nixie::sidecar::release::{free_next, free_on, FreeAction, FreeEvent};
use nixie::sidecar::streams::{
    free_async_next, malloc_async_next, CudaDim3, CudaMemcpyKind, FreeAsyncAction, FreeAsyncEvent,
    MallocAsyncAction, MallocAsyncEvent, MAX_ASYNC_CACHE_SIZE,
};
use nixie::sidecar::tables::{
    admit_entry, book_entry, cancel_entry, find_allocation, find_entry, free_entry,
};
use std::hash::{Hash, Hasher};

#[test]
fn sizes_are_what_the_driver_expects() {
    assert_eq!(HANDLE_NUM, 40960);
    assert_eq!(MAX_GPUS, 8);
    assert_eq!(MIN_ALLOCATION_SIZE, 2 * 1024 * 1024);
    assert_eq!(MAX_ALLOCATION_SIZE, 128 * 1024 * 1024);
    assert_eq!(CUDA_CONTROL_PLANE_RESERVATION_SIZE, 256 * 1024 * 1024);
    assert_eq!(CUDA_PROCESS_RESERVATION_SIZE, 768 * 1024 * 1024);
    assert_eq!(DAEMON_PIPE_NAME, r"\\.\pipe\nixie");
}

#[allow(dead_code)]
#[derive(Clone, Copy)]
struct MirrorHandle {
    addr: u64,
    size: usize,
    cu_handle: Option<u64>,
    alloc_generation: u32,
    next_handle_idx: Option<std::num::NonZeroU32>,
    on_gpu: bool,
    valid: bool,
}

#[allow(dead_code)]
struct MirrorEntry {
    addr: u64,
    len: usize,
    alloc_generation: u32,
    idx: std::num::NonZeroU32,
}

#[allow(dead_code)]
struct MirrorTable {
    len: u32,
    data: [MirrorEntry; 8192],
    handles: [MirrorHandle; 40960],
    freelist_head: Option<std::num::NonZeroU32>,
}

#[test]
fn tables_fit_the_region() {
    assert!(SHM_STRUCT_SIZE as usize >= 8 * std::mem::size_of::<MirrorTable>());
}

#[test]
fn handles_are_handed_out_in_order() {
    let mut list = HandleList::new();
    assert!(!list.is_exhausted());
    let a = list.allocate_handle(0x1000, 64).unwrap();
    let b = list.allocate_handle(0x2000, 128).unwrap();
    assert_eq!(a, PhysicalMemoryHandleId::new(1, 1));
    assert_eq!(b, PhysicalMemoryHandleId::new(1, 2));
    let handle = list.get_handle(b).unwrap();
    assert_eq!((handle.addr, handle.size, handle.valid), (0x2000, 128, true));
    list.get_handle_mut(b).unwrap().on_gpu = true;
    assert!(list.get_handle_by_raw_idx(2).unwrap().on_gpu);
    assert!(list.get_handle_by_raw_idx(HANDLE_NUM as u32).is_none());
    assert!(list.get_handle_by_raw_idx_mut(HANDLE_NUM as u32).is_none());
}

#[test]
fn reused_slots_have_another_generation() {
    let mut list = HandleList::new();
    let a = list.allocate_handle(0x1000, 64).unwrap();
    let second = list.allocate_handle(0x2000, 64).unwrap();
    list.free_handle(a);
    assert!(!list.get_handle(a).unwrap().valid);
    let b = list.allocate_handle(0x3000, 32).unwrap();
    assert_eq!(b.idx, a.idx);
    assert_eq!(b.alloc_generation, 2);
    assert_ne!(b, a);
    list.free_handle_by_raw_idx(second.idx);
    list.reinit();
    assert_eq!(list.allocate_handle(0, 1).unwrap(), PhysicalMemoryHandleId::new(1, 1));
}

#[test]
fn memory_usage_follows_the_chain() {
    let mut list = HandleList::new();
    let last = book(&mut list, 0x10_0000_0000, 2 * MAX_ALLOCATION_SIZE + 5).unwrap();
    assert_eq!(last.idx, 3);
    list.get_handle_by_raw_idx_mut(2).unwrap().on_gpu = true;
    assert_eq!(
        list.memory_usage(last),
        (MAX_ALLOCATION_SIZE, MAX_ALLOCATION_SIZE + 5)
    );
    assert_eq!(list.chain(Some(3)), Some(vec![3, 2, 1]));
    assert_eq!(list.chain(None), Some(Vec::new()));
    let freed = release(&mut list, 3);
    assert_eq!(
        freed,
        vec![
            (PhysicalMemoryHandleId::new(1, 3), 5),
            (PhysicalMemoryHandleId::new(1, 2), MAX_ALLOCATION_SIZE),
            (PhysicalMemoryHandleId::new(1, 1), MAX_ALLOCATION_SIZE),
        ]
    );
    assert_eq!(list.allocate_handle(0, 1).unwrap(), PhysicalMemoryHandleId::new(2, 1));
}

#[test]
fn handles_run_out() {
    let mut list = HandleList::new();
    for _ in 1..HANDLE_NUM {
        assert!(list.allocate_handle(0, 1).is_some());
    }
    assert!(list.is_exhausted());
    assert_eq!(book(&mut list, 0, 1), None);
    list.free_handle(PhysicalMemoryHandleId::new(1, 7));
    assert!(!list.is_exhausted());
    assert_eq!(list.allocate_handle(0, 1).unwrap(), PhysicalMemoryHandleId::new(2, 7));
    assert!(list.is_exhausted());
}

#[test]
fn shm_vec_keeps_its_bounds() {
    let mut v: ShmVec<u32, 3> = ShmVec::new();
    assert!(v.is_empty());
    assert_eq!(v.push(10), Ok(0));
    assert_eq!(v.push(20), Ok(1));
    assert_eq!(v.push(30), Ok(2));
    assert_eq!(v.push(40), Err(()));
    assert_eq!((v.len(), v.capacity()), (3, 3));
    assert_eq!(v.at(1), Some(&20));
    assert_eq!(v.at(3), None);
    *v.at_mut(1).unwrap() = 25;
    v.as_mut_slice()[0] = 15;
    assert_eq!(v.as_slice(), &[15, 25, 30]);
    assert_eq!(v.iter().copied().collect::<Vec<u32>>(), vec![15, 25, 30]);
    assert_eq!(v.remove(0), 15);
    assert_eq!(v.pop(), Some(30));
    assert_eq!(v.pop(), Some(25));
    assert_eq!(v.pop(), None);
    let d: ShmVec<u32, 3> = ShmVec::default();
    assert!(d.is_empty());
    v.reinit();
    assert!(v.is_empty());
}

#[test]
fn default_entry_points_nowhere() {
    let entry = AllocationEntry::default();
    assert_eq!(entry.handle_idx, PhysicalMemoryHandleId::new(u32::MAX, u32::MAX));
    assert_eq!((entry.addr, entry.len), (0, 0));
}

#[test]
fn regions_are_checked_and_counted() {
    assert_eq!(
        Shm::init_at("region", SHM_STRUCT_SIZE - 1).err(),
        Some(ShmError::RegionTooSmall)
    );
    let mut shm = Shm::init_at("region", SHM_STRUCT_SIZE).unwrap();
    assert_eq!(shm.all_len, SHM_STRUCT_SIZE);
    assert_eq!(shm.alloc_tables.len(), MAX_GPUS);
    let hash = region_hash("region");
    for (i, table) in shm.alloc_tables.iter().enumerate() {
        assert_eq!(table.id, lock_id(hash, i));
        assert_eq!(table.id, hash.wrapping_mul(8) + i as u64);
        assert_eq!(table.ref_count, 1);
    }
    assert_eq!(shm.open_copy_at(SHM_STRUCT_SIZE - 1), Err(ShmError::RegionTooSmall));
    assert_eq!(shm.open_copy_at(SHM_STRUCT_SIZE), Ok(()));
    assert!(shm.alloc_tables.iter().all(|t| t.ref_count == 2));
    shm.close();
    assert!(shm.alloc_tables.iter().all(|t| t.ref_count == 1));
}

#[test]
fn region_hash_is_that_of_the_name() {
    for name in ["", "region", "/nixie_shm_buffer", "\u{e9}\u{4e2d}"] {
        let mut state = std::collections::hash_map::DefaultHasher::new();
        name.hash(&mut state);
        assert_eq!(region_hash(name), state.finish());
    }
    assert_ne!(region_hash("a"), region_hash("b"));
}

#[test]
fn buffer_size_is_passed_in_two_halves() {
    assert_eq!(split_size(0x1_2345_6789), (1, 0x2345_6789));
    let buffer = ShmBuffer::new(0x1000, 100);
    assert_eq!(buffer.size(), 100);
    assert_eq!(buffer.at_offset(90, 10), Some(0x1000 + 90));
    assert_eq!(buffer.at_offset(91, 10), None);
}

#[test]
fn limits_and_rounding() {
    let mb = 1024 * 1024;
    assert_eq!(round_up(2 * mb), 2 * mb);
    assert_eq!(round_up(2 * mb + 1), 4 * mb);
    assert_eq!(effective_size(5), 5);
    assert_eq!(effective_size(3 * mb), 4 * mb);
    let mut account = Account::new();
    assert_eq!(account.plan_malloc(0, 100, 101), MallocPlan::Refuse);
    assert_eq!(account.plan_malloc(0, 100, 100), MallocPlan::Small);
    assert_eq!(account.plan_malloc(0, u64::MAX, 3 * mb), MallocPlan::Large(4 * mb));
    account.add_small(0xabc, 1, 60);
    assert_eq!(account.current[1], 60);
    assert_eq!(account.available(1, 100), 40);
    assert_eq!(account.available(1, 10), 0);
    assert_eq!(account.plan_malloc(1, 100, 41), MallocPlan::Refuse);
    assert_eq!(account.remove_small(0xdef), None);
    assert_eq!(account.remove_small(0xabc), Some((1, 60)));
    assert_eq!(account.remove_small(0xabc), None);
    assert_eq!(account.current[1], 0);
    account.add_large(2, 7);
    account.remove_large(2, 8);
    assert_eq!(account.current[2], u64::MAX);
}

#[test]
fn allocations_are_booked_and_freed() {
    let mut shm = Shm::init_at("region", SHM_STRUCT_SIZE).unwrap();
    let mb = 1024 * 1024;
    let addr = 0x7000_0000_0000;
    let table = &mut shm.alloc_tables[2].inner;
    let entry = book_entry(table, addr, 300 * mb).unwrap();
    assert_eq!(entry.len, 300 * mb);
    assert_eq!(entry.handle_idx, PhysicalMemoryHandleId::new(1, 3));
    assert_eq!(table.handle_list.chain(Some(3)), Some(vec![3, 2, 1]));
    let last = table.handle_list.get_handle_by_raw_idx(3).unwrap();
    assert_eq!((last.addr, last.size), (addr + 256 * mb as u64, 44 * mb));
    assert!(admit_entry(table, entry));
    assert_eq!(find_entry(table, addr), Some(0));
    assert_eq!(find_entry(table, addr + 1), None);
    assert_eq!(find_allocation(&shm.alloc_tables, addr), Some((2, 0)));
    assert_eq!(find_allocation(&shm.alloc_tables, 5), None);
    let freed = free_entry(&mut shm.alloc_tables[2].inner, 0);
    assert_eq!(freed.len(), 3);
    assert_eq!(freed.iter().map(|(_, size)| size).sum::<usize>(), 300 * mb);
    assert_eq!(find_allocation(&shm.alloc_tables, addr), None);
    let again = book_entry(&mut shm.alloc_tables[2].inner, addr, 2 * mb).unwrap();
    assert_eq!(again.handle_idx, PhysicalMemoryHandleId::new(2, 1));
}

#[test]
fn cancelled_allocations_leave_no_trace() {
    let mut table = AllocationTable::new();
    let entry = book_entry(&mut table, 0x1000, 2 * MAX_ALLOCATION_SIZE).unwrap();
    cancel_entry(&mut table, entry);
    assert!(table.entry.is_empty());
    let next = table.handle_list.allocate_handle(0, 1).unwrap();
    assert_eq!(next.idx, 1);
    table.reinit();
    assert_eq!(table.handle_list.allocate_handle(0, 1).unwrap().alloc_generation, 1);
}

#[test]
fn a_full_table_admits_nothing() {
    let mut table = AllocationTable::new();
    for i in 0..8192u64 {
        let entry = book_entry(&mut table, i, 1).unwrap();
        assert!(admit_entry(&mut table, entry));
    }
    let entry = book_entry(&mut table, 9000, 1).unwrap();
    assert!(!admit_entry(&mut table, entry));
    assert_eq!(table.entry.len(), 8192);
}

#[test]
fn stream_allocations_use_the_pool_first() {
    let next = malloc_async_next;
    assert_eq!(next(MallocAsyncEvent::Pooled(Some(9))), MallocAsyncAction::Reuse(9));
    assert_eq!(next(MallocAsyncEvent::Pooled(None)), MallocAsyncAction::Synchronize);
    assert_eq!(
        next(MallocAsyncEvent::Synchronized(CudaResult::Other(4))),
        MallocAsyncAction::Return(CudaResult::Other(4))
    );
    assert_eq!(
        next(MallocAsyncEvent::Synchronized(CudaResult::Success)),
        MallocAsyncAction::Allocate
    );
    assert_eq!(
        next(MallocAsyncEvent::Allocated(CudaResult::OutOfMemory)),
        MallocAsyncAction::ReleasePool
    );
    assert_eq!(
        next(MallocAsyncEvent::Released(0)),
        MallocAsyncAction::Return(CudaResult::OutOfMemory)
    );
    assert_eq!(next(MallocAsyncEvent::Released(2)), MallocAsyncAction::FreeAndRetry);
    assert_eq!(
        next(MallocAsyncEvent::Retried(CudaResult::OutOfMemory)),
        MallocAsyncAction::Return(CudaResult::OutOfMemory)
    );
}

#[test]
fn stream_frees_keep_small_blocks() {
    let next = free_async_next;
    assert_eq!(
        next(FreeAsyncEvent::LookedUp(0, None)),
        FreeAsyncAction::Return(CudaResult::Success)
    );
    assert_eq!(
        next(FreeAsyncEvent::LookedUp(1, None)),
        FreeAsyncAction::Return(CudaResult::InvalidValue)
    );
    assert_eq!(
        next(FreeAsyncEvent::LookedUp(1, Some(MAX_ASYNC_CACHE_SIZE + 1))),
        FreeAsyncAction::Free
    );
    assert_eq!(
        next(FreeAsyncEvent::LookedUp(1, Some(MAX_ASYNC_CACHE_SIZE))),
        FreeAsyncAction::CreateEvent
    );
    assert_eq!(
        next(FreeAsyncEvent::EventCreated(CudaResult::Other(1))),
        FreeAsyncAction::Free
    );
    assert_eq!(
        next(FreeAsyncEvent::EventCreated(CudaResult::Success)),
        FreeAsyncAction::RecordEvent
    );
    assert_eq!(
        next(FreeAsyncEvent::EventRecorded(CudaResult::InvalidValue)),
        FreeAsyncAction::DestroyEventAndFree
    );
    assert_eq!(
        next(FreeAsyncEvent::EventRecorded(CudaResult::Success)),
        FreeAsyncAction::Cache
    );
}

#[test]
fn copies_have_a_device_side() {
    for code in 0..5 {
        assert_eq!(CudaMemcpyKind::from_code(code).unwrap().code(), code);
    }
    assert_eq!(CudaMemcpyKind::from_code(5), None);
    assert_eq!(CudaMemcpyKind::HostToDevice.device_side(1, 2), Some(1));
    assert_eq!(CudaMemcpyKind::DeviceToHost.device_side(1, 2), Some(2));
    assert_eq!(CudaMemcpyKind::DeviceToDevice.device_side(1, 2), None);
    assert!(CudaMemcpyKind::Default.may_block(false));
    assert!(!CudaMemcpyKind::Default.may_block(true));
    assert!(CudaMemcpyKind::DeviceToHost.may_block(true));
    let grid = CudaDim3 { x: 1, y: 2, z: 3 };
    assert_eq!(grid, grid.clone());
}

#[test]
fn free_undoes_malloc() {
    let mut shm = Shm::init_at("free_undoes_malloc", SHM_STRUCT_SIZE).unwrap();
    let mut account = Account::new();
    let len = MAX_ALLOCATION_SIZE + MIN_ALLOCATION_SIZE;
    let table = &mut shm.alloc_tables[2].inner;
    let kept = book_entry(table, 0x4000_0000, MIN_ALLOCATION_SIZE).unwrap();
    assert!(admit_entry(table, kept));
    account.add_large(2, MIN_ALLOCATION_SIZE as u64);
    let free = table.handle_list.freelist_head;
    let entry = book_entry(table, 0x8000_0000, len).unwrap();
    assert!(admit_entry(table, entry));
    account.add_large(2, len as u64);
    assert_eq!(account.current[2], (len + MIN_ALLOCATION_SIZE) as u64);

    let table = &mut shm.alloc_tables[2].inner;
    assert!(free_on(table, &mut account, 2, 0x9000_0000).is_none());
    assert_eq!(table.entry.len(), 2);
    let freed = free_on(table, &mut account, 2, 0x8000_0000).unwrap();
    assert_eq!(
        freed.iter().map(|(_, size)| *size).collect::<Vec<_>>(),
        vec![MIN_ALLOCATION_SIZE, MAX_ALLOCATION_SIZE]
    );
    assert_eq!(table.entry.as_slice(), &[kept]);
    assert_eq!(table.handle_list.freelist_head, free);
    assert!(freed.iter().all(|(id, _)| !table.handle_list.handles[id.idx as usize].valid));
    assert_eq!(account.current[2], MIN_ALLOCATION_SIZE as u64);
    assert!(free_on(table, &mut account, 2, 0x8000_0000).is_none());
}

#[test]
fn free_searches_every_device() {
    assert_eq!(free_next(FreeEvent::Small(true)), FreeAction::FreeSmall);
    assert_eq!(free_next(FreeEvent::Small(false)), FreeAction::Search(0));
    let searched = |device: usize, found: bool| free_next(FreeEvent::Searched { device, found });
    for device in 0..MAX_GPUS {
        assert_eq!(searched(device, true), FreeAction::Return(CudaResult::Success));
    }
    for device in 0..MAX_GPUS - 1 {
        assert_eq!(searched(device, false), FreeAction::Search(device + 1));
    }
    assert_eq!(
        searched(MAX_GPUS - 1, false),
        FreeAction::Return(CudaResult::InvalidValue)
    );
}

#[test]
fn allocations_take_one_step_after_the_other() {
    let oom = MallocAction::Return(CudaResult::OutOfMemory);
    assert_eq!(malloc_next(MallocEvent::Planned(MallocPlan::Refuse)), oom);
    assert_eq!(
        malloc_next(MallocEvent::Planned(MallocPlan::Large(4 << 20))),
        MallocAction::Reserve(4 << 20)
    );
    assert_eq!(malloc_next(MallocEvent::Reserved(CudaResult::Success)), MallocAction::Book);
    assert_eq!(malloc_next(MallocEvent::Booked(true)), MallocAction::Populate);
    assert_eq!(malloc_next(MallocEvent::Populated(true)), MallocAction::Admit);
    assert_eq!(malloc_next(MallocEvent::Admitted(true)), MallocAction::Count);
    assert_eq!(malloc_next(MallocEvent::Admitted(false)), MallocAction::Count);
    assert_eq!(malloc_next(MallocEvent::Counted), MallocAction::Return(CudaResult::Success));
}

#[test]
fn small_allocations_are_left_to_the_driver() {
    assert_eq!(
        malloc_next(MallocEvent::Planned(MallocPlan::Small)),
        MallocAction::AllocateSmall
    );
    assert_eq!(
        malloc_next(MallocEvent::SmallAllocated(CudaResult::Success)),
        MallocAction::CountSmall
    );
    assert_eq!(
        malloc_next(MallocEvent::SmallAllocated(CudaResult::OutOfMemory)),
        MallocAction::Return(CudaResult::OutOfMemory)
    );
}

#[test]
fn failed_allocations_are_undone() {
    let oom = MallocAction::Return(CudaResult::OutOfMemory);
    assert_eq!(
        malloc_next(MallocEvent::Reserved(CudaResult::InvalidValue)),
        MallocAction::Return(CudaResult::InvalidValue)
    );
    assert_eq!(malloc_next(MallocEvent::Booked(false)), oom);
    assert_eq!(malloc_next(MallocEvent::Populated(false)), MallocAction::Cancel);
    assert_eq!(malloc_next(MallocEvent::Cancelled), oom);
}
