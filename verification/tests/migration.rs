use nixie::constant::{MAX_ALLOCATION_SIZE, MIN_ALLOCATION_SIZE};
use nixie::control::{PhysicalMemoryData, ProcessResidualData};
use nixie::ids::{
    AllocationCapacity, AllocationCount, BufferId, BufferLocation, GlobalDeviceId,
    PhysicalMemoryHandleId, ProcessLocalDeviceId,
};
use nixie::migration::blocks::{block_ranges, device_to_host_order, migration_args, ShmBlock};
use nixie::migration::h2d::{Arrival, H2dAction, HostToDevice};
use nixie::migration::prefetch::{
    gpu_prefetch_task, local_prefetch_task, plan_gpu_prefetch, plan_local_prefetch,
    MigrationRequirement, Refusal,
};
use nixie::migration::realtime::{
    plan_realtime, realtime_migrate_task, DeviceRequestArgs, RealtimePlan,
};
use nixie::migration::run::{plan_run, BackgroundJob, DeviceTransfer, MissingDevice};
use nixie::migration::staging::PlanFault;
use nixie::migration::store::{DataManagerHandle, LocationMap};
use nixie::migration::summary::task_rows;
use nixie::migration::task::{DataMigrationTask, MigrationSpec, MigrationSpecEntry};
use nixie::migration::worker::{
    check_location, first_store, next_store, BackendWorker, Claim, LocationReport, SpaceRequest,
    SpaceSource, SpaceStep, StoreResult, StoreStep, WorkerStep,
};
use nixie::runtime::mapping::DeviceOrdinalMapping;
use nixie::shm_buffer::ShmBuffer;
use std::collections::HashMap;

const MB: u32 = 1024 * 1024;

#[derive(Default)]
struct MockProcessInput {
    pid: i32,
    gpu: u64,
    shm: u64,
    hostmem: u64,
    storage: u64,
}

struct MockProcessData {
    pid: i32,
    gpu_buffer_ids: Vec<BufferId>,
    shm_buffer_ids: Vec<BufferId>,
    hostmem_buffer_ids: Vec<BufferId>,
    storage_buffer_ids: Vec<BufferId>,
}

fn mock_buffers(pid: i32, bytes: u64) -> Vec<BufferId> {
    let block_size = MAX_ALLOCATION_SIZE as u64;
    assert_eq!(bytes % block_size, 0);
    (0..bytes / block_size)
        .map(|i| BufferId {
            pid,
            device_id: GlobalDeviceId(0),
            block_id: PhysicalMemoryHandleId::new(1, i as u32 + 1),
            size: block_size as u32,
        })
        .collect()
}

impl MockProcessData {
    fn from_input(input: &MockProcessInput) -> Self {
        Self {
            pid: input.pid,
            gpu_buffer_ids: mock_buffers(input.pid, input.gpu),
            shm_buffer_ids: mock_buffers(input.pid, input.shm),
            hostmem_buffer_ids: mock_buffers(input.pid, input.hostmem),
            storage_buffer_ids: mock_buffers(input.pid, input.storage),
        }
    }
}

fn on_gpu(ids: &[BufferId]) -> Vec<PhysicalMemoryData> {
    ids.iter()
        .map(|b| PhysicalMemoryData { on_gpu: true, handle_idx: b.block_id, size: b.size })
        .collect()
}

fn create_mock_task(
    schedued_pid: i32,
    new_allocation: Option<u64>,
    processes: Vec<MockProcessInput>,
    gpu_capacity: u64,
    shm_capacity: u64,
    hostmem_capacity: u64,
) -> DataMigrationTask {
    assert_ne!(schedued_pid, 0);
    assert!(
        new_allocation.is_none()
            || processes
                .iter()
                .any(|p| (p.pid == schedued_pid) && (p.hostmem + p.shm + p.storage == 0))
    );
    let process_data_list: Vec<MockProcessData> =
        processes.iter().map(MockProcessData::from_input).collect();
    let mut shm = Vec::new();
    let mut hostmem = Vec::new();
    let mut storage = Vec::new();
    let rounded = |size: u32| {
        AllocationCapacity(size.div_ceil(MIN_ALLOCATION_SIZE as u32) * MIN_ALLOCATION_SIZE as u32)
    };
    for process_data in process_data_list.iter() {
        for buf_id in process_data.shm_buffer_ids.iter() {
            shm.push((*buf_id, rounded(buf_id.size)));
        }
        for buf_id in process_data.hostmem_buffer_ids.iter() {
            hostmem.push((*buf_id, rounded(buf_id.size)));
        }
        for buf_id in process_data.storage_buffer_ids.iter() {
            storage.push((*buf_id, AllocationCapacity(buf_id.size)));
        }
    }
    let used = |list: &Vec<(BufferId, AllocationCapacity)>| {
        list.iter().map(|(_, x)| x.0 as u64).sum::<u64>()
    };
    assert!(
        process_data_list
            .iter()
            .map(|p| p.gpu_buffer_ids.iter().map(|b| b.size as u64).sum::<u64>())
            .sum::<u64>()
            <= gpu_capacity
    );
    assert!(used(&shm) <= shm_capacity);
    assert!(used(&hostmem) <= hostmem_capacity);
    let data_manager = DataManagerHandle {
        shm_free_blocks: AllocationCount(
            ((shm_capacity - used(&shm)) / MAX_ALLOCATION_SIZE as u64) as u32,
        ),
        hostmem_free_blocks: AllocationCount(
            ((hostmem_capacity - used(&hostmem)) / MAX_ALLOCATION_SIZE as u64) as u32,
        ),
        shm,
        hostmem,
        storage,
        gpu_free: vec![(GlobalDeviceId(0), gpu_capacity)],
        shm_capacity: shm_capacity as usize,
        hostmem_capacity: hostmem_capacity as usize,
    };
    let args = match new_allocation {
        Some(size) => DeviceRequestArgs::Allocation(vec![(GlobalDeviceId(0), size)]),
        None => DeviceRequestArgs::ResidualData(ProcessResidualData {
            pid: schedued_pid,
            allocations: vec![(
                GlobalDeviceId(0),
                on_gpu(
                    &process_data_list
                        .iter()
                        .find(|p| p.pid == schedued_pid)
                        .unwrap()
                        .gpu_buffer_ids,
                ),
            )],
        }),
    };
    let victims = process_data_list
        .iter()
        .filter(|p| p.pid != schedued_pid && !p.gpu_buffer_ids.is_empty())
        .map(|p| {
            (
                p.pid,
                ProcessResidualData {
                    pid: p.pid,
                    allocations: vec![(GlobalDeviceId(0), on_gpu(&p.gpu_buffer_ids))],
                },
            )
        })
        .collect::<Vec<_>>();
    realtime_migrate_task(schedued_pid, args, victims, data_manager, true).unwrap()
}

fn size_to_bytes(size: &str) -> u64 {
    let size = size.trim().to_lowercase();
    let mapping = HashMap::from([
        ("g", 1024u64 * 1024 * 1024),
        ("gb", 1024u64 * 1024 * 1024),
        ("m", 1024u64 * 1024),
        ("mb", 1024u64 * 1024),
        ("k", 1024u64),
        ("kb", 1024u64),
    ]);
    for (unit, multiplier) in mapping.iter() {
        if size.ends_with(unit) {
            let num_part = size.trim_end_matches(unit).trim();
            if let Ok(num) = num_part.parse::<f64>() {
                return (num * (*multiplier as f64)) as u64;
            }
        }
    }
    if let Ok(num) = size.parse::<u64>() {
        return num;
    }
    panic!("Invalid size format: {}", size);
}

fn check_task_no_deadlock(task: &DataMigrationTask) -> bool {
    if task.shm_to_backend.is_empty() {
        return true;
    }
    let shm_free_size: u64 =
        task.data_manager.shm_free_blocks_count().0 as u64 * MAX_ALLOCATION_SIZE as u64;
    let mut ready_shm_xfer = 0;
    for (buf_id, _) in task.shm_to_backend.items.iter() {
        if task.data_manager.shm_contains(buf_id) {
            ready_shm_xfer += buf_id.size as u64;
        }
    }
    !(shm_free_size == 0 && ready_shm_xfer == 0)
}

#[test]
fn test_migration_task() {
    let task = create_mock_task(
        1,
        Some(size_to_bytes("10GB")),
        vec![
            MockProcessInput {
                pid: 1,
                gpu: size_to_bytes("8GB"),
                shm: size_to_bytes("0GB"),
                ..Default::default()
            },
            MockProcessInput {
                pid: 2,
                gpu: size_to_bytes("24GB"),
                shm: size_to_bytes("16GB"),
                ..Default::default()
            },
            MockProcessInput { pid: 3, shm: size_to_bytes("14GB"), ..Default::default() },
        ],
        size_to_bytes("32GB"),
        size_to_bytes("32GB"),
        size_to_bytes("32GB"),
    );
    println!("Migration Task: {}", task.json_summary());
    assert!(check_task_no_deadlock(&task));
}

fn buf(pid: i32, idx: u32, size: u32) -> BufferId {
    BufferId {
        pid,
        device_id: GlobalDeviceId(0),
        block_id: PhysicalMemoryHandleId::new(1, idx),
        size,
    }
}

fn physical(idx: u32, size: u32, on_gpu: bool) -> PhysicalMemoryData {
    PhysicalMemoryData { on_gpu, handle_idx: PhysicalMemoryHandleId::new(1, idx), size }
}

fn residual(pid: i32, list: Vec<PhysicalMemoryData>) -> ProcessResidualData {
    ProcessResidualData { pid, allocations: vec![(GlobalDeviceId(0), list)] }
}

fn stores(
    shm: Vec<(BufferId, AllocationCapacity)>,
    hostmem: Vec<(BufferId, AllocationCapacity)>,
    shm_free: u32,
    hostmem_free: u32,
) -> DataManagerHandle {
    DataManagerHandle {
        shm,
        hostmem,
        storage: Vec::new(),
        shm_free_blocks: AllocationCount(shm_free),
        hostmem_free_blocks: AllocationCount(hostmem_free),
        gpu_free: vec![(GlobalDeviceId(0), 0)],
        shm_capacity: 0,
        hostmem_capacity: 0,
    }
}

fn allocation(size: u64) -> DeviceRequestArgs {
    DeviceRequestArgs::Allocation(vec![(GlobalDeviceId(0), size)])
}

fn eviction(hostmem_free: u32) -> DataMigrationTask {
    let resting = buf(3, 7, 2 * MB);
    let manager = stores(vec![(resting, AllocationCapacity(2 * MB))], Vec::new(), 0, hostmem_free);
    let victims = vec![(2, residual(2, vec![physical(4, 2 * MB, true)]))];
    realtime_migrate_task(1, allocation(2 * MB as u64), victims, manager, true).unwrap()
}

#[test]
fn full_shared_memory_is_moved_on_to_host_memory() {
    let task = eviction(1);
    assert_eq!(task.shm_to_backend.items, vec![(buf(3, 7, 2 * MB), BufferLocation::HostMem)]);
    assert_eq!(task.get_out_from_gpu().len(), 1);
    assert_eq!(task.out_from_gpu[0].0, 2);
    let entries = &task.out_from_gpu[0].1.device_map[0].1;
    assert_eq!(entries.len(), 1);
    assert_eq!(entries[0].handle_idx, PhysicalMemoryHandleId::new(1, 4));
    assert!(check_task_no_deadlock(&task));
}

#[test]
fn full_host_memory_leaves_only_storage() {
    let task = eviction(0);
    assert_eq!(task.shm_to_backend.items, vec![(buf(3, 7, 2 * MB), BufferLocation::Storage)]);
}

#[test]
fn summary_tells_who_moves_where() {
    let task = eviction(1);
    assert_eq!(
        task.json_summary(),
        "{\"gpu -> shm\":{\"2\":\"2.00MB(1)\"},\"shm -> backend\":{\"3\":\"2.00MB\"},\
         \"shm -> gpu\":{\"1\":\"0B(0)\"}}"
    );
    let rows = task_rows(&task);
    let text = |s: &str| s.to_string();
    assert_eq!(
        rows,
        vec![
            (text("shm -> gpu"), vec![(text("1"), text("0B(0)"))]),
            (text("gpu -> shm"), vec![(text("2"), text("2.00MB(1)"))]),
            (text("shm -> backend"), vec![(text("3"), text("2.00MB"))]),
        ]
    );
}

#[test]
fn summary_groups_buffers_by_process() {
    let task = DataMigrationTask::new(
        Vec::new(),
        None,
        vec![buf(9, 1, 1536), buf(8, 1, 5), buf(9, 2, 1536)],
        Vec::new(),
        LocationMap::new(),
        vec![buf(4, 1, 1)],
        Vec::new(),
        stores(Vec::new(), Vec::new(), 0, 0),
    );
    assert_eq!(
        task.json_summary(),
        "{\"storage -> hostmem\":{\"4\":\"1B\"},\"storage -> shm\":{\"8\":\"5B\",\"9\":\"3.00KB\"}}"
    );
    let text = |s: &str| s.to_string();
    assert_eq!(
        task_rows(&task)[0].1,
        vec![(text("9"), text("3.00KB")), (text("8"), text("5B"))]
    );
}

#[test]
fn free_memory_on_the_gpu_is_used_first() {
    let resting = buf(1, 5, 2 * MB);
    let plan = |free: u64, with_free_memory: bool| {
        let mut manager = stores(Vec::new(), vec![(resting, AllocationCapacity(2 * MB))], 8, 0);
        manager.gpu_free = vec![(GlobalDeviceId(0), free)];
        let victims = vec![(2, residual(2, vec![physical(4, 2 * MB, true)]))];
        let back = DeviceRequestArgs::ResidualData(residual(1, vec![physical(5, 2 * MB, false)]));
        let task = realtime_migrate_task(1, back, victims, manager, with_free_memory).unwrap();
        task.out_from_gpu
            .iter()
            .map(|(_, spec)| spec.device_map.iter().map(|(_, list)| list.len()).sum::<usize>())
            .sum::<usize>()
    };
    let reserve = 2 * MAX_ALLOCATION_SIZE as u64;
    assert_eq!(plan(reserve + 2 * MB as u64, true), 0);
    assert_eq!(plan(reserve, true), 1);
    assert_eq!(plan(reserve + 2 * MB as u64, false), 1);
}

#[test]
fn too_little_to_free_is_no_task() {
    let manager = stores(Vec::new(), Vec::new(), 8, 0);
    let victims = vec![(2, residual(2, vec![physical(4, 2 * MB, true)]))];
    assert!(matches!(
        plan_realtime(1, allocation(4 * MB as u64), victims, manager, true),
        RealtimePlan::NotEnoughData
    ));
}

#[test]
fn plan_faults() {
    let victims = || vec![(2, residual(2, vec![physical(4, 2 * MB, true)]))];
    let manager = stores(Vec::new(), Vec::new(), 0, 8);
    assert!(matches!(
        plan_realtime(1, allocation(2 * MB as u64), victims(), manager, true),
        RealtimePlan::Fault(PlanFault::NotEnoughShm)
    ));
    let manager =
        stores(vec![(buf(3, 7, 2 * MB), AllocationCapacity(3 * MB))], Vec::new(), 0, 8);
    assert!(matches!(
        plan_realtime(1, allocation(2 * MB as u64), victims(), manager, true),
        RealtimePlan::Fault(PlanFault::MisalignedCapacity)
    ));
    let manager = stores(Vec::new(), Vec::new(), 8, 8);
    let back = DeviceRequestArgs::ResidualData(residual(1, vec![physical(1, 2 * MB, true)]));
    assert!(matches!(
        plan_realtime(1, back, victims(), manager, true),
        RealtimePlan::Fault(PlanFault::AlreadyOnGpu)
    ));
}

#[test]
fn stored_buffers_come_back_through_shared_memory() {
    let resting = buf(1, 5, 2 * MB);
    let manager = stores(Vec::new(), vec![(resting, AllocationCapacity(2 * MB))], 8, 0);
    let victims = vec![(2, residual(2, vec![physical(4, 2 * MB, true)]))];
    let back = DeviceRequestArgs::ResidualData(residual(1, vec![physical(5, 2 * MB, false)]));
    let task = realtime_migrate_task(1, back, victims, manager, true).unwrap();
    assert_eq!(task.hostmem_to_shm, vec![resting]);
    assert!(task.storage_to_shm.is_empty());
    let (pid, spec) = task.into_gpu.as_ref().unwrap();
    assert_eq!(*pid, 1);
    assert_eq!(
        spec.device_map[0].1,
        vec![MigrationSpecEntry {
            size: 2 * MB,
            handle_idx: PhysicalMemoryHandleId::new(1, 5),
            ready_for_pcie_xfer: false,
        }]
    );
}

#[test]
fn local_prefetch_moves_and_refuses() {
    let resting = buf(1, 5, 2 * MB);
    let up = |size: u32| {
        MigrationRequirement::new(BufferLocation::HostMem, BufferLocation::Shm, size as u64, false)
    };
    let down = |size: u32| {
        MigrationRequirement::new(BufferLocation::Shm, BufferLocation::HostMem, size as u64, false)
    };
    let capacity = AllocationCapacity(2 * MB);
    let task = local_prefetch_task(
        vec![(1, vec![up(2 * MB)])],
        stores(Vec::new(), vec![(resting, capacity)], 4, 0),
    )
    .unwrap();
    assert_eq!(task.hostmem_to_shm, vec![resting]);
    assert!(task.shm_to_backend.is_empty());

    let refused = |requests, manager| plan_local_prefetch(requests, manager).err();
    assert_eq!(
        refused(
            vec![(1, vec![up(2 * MB)]), (1, vec![up(2 * MB)])],
            stores(Vec::new(), vec![(resting, capacity)], 4, 0)
        ),
        Some(Refusal::DuplicatedPids)
    );
    assert_eq!(
        refused(
            vec![(1, vec![up(4 * MB)])],
            stores(Vec::new(), vec![(resting, capacity)], 4, 0)
        ),
        Some(Refusal::Unsatisfiable)
    );
    assert_eq!(
        refused(
            vec![(1, vec![up(2 * MB)])],
            stores(Vec::new(), vec![(resting, capacity)], 0, 0)
        ),
        Some(Refusal::NotEnoughShm)
    );
    assert_eq!(
        refused(
            vec![(1, vec![down(2 * MB)])],
            stores(vec![(resting, capacity)], Vec::new(), 4, 0)
        ),
        Some(Refusal::NotEnoughHostMem)
    );
    assert_eq!(
        refused(
            vec![(1, vec![up(2 * MB)])],
            stores(
                vec![(buf(3, 1, 2 * MB), AllocationCapacity(3 * MB))],
                vec![(resting, capacity)],
                0,
                0
            )
        ),
        Some(Refusal::MisalignedCapacity)
    );
}

#[test]
fn moves_into_shared_memory_use_the_blocks_that_moves_out_free() {
    let small = buf(1, 1, 2 * MB);
    let large = buf(1, 2, 8 * MB);
    let other = buf(3, 3, 6 * MB);
    let out = MigrationRequirement::new(
        BufferLocation::Shm,
        BufferLocation::Storage,
        2 * MB as u64,
        false,
    );
    let into = MigrationRequirement::new(
        BufferLocation::HostMem,
        BufferLocation::Shm,
        8 * MB as u64,
        false,
    );
    let manager = |shm: Vec<(BufferId, AllocationCapacity)>, free: u32| {
        stores(shm, vec![(large, AllocationCapacity(8 * MB))], free, 0)
    };
    let listed = |id: BufferId| (id, AllocationCapacity(id.size));
    let plan = |shm: Vec<(BufferId, AllocationCapacity)>, free: u32| {
        plan_local_prefetch(vec![(1, vec![out, into])], manager(shm, free))
    };
    // One block is freed, and four are needed.
    assert_eq!(plan(vec![listed(small)], 0).err(), Some(Refusal::NotEnoughShm));
    assert_eq!(plan(vec![listed(small)], 2).err(), Some(Refusal::NotEnoughShm));
    let task = plan(vec![listed(small)], 3).unwrap();
    assert_eq!(task.hostmem_to_shm, vec![large]);
    assert_eq!(task.shm_to_backend.items, vec![(small, BufferLocation::Storage)]);
    // Another process gives what is missing. The blocks that leave host memory take it up.
    let task = plan(vec![listed(small), listed(other)], 0).unwrap();
    assert_eq!(
        task.shm_to_backend.items,
        vec![(small, BufferLocation::Storage), (other, BufferLocation::HostMem)]
    );
}

#[test]
fn host_memory_counts_freed_blocks() {
    let leaving = buf(1, 1, 2 * MB);
    let arriving = buf(1, 2, 8 * MB);
    let to_storage = MigrationRequirement::new(
        BufferLocation::HostMem,
        BufferLocation::Storage,
        2 * MB as u64,
        false,
    );
    let to_hostmem = MigrationRequirement::new(
        BufferLocation::Shm,
        BufferLocation::HostMem,
        8 * MB as u64,
        false,
    );
    let plan = |hostmem_free: u32| {
        plan_local_prefetch(
            vec![(1, vec![to_storage, to_hostmem])],
            stores(
                vec![(arriving, AllocationCapacity(8 * MB))],
                vec![(leaving, AllocationCapacity(2 * MB))],
                0,
                hostmem_free,
            ),
        )
    };
    assert_eq!(plan(2).err(), Some(Refusal::NotEnoughHostMem));
    let task = plan(3).unwrap();
    assert_eq!(task.hostmem_to_storage, vec![leaving]);
    assert_eq!(task.shm_to_backend.items, vec![(arriving, BufferLocation::HostMem)]);
}

#[test]
fn gpu_prefetch_ignores_free_gpu_memory() {
    let manager = |gpu_free: u64| {
        let resting = vec![(buf(1, 2, 4 * MB), AllocationCapacity(4 * MB))];
        let mut manager = stores(resting, Vec::new(), 64, 0);
        manager.gpu_free = vec![(GlobalDeviceId(0), gpu_free)];
        manager
    };
    let victims = || vec![(2, residual(2, vec![physical(4, 4 * MB, true)]))];
    let wanted = || residual(1, vec![physical(2, 4 * MB, false)]);
    let plan = |gpu_free: u64| {
        gpu_prefetch_task(None, 1, wanted(), victims(), manager(gpu_free)).unwrap()
    };
    for task in [plan(0), plan(1 << 40)] {
        assert_eq!(task.out_from_gpu.len(), 1);
        assert_eq!(task.out_from_gpu[0].0, 2);
        let leaving = &task.out_from_gpu[0].1.device_map;
        assert_eq!(leaving, &vec![(GlobalDeviceId(0), vec![entry(4, 4 * MB, true)])]);
        let (pid, entering) = task.into_gpu.as_ref().unwrap();
        assert_eq!(*pid, 1);
        assert_eq!(
            entering.device_map,
            vec![(GlobalDeviceId(0), vec![entry(2, 4 * MB, true)])]
        );
    }
}

#[test]
fn gpu_prefetch_takes_what_fits() {
    let manager = || {
        let resting = vec![
            (buf(1, 1, 6 * MB), AllocationCapacity(6 * MB)),
            (buf(1, 2, 4 * MB), AllocationCapacity(4 * MB)),
        ];
        stores(resting, Vec::new(), 64, 0)
    };
    let victims = || vec![(2, residual(2, vec![physical(4, 4 * MB, true)]))];
    let wanted = || residual(1, vec![physical(1, 6 * MB, false), physical(2, 4 * MB, false)]);
    let task = gpu_prefetch_task(Some(9), 1, wanted(), victims(), manager()).unwrap();
    let spec = &task.into_gpu.as_ref().unwrap().1;
    assert_eq!(spec.device_map[0].1.len(), 1);
    assert_eq!(spec.device_map[0].1[0].handle_idx, PhysicalMemoryHandleId::new(1, 2));
    let resident = residual(1, vec![physical(1, 6 * MB, true)]);
    assert!(matches!(
        plan_gpu_prefetch(1, resident, victims(), manager()),
        RealtimePlan::Fault(PlanFault::AlreadyOnGpu)
    ));
}

fn entry(idx: u32, size: u32, ready: bool) -> MigrationSpecEntry {
    MigrationSpecEntry {
        size,
        handle_idx: PhysicalMemoryHandleId::new(1, idx),
        ready_for_pcie_xfer: ready,
    }
}

fn identity() -> DeviceOrdinalMapping {
    DeviceOrdinalMapping::from_real_to_visible_map(vec![(
        GlobalDeviceId(0),
        ProcessLocalDeviceId(3),
    )])
}

#[test]
fn run_has_a_job_for_each_device() {
    let spec = |device: i32, list: Vec<MigrationSpecEntry>| MigrationSpec {
        device_map: vec![(GlobalDeviceId(device), list)],
    };
    let task = |device: i32| {
        DataMigrationTask::new(
            vec![(2, spec(device, vec![entry(1, 10, true)]))],
            Some((1, spec(0, vec![entry(2, 30, true)]))),
            Vec::new(),
            vec![buf(1, 2, 30), buf(1, 3, 30)],
            LocationMap::new(),
            Vec::new(),
            Vec::new(),
            stores(Vec::new(), Vec::new(), 0, 0),
        )
    };
    let mappings = vec![(1, identity()), (2, identity())];
    let plan = plan_run(&task(0), &mappings).unwrap();
    assert_eq!(plan.devices.len(), 1);
    assert_eq!(plan.devices[0].out_from_gpu[0].pid, 2);
    assert_eq!(plan.devices[0].out_from_gpu[0].local, ProcessLocalDeviceId(3));
    assert_eq!(plan.devices[0].into_gpu.as_ref().unwrap().entries, vec![entry(2, 30, true)]);
    assert_eq!(
        plan.background,
        vec![BackgroundJob::HostMemToShm, BackgroundJob::ShmToBackend]
    );
    assert_eq!(plan.excluded, vec![1]);
    assert_eq!(plan.largest_transfer_size, 60);
    assert_eq!(
        plan_run(&task(5), &mappings).err(),
        Some(MissingDevice { pid: 2, device: GlobalDeviceId(5) })
    );
}

#[test]
fn ready_buffers_enter_before_those_that_arrive() {
    let entries = vec![entry(1, 10, false), entry(2, 20, true), entry(3, 30, true)];
    let device = GlobalDeviceId(0);
    let mut state = HostToDevice::new(&entries, 1, device);
    let id = |i: u32| buf(1, i, i * 10);
    assert_eq!(state.action(true), H2dAction::AwaitToken);
    assert!(!state.on_token(Some(15)));
    assert!(state.on_token(Some(15)));
    assert_eq!(state.tokens, 10);
    assert_eq!(state.action(false), H2dAction::Transfer(id(2)));
    state.on_transferred();
    assert_eq!(state.action(false), H2dAction::Transfer(id(3)));
    state.on_transferred();
    assert_eq!(state.action(false), H2dAction::AwaitData);
    assert_eq!(state.on_data(Some(id(7))), Arrival::Unexpected);
    assert_eq!(state.on_data(Some(id(1))), Arrival::Expected);
    assert_eq!(state.action(false), H2dAction::Transfer(id(1)));
    state.on_transferred();
    assert_eq!(state.action(false), H2dAction::Finish { complete: true });
}

#[test]
fn a_closed_source_ends_the_transfer() {
    let mut state = HostToDevice::new(&vec![entry(1, 10, false)], 1, GlobalDeviceId(0));
    assert_eq!(state.action(true), H2dAction::AwaitData);
    assert_eq!(state.on_data(None), Arrival::Closed);
    assert_eq!(state.action(true), H2dAction::Finish { complete: false });
}

#[test]
fn a_missing_buffer_ends_the_transfer() {
    let entries = vec![entry(1, 10, true), entry(2, 20, true)];
    let mut state = HostToDevice::new(&entries, 1, GlobalDeviceId(0));
    assert!(state.on_token(Some(40)));
    assert_eq!(state.action(false), H2dAction::Transfer(buf(1, 1, 10)));
    state.on_missing();
    assert_eq!(state.action(true), H2dAction::Finish { complete: false });
    assert_eq!(state.action(false), H2dAction::Finish { complete: false });
}

fn planned(target: BufferLocation) -> (LocationMap, Vec<BufferId>) {
    let ids = vec![
        BufferId { device_id: GlobalDeviceId(0), ..buf(123, 1, 4096) },
        BufferId { device_id: GlobalDeviceId(1), ..buf(123, 1, 4096) },
    ];
    let mut map = LocationMap::new();
    for id in &ids {
        map.insert(*id, target);
    }
    (map, ids)
}

#[test]
fn copies_are_claimed_before_room_is_made() {
    let (map, ids) = planned(BufferLocation::HostMem);
    let mut worker = BackendWorker::new(Vec::new(), map);
    for id in &ids {
        assert_eq!(worker.on_arrival(*id), Claim::Copy(BufferLocation::HostMem));
    }
    assert_eq!(worker.copies, 2);
    assert!(ids.iter().all(|id| worker.claimed.contains(id)));
    let in_shm: Vec<(BufferId, bool)> = ids.iter().map(|id| (*id, false)).collect();
    let mut request = SpaceRequest { source: SpaceSource::Gpu, remaining: 2 };
    for _ in 0..2 {
        assert_eq!(worker.on_request(&request, &in_shm), SpaceStep::AwaitCopy);
        worker.on_copy_done(true);
        request.on_freed(AllocationCount(1));
    }
    assert_eq!(worker.on_request(&request, &in_shm), SpaceStep::Ready);
    assert_eq!(worker.extra_moves, 0);
    assert!(worker.is_drained());
}

#[test]
fn worker_drains_before_it_stops() {
    for cancelled in [false, true] {
        let (map, ids) = planned(BufferLocation::Storage);
        let mut worker = BackendWorker::new(Vec::new(), map);
        assert_eq!(
            worker.step(false, false),
            WorkerStep::Listen { arrivals: true, requests: true }
        );
        for id in &ids {
            assert_eq!(worker.on_arrival(*id), Claim::Copy(BufferLocation::Storage));
        }
        assert_eq!(worker.step(!cancelled, cancelled), WorkerStep::Drain);
        assert!(!worker.is_drained());
        worker.on_copy_done(true);
        worker.on_copy_done(true);
        assert!(worker.is_drained());
    }
}

#[test]
fn room_is_made_beyond_the_plan() {
    let other = buf(7, 1, 10);
    let mut worker = BackendWorker::new(vec![5], LocationMap::new());
    let request = SpaceRequest { source: SpaceSource::Backend, remaining: 1 };
    let in_shm = vec![(buf(5, 1, 10), false), (buf(6, 1, 10), true), (other, false)];
    assert_eq!(worker.on_request(&request, &in_shm), SpaceStep::Evict(other));
    assert_eq!(worker.extra_moves, 1);
    assert_eq!(worker.on_arrival(other), Claim::Known);
    assert_eq!(worker.on_arrival(buf(8, 1, 10)), Claim::Unexpected);
    assert_eq!(worker.on_request(&request, &in_shm), SpaceStep::BusyWait);
    let from_gpu = SpaceRequest { source: SpaceSource::Gpu, remaining: 1 };
    assert_eq!(worker.on_request(&from_gpu, &in_shm), SpaceStep::GiveUp);
}

#[test]
fn full_host_memory_falls_back_to_storage() {
    assert_eq!(first_store(BufferLocation::HostMem), StoreStep::ToHostMem);
    assert_eq!(first_store(BufferLocation::Storage), StoreStep::ToStorage);
    assert_eq!(
        next_store(StoreStep::ToHostMem, StoreResult::MemoryExhausted),
        StoreStep::ToStorage
    );
    assert_eq!(
        next_store(StoreStep::ToStorage, StoreResult::Stored),
        StoreStep::Release(BufferLocation::Storage)
    );
    assert_eq!(next_store(StoreStep::ToStorage, StoreResult::Failed), StoreStep::GiveUp);
}

#[test]
fn misplaced_buffers_are_reported() {
    let (host, shm, disk) =
        (BufferLocation::HostMem, BufferLocation::Shm, BufferLocation::Storage);
    assert_eq!(check_location(host, host), LocationReport::AsExpected);
    assert_eq!(check_location(host, disk), LocationReport::InStorageInstead);
    assert_eq!(check_location(disk, host), LocationReport::InHostMemInstead);
    assert_eq!(check_location(shm, host), LocationReport::UnexpectedTarget);
    let (map, ids) = planned(host);
    let mut worker = BackendWorker::new(Vec::new(), map);
    assert_eq!(worker.scanned(ids[0], Some(disk)), Some(LocationReport::InStorageInstead));
    assert_eq!(worker.scanned(ids[1], None), None);
    assert_eq!(worker.planned.len(), 1);
}

#[test]
fn blocks_are_passed_on_in_order() {
    let blocks =
        vec![ShmBlock { offset: 100, data_size: 7 }, ShmBlock { offset: 300, data_size: 9 }];
    assert_eq!(
        block_ranges(&ShmBuffer::new(0x1000, 309), &blocks),
        Some(vec![(0x1000 + 100, 7), (0x1000 + 300, 9)])
    );
    assert_eq!(block_ranges(&ShmBuffer::new(0x1000, 308), &blocks), None);
    assert_eq!(buf(1, 1, 2 * MB + 1).get_allocation_count(), AllocationCount(2));
    let handle = PhysicalMemoryHandleId::new(4, 2);
    let args = migration_args(&blocks, ProcessLocalDeviceId(1), handle, true);
    assert_eq!(args.host_buffer_offset, vec![100, 300]);
    assert_eq!(args.size, vec![7, 9]);
    assert!(args.host_to_device);
    let list = vec![DeviceTransfer {
        pid: 1,
        local: ProcessLocalDeviceId(3),
        entries: vec![entry(2, 20, true), entry(1, 10, true)],
    }];
    assert_eq!(
        device_to_host_order(&list, GlobalDeviceId(0)),
        vec![
            (buf(1, 2, 20), ProcessLocalDeviceId(3)),
            (buf(1, 1, 10), ProcessLocalDeviceId(3))
        ]
    );
}
