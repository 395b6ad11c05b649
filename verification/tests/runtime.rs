use nixie::client::command::{
    cooldown_setting, is_set, mb_to_bytes, parse_size, run_environment, sidecar_dirs,
    SetPriorityLevel,
    SIDECAR_NAME,
};
use nixie::client::labels::{change_label, priority_label, response_label};
use nixie::client::limits::{get_bytes, parse_device_limit, Amount, DeviceLimit};
use nixie::client::moves::parse_move;
use nixie::client::target::{
    get_pid_checked, parse_pid, resolve_moves, MoveOperation, ProcArgs,
};
use nixie::client::usage::{
    bytes_in_all, bytes_on_gpu, bytes_stored, filter_invalid_processes, processes_on,
    usage_by_process,
};
use nixie::constant::MAX_ALLOCATION_SIZE;
use nixie::control::{
    AllocationData, DataBlockMeta, DataManagerMetadata, PhysicalMemoryData, PrefetchMsg,
    ProcessDataMeta, ProcessMetadata, CONTROL_PATH,
};
use nixie::error::{
    ClientError, DaemonError, HybridBufferError, NixieError, ScheduleError, UvmError,
};
use nixie::general::pretty_size;
use nixie::ids::{
    AllocationCapacity, AllocationCount, BufferId, BufferLocation, GlobalDeviceId,
    PhysicalMemoryHandleId, ProcessLocalDeviceId,
};
use nixie::logging::{ExactLevelFilter, Level, SystemTime};
use nixie::migration::store::DataManagerHandle;
use nixie::runtime::daemon::{Daemon, ProcessEvent};
use nixie::runtime::listing::{list_allocations, list_residual};
use nixie::runtime::mapping::{
    format_uuid, get_device_uuid_mapping, DeviceOrdinalMapping, InvalidDevice,
};
use nixie::runtime::metadata::{data_details, to_meta};
use nixie::runtime::registry::DaemonData;
use nixie::runtime::server::{visible_mem_sizes, ServerState};
use nixie::schedule::priority::{Priority, PriorityLevel};
use nixie::schedule::queue::SetPriorityResponse;
use nixie::shm::{Shm, SHM_STRUCT_SIZE};
use nixie::sidecar::tables::{admit_entry, book_entry};
use nixie::sync::{lock_outcome, IpcMutex, LockOutcome, WAIT_ABANDONED, WAIT_OBJECT_0};

const UUID: [u8; 16] = [
    0x01, 0x23, 0x45, 0x67, 0x89, 0xab, 0xcd, 0xef, 0x00, 0x11, 0x22, 0x33, 0x44, 0x55, 0x66, 0xff,
];

#[test]
fn devices_are_named_by_number_or_identifier() {
    let text = "gpu-01234567-89ab-cdef-0011-2233445566ff";
    assert_eq!(format_uuid(&UUID), text);
    let table = get_device_uuid_mapping(&vec![None, Some(UUID)]);
    assert_eq!(table, vec![(text.to_string(), 1)]);
    let upper = format!("GPU-{}", text[4..].to_uppercase());
    let mapping = DeviceOrdinalMapping::new(&format!("3,{}", upper), 8, &table).unwrap();
    assert_eq!(mapping.real_to_visible(GlobalDeviceId(3)), Some(ProcessLocalDeviceId(0)));
    assert_eq!(mapping.real_to_visible(GlobalDeviceId(1)), Some(ProcessLocalDeviceId(1)));
    assert_eq!(mapping.visible_to_real(ProcessLocalDeviceId(1)), Some(GlobalDeviceId(1)));
    assert_eq!(mapping.real_to_visible(GlobalDeviceId(0)), None);
    assert_eq!(mapping.visible_to_real(ProcessLocalDeviceId(2)), None);
    for list in [text, "GPU-unknown", "0,,1", "x"] {
        assert_eq!(DeviceOrdinalMapping::new(list, 8, &table).err(), Some(InvalidDevice));
    }
}

#[test]
fn without_a_list_all_devices_are_seen() {
    let mapping = DeviceOrdinalMapping::new("", 2, &Vec::new()).unwrap();
    assert_eq!(mapping.visible_to_real(ProcessLocalDeviceId(1)), Some(GlobalDeviceId(1)));
    assert_eq!(mapping.visible_to_real(ProcessLocalDeviceId(2)), None);
    let sizes = vec![(GlobalDeviceId(5), 50), (GlobalDeviceId(1), 10), (GlobalDeviceId(0), 7)];
    assert_eq!(
        visible_mem_sizes(&mapping, &sizes),
        vec![(ProcessLocalDeviceId(1), 10), (ProcessLocalDeviceId(0), 7)]
    );
}

#[test]
fn handshake_happens_once() {
    let mut state = ServerState::Start;
    assert_eq!(state.sender(), Err("Start"));
    assert_eq!(state.begin_handshake(), Ok(()));
    assert_eq!(state.sender(), Err("Inconsistent state when lock is hold"));
    state.launch(42);
    assert_eq!(state.sender(), Ok(42));
    assert_eq!(state.state_name(), "Launched");
    assert_eq!(state.begin_handshake(), Err("Launched"));
    assert_eq!(state, ServerState::Partial);
}

#[test]
fn processes_are_listed_as_they_came() {
    let mut data = DaemonData::new();
    data.join(30, 1);
    data.join(10, 2);
    data.join(20, 3);
    assert_eq!(data.list_pid(), vec![30, 10, 20]);
    assert_eq!(data.connections(), vec![1, 2, 3]);
    data.join(30, 4);
    assert_eq!(data.list_pid(), vec![10, 20, 30]);
    assert_eq!(data.connections(), vec![2, 3, 4]);
    assert!(data.contains(20));
    assert_eq!(data.leave(20), Some(3));
    assert_eq!(data.leave(20), None);
    assert!(!data.contains(20));
    assert_eq!(data.list_pid(), vec![10, 30]);
    let to = |pid: i32| PrefetchMsg {
        pid,
        from: BufferLocation::Shm,
        to: BufferLocation::HostMem,
        size: 1,
    };
    assert_eq!(data.unknown_target(&vec![to(10), to(30)]), None);
    assert_eq!(data.unknown_target(&vec![to(10), to(7), to(8)]), Some(7));
}

#[test]
fn exited_processes_leave_nothing_behind() {
    let mut daemon = Daemon::new(100, 200);
    assert_eq!((daemon.shm_buffer_size, daemon.ram_buffer_size), (100, 200));
    assert_eq!(daemon.control_path, CONTROL_PATH);
    assert_eq!(daemon.buffer_path, "/tmp/nixie.pagebuffer");
    assert_eq!(daemon.shm_buffer_path, "/nixie_shm_buffer");
    assert_eq!(daemon.on_process(ProcessEvent::Connected { pid: 5, connection: 1 }), None);
    assert!(daemon.data.contains(5));
    assert_eq!(daemon.on_process(ProcessEvent::Exited { pid: 5 }), Some(5));
    assert!(!daemon.data.contains(5));
}

fn buffer(pid: i32, idx: u32) -> BufferId {
    BufferId {
        pid,
        device_id: GlobalDeviceId(idx as i32),
        block_id: PhysicalMemoryHandleId::new(1, idx),
        size: 10,
    }
}

#[test]
fn stored_blocks_are_grouped_by_process() {
    let shm = vec![
        (buffer(2, 0), AllocationCapacity(16)),
        (buffer(1, 1), AllocationCapacity(32)),
        (buffer(2, 2), AllocationCapacity(64)),
    ];
    let list = to_meta(&shm);
    assert_eq!(list.len(), 2);
    assert_eq!(list[0].pid, 2);
    assert_eq!(
        list[0].data_blocks,
        vec![
            DataBlockMeta { device_id: GlobalDeviceId(0), size: 16 },
            DataBlockMeta { device_id: GlobalDeviceId(2), size: 64 },
        ]
    );
    assert_eq!(list[1].pid, 1);
    let manager = DataManagerHandle {
        shm,
        hostmem: Vec::new(),
        storage: vec![(buffer(9, 1), AllocationCapacity(5))],
        shm_free_blocks: AllocationCount(0),
        hostmem_free_blocks: AllocationCount(0),
        gpu_free: Vec::new(),
        shm_capacity: 1000,
        hostmem_capacity: 2000,
    };
    let meta = data_details(&manager);
    assert_eq!((meta.shm_capacity, meta.hostmem_capacity), (1000, 2000));
    assert_eq!((meta.shm.len(), meta.hostmem.len(), meta.storage.len()), (2, 0, 1));
}

#[test]
fn allocations_are_listed_by_device() {
    let mut shm = Shm::init_at("listing", SHM_STRUCT_SIZE).unwrap();
    for device in 0..2 {
        let table = &mut shm.alloc_tables[device].inner;
        let entry = book_entry(table, 0x1000, MAX_ALLOCATION_SIZE + 10).unwrap();
        assert!(admit_entry(table, entry));
    }
    shm.alloc_tables[1].inner.handle_list.get_handle_by_raw_idx_mut(1).unwrap().on_gpu = true;
    let mapping = DeviceOrdinalMapping::new("5,2,7", 8, &Vec::new()).unwrap();
    let listed = list_allocations(&shm.alloc_tables, &mapping);
    assert_eq!(listed.len(), 2);
    assert_eq!(listed[0].0, GlobalDeviceId(2));
    assert_eq!(listed[1].0, GlobalDeviceId(5));
    let allocation = &listed[0].1[0];
    assert_eq!(allocation.on_gpu_bytes, MAX_ALLOCATION_SIZE as u64);
    assert_eq!(allocation.off_gpu_bytes, 10);
    let slot = |idx: u32, size: u32, on_gpu: bool| PhysicalMemoryData {
        on_gpu,
        handle_idx: PhysicalMemoryHandleId::new(1, idx),
        size,
    };
    let large = MAX_ALLOCATION_SIZE as u32;
    assert_eq!(allocation.physical, vec![slot(2, 10, false), slot(1, large, true)]);
    let devices = vec![GlobalDeviceId(2), GlobalDeviceId(9), GlobalDeviceId(2), GlobalDeviceId(7)];
    let on = list_residual(77, &shm.alloc_tables, &mapping, &devices, true);
    assert_eq!(on.pid, 77);
    assert_eq!(
        on.allocations,
        vec![
            (GlobalDeviceId(2), vec![slot(1, large, true)]),
            (GlobalDeviceId(7), Vec::new())
        ]
    );
    let off = list_residual(77, &shm.alloc_tables, &mapping, &devices, false);
    assert_eq!(off.allocations[0].1, vec![slot(2, 10, false)]);
}

#[test]
fn processes_are_chosen_by_number_or_place() {
    let pids = vec![100, 200];
    let by_pid = |pid: i32| ProcArgs { pid: Some(pid), idx: None };
    let by_idx = |idx: u32| ProcArgs { pid: None, idx: Some(idx) };
    assert_eq!(get_pid_checked(by_pid(200), &pids).unwrap(), 200);
    assert_eq!(get_pid_checked(by_idx(0), &pids).unwrap(), 100);
    let text = |args: ProcArgs| get_pid_checked(args, &pids).unwrap_err().message();
    assert_eq!(text(by_pid(-3)), "Process with pid -3 not found: Invalid arguments");
    assert_eq!(text(by_idx(2)), "Process index 2 out of range: Invalid arguments");
    assert_eq!(
        text(ProcArgs { pid: None, idx: None }),
        "Either pid or idx must be specified: Invalid arguments"
    );
    assert_eq!(ProcArgs::empty(), by_pid(0));
    let op = |pid: ProcArgs| MoveOperation {
        pid,
        src: BufferLocation::Storage,
        dest: BufferLocation::Shm,
        size: 9,
    };
    assert_eq!(
        resolve_moves(&vec![op(by_idx(1))], &pids).unwrap(),
        vec![PrefetchMsg {
            pid: 200,
            from: BufferLocation::Storage,
            to: BufferLocation::Shm,
            size: 9
        }]
    );
    let failed = resolve_moves(&vec![op(by_idx(1)), op(by_idx(7)), op(by_pid(1))], &pids);
    assert!(matches!(failed, Err(ClientError::Args(text)) if text == "Process index 7 out of range"));
}

fn process(pid: i32, state: Option<&str>, on: u64, off: u64) -> ProcessMetadata {
    ProcessMetadata {
        pid,
        state: state.map(|s| s.to_string()),
        priority: None,
        allocations: vec![(
            GlobalDeviceId(1),
            vec![AllocationData { on_gpu_bytes: on, off_gpu_bytes: off, physical: Vec::new() }],
        )],
    }
}

#[test]
fn usage_is_added_up() {
    let processes =
        filter_invalid_processes(vec![
            process(5, Some("Running"), 10, 20),
            process(6, None, 1, 1),
            process(7, Some("Idle"), 0, 3),
        ]);
    assert_eq!(processes.iter().map(|p| p.pid).collect::<Vec<i32>>(), vec![5, 7]);
    assert_eq!(bytes_on_gpu(&processes[0].allocations[0].1), 10);
    assert_eq!(bytes_in_all(&processes[0].allocations[0].1), 30);
    assert_eq!(processes_on(&processes, GlobalDeviceId(1)), 1);
    assert_eq!(processes_on(&processes, GlobalDeviceId(0)), 0);
    let block = |size: u64| DataBlockMeta { device_id: GlobalDeviceId(0), size };
    let meta = DataManagerMetadata {
        shm: vec![
            ProcessDataMeta { pid: 9, data_blocks: vec![block(1), block(2)] },
            ProcessDataMeta { pid: 5, data_blocks: vec![block(4)] },
        ],
        hostmem: Vec::new(),
        storage: vec![ProcessDataMeta { pid: 3, data_blocks: Vec::new() }],
        shm_capacity: 100,
        hostmem_capacity: 100,
    };
    assert_eq!(bytes_stored(&meta.shm), 7);
    let rows = usage_by_process(&processes, &meta);
    assert_eq!(rows.iter().map(|r| r.pid).collect::<Vec<i32>>(), vec![3, 5, 7, 9]);
    assert_eq!(rows[0].storage, Some((0, 0)));
    assert_eq!(rows[1].devices, vec![(GlobalDeviceId(1), 10)]);
    assert_eq!(rows[1].shm, Some((4, 1)));
    assert_eq!(rows[1].hostmem, None);
    assert!(rows[2].devices.is_empty());
    assert_eq!(rows[3].shm, Some((3, 2)));
}

#[test]
fn labels_are_short() {
    let level = PriorityLevel::Batch;
    assert_eq!(priority_label(Some(Priority::Dynamic { level, weight: 3 })), "Batch/3");
    assert_eq!(priority_label(Some(Priority::Fixed(level))), "Batch[F]");
    assert_eq!(priority_label(None), "N/A");
    assert_eq!(change_label(level, level), "Priority: Batch");
    assert_eq!(
        change_label(PriorityLevel::Interactive, level),
        "Priority: Interactive -> Batch"
    );
    assert_eq!(response_label(Some(SetPriorityResponse::Success)), "Priority set successfully");
    assert_eq!(
        response_label(Some(SetPriorityResponse::FailureProcessNotExist)),
        "Failed to set priority: Process Not Exist"
    );
    assert_eq!(
        response_label(Some(SetPriorityResponse::FailurePriorityNotFixed)),
        "Failed to set priority: Priority Not Fixed"
    );
    assert_eq!(response_label(None), "Failed to set priority: Unknown Error");
    assert_eq!(CONTROL_PATH, r"\\.\pipe\nixie-ctl");
}

#[test]
fn commands_and_settings() {
    assert_eq!(
        SetPriorityLevel::LowInteractive.to_fixed(),
        Priority::Fixed(PriorityLevel::LowInteractive)
    );
    assert_eq!(SetPriorityLevel::Batch.to_fixed(), Priority::Fixed(PriorityLevel::Batch));
    assert_eq!(is_set(true, false), Some(true));
    assert_eq!(is_set(false, true), Some(false));
    assert_eq!(is_set(true, true), None);
    assert_eq!(is_set(false, false), None);
    assert_eq!(cooldown_setting(0), None);
    assert_eq!(cooldown_setting(250), Some(250));
    assert_eq!(mb_to_bytes(3), Some(3 * 1024 * 1024));
    assert_eq!(mb_to_bytes(usize::MAX), None);
    assert_eq!(SIDECAR_NAME, "nixiesidecar.dll");
    let places = sidecar_dirs("/opt/nixie/bin", Some("/home/u"), Some("/a:/b"));
    let expected = [
        ("/opt/nixie/bin", ""),
        ("/opt/nixie/bin", "../lib"),
        ("/home/u", ".local/lib"),
        ("/a", ""),
        ("/b", ""),
        ("/usr/local/lib", ""),
        ("/usr/lib", ""),
        ("/usr/lib64", ""),
        ("/lib", ""),
        ("/lib64", ""),
    ];
    assert_eq!(
        places.iter().map(|(dir, below)| (dir.as_str(), *below)).collect::<Vec<_>>(),
        expected.to_vec()
    );
    assert_eq!(sidecar_dirs("/x", None, None).len(), 7);
    assert_eq!(
        run_environment("s".to_string(), Some("0,1".to_string())),
        vec![("LD_PRELOAD", "s".to_string()), ("CUDA_VISIBLE_DEVICES", "0,1".to_string())]
    );
    assert_eq!(run_environment("s".to_string(), None), vec![("LD_PRELOAD", "s".to_string())]);
}

#[test]
fn sizes_are_shown_in_the_largest_unit() {
    assert_eq!(pretty_size(0), "0B");
    assert_eq!(pretty_size(1023), "1023B");
    assert_eq!(pretty_size(1024), "1.00KB");
    assert_eq!(pretty_size(1536 * 1024), "1.50MB");
    assert_eq!(pretty_size(10 * 1024 * 1024 * 1024), "10.00GB");
    assert_eq!(pretty_size(1 << 41), "2.00TB");
    assert_eq!(pretty_size(1024 * 1024 - 1), "1023.99KB");
}

#[test]
fn log_lines_are_filtered_and_dated() {
    let filter = ExactLevelFilter::new(vec![Level::Trace, Level::Debug]);
    assert!(filter.enabled(Level::Debug));
    assert!(!filter.enabled(Level::Info));
    assert_eq!(SystemTime.format_time(24, 5, 9, 7), "00:05:09.007");
    assert_eq!(SystemTime.format_time(13, 45, 59, 123), "13:45:59.123");
}

#[test]
fn locks_have_names_and_counts() {
    let mut lock = IpcMutex { id: 0xabc, ref_count: 255, inner: 0u8 };
    assert_eq!(lock.mutex_name(), "Local\\nixie-mtx-0000000000000abc");
    assert_eq!(
        lock.abandoned_warning(),
        "NIXIE-WARN: IpcMutex 0xabc abandoned by a dead owner"
    );
    lock.increase_ref_count();
    assert_eq!(lock.ref_count, 0);
    lock.close();
    assert_eq!(lock.ref_count, 255);
    assert_eq!(lock_outcome(WAIT_OBJECT_0), LockOutcome::Acquired);
    assert_eq!(lock_outcome(WAIT_ABANDONED), LockOutcome::AcquiredAbandoned);
    assert_eq!(lock_outcome(258), LockOutcome::Failed);
}

#[test]
fn errors_tell_what_failed() {
    let e = || "boom".to_string();
    assert_eq!(UvmError::Assertion("x").message(), "Assertion failed: x");
    assert_eq!(
        UvmError::DriverError("ioctl", -5, 12).message(),
        "ioctl failed with error: -5, (version?: 12)"
    );
    assert_eq!(UvmError::Io("open", e()).message(), "open failed with IO error: boom");
    assert_eq!(
        HybridBufferError::MemoryExhausted.message(),
        "Failed to allocate hybrid buffer"
    );
    assert_eq!(HybridBufferError::InvalidInputBuffer.message(), "Invalid hybrid buffer");
    assert_eq!(HybridBufferError::NoBufferId(buffer(1, 1)).message(), "Invalid BufferId");
    assert_eq!(
        HybridBufferError::IoError(e(), "read".to_string()).message(),
        "read failed with error: boom"
    );
    assert_eq!(HybridBufferError::TaskError(e()).message(), "Tokio task failed: boom");
    assert_eq!(DaemonError::Io("a", e()).message(), "a: IO error boom");
    assert_eq!(DaemonError::Cuda("a", e()).message(), "a: CUDA error boom");
    assert_eq!(DaemonError::Nvml("a", e()).message(), "a: NVML error boom");
    assert_eq!(DaemonError::Config("a", e()).message(), "a: Config error boom");
    assert_eq!(DaemonError::ConfigValue("a", e()).message(), "a: Config error boom");
    assert_eq!(
        DaemonError::HybridBuffer(HybridBufferError::TaskError(e())).message(),
        "HybridBuffer: Tokio task failed: boom"
    );
    assert_eq!(ClientError::ClientRpc("a", e()).message(), "a: RPC error boom");
    assert_eq!(ClientError::Io("a", e()).message(), "a: IO error boom");
    assert_eq!(ClientError::Nvml("a", e()).message(), "a: NVML error boom");
    assert_eq!(
        NixieError::Client(ClientError::Args(e())).message(),
        "Client: boom: Invalid arguments"
    );
    assert_eq!(
        NixieError::Daemon(DaemonError::Io("a", e())).message(),
        "Daemon: a: IO error boom"
    );
    assert_eq!(ScheduleError::InvalidClient(7).message(), "Invalid process: 7");
    assert_eq!(
        ScheduleError::RpcError("a", 7, e()).message(),
        "a Failed to send RPC to 7: boom"
    );
    assert_eq!(
        ScheduleError::InvalidPrefetchRequest(e()).message(),
        "Invalid prefetch request: boom"
    );
    assert_eq!(ScheduleError::Unavailable(e()).message(), "Unavailable resource: boom");
}

#[test]
fn selectors_name_processes() {
    let by_pid = |pid: i32| Some(ProcArgs { pid: Some(pid), idx: None });
    let by_idx = |idx: u32| Some(ProcArgs { pid: None, idx: Some(idx) });
    assert_eq!(parse_pid("1234"), by_pid(1234));
    assert_eq!(parse_pid("2147483647"), by_pid(i32::MAX));
    assert_eq!(parse_pid("2147483648"), None);
    assert_eq!(parse_pid("idx3"), by_idx(3));
    assert_eq!(parse_pid("i3"), by_idx(3));
    assert_eq!(parse_pid("i4294967295"), by_idx(u32::MAX));
    assert_eq!(parse_pid("idx4294967296"), None);
    for text in ["", "i", "idx", "id3", "3i", "i-3", "x3"] {
        assert_eq!(parse_pid(text), None);
    }
}

#[test]
fn sizes_have_units() {
    assert_eq!(parse_size("16g"), Some(16 * 1024));
    assert_eq!(parse_size("32g"), Some(32 * 1024));
    assert_eq!(parse_size("1024m"), Some(1024));
    assert_eq!(parse_size("0m"), Some(0));
    assert_eq!(parse_size("18446744073709551615m"), Some(u64::MAX));
    assert_eq!(parse_size("18446744073709551616m"), None);
    assert_eq!(parse_size("18014398509481983g"), Some(18014398509481983 * 1024));
    assert_eq!(parse_size("18014398509481984g"), None);
    for text in ["", "g", "16", "16k", "-1g", "1.5g", "g16", "16 g"] {
        assert_eq!(parse_size(text), None);
    }
}

#[test]
fn device_limits_are_read() {
    let each = |amount: Amount| DeviceLimit { device: None, amount };
    let on_three = DeviceLimit {
        device: Some(GlobalDeviceId(3)),
        amount: Amount::Megabytes(24 * 1024),
    };
    assert_eq!(
        parse_device_limit("g:0.95"),
        Some(vec![each(Amount::Share { parts: 95, of: 100 })])
    );
    assert_eq!(parse_device_limit("g:31g"), Some(vec![each(Amount::Megabytes(31 * 1024))]));
    assert_eq!(
        parse_device_limit("g:31g/3:24g"),
        Some(vec![each(Amount::Megabytes(31 * 1024)), on_three])
    );
    for text in ["", "g", "g:", "31g", "x:31g", "-1:31g", "g:1.5", "g:.5", "g:31g/", "g:1:2"] {
        assert_eq!(parse_device_limit(text), None);
    }
}

#[test]
fn a_device_goes_by_its_own_limit() {
    let total: u64 = 32 << 30;
    let limits = parse_device_limit("g:31g/3:24g").unwrap();
    assert_eq!(get_bytes(&limits, GlobalDeviceId(3), total), 24 << 30);
    assert_eq!(get_bytes(&limits, GlobalDeviceId(0), total), 31 << 30);
    assert_eq!(get_bytes(&limits, GlobalDeviceId(0), 8 << 30), 8 << 30);
    assert_eq!(get_bytes(&Vec::new(), GlobalDeviceId(0), total), total);
    let share = parse_device_limit("g:0.95").unwrap();
    assert_eq!(get_bytes(&share, GlobalDeviceId(1), 1000), 950);
    assert_eq!(get_bytes(&share, GlobalDeviceId(1), 10), 9);
}

#[test]
fn moves_are_written_down() {
    let by_pid = ProcArgs { pid: Some(1234), idx: None };
    let op = |pid: ProcArgs, src: BufferLocation, dest: BufferLocation, size: u64| {
        Some(MoveOperation { pid, src, dest, size })
    };
    assert_eq!(
        parse_move("1234:storage->shm=2g"),
        op(by_pid, BufferLocation::Storage, BufferLocation::Shm, 2 << 30)
    );
    assert_eq!(
        parse_move("idx3:hostmem->gpu1=512m"),
        op(
            ProcArgs { pid: None, idx: Some(3) },
            BufferLocation::HostMem,
            BufferLocation::Gpu(GlobalDeviceId(1)),
            512 << 20
        )
    );
    for text in [
        "",
        "1234",
        "1234:storage->shm",
        "1234:storage>shm=2g",
        "1234:storage-shm=2g",
        "1234:disk->shm=2g",
        "1234:storage->gpu=2g",
        "x:storage->shm=2g",
        "1234:storage->shm=2",
        "1234:storage->shm=17592186044416m",
        "1234:storage->shm=2g=2g",
    ] {
        assert_eq!(parse_move(text), None);
    }
}
