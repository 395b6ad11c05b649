use nixie::constant::{MAX_ALLOCATION_SIZE, MIN_ALLOCATION_SIZE};
use nixie::ids::{
    AllocationCapacity, AllocationCount, BufferId, BufferLocation, GlobalDeviceId,
    PhysicalMemoryHandleId, ProcessLocalDeviceId,
};
use nixie::migration::store::DataManagerHandle;
use nixie::schedule::priority::{
    priority_level_to_cooldown, priority_level_to_time_quantum, Priority, PriorityLevel,
};
use nixie::schedule::queue::{
    construct_prefetch_plan, ActiveClientState, GetHistoryResult, PreemptionDecision,
    ScheduleQueue, SetPriorityLevel, SetPriorityResponse,
};
use nixie::schedule::request::{
    ActivityUpdate, ActivityUpdateContent, GenericRequest, IdleRequestType, MemoryRequest,
    PrefetchArgs,
};
use nixie::schedule::statistics::{ClientStatistics, HistoryChunk, HISTORY_LEN};
use std::time::Duration;

const SECOND: u64 = 1_000_000_000;

fn new_test_data_manager() -> DataManagerHandle {
    DataManagerHandle {
        shm: Vec::new(),
        hostmem: Vec::new(),
        storage: Vec::new(),
        shm_free_blocks: AllocationCount((MAX_ALLOCATION_SIZE / MIN_ALLOCATION_SIZE) as u32),
        hostmem_free_blocks: AllocationCount(8),
        gpu_free: Vec::new(),
        shm_capacity: MAX_ALLOCATION_SIZE,
        hostmem_capacity: 8 * MIN_ALLOCATION_SIZE,
    }
}

fn new_test_queue() -> ScheduleQueue {
    ScheduleQueue::new(new_test_data_manager())
}

fn req_scheduling(message_id: u64) -> ActivityUpdate {
    ActivityUpdate { message_id, content: ActivityUpdateContent::RequestScheduling }
}

fn req_idle(message_id: u64) -> ActivityUpdate {
    ActivityUpdate { message_id, content: ActivityUpdateContent::Idle }
}

fn req_yield_then_schedule(message_id: u64) -> ActivityUpdate {
    let mut mem_req: Vec<(ProcessLocalDeviceId, Vec<u64>)> =
        (0..8).map(|i| (ProcessLocalDeviceId(i), Vec::new())).collect();
    mem_req[0].1.push(1);
    ActivityUpdate {
        message_id,
        content: ActivityUpdateContent::YieldThenRequestSchedulingAndMem {
            memory_request: MemoryRequest { mem_req },
        },
    }
}

fn test_buf_id(pid: i32, idx: u32, size: usize) -> BufferId {
    BufferId {
        pid,
        device_id: GlobalDeviceId(0),
        block_id: PhysicalMemoryHandleId::new(1, idx),
        size: size as u32,
    }
}

fn stored(id: BufferId) -> (BufferId, AllocationCapacity) {
    (id, AllocationCapacity(id.size))
}

fn set_client_priority(queue: &mut ScheduleQueue, pid: i32, priority: Priority) {
    let client = queue.get_client_mut_or_insert(pid);
    client.set_priority(priority, 0);
}

#[test]
fn compute_cooldown_uses_max_of_inputs() {
    let from_migration =
        ScheduleQueue::compute_cooldown(65536, None, Priority::Fixed(PriorityLevel::Interactive));
    assert_eq!(from_migration, Duration::from_secs(12).as_nanos());

    let from_config = ScheduleQueue::compute_cooldown(
        1,
        Some(Duration::from_secs(200).as_nanos() as u64),
        Priority::Fixed(PriorityLevel::Background),
    );
    assert_eq!(from_config, Duration::from_secs(200).as_nanos());

    let from_priority_floor = ScheduleQueue::compute_cooldown(
        1,
        Some(Duration::from_secs(1).as_nanos() as u64),
        Priority::Fixed(PriorityLevel::Interactive),
    );
    assert_eq!(from_priority_floor, Duration::from_secs(8).as_nanos());
}

#[test]
fn cooldown_agrees_with_floating_point() {
    for mb in [0u64, 1, 2, 3, 7, 31, 32, 33, 96, 1000, 43_691, 65_537, 123_456_789, 1 << 40] {
        let float = Duration::from_secs_f64(mb as f64 / 1024.0 / 16.0 * 1.5) * 2;
        let expected = float.max(Duration::from_secs(8)).as_nanos();
        let got =
            ScheduleQueue::compute_cooldown(mb, None, Priority::Fixed(PriorityLevel::Interactive));
        assert_eq!(got, expected, "{mb}");
    }
}

#[test]
fn schedule_push_enqueues_idle_yield_and_schedule_correctly() {
    let mut queue = new_test_queue();

    queue.schedule_push(1, req_idle(1));
    queue.schedule_push(2, req_yield_then_schedule(1));
    queue.schedule_push(3, req_scheduling(1));

    assert_eq!(queue.idle_req_queue.len(), 2);
    assert_eq!(queue.idle_req_queue[0].pid, 1);
    assert_eq!(queue.idle_req_queue[0].request_type, IdleRequestType::Idle);
    assert_eq!(queue.idle_req_queue[1].pid, 2);
    assert_eq!(queue.idle_req_queue[1].request_type, IdleRequestType::Yield);

    assert_eq!(queue.sched_req.len(), 2);
    assert_eq!(queue.sched_req[0].pid, 2);
    assert!(queue.sched_req[0].is_yield);
    assert_eq!(queue.sched_req[1].pid, 3);
    assert!(!queue.sched_req[1].is_yield);

    let now = queue.clock.now();
    assert!(queue
        .get_client(1)
        .expect("client 1 should exist")
        .get_time_in_schedule_queue(now)
        .is_none());
    assert!(queue
        .get_client(2)
        .expect("client 2 should exist")
        .get_time_in_schedule_queue(now)
        .is_some());
    assert!(queue
        .get_client(3)
        .expect("client 3 should exist")
        .get_time_in_schedule_queue(now)
        .is_some());
}

#[test]
fn prioritized_push_puts_requests_at_front() {
    let mut queue = new_test_queue();

    queue.schedule_push(1, req_idle(1));
    queue.schedule_push(2, req_scheduling(1));

    let idle_before = queue.idle_req_queue.len();
    let sched_before = queue.sched_req.len();

    queue.prioritized_push(3, req_idle(1));
    queue.prioritized_push(4, req_scheduling(1));
    queue.prioritized_push(5, req_yield_then_schedule(1));

    assert_eq!(queue.idle_req_queue.len(), idle_before + 1);
    assert_eq!(queue.sched_req.len(), sched_before + 1);

    assert_eq!(queue.idle_req_queue[0].pid, 3);
    assert_eq!(queue.idle_req_queue[1].pid, 1);

    assert_eq!(queue.sched_req[0].pid, 4);
    assert!(!queue.sched_req[0].is_yield);
    assert_eq!(queue.sched_req[1].pid, 2);
}

#[test]
fn compute_prioritization_orders_by_yield_then_priority_then_time() {
    let mut queue = new_test_queue();

    queue.schedule_push(10, req_scheduling(1));
    queue.schedule_push(20, req_scheduling(1));
    queue.schedule_push(30, req_yield_then_schedule(1));

    set_client_priority(&mut queue, 10, Priority::Fixed(PriorityLevel::Interactive));
    set_client_priority(&mut queue, 20, Priority::Fixed(PriorityLevel::Interactive));
    set_client_priority(&mut queue, 30, Priority::Fixed(PriorityLevel::Background));

    for req in queue.sched_req.iter_mut() {
        req.time = match req.pid {
            10 => 5_000_000,
            20 => 1_000_000,
            30 => 3_000_000,
            _ => req.time,
        };
    }

    queue.compute_prioritization();
    let ordered = queue.sched_req.iter().map(|req| req.pid).collect::<Vec<_>>();
    assert_eq!(ordered, vec![30, 20, 10]);
}

#[test]
fn more_urgent_requests_come_first_and_equal_ones_keep_their_order() {
    let mut queue = new_test_queue();
    for pid in [1, 2, 3, 4] {
        queue.schedule_push_at(pid, req_scheduling(1), 7);
    }
    set_client_priority(&mut queue, 1, Priority::Fixed(PriorityLevel::Batch));
    set_client_priority(&mut queue, 2, Priority::Fixed(PriorityLevel::HighBatch));
    set_client_priority(&mut queue, 3, Priority::Fixed(PriorityLevel::Batch));
    set_client_priority(&mut queue, 4, Priority::Fixed(PriorityLevel::LowInteractive));
    queue.compute_prioritization();
    let ordered = queue.sched_req.iter().map(|req| req.pid).collect::<Vec<_>>();
    assert_eq!(ordered, vec![4, 2, 1, 3]);
}

#[test]
fn compute_can_preempt_decision_matrix() {
    let active_since = 0;

    let mut queue = new_test_queue();
    queue.schedule_push(1, req_scheduling(1));
    let decision = queue
        .compute_can_preempt(ActiveClientState::Active { pid: 1, since: active_since });
    match decision {
        PreemptionDecision::AllowPreempt { follow_same_priority_cooldown } => {
            assert!(!follow_same_priority_cooldown)
        }
        _ => panic!("expected allow preempt when queue front equals active pid"),
    }

    let mut queue = new_test_queue();
    queue.schedule_push(2, req_scheduling(1));
    queue.get_client_mut_or_insert(1);
    set_client_priority(&mut queue, 1, Priority::Fixed(PriorityLevel::Batch));
    set_client_priority(&mut queue, 2, Priority::Fixed(PriorityLevel::Interactive));
    let decision = queue
        .compute_can_preempt(ActiveClientState::Active { pid: 1, since: active_since });
    match decision {
        PreemptionDecision::AllowPreempt { follow_same_priority_cooldown } => {
            assert!(!follow_same_priority_cooldown)
        }
        _ => panic!("expected allow preempt for higher-priority queue front"),
    }

    let mut queue = new_test_queue();
    queue.schedule_push(2, req_scheduling(1));
    queue.get_client_mut_or_insert(1);
    set_client_priority(&mut queue, 1, Priority::Fixed(PriorityLevel::Batch));
    set_client_priority(&mut queue, 2, Priority::Fixed(PriorityLevel::Batch));
    let decision = queue
        .compute_can_preempt(ActiveClientState::Active { pid: 1, since: active_since });
    match decision {
        PreemptionDecision::AllowPreempt { follow_same_priority_cooldown } => {
            assert!(follow_same_priority_cooldown)
        }
        _ => panic!("expected allow preempt for equal-priority queue front"),
    }

    let mut queue = new_test_queue();
    queue.schedule_push(2, req_scheduling(1));
    queue.get_client_mut_or_insert(1);
    set_client_priority(&mut queue, 1, Priority::Fixed(PriorityLevel::Interactive));
    set_client_priority(&mut queue, 2, Priority::Fixed(PriorityLevel::Batch));
    let decision = queue
        .compute_can_preempt(ActiveClientState::Active { pid: 1, since: active_since });
    assert!(matches!(decision, PreemptionDecision::DenyPreempt));

    let mut queue = new_test_queue();
    queue.schedule_push(2, req_scheduling(1));
    let decision = queue
        .compute_can_preempt(ActiveClientState::Active { pid: 99, since: active_since });
    assert!(matches!(decision, PreemptionDecision::DenyPreempt));
}

#[test]
fn schedule_pop_prefers_idle_then_prefetch_then_schedule() {
    let mut queue = new_test_queue();

    queue.schedule_push(1, req_idle(1));
    queue.push_prefetch(PrefetchArgs { list: Vec::new(), rx_used: false });
    queue.schedule_push(2, req_scheduling(1));

    let first = queue
        .schedule_pop(ActiveClientState::Inactive, true)
        .expect("first pop should exist");
    assert!(matches!(first, GenericRequest::Idle(_)));
    assert_eq!(first.pid(), Some(1));
    assert_eq!(first.req_type(), "Idle");

    let second = queue
        .schedule_pop(ActiveClientState::Inactive, true)
        .expect("second pop should exist");
    assert!(matches!(second, GenericRequest::Prefetch(_)));
    assert_eq!(second.pid(), None);
    assert_eq!(second.req_type(), "Prefetch");

    let now = queue.clock.now();
    assert!(queue
        .get_client(2)
        .expect("client 2 should exist")
        .get_time_in_schedule_queue(now)
        .is_some());
    let third = queue
        .schedule_pop(ActiveClientState::Inactive, true)
        .expect("third pop should exist");
    assert!(matches!(third, GenericRequest::Schedule(_)));
    assert_eq!(third.pid(), Some(2));
    assert_eq!(third.req_type(), "Schedule");
    let now = queue.clock.now();
    assert!(queue
        .get_client(2)
        .expect("client 2 should exist")
        .get_time_in_schedule_queue(now)
        .is_none());
}

#[test]
fn same_priority_waits_for_the_cooldown() {
    let mut queue = new_test_queue();
    queue.schedule_push_at(1, req_scheduling(1), 0);
    queue.schedule_push_at(2, req_scheduling(1), 1);
    queue.cooldown_at(Some(1000), 10);
    let active = ActiveClientState::Active { pid: 3, since: 0 };
    queue.get_client_mut_or_insert_at(3, 0);
    assert!(queue.schedule_pop_at(active, false, 1009).is_none());
    let popped = queue.schedule_pop_at(active, false, 1010).unwrap();
    assert_eq!(popped.pid(), Some(1));
    assert_eq!(queue.last_schedule_pop, 1010);
}

#[test]
fn cooldown_reads_the_clock() {
    let mut queue = new_test_queue();
    let before = queue.clock.now();
    queue.cooldown(Some(5));
    let after = queue.clock.now();
    assert!(queue.cooldown_until >= before as u128 + 5);
    assert!(queue.cooldown_until <= after as u128 + 5);
    queue.cooldown(None);
    assert!(queue.cooldown_until >= after as u128);
}

#[test]
fn clock_advances() {
    let queue = new_test_queue();
    let a = queue.clock.now();
    let started = std::time::Instant::now();
    while started.elapsed() < Duration::from_millis(2) {}
    let b = queue.clock.now();
    assert!(b >= a + 2_000_000);
    assert!(b < a + 20 * SECOND);
}

#[test]
fn waiting_process_is_prefetched_once() {
    let mut data = new_test_data_manager();
    data.hostmem.push(stored(test_buf_id(2, 1, MIN_ALLOCATION_SIZE)));
    let mut queue = ScheduleQueue::new(data);
    queue.last_auto_prefetch_pop = 0;
    queue.last_schedule_pop = 0;
    queue.schedule_push_at(2, req_scheduling(1), 1);
    let active = ActiveClientState::Active { pid: 99, since: 0 };
    assert!(queue.schedule_pop_at(active, false, 2).is_none());
    match queue.schedule_pop_at(active, true, 3) {
        Some(GenericRequest::Prefetch(req)) => {
            assert_eq!(req.time, 3);
            assert!(!req.parameter.rx_used);
            assert_eq!(req.parameter.list.len(), 1);
            assert_eq!(req.parameter.list[0].from, BufferLocation::HostMem);
            assert_eq!(req.parameter.list[0].to, BufferLocation::Shm);
        }
        other => panic!("{other:?}"),
    }
    assert!(queue.schedule_pop_at(active, true, 4).is_none());
}

#[test]
fn set_priority_transitions_are_consistent() {
    let mut queue = new_test_queue();

    assert!(matches!(
        queue.set_priority(42, SetPriorityLevel::FixToDynamic),
        SetPriorityResponse::FailureProcessNotExist
    ));

    queue.schedule_push(42, req_scheduling(1));

    assert!(matches!(
        queue.set_priority(
            42,
            SetPriorityLevel::SetTo(Priority::Fixed(PriorityLevel::Background)),
        ),
        SetPriorityResponse::Success
    ));
    assert_eq!(
        queue.get_client(42).expect("client should exist").priority(),
        Priority::Fixed(PriorityLevel::Background)
    );

    assert!(matches!(
        queue.set_priority(42, SetPriorityLevel::FixToDynamic),
        SetPriorityResponse::Success
    ));
    assert_eq!(
        queue.get_client(42).expect("client should exist").priority(),
        Priority::Dynamic { level: PriorityLevel::Background, weight: 0 }
    );

    assert!(matches!(
        queue.set_priority(42, SetPriorityLevel::FixToDynamic),
        SetPriorityResponse::FailurePriorityNotFixed
    ));

    assert!(matches!(
        queue.set_priority(
            42,
            SetPriorityLevel::SetTo(Priority::Fixed(PriorityLevel::LowInteractive)),
        ),
        SetPriorityResponse::Success
    ));
    assert!(matches!(
        queue.set_priority(42, SetPriorityLevel::UnsetToDefault),
        SetPriorityResponse::Success
    ));
    assert_eq!(
        queue.get_client(42).expect("client should exist").priority(),
        Priority::default_dynamic()
    );

    assert!(matches!(
        queue.set_priority(42, SetPriorityLevel::UnsetToDefault),
        SetPriorityResponse::FailurePriorityNotFixed
    ));
}

#[test]
fn remove_client_clears_pending_entries() {
    let mut queue = new_test_queue();

    queue.schedule_push(1, req_idle(1));
    queue.schedule_push(1, req_scheduling(2));
    queue.schedule_push(2, req_idle(1));
    queue.schedule_push(3, req_scheduling(1));

    queue.remove_client(1);

    assert!(queue.get_client(1).is_none());
    assert!(queue.idle_req_queue.iter().all(|req| req.pid != 1));
    assert!(queue.sched_req.iter().all(|req| req.pid != 1));
    assert!(queue.idle_req_queue.iter().any(|req| req.pid == 2));
    assert!(queue.sched_req.iter().any(|req| req.pid == 3));
}

#[test]
fn construct_prefetch_plan_builds_expected_moves() {
    let mut data = new_test_data_manager();
    let pid = 7;

    data.shm.push(stored(test_buf_id(pid, 1, 63 * MIN_ALLOCATION_SIZE)));
    data.hostmem.push(stored(test_buf_id(pid, 2, MIN_ALLOCATION_SIZE)));
    data.storage.push(stored(test_buf_id(pid, 3, 2 * MIN_ALLOCATION_SIZE)));

    let plan = construct_prefetch_plan(pid, &data);
    assert_eq!(plan.len(), 2);
    assert_eq!(plan[0].pid, pid);
    assert_eq!(plan[0].from, BufferLocation::Storage);
    assert_eq!(plan[0].to, BufferLocation::Shm);
    assert_eq!(plan[0].size, MIN_ALLOCATION_SIZE as u64);
    assert_eq!(plan[1].pid, pid);
    assert_eq!(plan[1].from, BufferLocation::Storage);
    assert_eq!(plan[1].to, BufferLocation::HostMem);
    assert_eq!(plan[1].size, MIN_ALLOCATION_SIZE as u64);

    let mut data2 = new_test_data_manager();
    let pid2 = 8;

    data2.shm.push(stored(test_buf_id(pid2, 4, 62 * MIN_ALLOCATION_SIZE)));
    data2.hostmem.push(stored(test_buf_id(pid2, 5, MIN_ALLOCATION_SIZE)));

    let plan2 = construct_prefetch_plan(pid2, &data2);
    assert_eq!(plan2.len(), 1);
    assert_eq!(plan2[0].pid, pid2);
    assert_eq!(plan2[0].from, BufferLocation::HostMem);
    assert_eq!(plan2[0].to, BufferLocation::Shm);
    assert_eq!(plan2[0].size, MIN_ALLOCATION_SIZE as u64);
}

#[test]
fn running_process_moves_down_to_batch_and_no_further() {
    let mut queue = new_test_queue();
    queue.get_client_mut_or_insert_at(1, 0).start_running(0);
    queue.update_active(ActiveClientState::Active { pid: 1, since: 0 });
    queue.update_priority_at(8 * SECOND);
    assert_eq!(queue.get_client(1).unwrap().priority().level(), PriorityLevel::Interactive);
    queue.update_priority_at(10 * SECOND);
    assert_eq!(queue.get_client(1).unwrap().priority().level(), PriorityLevel::Interactive);
    queue.update_priority_at(10 * SECOND + 1);
    assert_eq!(queue.get_client(1).unwrap().priority().level(), PriorityLevel::LowInteractive);
    let mut now = 10 * SECOND + 1;
    for _ in 0..10 {
        now += 200 * SECOND;
        queue.update_priority_at(now);
    }
    assert_eq!(queue.get_client(1).unwrap().priority().level(), PriorityLevel::Batch);
}

#[test]
fn resting_process_moves_up() {
    let mut queue = new_test_queue();
    let client = queue.get_client_mut_or_insert_at(1, 0);
    client.set_priority(Priority::Dynamic { level: PriorityLevel::Batch, weight: 3 }, 0);
    queue.update_priority_at(128 * SECOND);
    assert_eq!(queue.get_client(1).unwrap().priority().level(), PriorityLevel::Batch);
    queue.update_priority_at(128 * SECOND + 1);
    assert_eq!(
        queue.get_client(1).unwrap().priority(),
        Priority::Dynamic { level: PriorityLevel::HighBatch, weight: 0 }
    );
}

#[test]
fn waiting_counts_only_in_part_as_rest() {
    // quantum 64 s: the process has to rest for more than 32 s
    let mut queue = new_test_queue();
    let client = queue.get_client_mut_or_insert_at(1, 0);
    client.set_priority(Priority::Dynamic { level: PriorityLevel::Batch, weight: 0 }, 0);
    client.set_is_in_schedule_queue(true, 0);
    // of 129 s in the queue two thirds do not count
    queue.update_priority_at(129 * SECOND);
    assert_eq!(queue.get_client(1).unwrap().priority().level(), PriorityLevel::HighBatch);
    // with three more at the same level three quarters and more do not count
    let mut queue = new_test_queue();
    for pid in 1..5 {
        let client = queue.get_client_mut_or_insert_at(pid, 0);
        client.set_priority(Priority::Dynamic { level: PriorityLevel::Batch, weight: 0 }, 0);
        client.set_is_in_schedule_queue(true, 0);
    }
    queue.update_priority_at(129 * SECOND);
    assert_eq!(queue.get_client(1).unwrap().priority().level(), PriorityLevel::Batch);
    queue.update_priority_at(161 * SECOND);
    assert_eq!(queue.get_client(1).unwrap().priority().level(), PriorityLevel::HighBatch);
}

#[test]
fn fixed_priority_stays() {
    let mut queue = new_test_queue();
    let client = queue.get_client_mut_or_insert_at(1, 0);
    client.set_priority(Priority::Fixed(PriorityLevel::Interactive), 0);
    client.start_running(0);
    queue.update_active(ActiveClientState::Active { pid: 1, since: 0 });
    queue.update_priority_at(1000 * SECOND);
    assert_eq!(
        queue.get_client(1).unwrap().priority(),
        Priority::Fixed(PriorityLevel::Interactive)
    );
}

#[test]
fn reset_puts_dynamic_priorities_back() {
    let mut queue = new_test_queue();
    set_client_priority(&mut queue, 1, Priority::Fixed(PriorityLevel::Batch));
    set_client_priority(&mut queue, 2, Priority::default_dynamic());
    assert!(!queue.reset_all_priorities_at(1));
    set_client_priority(
        &mut queue,
        3,
        Priority::Dynamic { level: PriorityLevel::Background, weight: 0 },
    );
    assert!(queue.reset_all_priorities_at(2));
    assert_eq!(queue.get_client(3).unwrap().priority(), Priority::default_dynamic());
    assert_eq!(queue.get_client(1).unwrap().priority(), Priority::Fixed(PriorityLevel::Batch));
}

#[test]
fn history_keeps_the_most_recent_runs() {
    let mut queue = new_test_queue();
    assert!(matches!(queue.get_history(5), GetHistoryResult::FailureProcessNotExist));
    let client: &mut ClientStatistics = queue.get_client_mut_or_insert_at(5, 0);
    for i in 0..(HISTORY_LEN as u64 + 2) {
        client.record_run(HistoryChunk {
            start: i * SECOND,
            end: i * SECOND + 1_500_000,
            start_priority: PriorityLevel::Interactive,
            end_priority: PriorityLevel::Batch,
            reason: String::from("Yield"),
        });
    }
    match queue.get_history_at(5, 100 * SECOND) {
        GetHistoryResult::Success(entries) => {
            assert_eq!(entries.len(), 64);
            assert_eq!(entries[0].started_ago, 98 * SECOND);
            assert_eq!(entries[0].duration_ms, 1);
            assert_eq!(entries[0].stop_reason, "Yield");
            assert_eq!(entries[0].start_priority, PriorityLevel::Interactive);
            assert_eq!(entries[0].end_priority, PriorityLevel::Batch);
        }
        GetHistoryResult::FailureProcessNotExist => panic!("client should exist"),
    }
}

#[test]
fn less_urgent_levels_run_longer() {
    let quanta = [
        (PriorityLevel::Interactive, 8, 4),
        (PriorityLevel::LowInteractive, 16, 8),
        (PriorityLevel::HighBatch, 32, 16),
        (PriorityLevel::Batch, 64, 32),
        (PriorityLevel::Background, 128, 64),
    ];
    for (level, quantum, cooldown) in quanta {
        assert_eq!(priority_level_to_time_quantum(level), quantum * SECOND);
        assert_eq!(priority_level_to_cooldown(level), cooldown * SECOND);
    }
}

#[test]
fn time_counts_only_while_a_process_runs() {
    let mut client = ClientStatistics::new(1, 0);
    client.start_running(10);
    client.stop_running(25);
    client.update_if_active(100);
    assert_eq!(client.accumulated_time_in_current_priority(), 15);
    assert_eq!(client.idle_since(30), Some(5));
}
