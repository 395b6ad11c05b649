//! The queues of the scheduler and the rules by which requests leave them.
use std::collections::{HashMap, VecDeque};
use vstd::prelude::*;
use crate::control::PrefetchMsg;
use crate::ids::{AllocationCapacity, BufferId, BufferLocation};
use crate::migration::store::DataManagerHandle;
use crate::sorting::{sort_stable, stable_sorted};
use crate::sums::{lemma_sum_push, sum_of};
use super::clock::Clock;
use super::priority::{
    cooldown_time,
    initial_priority,
    migration_nanos,
    priority_level_to_time_quantum,
    time_quantum,
    Priority,
    PriorityLevel,
    SECOND,
};
use super::request::{
    ActivityUpdate,
    ActivityUpdateContent,
    GenericRequest,
    IdleRequest,
    IdleRequestType,
    PrefetchArgs,
    PrefetchRequest,
    SchedRequest,
};
use super::statistics::{since, ClientStatistics};

verus! {

broadcast use vstd::std_specs::hash::group_hash_axioms;

/// Who has the GPU.
#[derive(Debug, Clone, Copy, PartialEq, Eq, Structural)]
pub enum ActiveClientState {
    Inactive,
    Active { pid: i32, since: u64 },
}

/// What the user wants the priority of a process to be.
#[derive(Debug, Clone, Copy, PartialEq, Eq, Structural)]
pub enum SetPriorityLevel {
    SetTo(Priority),
    /// Keep the level, but let it move again.
    FixToDynamic,
    /// Go back to what a process starts with.
    UnsetToDefault,
}

#[derive(Debug, Clone, Copy, PartialEq, Eq, Structural)]
pub enum SetPriorityResponse {
    Success,
    FailureProcessNotExist,
    FailurePriorityNotFixed,
}

/// Whether the process at the front of the queue may take the place of the one that runs.
#[derive(Debug, Clone, Copy, PartialEq, Eq, Structural)]
pub enum PreemptionDecision {
    AllowPreempt { follow_same_priority_cooldown: bool },
    DenyPreempt,
}

/// One stretch of time during which a process ran, as the user sees it.
#[derive(Debug)]
pub struct HistoryEntry {
    /// How long ago it started, in nanoseconds.
    pub started_ago: u64,
    pub duration_ms: u64,
    pub start_priority: PriorityLevel,
    pub end_priority: PriorityLevel,
    pub stop_reason: String,
}

#[derive(Debug)]
pub enum GetHistoryResult {
    Success(Vec<HistoryEntry>),
    FailureProcessNotExist,
}

impl GetHistoryResult {
    /// The answer is what is known of the runs of `pid`, as it looks at `now`.
    pub open spec fn tells(self, m: QueueModel, pid: i32, now: u64) -> bool {
        match self {
            GetHistoryResult::Success(entries) => {
                &&& m.clients.contains_key(pid)
                &&& entries@.len() == m.clients[pid].history@.len()
                &&& forall|i: int|
                    0 <= i < entries@.len() ==> {
                        let entry = #[trigger] entries@[i];
                        let chunk = m.clients[pid].history@[i];
                        &&& entry.started_ago == since(now, chunk.start)
                        &&& entry.duration_ms == since(chunk.end, chunk.start) as int / 1000000
                        &&& entry.start_priority == chunk.start_priority
                        &&& entry.end_priority == chunk.end_priority
                        &&& entry.stop_reason@ == chunk.reason@
                    }
            },
            GetHistoryResult::FailureProcessNotExist => !m.clients.contains_key(pid),
        }
    }
}

#[derive(Debug)]
pub struct ScheduleQueue {
    pub clock: Clock,
    pub data_manager_handle: DataManagerHandle,
    pub sched_req: VecDeque<SchedRequest>,
    pub idle_req_queue: VecDeque<IdleRequest>,
    pub prefetch_queue: VecDeque<PrefetchRequest>,
    pub clients: HashMap<i32, ClientStatistics>,
    pub cooldown_until: u128,
    pub active_client: ActiveClientState,
    pub last_mlfq_reset_timer: u64,
    pub last_auto_prefetch_pop: u64,
    pub last_schedule_pop: u64,
}

/// The queues as sequences.
#[verifier::ext_equal]
pub struct QueueModel {
    pub sched: Seq<SchedRequest>,
    pub idle: Seq<IdleRequest>,
    pub prefetch: Seq<PrefetchRequest>,
    pub clients: Map<i32, ClientStatistics>,
    pub cooldown_until: int,
    pub active: ActiveClientState,
    pub last_reset: u64,
    pub last_prefetch: u64,
    pub last_schedule: u64,
}

impl View for ScheduleQueue {
    type V = QueueModel;

    open spec fn view(&self) -> QueueModel {
        QueueModel {
            sched: self.sched_req@,
            idle: self.idle_req_queue@,
            prefetch: self.prefetch_queue@,
            clients: self.clients@,
            cooldown_until: self.cooldown_until as int,
            active: self.active_client,
            last_reset: self.last_mlfq_reset_timer,
            last_prefetch: self.last_auto_prefetch_pop,
            last_schedule: self.last_schedule_pop,
        }
    }
}

impl QueueModel {
    /// Every process that waits to run is known, and each is known under its own number.
    pub open spec fn wf(self) -> bool {
        &&& forall|i: int|
            0 <= i < self.sched.len() ==> self.clients.contains_key((#[trigger] self.sched[i]).pid)
        &&& forall|pid: i32| #[trigger]
            self.clients.contains_key(pid) ==> self.clients[pid].pid == pid
        &&& self.clients.dom().finite()
    }

    /// What is known of `pid`: `client`, which is new where nothing was known.
    pub open spec fn knows(self, pid: i32, client: ClientStatistics, now: u64) -> bool {
        if self.clients.contains_key(pid) {
            client == self.clients[pid]
        } else {
            client.is_fresh(pid, now)
        }
    }

    /// The queue after a report of `pid`, of which `client` is known.
    pub open spec fn pushed(
        self,
        pid: i32,
        args: ActivityUpdate,
        client: ClientStatistics,
        now: u64,
    ) -> QueueModel {
        let noted = ClientStatistics { last_message_id: args.message_id, ..client };
        let waiting = ClientStatistics { queued_at: Some(now), ..noted };
        match args.content {
            ActivityUpdateContent::Idle => QueueModel {
                clients: self.clients.insert(pid, noted),
                idle: self.idle.push(
                    IdleRequest { pid, time: now, request_type: IdleRequestType::Idle },
                ),
                ..self
            },
            ActivityUpdateContent::YieldThenRequestSchedulingAndMem { .. } => QueueModel {
                clients: self.clients.insert(pid, waiting),
                idle: self.idle.push(
                    IdleRequest { pid, time: now, request_type: IdleRequestType::Yield },
                ),
                sched: self.sched.push(SchedRequest { pid, args, time: now, is_yield: true }),
                ..self
            },
            ActivityUpdateContent::RequestScheduling => QueueModel {
                clients: self.clients.insert(pid, waiting),
                sched: self.sched.push(SchedRequest { pid, args, time: now, is_yield: false }),
                ..self
            },
        }
    }

    /// The queue after a report of `pid` that goes before all others. A process that steps back
    /// cannot go before others: only its report is noted.
    pub open spec fn pushed_first(
        self,
        pid: i32,
        args: ActivityUpdate,
        client: ClientStatistics,
        now: u64,
    ) -> QueueModel {
        let noted = ClientStatistics { last_message_id: args.message_id, ..client };
        let waiting = ClientStatistics { queued_at: Some(now), ..noted };
        match args.content {
            ActivityUpdateContent::Idle => QueueModel {
                clients: self.clients.insert(pid, noted),
                idle: seq![IdleRequest { pid, time: now, request_type: IdleRequestType::Idle }]
                    + self.idle,
                ..self
            },
            ActivityUpdateContent::RequestScheduling => QueueModel {
                clients: self.clients.insert(pid, waiting),
                sched: seq![SchedRequest { pid, args, time: now, is_yield: false }] + self.sched,
                ..self
            },
            ActivityUpdateContent::YieldThenRequestSchedulingAndMem { .. } => QueueModel {
                clients: self.clients.insert(pid, noted),
                ..self
            },
        }
    }

    /// The queue without anything of `pid` but moves ahead of time.
    pub open spec fn without(self, pid: i32) -> QueueModel {
        QueueModel {
            clients: self.clients.remove(pid),
            sched: self.sched.filter(sched_not_of(pid)),
            idle: self.idle.filter(idle_not_of(pid)),
            ..self
        }
    }
}

impl ScheduleQueue {
    pub open spec fn wf(self) -> bool {
        self@.wf()
    }

    pub fn new(data_manager_handle: DataManagerHandle) -> (queue: Self)
        ensures
            queue.wf(),
            queue.data_manager_handle == data_manager_handle,
            exists|now: u64|
                #![trigger queue.starts_at(now)]
                queue.starts_at(now),
    {
        let clock = Clock::start();
        let now: u64 = clock.now();
        let queue = ScheduleQueue {
            clock,
            data_manager_handle,
            sched_req: VecDeque::new(),
            idle_req_queue: VecDeque::new(),
            prefetch_queue: VecDeque::new(),
            clients: HashMap::new(),
            cooldown_until: now as u128,
            active_client: ActiveClientState::Inactive,
            last_mlfq_reset_timer: now,
            last_auto_prefetch_pop: now,
            last_schedule_pop: now,
        };
        assert(queue.starts_at(now));
        queue
    }

    /// Nothing has happened yet, and it is `now`.
    pub open spec fn starts_at(self, now: u64) -> bool {
        self@ == (QueueModel {
            sched: Seq::empty(),
            idle: Seq::empty(),
            prefetch: Seq::empty(),
            clients: Map::empty(),
            cooldown_until: now as int,
            active: ActiveClientState::Inactive,
            last_reset: now,
            last_prefetch: now,
            last_schedule: now,
        })
    }

    pub fn get_client(&self, pid: i32) -> (client: Option<&ClientStatistics>)
        ensures
            match client {
                Some(c) => self@.clients.contains_key(pid) && *c == self@.clients[pid],
                None => !self@.clients.contains_key(pid),
            },
    {
        self.clients.get(&pid)
    }

    pub fn get_client_mut(&mut self, pid: i32) -> (client: Option<&mut ClientStatistics>)
        ensures
            match client {
                Some(c) => {
                    &&& old(self)@.clients.contains_key(pid)
                    &&& *c == old(self)@.clients[pid]
                    &&& final(self)@ == (QueueModel {
                        clients: old(self)@.clients.insert(pid, *final(c)),
                        ..old(self)@
                    })
                },
                None => !old(self)@.clients.contains_key(pid) && final(self)@ == old(self)@,
            },
            final(self).data_manager_handle == old(self).data_manager_handle,
            final(self).clock == old(self).clock,
    {
        if self.clients.contains_key(&pid) {
            Some(self.clients.entry(pid).or_insert(ClientStatistics::new(pid, 0)))
        } else {
            None
        }
    }

    /// What is known of `pid`, to be changed in place. A process that was never seen is noted.
    pub fn get_client_mut_or_insert_at(&mut self, pid: i32, now: u64) -> (client:
        &mut ClientStatistics)
        ensures
            old(self)@.knows(pid, *client, now),
            final(self)@ == (QueueModel {
                clients: old(self)@.clients.insert(pid, *final(client)),
                ..old(self)@
            }),
            final(self).data_manager_handle == old(self).data_manager_handle,
            final(self).clock == old(self).clock,
    {
        self.clients.entry(pid).or_insert(ClientStatistics::new(pid, now))
    }

    /// What is known of `pid`, to be changed in place. A process that was never seen is noted.
    pub fn get_client_mut_or_insert(&mut self, pid: i32) -> (client: &mut ClientStatistics)
        ensures
            exists|now: u64| #[trigger] old(self)@.knows(pid, *client, now),
            final(self)@ == (QueueModel {
                clients: old(self)@.clients.insert(pid, *final(client)),
                ..old(self)@
            }),
            final(self).data_manager_handle == old(self).data_manager_handle,
            final(self).clock == old(self).clock,
    {
        let now: u64 = self.clock.now();
        let client = self.get_client_mut_or_insert_at(pid, now);
        assert(old(self)@.knows(pid, *client, now));
        client
    }
}

pub open spec fn sched_not_of(pid: i32) -> spec_fn(SchedRequest) -> bool {
    |r: SchedRequest| r.pid != pid
}

pub open spec fn idle_not_of(pid: i32) -> spec_fn(IdleRequest) -> bool {
    |r: IdleRequest| r.pid != pid
}

fn drop_sched_of(queue: &mut VecDeque<SchedRequest>, pid: i32)
    ensures
        final(queue)@ == old(queue)@.filter(sched_not_of(pid)),
{
    let ghost start = queue@;
    let n: usize = queue.len();
    let mut i: usize = 0;
    proof {
        assert(start.skip(0) =~= start);
        assert(start.take(0).filter(sched_not_of(pid)) =~= Seq::empty()) by {
            reveal(Seq::filter);
        }
    }
    while i < n
        invariant
            i <= n,
            n == start.len(),
            queue@ == start.skip(i as int) + start.take(i as int).filter(sched_not_of(pid)),
        decreases n - i,
    {
        let ghost before = queue@;
        match queue.pop_front() {
            Some(r) => {
                proof {
                    assert(before[0] == start[i as int]);
                    assert(start.take(i + 1) =~= start.take(i as int).push(r));
                    crate::sorting::lemma_filter_push(start.take(i as int), r, sched_not_of(pid));
                    assert(queue@ =~= start.skip(i + 1) + start.take(i as int).filter(
                        sched_not_of(pid),
                    ));
                }
                if r.pid != pid {
                    queue.push_back(r);
                }
                proof {
                    assert(queue@ =~= start.skip(i + 1) + start.take(i + 1).filter(
                        sched_not_of(pid),
                    ));
                }
            },
            None => {},
        }
        i = i + 1;
    }
    proof {
        assert(start.take(i as int) =~= start);
        assert(queue@ =~= start.filter(sched_not_of(pid)));
    }
}

fn drop_idle_of(queue: &mut VecDeque<IdleRequest>, pid: i32)
    ensures
        final(queue)@ == old(queue)@.filter(idle_not_of(pid)),
{
    let ghost start = queue@;
    let n: usize = queue.len();
    let mut i: usize = 0;
    proof {
        assert(start.skip(0) =~= start);
        assert(start.take(0).filter(idle_not_of(pid)) =~= Seq::empty()) by {
            reveal(Seq::filter);
        }
    }
    while i < n
        invariant
            i <= n,
            n == start.len(),
            queue@ == start.skip(i as int) + start.take(i as int).filter(idle_not_of(pid)),
        decreases n - i,
    {
        let ghost before = queue@;
        match queue.pop_front() {
            Some(r) => {
                proof {
                    assert(before[0] == start[i as int]);
                    assert(start.take(i + 1) =~= start.take(i as int).push(r));
                    crate::sorting::lemma_filter_push(start.take(i as int), r, idle_not_of(pid));
                    assert(queue@ =~= start.skip(i + 1) + start.take(i as int).filter(
                        idle_not_of(pid),
                    ));
                }
                if r.pid != pid {
                    queue.push_back(r);
                }
                proof {
                    assert(queue@ =~= start.skip(i + 1) + start.take(i + 1).filter(
                        idle_not_of(pid),
                    ));
                }
            },
            None => {},
        }
        i = i + 1;
    }
    proof {
        assert(start.take(i as int) =~= start);
        assert(queue@ =~= start.filter(idle_not_of(pid)));
    }
}

impl ScheduleQueue {
    /// Forgets a process and what it asked for.
    pub fn remove_client(&mut self, pid: i32)
        ensures
            final(self)@ == old(self)@.without(pid),
            old(self).wf() ==> final(self).wf(),
            final(self).data_manager_handle == old(self).data_manager_handle,
            final(self).clock == old(self).clock,
    {
        let ghost before = self@;
        let _ = self.clients.remove(&pid);
        drop_sched_of(&mut self.sched_req, pid);
        drop_idle_of(&mut self.idle_req_queue, pid);
        proof {
            if before.wf() {
                crate::sorting::lemma_filter_members(before.sched, sched_not_of(pid));
                let kept = before.sched.filter(sched_not_of(pid));
                assert forall|i: int| 0 <= i < kept.len() implies self@.clients.contains_key(
                    (#[trigger] kept[i]).pid,
                ) by {
                    assert(sched_not_of(pid)(kept[i]));
                    let k = choose|k: int| 0 <= k < before.sched.len() && before.sched[k] == kept[i];
                    assert(before.clients.contains_key(before.sched[k].pid));
                }
            }
        }
    }

    /// Lets nobody of the same priority take over for `duration` from `now` on.
    pub fn cooldown_at(&mut self, duration: Option<u128>, now: u64)
        requires
            duration matches Some(d) ==> now + d <= u128::MAX,
        ensures
            final(self)@ == (QueueModel {
                cooldown_until: match duration {
                    Some(d) => now + d,
                    None => now as int,
                },
                ..old(self)@
            }),
            final(self)@ == old(self)@.cooling(duration, now),
            final(self).data_manager_handle == old(self).data_manager_handle,
            final(self).clock == old(self).clock,
    {
        self.cooldown_until = match duration {
            Some(d) => now as u128 + d,
            None => now as u128,
        };
    }

    /// Lets nobody of the same priority take over for `duration` from now on.
    pub fn cooldown(&mut self, duration: Option<u128>)
        requires
            duration matches Some(d) ==> u64::MAX + d <= u128::MAX,
        ensures
            exists|now: u64|
                final(self)@ == #[trigger] old(self)@.cooling(duration, now),
            final(self).data_manager_handle == old(self).data_manager_handle,
            final(self).clock == old(self).clock,
    {
        let now: u64 = self.clock.now();
        self.cooldown_at(duration, now);
        assert(self@ == old(self)@.cooling(duration, now));
    }

    /// How long a process that was just brought in may stay: the longest of twice the time that
    /// moving `migration_mb` megabytes takes, the configured time, and the time quantum of its
    /// level.
    pub fn compute_cooldown(
        migration_mb: u64,
        config_cooldown: Option<u64>,
        current_priority: Priority,
    ) -> (cooldown: u128)
        ensures
            cooldown == cooldown_time(migration_mb, config_cooldown, current_priority),
    {
        let migration: u128 = migration_nanos(migration_mb);
        let mut cooldown: u128 = match config_cooldown {
            Some(d) => d as u128,
            None => 0,
        };
        if cooldown < migration * 2 {
            cooldown = migration * 2;
        }
        let quantum: u128 = priority_level_to_time_quantum(current_priority.level()) as u128;
        if cooldown < quantum {
            cooldown = quantum;
        }
        cooldown
    }

    /// Takes a report of `pid` in, at `now`.
    pub fn schedule_push_at(&mut self, pid: i32, args: ActivityUpdate, now: u64)
        ensures
            exists|client: ClientStatistics|
                old(self)@.knows(pid, client, now) && final(self)@ == #[trigger] old(self)@.pushed(
                    pid,
                    args,
                    client,
                    now,
                ),
            old(self).wf() ==> final(self).wf(),
            final(self).data_manager_handle == old(self).data_manager_handle,
            final(self).clock == old(self).clock,
    {
        let ghost before = self@;
        let ghost sent = args;
        let client = self.get_client_mut_or_insert_at(pid, now);
        let ghost known = *client;
        client.record_message_id(args.message_id);
        match &args.content {
            ActivityUpdateContent::Idle => {
                self.idle_req_queue.push_back(
                    IdleRequest { pid, time: now, request_type: IdleRequestType::Idle },
                );
            },
            ActivityUpdateContent::YieldThenRequestSchedulingAndMem { .. } => {
                client.set_is_in_schedule_queue(true, now);
                self.idle_req_queue.push_back(
                    IdleRequest { pid, time: now, request_type: IdleRequestType::Yield },
                );
                self.sched_req.push_back(SchedRequest { pid, args, time: now, is_yield: true });
            },
            ActivityUpdateContent::RequestScheduling => {
                client.set_is_in_schedule_queue(true, now);
                self.sched_req.push_back(SchedRequest { pid, args, time: now, is_yield: false });
            },
        }
        proof {
            assert(self@ =~= before.pushed(pid, sent, known, now));
            if before.wf() {
                lemma_pushed_wf(before, pid, sent, known, now);
            }
        }
    }

    /// Takes a report of `pid` in.
    pub fn schedule_push(&mut self, pid: i32, args: ActivityUpdate)
        ensures
            exists|client: ClientStatistics, now: u64|
                old(self)@.knows(pid, client, now) && final(self)@ == #[trigger] old(self)@.pushed(
                    pid,
                    args,
                    client,
                    now,
                ),
            old(self).wf() ==> final(self).wf(),
            final(self).data_manager_handle == old(self).data_manager_handle,
            final(self).clock == old(self).clock,
    {
        let now: u64 = self.clock.now();
        self.schedule_push_at(pid, args, now);
    }

    /// Takes a report of `pid` in, at `now`, before all others.
    pub fn prioritized_push_at(&mut self, pid: i32, args: ActivityUpdate, now: u64)
        ensures
            exists|client: ClientStatistics|
                old(self)@.knows(pid, client, now) && final(self)@ == #[trigger] old(
                    self,
                )@.pushed_first(pid, args, client, now),
            old(self).wf() ==> final(self).wf(),
            final(self).data_manager_handle == old(self).data_manager_handle,
            final(self).clock == old(self).clock,
    {
        let ghost before = self@;
        let ghost sent = args;
        let client = self.get_client_mut_or_insert_at(pid, now);
        let ghost known = *client;
        client.record_message_id(args.message_id);
        match &args.content {
            ActivityUpdateContent::Idle => {
                self.idle_req_queue.push_front(
                    IdleRequest { pid, time: now, request_type: IdleRequestType::Idle },
                );
            },
            ActivityUpdateContent::RequestScheduling => {
                client.set_is_in_schedule_queue(true, now);
                self.sched_req.push_front(SchedRequest { pid, args, time: now, is_yield: false });
            },
            ActivityUpdateContent::YieldThenRequestSchedulingAndMem { .. } => {},
        }
        proof {
            assert(self@ =~= before.pushed_first(pid, sent, known, now));
            if before.wf() {
                lemma_pushed_first_wf(before, pid, sent, known, now);
            }
        }
    }

    /// Takes a report of `pid` in before all others.
    pub fn prioritized_push(&mut self, pid: i32, args: ActivityUpdate)
        ensures
            exists|client: ClientStatistics, now: u64|
                old(self)@.knows(pid, client, now) && final(self)@ == #[trigger] old(
                    self,
                )@.pushed_first(pid, args, client, now),
            old(self).wf() ==> final(self).wf(),
            final(self).data_manager_handle == old(self).data_manager_handle,
            final(self).clock == old(self).clock,
    {
        let now: u64 = self.clock.now();
        self.prioritized_push_at(pid, args, now);
    }

    /// Takes moves to be made ahead of time in, at `now`.
    pub fn push_prefetch_at(&mut self, parameter: PrefetchArgs, now: u64)
        ensures
            final(self)@ == (QueueModel {
                prefetch: old(self)@.prefetch.push(PrefetchRequest { time: now, parameter }),
                ..old(self)@
            }),
            final(self)@ == old(self)@.asked_to_move(parameter, now),
            final(self).data_manager_handle == old(self).data_manager_handle,
            final(self).clock == old(self).clock,
    {
        self.prefetch_queue.push_back(PrefetchRequest { time: now, parameter });
    }

    /// Takes moves to be made ahead of time in.
    pub fn push_prefetch(&mut self, parameter: PrefetchArgs)
        ensures
            exists|now: u64|
                final(self)@ == #[trigger] old(self)@.asked_to_move(parameter, now),
            final(self).data_manager_handle == old(self).data_manager_handle,
            final(self).clock == old(self).clock,
    {
        let now: u64 = self.clock.now();
        let ghost asked = parameter;
        self.push_prefetch_at(parameter, now);
        assert(self@ == old(self)@.asked_to_move(asked, now));
    }

    /// Notes who has the GPU.
    pub fn update_active(&mut self, active_client: ActiveClientState)
        ensures
            final(self)@ == (QueueModel { active: active_client, ..old(self)@ }),
            final(self).data_manager_handle == old(self).data_manager_handle,
            final(self).clock == old(self).clock,
    {
        self.active_client = active_client;
    }
}

impl QueueModel {
    pub open spec fn cooling(self, duration: Option<u128>, now: u64) -> QueueModel {
        QueueModel {
            cooldown_until: match duration {
                Some(d) => now + d,
                None => now as int,
            },
            ..self
        }
    }

    pub open spec fn asked_to_move(self, parameter: PrefetchArgs, now: u64) -> QueueModel {
        QueueModel {
            prefetch: self.prefetch.push(PrefetchRequest { time: now, parameter }),
            ..self
        }
    }
}

/// Taking a report in keeps every waiting process known.
pub proof fn lemma_pushed_wf(
    m: QueueModel,
    pid: i32,
    args: ActivityUpdate,
    client: ClientStatistics,
    now: u64,
)
    requires
        m.wf(),
        m.knows(pid, client, now),
    ensures
        m.pushed(pid, args, client, now).wf(),
{
    let r = m.pushed(pid, args, client, now);
    assert forall|i: int| 0 <= i < r.sched.len() implies r.clients.contains_key(
        (#[trigger] r.sched[i]).pid,
    ) by {
        if i < m.sched.len() {
            assert(r.sched[i] == m.sched[i]);
        }
    }
}

/// Taking a report in before others keeps every waiting process known.
pub proof fn lemma_pushed_first_wf(
    m: QueueModel,
    pid: i32,
    args: ActivityUpdate,
    client: ClientStatistics,
    now: u64,
)
    requires
        m.wf(),
        m.knows(pid, client, now),
    ensures
        m.pushed_first(pid, args, client, now).wf(),
{
    let r = m.pushed_first(pid, args, client, now);
    assert forall|i: int| 0 <= i < r.sched.len() implies r.clients.contains_key(
        (#[trigger] r.sched[i]).pid,
    ) by {
        if r.sched.len() == m.sched.len() {
            assert(r.sched[i] == m.sched[i]);
        } else if i > 0 {
            assert(r.sched[i] == m.sched[i - 1]);
        }
    }
}

// Priorities.

impl QueueModel {
    /// What setting the priority of `pid` is answered, and the queue after it.
    pub open spec fn with_priority(self, pid: i32, to: SetPriorityLevel, now: u64) -> (
        SetPriorityResponse,
        QueueModel,
    ) {
        if !self.clients.contains_key(pid) {
            (SetPriorityResponse::FailureProcessNotExist, self)
        } else {
            let client = self.clients[pid];
            let wanted = match (to, client.priority) {
                (SetPriorityLevel::SetTo(priority), _) => Some(priority),
                (SetPriorityLevel::FixToDynamic, Priority::Fixed(level)) => Some(
                    Priority::Dynamic { level, weight: 0 },
                ),
                (SetPriorityLevel::UnsetToDefault, Priority::Fixed(_)) => Some(initial_priority()),
                _ => None,
            };
            match wanted {
                Some(priority) => (
                    SetPriorityResponse::Success,
                    QueueModel {
                        clients: self.clients.insert(pid, client.at_priority(priority, now)),
                        ..self
                    },
                ),
                None => (SetPriorityResponse::FailurePriorityNotFixed, self),
            }
        }
    }

    /// How many processes are at `level`.
    pub open spec fn at_level(self, level: PriorityLevel) -> nat {
        self.clients.dom().filter(|pid: i32| self.clients[pid].priority.spec_level() == level).len()
    }

    pub open spec fn is_active(self, pid: i32) -> bool {
        self.active matches ActiveClientState::Active { pid: active, .. } && active == pid
    }

    /// Every process with the priority that its running and waiting up to `now` gives it.
    pub open spec fn aged(self, now: u64) -> QueueModel {
        QueueModel {
            clients: Map::new(
                |pid: i32| self.clients.contains_key(pid),
                |pid: i32|
                    aged_client(
                        self.clients[pid],
                        self.is_active(pid),
                        self.at_level(self.clients[pid].priority.spec_level()),
                        now,
                    ),
            ),
            ..self
        }
    }
}

/// The share of the time in the queue that does not count as idle, where `peers` processes are at
/// the same level.
pub open spec fn discounted(waited: u64, peers: nat) -> int {
    let base = (if peers > 2 {
        peers as int
    } else {
        2
    }) + 1;
    waited * (base - 1) / base
}

/// How long a process that waits or rests has been idle, less what waiting does not count.
pub open spec fn resting_time(client: ClientStatistics, peers: nat, now: u64) -> Option<int> {
    match client.idle_at {
        None => None,
        Some(t) => {
            let idle = since(now, t) as int;
            let waiting = match client.queued_at {
                Some(q) => discounted(since(now, q), peers),
                None => 0,
            };
            Some(
                if idle >= waiting {
                    idle - waiting
                } else {
                    0
                },
            )
        },
    }
}

/// A process with the priority that its running and waiting up to `now` gives it. The one that
/// runs moves down once it has used up its quantum and its last change is ten seconds ago. Another
/// one moves down likewise, or up once it has rested for long.
pub open spec fn aged_client(client: ClientStatistics, active: bool, peers: nat, now: u64) -> ClientStatistics {
    let quantum = time_quantum(client.priority.spec_level());
    let unchanged = since(now, client.priority_updated_at);
    if active {
        let counted = client.counted(now);
        if counted.accumulated > quantum && unchanged > 10 * SECOND {
            counted.moved_down(Some(PriorityLevel::Batch), now)
        } else {
            counted
        }
    } else if client.accumulated > quantum {
        client.moved_down(Some(PriorityLevel::Batch), now)
    } else if unchanged > 2 * quantum && (resting_time(client, peers, now) matches Some(d) && d
        > quantum / 2 + client.accumulated) {
        client.moved_up(None, now)
    } else {
        client
    }
}

fn rested_enough(client: &ClientStatistics, peers: u64, now: u64) -> (enough: bool)
    ensures
        enough == (resting_time(*client, peers as nat, now) matches Some(d) && d > time_quantum(
            client.priority.spec_level(),
        ) / 2 + client.accumulated),
{
    match client.idle_since(now) {
        None => false,
        Some(idle) => {
            let waiting: u128 = match client.get_time_in_schedule_queue(now) {
                None => 0,
                Some(waited) => {
                    let base: u128 = (if peers > 2 {
                        peers
                    } else {
                        2
                    }) as u128 + 1;
                    proof {
                        assert(waited * (base - 1) <= 0xffff_ffff_ffff_ffff
                            * 0xffff_ffff_ffff_ffff) by (nonlinear_arith)
                            requires
                                0 <= waited <= 0xffff_ffff_ffff_ffff,
                                0 <= base - 1 <= 0xffff_ffff_ffff_ffff,
                        ;
                    }
                    waited as u128 * (base - 1) / base
                },
            };
            let resting: u128 = if idle as u128 >= waiting {
                idle as u128 - waiting
            } else {
                0
            };
            let quantum: u64 = priority_level_to_time_quantum(client.priority().level());
            resting > (quantum / 2) as u128
                + client.accumulated_time_in_current_priority() as u128
        },
    }
}

/// Gives a process the priority that its running and waiting gives it.
pub fn age_client(client: &mut ClientStatistics, active: bool, peers: u64, now: u64)
    ensures
        *final(client) == aged_client(*old(client), active, peers as nat, now),
{
    let quantum: u64 = priority_level_to_time_quantum(client.priority().level());
    if active {
        let unchanged: u64 = client.priority_upd_since(now);
        client.update_if_active(now);
        if client.accumulated_time_in_current_priority() > quantum && unchanged > 10 * SECOND {
            let _ = client.decrease_priority(Some(PriorityLevel::Batch), now);
        }
    } else if client.accumulated_time_in_current_priority() > quantum {
        let _ = client.decrease_priority(Some(PriorityLevel::Batch), now);
    } else if client.priority_upd_since(now) > quantum * 2 && rested_enough(client, peers, now) {
        let _ = client.increase_priority(None, now);
    }
}

/// How many of `pids` are at `level`.
pub open spec fn count_at(
    pids: Seq<i32>,
    clients: Map<i32, ClientStatistics>,
    level: PriorityLevel,
) -> nat
    decreases pids.len(),
{
    if pids.len() == 0 {
        0
    } else {
        count_at(pids.drop_last(), clients, level) + if clients[pids.last()].priority.spec_level()
            == level {
            1nat
        } else {
            0
        }
    }
}

proof fn lemma_count_at(pids: Seq<i32>, clients: Map<i32, ClientStatistics>, level: PriorityLevel)
    requires
        pids.no_duplicates(),
    ensures
        count_at(pids, clients, level) == pids.to_set().filter(
            |pid: i32| clients[pid].priority.spec_level() == level,
        ).len(),
        count_at(pids, clients, level) <= pids.len(),
    decreases pids.len(),
{
    let p = |pid: i32| clients[pid].priority.spec_level() == level;
    if pids.len() == 0 {
        assert(pids.to_set().filter(p) =~= Set::<i32>::empty());
    } else {
        let rest = pids.drop_last();
        let last = pids.last();
        lemma_count_at(rest, clients, level);
        assert(pids.to_set() =~= rest.to_set().insert(last)) by {
            assert forall|x: i32| pids.to_set().contains(x) implies rest.to_set().insert(
                last,
            ).contains(x) by {
                let k = choose|k: int| 0 <= k < pids.len() && pids[k] == x;
                if k < rest.len() {
                    assert(rest[k] == x);
                }
            }
            assert forall|x: i32| rest.to_set().insert(last).contains(x) implies pids.to_set().contains(
            x) by {
                if rest.contains(x) {
                    let k = choose|k: int| 0 <= k < rest.len() && rest[k] == x;
                    assert(pids[k] == x);
                } else {
                    assert(pids[pids.len() - 1] == x);
                }
            }
        }
        assert(!rest.contains(last)) by {
            if rest.contains(last) {
                let k = choose|k: int| 0 <= k < rest.len() && rest[k] == last;
                assert(pids[k] == pids[pids.len() - 1]);
            }
        }
        vstd::seq_lib::seq_to_set_is_finite(rest);
        if p(last) {
            assert(pids.to_set().filter(p) =~= rest.to_set().filter(p).insert(last));
        } else {
            assert(pids.to_set().filter(p) =~= rest.to_set().filter(p));
        }
    }
}

impl ScheduleQueue {
    /// The processes that are known.
    pub fn client_pids(&self) -> (pids: Vec<i32>)
        ensures
            pids@.no_duplicates(),
            pids@.to_set() == self@.clients.dom(),
    {
        let mut pids: Vec<i32> = Vec::new();
        for pid in iter: self.clients.keys()
            invariant
                pids@.len() == iter.index(),
                forall|i: int| 0 <= i < pids@.len() ==> #[trigger] pids@[i] == *iter.seq()[i],
                iter.index() == iter.seq().len() ==> pids@ == iter.seq().unref(),
                iter.seq().unref().no_duplicates(),
                iter.seq().unref().to_set() == self.clients@.dom(),
        {
            pids.push(*pid);
        }
        pids
    }
}

/// How many processes are at each level, the least urgent level first.
fn count_levels(pids: &Vec<i32>, clients: &HashMap<i32, ClientStatistics>) -> (counts: Vec<u64>)
    requires
        pids@.no_duplicates(),
        pids@.to_set() == clients@.dom(),
    ensures
        counts@.len() == 5,
        forall|level: PriorityLevel|
            #![trigger level.spec_rank()]
            counts@[level.spec_rank()] == clients@.dom().filter(
                |pid: i32| clients@[pid].priority.spec_level() == level,
            ).len(),
{
    let mut counts: Vec<u64> = Vec::new();
    counts.push(0);
    counts.push(0);
    counts.push(0);
    counts.push(0);
    counts.push(0);
    let mut i: usize = 0;
    while i < pids.len()
        invariant
            i <= pids@.len(),
            counts@.len() == 5,
            pids@.to_set() == clients@.dom(),
            forall|level: PriorityLevel|
                #![trigger level.spec_rank()]
                counts@[level.spec_rank()] == count_at(pids@.take(i as int), clients@, level)
                    && counts@[level.spec_rank()] <= i,
        decreases pids@.len() - i,
    {
        let ghost before = counts@;
        assert(pids@.to_set().contains(pids@[i as int]));
        assert(pids@.take(i + 1).drop_last() =~= pids@.take(i as int));
        match clients.get(&pids[i]) {
            Some(client) => {
                let rank: usize = client.priority().level().rank() as usize;
                let count: u64 = counts[rank];
                proof {
                    let level = client.priority.spec_level();
                    assert(before[level.spec_rank()] <= i);
                }
                counts.set(rank, count + 1);
                proof {
                    assert forall|level: PriorityLevel| #![trigger level.spec_rank()]
                        counts@[level.spec_rank()] == count_at(
                        pids@.take(i + 1),
                        clients@,
                        level,
                    ) && counts@[level.spec_rank()] <= i + 1 by {
                        assert(before[level.spec_rank()] == count_at(
                            pids@.take(i as int),
                            clients@,
                            level,
                        ));
                    }
                }
            },
            None => {},
        }
        i = i + 1;
    }
    proof {
        assert(pids@.take(i as int) =~= pids@);
        assert forall|level: PriorityLevel| #![trigger level.spec_rank()]
            counts@[level.spec_rank()] == clients@.dom().filter(
            |pid: i32| clients@[pid].priority.spec_level() == level,
        ).len() by {
            lemma_count_at(pids@, clients@, level);
        }
    }
    counts
}

impl ScheduleQueue {
    /// Gives every process the priority that its running and waiting up to `now` gives it.
    pub fn update_priority_at(&mut self, now: u64)
        ensures
            final(self)@ == old(self)@.aged(now),
            old(self).wf() ==> final(self).wf(),
            final(self).data_manager_handle == old(self).data_manager_handle,
            final(self).clock == old(self).clock,
    {
        let ghost before = self@;
        let ghost goal = before.aged(now).clients;
        let pids = self.client_pids();
        let counts = count_levels(&pids, &self.clients);
        let mut i: usize = 0;
        while i < pids.len()
            invariant
                i <= pids@.len(),
                pids@.no_duplicates(),
                pids@.to_set() == before.clients.dom(),
                counts@.len() == 5,
                forall|level: PriorityLevel|
                    #![trigger level.spec_rank()]
                    counts@[level.spec_rank()] == before.at_level(level),
                goal == before.aged(now).clients,
                before == old(self)@,
                self@ == (QueueModel { clients: self@.clients, ..before }),
                self@.clients.dom() == before.clients.dom(),
                forall|k: int|
                    0 <= k < i ==> self@.clients[#[trigger] pids@[k]] == goal[pids@[k]],
                forall|k: int|
                    i <= k < pids@.len() ==> self@.clients[#[trigger] pids@[k]]
                        == before.clients[pids@[k]],
                self.data_manager_handle == old(self).data_manager_handle,
                self.clock == old(self).clock,
            decreases pids@.len() - i,
        {
            let pid: i32 = pids[i];
            let active: bool = match self.active_client {
                ActiveClientState::Active { pid: active, .. } => active == pid,
                ActiveClientState::Inactive => false,
            };
            let ghost current = self@.clients;
            assert(pids@.to_set().contains(pids@[i as int]));
            match self.clients.remove(&pid) {
                Some(mut client) => {
                    let rank: usize = client.priority().level().rank() as usize;
                    let peers: u64 = counts[rank];
                    proof {
                        let level = client.priority.spec_level();
                        assert(level.spec_rank() == rank);
                        assert(peers == before.at_level(level));
                    }
                    age_client(&mut client, active, peers, now);
                    assert(client == goal[pid]);
                    let _ = self.clients.insert(pid, client);
                    assert(self@.clients =~= current.insert(pid, client));
                },
                None => {},
            }
            i = i + 1;
        }
        proof {
            assert forall|pid: i32| before.clients.contains_key(pid) implies
                #[trigger] self@.clients[pid] == goal[pid] by {
                assert(pids@.to_set().contains(pid));
                let k = choose|k: int| 0 <= k < pids@.len() && pids@[k] == pid;
                assert(self@.clients[pids@[k]] == goal[pids@[k]]);
            }
            assert(goal.dom() =~= before.clients.dom());
            assert(self@.clients =~= goal);
        }
    }

    /// Puts every dynamic priority back to what a process starts with, and says whether that
    /// changed the level of any.
    pub fn reset_all_priorities_at(&mut self, now: u64) -> (changed: bool)
        ensures
            final(self)@ == old(self)@.reset(now),
            changed == exists|pid: i32| #[trigger]
                old(self)@.clients.contains_key(pid) && old(self)@.clients[pid].priority is Dynamic
                    && old(self)@.clients[pid].priority.spec_level() != PriorityLevel::Interactive,
            old(self).wf() ==> final(self).wf(),
            final(self).data_manager_handle == old(self).data_manager_handle,
            final(self).clock == old(self).clock,
    {
        let ghost before = self@;
        let ghost goal = before.reset(now).clients;
        let pids = self.client_pids();
        let mut changed: bool = false;
        let mut i: usize = 0;
        while i < pids.len()
            invariant
                i <= pids@.len(),
                pids@.no_duplicates(),
                pids@.to_set() == before.clients.dom(),
                goal == before.reset(now).clients,
                before == old(self)@,
                self@ == (QueueModel { clients: self@.clients, ..before }),
                self@.clients.dom() == before.clients.dom(),
                forall|k: int|
                    0 <= k < i ==> self@.clients[#[trigger] pids@[k]] == goal[pids@[k]],
                forall|k: int|
                    i <= k < pids@.len() ==> self@.clients[#[trigger] pids@[k]]
                        == before.clients[pids@[k]],
                changed == exists|k: int|
                    0 <= k < i && before.clients[#[trigger] pids@[k]].priority is Dynamic
                        && before.clients[pids@[k]].priority.spec_level()
                        != PriorityLevel::Interactive,
                self.data_manager_handle == old(self).data_manager_handle,
                self.clock == old(self).clock,
            decreases pids@.len() - i,
        {
            let pid: i32 = pids[i];
            let ghost current = self@.clients;
            assert(pids@.to_set().contains(pids@[i as int]));
            match self.clients.remove(&pid) {
                Some(mut client) => {
                    match client.priority() {
                        Priority::Dynamic { level, .. } => {
                            if level != PriorityLevel::Interactive {
                                changed = true;
                            }
                            client.set_priority(Priority::default_dynamic(), now);
                        },
                        Priority::Fixed(_) => {},
                    }
                    assert(client == goal[pid]);
                    let _ = self.clients.insert(pid, client);
                    assert(self@.clients =~= current.insert(pid, client));
                },
                None => {},
            }
            i = i + 1;
        }
        proof {
            assert forall|pid: i32| before.clients.contains_key(pid) implies
                #[trigger] self@.clients[pid] == goal[pid] by {
                assert(pids@.to_set().contains(pid));
                let k = choose|k: int| 0 <= k < pids@.len() && pids@[k] == pid;
                assert(self@.clients[pids@[k]] == goal[pids@[k]]);
            }
            assert(goal.dom() =~= before.clients.dom());
            assert(self@.clients =~= goal);
            if exists|pid: i32| #[trigger]
                before.clients.contains_key(pid) && before.clients[pid].priority is Dynamic
                    && before.clients[pid].priority.spec_level() != PriorityLevel::Interactive {
                let pid = choose|pid: i32| #[trigger]
                    before.clients.contains_key(pid) && before.clients[pid].priority is Dynamic
                        && before.clients[pid].priority.spec_level() != PriorityLevel::Interactive;
                assert(pids@.to_set().contains(pid));
                let k = choose|k: int| 0 <= k < pids@.len() && pids@[k] == pid;
                assert(before.clients[pids@[k]].priority is Dynamic);
            }
            if changed {
                let k = choose|k: int|
                    0 <= k < i && before.clients[#[trigger] pids@[k]].priority is Dynamic
                        && before.clients[pids@[k]].priority.spec_level()
                        != PriorityLevel::Interactive;
                assert(pids@.to_set().contains(pids@[k]));
                assert(before.clients.contains_key(pids@[k]));
            }
        }
        changed
    }

    /// Sets the priority of `pid` at `now`.
    pub fn set_priority_at(&mut self, pid: i32, new_level: SetPriorityLevel, now: u64) -> (response:
        SetPriorityResponse)
        ensures
            (response, final(self)@) == old(self)@.with_priority(pid, new_level, now),
            old(self).wf() ==> final(self).wf(),
            final(self).data_manager_handle == old(self).data_manager_handle,
            final(self).clock == old(self).clock,
    {
        let ghost before = self@;
        let response = match self.get_client_mut(pid) {
            None => SetPriorityResponse::FailureProcessNotExist,
            Some(client) => match new_level {
                SetPriorityLevel::FixToDynamic => match client.priority() {
                    Priority::Fixed(level) => {
                        client.set_priority(Priority::Dynamic { level, weight: 0 }, now);
                        SetPriorityResponse::Success
                    },
                    Priority::Dynamic { .. } => SetPriorityResponse::FailurePriorityNotFixed,
                },
                SetPriorityLevel::UnsetToDefault => match client.priority() {
                    Priority::Dynamic { .. } => SetPriorityResponse::FailurePriorityNotFixed,
                    Priority::Fixed(_) => {
                        client.set_priority(Priority::default_dynamic(), now);
                        SetPriorityResponse::Success
                    },
                },
                SetPriorityLevel::SetTo(level) => {
                    client.set_priority(level, now);
                    SetPriorityResponse::Success
                },
            },
        };
        proof {
            assert(self@ =~= before.with_priority(pid, new_level, now).1);
        }
        response
    }

    /// Sets the priority of `pid`.
    pub fn set_priority(&mut self, pid: i32, new_level: SetPriorityLevel) -> (response:
        SetPriorityResponse)
        ensures
            exists|now: u64|
                (response, final(self)@) == #[trigger] old(self)@.with_priority(
                    pid,
                    new_level,
                    now,
                ),
            old(self).wf() ==> final(self).wf(),
            final(self).data_manager_handle == old(self).data_manager_handle,
            final(self).clock == old(self).clock,
    {
        let now: u64 = self.clock.now();
        self.set_priority_at(pid, new_level, now)
    }
}

impl QueueModel {
    /// Every dynamic priority as a process starts with it.
    pub open spec fn reset(self, now: u64) -> QueueModel {
        QueueModel {
            clients: Map::new(
                |pid: i32| self.clients.contains_key(pid),
                |pid: i32|
                    if self.clients[pid].priority is Dynamic {
                        self.clients[pid].at_priority(initial_priority(), now)
                    } else {
                        self.clients[pid]
                    },
            ),
            ..self
        }
    }
}

// The order of those that wait.

/// Whether `a` runs before `b`: those that stepped back first, then the more urgent, then those
/// that asked first.
pub open spec fn runs_before(clients: Map<i32, ClientStatistics>) -> spec_fn(
    SchedRequest,
    SchedRequest,
) -> bool {
    |a: SchedRequest, b: SchedRequest|
        {
            let rank_a = clients[a.pid].priority.spec_level().spec_rank();
            let rank_b = clients[b.pid].priority.spec_level().spec_rank();
            if a.is_yield != b.is_yield {
                a.is_yield
            } else if rank_a != rank_b {
                rank_a > rank_b
            } else {
                a.time < b.time
            }
        }
}

/// What may happen to the process that runs.
pub open spec fn preemption(m: QueueModel, active: ActiveClientState) -> PreemptionDecision {
    match active {
        ActiveClientState::Active { pid, .. } if m.sched.len() > 0 => {
            let front = m.sched[0].pid;
            if front == pid {
                PreemptionDecision::AllowPreempt { follow_same_priority_cooldown: false }
            } else if m.clients.contains_key(pid) && m.clients.contains_key(front) {
                let running = m.clients[pid].priority.spec_level().spec_rank();
                let waiting = m.clients[front].priority.spec_level().spec_rank();
                if waiting >= running {
                    PreemptionDecision::AllowPreempt {
                        follow_same_priority_cooldown: waiting == running,
                    }
                } else {
                    PreemptionDecision::DenyPreempt
                }
            } else {
                PreemptionDecision::DenyPreempt
            }
        },
        _ => PreemptionDecision::AllowPreempt { follow_same_priority_cooldown: false },
    }
}

impl QueueModel {
    /// Those that wait in the order in which they should run.
    pub open spec fn ordered(self) -> QueueModel {
        QueueModel { sched: stable_sorted(self.sched, runs_before(self.clients)), ..self }
    }
}

proof fn lemma_ordered_wf(m: QueueModel)
    requires
        m.wf(),
    ensures
        m.ordered().wf(),
{
    broadcast use vstd::seq_lib::group_to_multiset_ensures;

    let sorted = m.ordered().sched;
    crate::sorting::lemma_sorted_is_permutation(m.sched, runs_before(m.clients));
    assert forall|i: int| 0 <= i < sorted.len() implies m.clients.contains_key(
        (#[trigger] sorted[i]).pid,
    ) by {
        let r = sorted[i];
        assert(sorted.contains(r));
        assert(sorted.to_multiset().count(r) > 0);
        assert(m.sched.to_multiset().count(r) > 0);
        assert(m.sched.contains(r));
        let k = choose|k: int| 0 <= k < m.sched.len() && m.sched[k] == r;
        assert(m.clients.contains_key(m.sched[k].pid));
    }
}

fn decides_before(a: &SchedRequest, b: &SchedRequest, clients: &HashMap<i32, ClientStatistics>) -> (before:
    bool)
    requires
        clients@.contains_key(a.pid),
        clients@.contains_key(b.pid),
    ensures
        before == runs_before(clients@)(*a, *b),
{
    match clients.get(&a.pid) {
        None => false,
        Some(stat_a) => match clients.get(&b.pid) {
            None => true,
            Some(stat_b) => {
                let rank_a: u8 = stat_a.priority().level().rank();
                let rank_b: u8 = stat_b.priority().level().rank();
                if a.is_yield != b.is_yield {
                    a.is_yield
                } else if rank_a != rank_b {
                    rank_a > rank_b
                } else {
                    a.time < b.time
                }
            },
        },
    }
}

impl ScheduleQueue {
    /// Puts those that wait in the order in which they should run.
    pub fn compute_prioritization(&mut self)
        requires
            old(self).wf(),
        ensures
            final(self)@ == old(self)@.ordered(),
            final(self).wf(),
            final(self).data_manager_handle == old(self).data_manager_handle,
            final(self).clock == old(self).clock,
    {
        let ghost before = self@;
        let n: usize = self.sched_req.len();
        let mut list: Vec<SchedRequest> = Vec::new();
        let mut i: usize = 0;
        while i < n
            invariant
                i <= n,
                n == before.sched.len(),
                before == old(self)@,
                list@ == before.sched.take(i as int),
                self@ == (QueueModel { sched: before.sched.skip(i as int), ..before }),
                self.data_manager_handle == old(self).data_manager_handle,
                self.clock == old(self).clock,
            decreases n - i,
        {
            let ghost left = self.sched_req@;
            match self.sched_req.pop_front() {
                Some(r) => {
                    list.push(r);
                    proof {
                        assert(list@ =~= before.sched.take(i + 1));
                        assert(self.sched_req@ =~= before.sched.skip(i + 1));
                    }
                },
                None => {},
            }
            i = i + 1;
        }
        assert(list@ =~= before.sched);
        assert(self.sched_req@ =~= Seq::empty());
        {
            let clients = &self.clients;
            let precedes = |a: &SchedRequest, b: &SchedRequest| -> (r: bool)
                requires
                    clients@.contains_key(a.pid),
                    clients@.contains_key(b.pid),
                ensures
                    r == runs_before(clients@)(*a, *b),
                { decides_before(a, b, clients) };
            sort_stable(&mut list, precedes, Ghost(runs_before(clients@)));
        }
        let ghost sorted = list@;
        proof {
            crate::sorting::lemma_sorted_is_permutation(before.sched, runs_before(before.clients));
            vstd::seq_lib::to_multiset_len(sorted);
            vstd::seq_lib::to_multiset_len(before.sched);
        }
        let mut rest: VecDeque<SchedRequest> = VecDeque::new();
        while list.len() > 0
            invariant
                sorted == list@ + rest@,
            decreases list@.len(),
        {
            let ghost remaining = list@;
            let ghost done = rest@;
            match list.pop() {
                Some(r) => {
                    rest.push_front(r);
                    assert(list@ + rest@ =~= remaining + done);
                },
                None => {},
            }
        }
        assert(rest@ =~= sorted);
        self.sched_req = rest;
        proof {
            lemma_ordered_wf(before);
        }
    }

    /// What may happen to the process that runs.
    pub fn compute_can_preempt(&self, active_client: ActiveClientState) -> (decision:
        PreemptionDecision)
        ensures
            decision == preemption(self@, active_client),
    {
        match active_client {
            ActiveClientState::Active { pid, .. } => {
                if self.sched_req.len() == 0 {
                    return PreemptionDecision::AllowPreempt {
                        follow_same_priority_cooldown: false,
                    };
                }
                let front: i32 = self.sched_req[0].pid;
                if front == pid {
                    return PreemptionDecision::AllowPreempt {
                        follow_same_priority_cooldown: false,
                    };
                }
                match self.clients.get(&pid) {
                    None => PreemptionDecision::DenyPreempt,
                    Some(running) => match self.clients.get(&front) {
                        None => PreemptionDecision::DenyPreempt,
                        Some(waiting) => {
                            let running_rank: u8 = running.priority().level().rank();
                            let waiting_rank: u8 = waiting.priority().level().rank();
                            if waiting_rank >= running_rank {
                                PreemptionDecision::AllowPreempt {
                                    follow_same_priority_cooldown: waiting_rank == running_rank,
                                }
                            } else {
                                PreemptionDecision::DenyPreempt
                            }
                        },
                    },
                }
            },
            ActiveClientState::Inactive => PreemptionDecision::AllowPreempt {
                follow_same_priority_cooldown: false,
            },
        }
    }
}

// Moves ahead of time.

/// Bytes of `pid` in a store.
pub open spec fn bytes_of(pid: i32) -> spec_fn((BufferId, AllocationCapacity)) -> int {
    |c: (BufferId, AllocationCapacity)|
        if c.0.pid == pid {
            c.0.size as int
        } else {
            0
        }
}

pub open spec fn min_of(a: int, b: int) -> int {
    if a <= b {
        a
    } else {
        b
    }
}

/// A move of `size` bytes, where it is made.
pub open spec fn move_if(cond: bool, pid: i32, from: BufferLocation, to: BufferLocation, size: int) -> Seq<
    PrefetchMsg,
> {
    if cond {
        seq![PrefetchMsg { pid, from, to, size: size as u64 }]
    } else {
        Seq::empty()
    }
}

/// The moves that bring a process closer to the GPU: from storage to shared memory, then from host
/// memory to shared memory, then what is left in storage to host memory, each as far as there is
/// room.
pub open spec fn prefetch_moves(
    pid: i32,
    shm: int,
    hostmem: int,
    disk: int,
    shm_capacity: int,
    hostmem_capacity: int,
) -> Seq<PrefetchMsg> {
    let first = disk > 0 && shm < shm_capacity;
    let a = if first {
        min_of(shm_capacity - shm, disk)
    } else {
        0
    };
    let second = hostmem > 0 && shm + a < shm_capacity;
    let b = if second {
        min_of(shm_capacity - shm - a, hostmem)
    } else {
        0
    };
    let third = disk - a > 0 && hostmem - b < hostmem_capacity;
    let c = min_of(hostmem_capacity - (hostmem - b), disk - a);
    move_if(first, pid, BufferLocation::Storage, BufferLocation::Shm, a) + move_if(
        second,
        pid,
        BufferLocation::HostMem,
        BufferLocation::Shm,
        b,
    ) + move_if(third, pid, BufferLocation::Storage, BufferLocation::HostMem, c)
}

/// The moves that bring `pid` closer to the GPU.
pub open spec fn prefetch_plan(pid: i32, h: DataManagerHandle) -> Seq<PrefetchMsg> {
    prefetch_moves(
        pid,
        sum_of(h.shm@, bytes_of(pid)),
        sum_of(h.hostmem@, bytes_of(pid)),
        sum_of(h.storage@, bytes_of(pid)),
        h.shm_capacity as int,
        h.hostmem_capacity as int,
    )
}

fn stored_bytes(list: &Vec<(BufferId, AllocationCapacity)>, pid: i32) -> (bytes: u128)
    ensures
        bytes == sum_of(list@, bytes_of(pid)),
        bytes < 0x1_0000_0000_0000_0000_0000_0000,
{
    let mut bytes: u128 = 0;
    let mut i: usize = 0;
    while i < list.len()
        invariant
            i <= list@.len(),
            bytes == sum_of(list@.take(i as int), bytes_of(pid)),
            bytes <= i * u32::MAX,
        decreases list@.len() - i,
    {
        let c = list[i];
        proof {
            assert(list@.take(i + 1) =~= list@.take(i as int).push(c));
            lemma_sum_push(list@.take(i as int), c, bytes_of(pid));
        }
        if c.0.pid == pid {
            bytes = bytes + c.0.size as u128;
        }
        i = i + 1;
    }
    proof {
        assert(list@.take(i as int) =~= list@);
    }
    bytes
}

fn smaller(a: u128, b: u128) -> (m: u128)
    ensures
        m == min_of(a as int, b as int),
{
    if a <= b {
        a
    } else {
        b
    }
}

/// The moves that bring `pid` closer to the GPU.
pub fn construct_prefetch_plan(pid: i32, data_manager: &DataManagerHandle) -> (plan: Vec<PrefetchMsg>)
    ensures
        plan@ == prefetch_plan(pid, *data_manager),
{
    let mut shm_usage: u128 = stored_bytes(&data_manager.shm, pid);
    let mut hostmem_usage: u128 = stored_bytes(&data_manager.hostmem, pid);
    let mut disk_usage: u128 = stored_bytes(&data_manager.storage, pid);
    let shm_capacity: u128 = data_manager.shm_capacity as u128;
    let hostmem_capacity: u128 = data_manager.hostmem_capacity as u128;
    let mut plan: Vec<PrefetchMsg> = Vec::new();
    if disk_usage > 0 && shm_usage < shm_capacity {
        let moved: u128 = smaller(shm_capacity - shm_usage, disk_usage);
        plan.push(
            PrefetchMsg {
                pid,
                from: BufferLocation::Storage,
                to: BufferLocation::Shm,
                size: moved as u64,
            },
        );
        shm_usage = shm_usage + moved;
        disk_usage = disk_usage - moved;
    }
    if hostmem_usage > 0 && shm_usage < shm_capacity {
        let moved: u128 = smaller(shm_capacity - shm_usage, hostmem_usage);
        plan.push(
            PrefetchMsg {
                pid,
                from: BufferLocation::HostMem,
                to: BufferLocation::Shm,
                size: moved as u64,
            },
        );
        hostmem_usage = hostmem_usage - moved;
    }
    if disk_usage > 0 && hostmem_usage < hostmem_capacity {
        let moved: u128 = smaller(hostmem_capacity - hostmem_usage, disk_usage);
        plan.push(
            PrefetchMsg {
                pid,
                from: BufferLocation::Storage,
                to: BufferLocation::HostMem,
                size: moved as u64,
            },
        );
    }
    assert(plan@ =~= prefetch_plan(pid, *data_manager));
    plan
}

// What comes next.

impl QueueModel {
    /// Whether the process at the front may run now: not while one of the same priority cools
    /// down.
    pub open spec fn may_run(self, active: ActiveClientState, now: u64) -> bool {
        match preemption(self, active) {
            PreemptionDecision::AllowPreempt { follow_same_priority_cooldown } => !(
            follow_same_priority_cooldown && now < self.cooldown_until),
            PreemptionDecision::DenyPreempt => false,
        }
    }

    /// Whether moves should be made ahead of time for the process at the front: once for each
    /// process that got to run.
    pub open spec fn may_prefetch(self, automatic_prefetch: bool) -> bool {
        automatic_prefetch && self.sched.len() > 0 && self.last_prefetch <= self.last_schedule
    }

    /// The process at the front of those that wait no longer waits.
    pub open spec fn without_front(self, now: u64) -> QueueModel {
        let pid = self.sched[0].pid;
        QueueModel {
            sched: self.sched.drop_first(),
            clients: self.clients.insert(
                pid,
                ClientStatistics { queued_at: None, ..self.clients[pid] },
            ),
            last_schedule: now,
            ..self
        }
    }
}

/// Taking `request` from the queue `m`, the priorities and the order of which are up to date,
/// leaves `after`.
pub open spec fn popped(
    m: QueueModel,
    h: DataManagerHandle,
    active: ActiveClientState,
    automatic_prefetch: bool,
    now: u64,
    request: Option<GenericRequest>,
    after: QueueModel,
) -> bool {
    if m.idle.len() > 0 {
        &&& request == Some(GenericRequest::Idle(m.idle[0]))
        &&& after == QueueModel { idle: m.idle.drop_first(), ..m }
    } else if m.prefetch.len() > 0 {
        &&& request == Some(GenericRequest::Prefetch(m.prefetch[0]))
        &&& after == QueueModel { prefetch: m.prefetch.drop_first(), ..m }
    } else if m.may_run(active, now) {
        if m.sched.len() > 0 {
            &&& request == Some(GenericRequest::Schedule(m.sched[0]))
            &&& after == m.without_front(now)
        } else {
            &&& request is None
            &&& after == m
        }
    } else if m.may_prefetch(automatic_prefetch) && prefetch_plan(m.sched[0].pid, h).len() > 0 {
        &&& request matches Some(GenericRequest::Prefetch(r)) && r.time == now && r.parameter.list@
            == prefetch_plan(m.sched[0].pid, h) && !r.parameter.rx_used
        &&& after == QueueModel { last_prefetch: now, ..m }
    } else {
        &&& request is None
        &&& after == m
    }
}

impl ScheduleQueue {
    /// The next thing to turn to at `now`: first those that stop running, then moves that were
    /// asked for, then those that want to run, and then moves that nobody asked for.
    pub fn schedule_pop_at(
        &mut self,
        active_client: ActiveClientState,
        automatic_prefetch: bool,
        now: u64,
    ) -> (request: Option<GenericRequest>)
        requires
            old(self).wf(),
        ensures
            popped(
                old(self)@.aged(now).ordered(),
                old(self).data_manager_handle,
                active_client,
                automatic_prefetch,
                now,
                request,
                final(self)@,
            ),
            final(self).wf(),
            final(self).data_manager_handle == old(self).data_manager_handle,
            final(self).clock == old(self).clock,
    {
        self.update_priority_at(now);
        self.compute_prioritization();
        let ghost m = self@;
        match self.idle_req_queue.pop_front() {
            Some(front) => {
                assert(self.idle_req_queue@ =~= m.idle.drop_first());
                return Some(GenericRequest::Idle(front));
            },
            None => {},
        }
        match self.prefetch_queue.pop_front() {
            Some(front) => {
                assert(self.prefetch_queue@ =~= m.prefetch.drop_first());
                return Some(GenericRequest::Prefetch(front));
            },
            None => {},
        }
        assert(self@ =~= m);
        let may_run: bool = match self.compute_can_preempt(active_client) {
            PreemptionDecision::AllowPreempt { follow_same_priority_cooldown } => !(
            follow_same_priority_cooldown && (now as u128) < self.cooldown_until),
            PreemptionDecision::DenyPreempt => false,
        };
        if may_run {
            match self.sched_req.pop_front() {
                Some(front) => {
                    self.last_schedule_pop = now;
                    let pid: i32 = front.pid;
                    let ghost current = self@;
                    assert(current.sched =~= m.sched.drop_first());
                    assert(m.clients.contains_key(m.sched[0].pid));
                    let client = self.get_client_mut_or_insert_at(pid, now);
                    client.set_is_in_schedule_queue(false, now);
                    proof {
                        assert(self@ =~= m.without_front(now));
                        assert forall|i: int| 0 <= i < self@.sched.len() implies
                            self@.clients.contains_key((#[trigger] self@.sched[i]).pid) by {
                            assert(self@.sched[i] == m.sched[i + 1]);
                        }
                    }
                    return Some(GenericRequest::Schedule(front));
                },
                None => {
                    assert(self@ =~= m);
                    return None;
                },
            }
        }
        let already_prefetched: bool = self.last_auto_prefetch_pop > self.last_schedule_pop;
        if automatic_prefetch && self.sched_req.len() > 0 && !already_prefetched {
            let pid: i32 = self.sched_req[0].pid;
            let list = construct_prefetch_plan(pid, &self.data_manager_handle);
            if list.len() > 0 {
                self.last_auto_prefetch_pop = now;
                return Some(
                    GenericRequest::Prefetch(
                        PrefetchRequest {
                            time: now,
                            parameter: PrefetchArgs { list, rx_used: false },
                        },
                    ),
                );
            }
        }
        None
    }

    /// The next thing to turn to.
    pub fn schedule_pop(&mut self, active_client: ActiveClientState, automatic_prefetch: bool) -> (request:
        Option<GenericRequest>)
        requires
            old(self).wf(),
        ensures
            exists|now: u64|
                popped(
                    #[trigger] old(self)@.aged(now).ordered(),
                    old(self).data_manager_handle,
                    active_client,
                    automatic_prefetch,
                    now,
                    request,
                    final(self)@,
                ),
            final(self).wf(),
            final(self).data_manager_handle == old(self).data_manager_handle,
            final(self).clock == old(self).clock,
    {
        let now: u64 = self.clock.now();
        self.schedule_pop_at(active_client, automatic_prefetch, now)
    }

    /// The stretches of time during which `pid` ran, as they look at `now`.
    pub fn get_history_at(&self, pid: i32, now: u64) -> (history: GetHistoryResult)
        ensures
            history.tells(self@, pid, now),
    {
        match self.clients.get(&pid) {
            None => GetHistoryResult::FailureProcessNotExist,
            Some(client) => {
                let mut entries: Vec<HistoryEntry> = Vec::new();
                let mut i: usize = 0;
                while i < client.history.len()
                    invariant
                        i <= client.history@.len(),
                        entries@.len() == i,
                        forall|k: int|
                            0 <= k < i ==> {
                                let entry = #[trigger] entries@[k];
                                let chunk = client.history@[k];
                                &&& entry.started_ago == since(now, chunk.start)
                                &&& entry.duration_ms == since(chunk.end, chunk.start) as int
                                    / 1000000
                                &&& entry.start_priority == chunk.start_priority
                                &&& entry.end_priority == chunk.end_priority
                                &&& entry.stop_reason@ == chunk.reason@
                            },
                    decreases client.history@.len() - i,
                {
                    let chunk = &client.history[i];
                    entries.push(
                        HistoryEntry {
                            started_ago: super::statistics::time_since(now, chunk.start),
                            duration_ms: super::statistics::time_since(chunk.end, chunk.start)
                                / 1000000,
                            start_priority: chunk.start_priority,
                            end_priority: chunk.end_priority,
                            stop_reason: chunk.reason.clone(),
                        },
                    );
                    i = i + 1;
                }
                GetHistoryResult::Success(entries)
            },
        }
    }

    /// The stretches of time during which `pid` ran, as they look now.
    pub fn get_history(&self, pid: i32) -> (history: GetHistoryResult)
        ensures
            exists|now: u64| #[trigger] history.tells(self@, pid, now),
    {
        let now: u64 = self.clock.now();
        let history = self.get_history_at(pid, now);
        assert(history.tells(self@, pid, now));
        history
    }
}

// Laws.

/// The order of those that wait is one by which a list can be sorted.
pub proof fn lemma_runs_before_is_an_order(clients: Map<i32, ClientStatistics>)
    ensures
        crate::sorting::strict_weak_order(runs_before(clients)),
{
    let before = runs_before(clients);
    assert forall|x: SchedRequest| !#[trigger] before(x, x) by {}
    assert forall|x: SchedRequest, y: SchedRequest, z: SchedRequest| #[trigger]
        before(x, y) && #[trigger] before(y, z) implies before(x, z) by {}
    assert forall|x: SchedRequest, y: SchedRequest, z: SchedRequest|
        !#[trigger] before(x, y) && !#[trigger] before(y, z) implies !before(x, z) by {}
}

/// Whoever gets to run is someone before whom nobody else that waits should run.
pub proof fn law_most_urgent_runs_first(m: QueueModel, i: int)
    requires
        0 < i < m.ordered().sched.len(),
    ensures
        !runs_before(m.clients)(m.ordered().sched[i], m.ordered().sched[0]),
{
    lemma_runs_before_is_an_order(m.clients);
    crate::sorting::lemma_sorted_is_ordered(m.sched, runs_before(m.clients));
}

/// Putting those that wait in order loses none and invents none.
pub proof fn law_order_keeps_requests(m: QueueModel)
    ensures
        m.ordered().sched.to_multiset() == m.sched.to_multiset(),
{
    crate::sorting::lemma_sorted_is_permutation(m.sched, runs_before(m.clients));
}

/// A process that runs makes way only for one that is at least as urgent.
pub proof fn law_less_urgent_never_preempts(m: QueueModel, pid: i32, at: u64)
    requires
        m.wf(),
        m.sched.len() > 0,
        m.sched[0].pid != pid,
        m.clients.contains_key(pid),
        preemption(m, ActiveClientState::Active { pid, since: at }) is AllowPreempt,
    ensures
        m.clients[m.sched[0].pid].priority.spec_level().spec_rank()
            >= m.clients[pid].priority.spec_level().spec_rank(),
{
}

/// Forgetting a process leaves nothing of it: it is unknown, it neither waits nor stops running.
pub proof fn law_forgotten_process_is_gone(m: QueueModel, pid: i32)
    ensures
        !m.without(pid).clients.contains_key(pid),
        forall|i: int|
            0 <= i < m.without(pid).sched.len() ==> (#[trigger] m.without(pid).sched[i]).pid != pid,
        forall|i: int|
            0 <= i < m.without(pid).idle.len() ==> (#[trigger] m.without(pid).idle[i]).pid != pid,
        forall|other: i32|
            other != pid && m.clients.contains_key(other) ==> #[trigger] m.without(
                pid,
            ).clients.contains_key(other) && m.without(pid).clients[other] == m.clients[other],
{
    crate::sorting::lemma_filter_members(m.sched, sched_not_of(pid));
    crate::sorting::lemma_filter_members(m.idle, idle_not_of(pid));
    assert forall|i: int| 0 <= i < m.without(pid).sched.len() implies (#[trigger] m.without(
        pid,
    ).sched[i]).pid != pid by {
        assert(sched_not_of(pid)(m.sched.filter(sched_not_of(pid))[i]));
    }
    assert forall|i: int| 0 <= i < m.without(pid).idle.len() implies (#[trigger] m.without(
        pid,
    ).idle[i]).pid != pid by {
        assert(idle_not_of(pid)(m.idle.filter(idle_not_of(pid))[i]));
    }
}

/// A fixed priority stays as it is, however long the process runs or waits.
pub proof fn law_fixed_priority_stays(client: ClientStatistics, active: bool, peers: nat, now: u64)
    requires
        client.priority is Fixed,
    ensures
        aged_client(client, active, peers, now).priority == client.priority,
{
}

/// A dynamic priority moves by at most one level at a time, and it is never moved down below batch.
pub proof fn law_priority_moves_by_one(client: ClientStatistics, active: bool, peers: nat, now: u64)
    ensures
        ({
            let before = client.priority.spec_level().spec_rank();
            let after = aged_client(client, active, peers, now).priority.spec_level().spec_rank();
            &&& before - 1 <= after <= before + 1
            &&& after < before ==> after >= PriorityLevel::Batch.spec_rank()
        }),
{
}

/// A priority that was fixed and then let go keeps its level, and it cannot be let go twice.
pub proof fn law_fix_then_let_go(
    m: QueueModel,
    pid: i32,
    level: PriorityLevel,
    t: u64,
    u: u64,
    v: u64,
)
    requires
        m.clients.contains_key(pid),
    ensures
        ({
            let fixed = m.with_priority(pid, SetPriorityLevel::SetTo(Priority::Fixed(level)), t).1;
            let (answer, dynamic) = fixed.with_priority(pid, SetPriorityLevel::FixToDynamic, u);
            &&& answer == SetPriorityResponse::Success
            &&& dynamic.clients[pid].priority == (Priority::Dynamic { level, weight: 0 })
            &&& dynamic.with_priority(pid, SetPriorityLevel::FixToDynamic, v) == (
                SetPriorityResponse::FailurePriorityNotFixed,
                dynamic,
            )
        }),
{
}

/// Bytes that a list of moves takes from one place to another.
pub open spec fn moved_between(from: BufferLocation, to: BufferLocation) -> spec_fn(
    PrefetchMsg,
) -> int {
    |m: PrefetchMsg|
        if m.from == from && m.to == to {
            m.size as int
        } else {
            0
        }
}

proof fn lemma_move_if_sum(
    cond: bool,
    pid: i32,
    from: BufferLocation,
    to: BufferLocation,
    size: int,
    f: spec_fn(PrefetchMsg) -> int,
)
    ensures
        sum_of(move_if(cond, pid, from, to, size), f) == if cond {
            f(PrefetchMsg { pid, from, to, size: size as u64 })
        } else {
            0
        },
{
    let s = move_if(cond, pid, from, to, size);
    if cond {
        assert(s.drop_last() =~= Seq::empty());
        assert(sum_of(s.drop_last(), f) == 0);
    }
}

/// The moves made ahead of time fit: no more is moved than there is, and no store gets more than
/// it can hold of the process. And as much is moved as fits.
pub proof fn law_prefetch_moves_fit(
    pid: i32,
    shm: int,
    hostmem: int,
    disk: int,
    shm_capacity: int,
    hostmem_capacity: int,
)
    requires
        0 <= shm,
        0 <= hostmem,
        0 <= disk,
        0 <= shm_capacity <= u64::MAX,
        0 <= hostmem_capacity <= u64::MAX,
    ensures
        ({
            let plan = prefetch_moves(pid, shm, hostmem, disk, shm_capacity, hostmem_capacity);
            let disk_shm = sum_of(
                plan,
                moved_between(BufferLocation::Storage, BufferLocation::Shm),
            );
            let host_shm = sum_of(
                plan,
                moved_between(BufferLocation::HostMem, BufferLocation::Shm),
            );
            let disk_host = sum_of(
                plan,
                moved_between(BufferLocation::Storage, BufferLocation::HostMem),
            );
            &&& 0 <= disk_shm && 0 <= host_shm && 0 <= disk_host
            &&& disk_shm + disk_host <= disk
            &&& host_shm <= hostmem
            &&& shm <= shm_capacity ==> shm + disk_shm + host_shm <= shm_capacity
            &&& hostmem - host_shm <= hostmem_capacity ==> hostmem - host_shm + disk_host
                <= hostmem_capacity
            &&& disk_shm < disk ==> host_shm == 0 && disk_shm == if shm <= shm_capacity {
                shm_capacity - shm
            } else {
                0
            }
            &&& host_shm < hostmem ==> disk_shm + host_shm == if shm <= shm_capacity {
                shm_capacity - shm
            } else {
                0
            }
            &&& disk_shm + disk_host < disk ==> disk_host == if hostmem - host_shm
                <= hostmem_capacity {
                hostmem_capacity - (hostmem - host_shm)
            } else {
                0
            }
            &&& disk_shm + host_shm <= shm_capacity && disk_host <= hostmem_capacity
            &&& shm > shm_capacity ==> disk_shm + host_shm == 0
            &&& hostmem - host_shm > hostmem_capacity ==> disk_host == 0
        }),
{
    let s = BufferLocation::Storage;
    let h = BufferLocation::HostMem;
    let m = BufferLocation::Shm;
    let first = disk > 0 && shm < shm_capacity;
    let a = if first {
        min_of(shm_capacity - shm, disk)
    } else {
        0
    };
    let second = hostmem > 0 && shm + a < shm_capacity;
    let b = if second {
        min_of(shm_capacity - shm - a, hostmem)
    } else {
        0
    };
    let third = disk - a > 0 && hostmem - b < hostmem_capacity;
    let c = min_of(hostmem_capacity - (hostmem - b), disk - a);
    let p = move_if(first, pid, s, m, a);
    let q = move_if(second, pid, h, m, b);
    let r = move_if(third, pid, s, h, c);
    let f = moved_between(s, m);
    let g = moved_between(h, m);
    let k = moved_between(s, h);
    crate::sums::lemma_sum_append(p + q, r, f);
    crate::sums::lemma_sum_append(p, q, f);
    crate::sums::lemma_sum_append(p + q, r, g);
    crate::sums::lemma_sum_append(p, q, g);
    crate::sums::lemma_sum_append(p + q, r, k);
    crate::sums::lemma_sum_append(p, q, k);
    lemma_move_if_sum(first, pid, s, m, a, f);
    lemma_move_if_sum(second, pid, h, m, b, f);
    lemma_move_if_sum(third, pid, s, h, c, f);
    lemma_move_if_sum(first, pid, s, m, a, g);
    lemma_move_if_sum(second, pid, h, m, b, g);
    lemma_move_if_sum(third, pid, s, h, c, g);
    lemma_move_if_sum(first, pid, s, m, a, k);
    lemma_move_if_sum(second, pid, h, m, b, k);
    lemma_move_if_sum(third, pid, s, h, c, k);
}

} // verus!
