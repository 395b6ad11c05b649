//! What the scheduler promises of processes that run, wait and rest.
use vstd::prelude::*;
use crate::control::PrefetchMsg;
use crate::ids::{AllocationCapacity, BufferId, BufferLocation};
use crate::migration::store::DataManagerHandle;
use crate::sums::sum_of;
use super::priority::{initial_priority, time_quantum, Priority, PriorityLevel};
use super::queue::{
    aged_client,
    moved_between,
    popped,
    preemption,
    prefetch_plan,
    ActiveClientState,
    GetHistoryResult,
    PreemptionDecision,
    QueueModel,
    ScheduleQueue,
    SetPriorityLevel,
    SetPriorityResponse,
};
use super::request::{
    ActivityUpdate,
    GenericRequest,
    IdleRequest,
    IdleRequestType,
    PrefetchArgs,
    SchedRequest,
};
use super::statistics::ClientStatistics;

verus! {

// Who makes way for whom.

/// The level of a priority, be it fixed or not, counted from the least urgent.
pub open spec fn urgency(priority: Priority) -> int {
    let level = match priority {
        Priority::Fixed(level) => level,
        Priority::Dynamic { level, .. } => level,
    };
    match level {
        PriorityLevel::Background => 0,
        PriorityLevel::Batch => 1,
        PriorityLevel::HighBatch => 2,
        PriorityLevel::LowInteractive => 3,
        PriorityLevel::Interactive => 4,
    }
}

/// Where the process that runs and the one that waits at the front are known and differ, only their
/// levels decide, whether they are fixed or not: a more urgent one takes over at once, one of the
/// same level once the cooldown is over, and a less urgent one does not.
pub proof fn law_urgency_decides(m: QueueModel, pid: i32, since: u64)
    requires
        m.sched.len() > 0,
        m.sched[0].pid != pid,
        m.clients.contains_key(pid),
        m.clients.contains_key(m.sched[0].pid),
    ensures
        ({
            let decision = preemption(m, ActiveClientState::Active { pid, since });
            let waiting = urgency(m.clients[m.sched[0].pid].priority);
            let running = urgency(m.clients[pid].priority);
            &&& waiting > running ==> decision == (PreemptionDecision::AllowPreempt {
                follow_same_priority_cooldown: false,
            })
            &&& waiting == running ==> decision == (PreemptionDecision::AllowPreempt {
                follow_same_priority_cooldown: true,
            })
            &&& waiting < running ==> decision == PreemptionDecision::DenyPreempt
        }),
{
}

/// Nobody stands in the way of the process at the front where nobody runs, or where it is itself
/// the one that runs. And where nobody waits, nobody is held back.
pub proof fn law_free_gpu_is_given_away(m: QueueModel, pid: i32, since: u64)
    ensures
        preemption(m, ActiveClientState::Inactive) == (PreemptionDecision::AllowPreempt {
            follow_same_priority_cooldown: false,
        }),
        m.sched.len() == 0 || m.sched[0].pid == pid ==> preemption(
            m,
            ActiveClientState::Active { pid, since },
        ) == (PreemptionDecision::AllowPreempt { follow_same_priority_cooldown: false }),
{
}

/// A process of which nothing is known neither makes way nor takes over.
pub proof fn law_unknown_processes_are_left_alone(m: QueueModel, pid: i32, since: u64)
    requires
        m.sched.len() > 0,
        m.sched[0].pid != pid,
        !m.clients.contains_key(pid) || !m.clients.contains_key(m.sched[0].pid),
    ensures
        preemption(m, ActiveClientState::Active { pid, since }) == PreemptionDecision::DenyPreempt,
{
}

// What comes next.

/// Reports of processes that stop running go before everything else, in the order in which they
/// came, and then moves that were asked for. Nothing else changes.
pub proof fn law_reports_and_moves_go_first(
    m: QueueModel,
    h: DataManagerHandle,
    active: ActiveClientState,
    automatic_prefetch: bool,
    now: u64,
    request: Option<GenericRequest>,
    after: QueueModel,
)
    requires
        popped(m, h, active, automatic_prefetch, now, request, after),
    ensures
        m.idle.len() > 0 ==> {
            &&& request == Some(GenericRequest::Idle(m.idle[0]))
            &&& seq![m.idle[0]] + after.idle == m.idle
            &&& after.prefetch == m.prefetch && after.sched == m.sched
            &&& after.clients == m.clients && after.last_schedule == m.last_schedule
        },
        m.idle.len() == 0 && m.prefetch.len() > 0 ==> {
            &&& request == Some(GenericRequest::Prefetch(m.prefetch[0]))
            &&& seq![m.prefetch[0]] + after.prefetch == m.prefetch
            &&& after.idle == m.idle && after.sched == m.sched
            &&& after.clients == m.clients && after.last_schedule == m.last_schedule
        },
        after.cooldown_until == m.cooldown_until && after.active == m.active && after.last_reset
            == m.last_reset,
{
    if m.idle.len() > 0 {
        assert(seq![m.idle[0]] + m.idle.drop_first() =~= m.idle);
    } else if m.prefetch.len() > 0 {
        assert(seq![m.prefetch[0]] + m.prefetch.drop_first() =~= m.prefetch);
    }
}

/// Whether the process at the front gets to run, where there are no reports and no moves to turn
/// to. It does so where nobody runs, where it runs already, where it is more urgent than the one
/// that runs, and where it is as urgent and the cooldown is over; in no other case.
pub proof fn law_who_gets_to_run(
    m: QueueModel,
    h: DataManagerHandle,
    active: ActiveClientState,
    automatic_prefetch: bool,
    now: u64,
    request: Option<GenericRequest>,
    after: QueueModel,
)
    requires
        popped(m, h, active, automatic_prefetch, now, request, after),
        m.idle.len() == 0,
        m.prefetch.len() == 0,
        m.sched.len() > 0,
        m.clients.contains_key(m.sched[0].pid),
    ensures
        ({
            let front = m.sched[0].pid;
            let runs = match active {
                ActiveClientState::Inactive => true,
                ActiveClientState::Active { pid, .. } => pid == front || m.clients.contains_key(pid)
                    && (urgency(m.clients[front].priority) > urgency(m.clients[pid].priority)
                    || urgency(m.clients[front].priority) == urgency(m.clients[pid].priority)
                    && now >= m.cooldown_until),
            };
            &&& runs ==> request == Some(GenericRequest::Schedule(m.sched[0]))
            &&& runs ==> seq![m.sched[0]] + after.sched == m.sched
            &&& runs ==> after.clients.dom() == m.clients.dom() && after.clients[front].queued_at
                is None && after.last_schedule == now
            &&& runs ==> forall|other: i32|
                other != front && m.clients.contains_key(other) ==> #[trigger] after.clients[other]
                    == m.clients[other]
            &&& runs ==> after.clients[front].priority == m.clients[front].priority
                && after.clients[front].accumulated == m.clients[front].accumulated
            &&& !runs ==> !(request is Some && request->0 is Schedule) && after.sched == m.sched
                && after.clients == m.clients && after.last_schedule == m.last_schedule
        }),
{
    assert(seq![m.sched[0]] + m.sched.drop_first() =~= m.sched);
    if after == m.without_front(now) {
        assert(after.clients.dom() =~= m.clients.dom());
    }
}

/// Where the process at the front has to wait, its data is moved ahead of time: if that is wanted,
/// once after each process that got to run, and if there is anything to move. Where nobody waits,
/// nothing is moved.
pub proof fn law_waiting_process_is_prepared(
    m: QueueModel,
    h: DataManagerHandle,
    active: ActiveClientState,
    automatic_prefetch: bool,
    now: u64,
    request: Option<GenericRequest>,
    after: QueueModel,
)
    requires
        popped(m, h, active, automatic_prefetch, now, request, after),
        m.idle.len() == 0,
        m.prefetch.len() == 0,
    ensures
        request matches Some(GenericRequest::Prefetch(r)) ==> {
            &&& automatic_prefetch
            &&& m.last_prefetch <= m.last_schedule
            &&& after.last_prefetch == now
            &&& r.time == now
            &&& r.parameter.list@.len() > 0
            &&& m.sched.len() > 0
        },
        ({
            let waits = m.sched.len() > 0 && !(request is Some && request->0 is Schedule);
            let moves = waits && automatic_prefetch && m.last_prefetch <= m.last_schedule
                && prefetch_plan(m.sched[0].pid, h).len() > 0;
            &&& moves ==> (request matches Some(GenericRequest::Prefetch(r)) && r.parameter.list@
                == prefetch_plan(m.sched[0].pid, h))
            &&& waits && !moves ==> request is None && after == m
        }),
        m.sched.len() == 0 ==> request is None && after == m,
        !(request is Some && request->0 is Prefetch) ==> after.last_prefetch == m.last_prefetch,
{
}

/// Those that stepped back come first; among the others and among themselves the more urgent come
/// first, and among those of one level the ones that asked earlier.
pub proof fn law_order_of_waiting(m: QueueModel, i: int, j: int)
    requires
        0 <= i < j < m.ordered().sched.len(),
    ensures
        ({
            let a = m.ordered().sched[i];
            let b = m.ordered().sched[j];
            let urgency_a = urgency(m.clients[a.pid].priority);
            let urgency_b = urgency(m.clients[b.pid].priority);
            &&& b.is_yield ==> a.is_yield
            &&& a.is_yield == b.is_yield ==> urgency_a >= urgency_b
            &&& a.is_yield == b.is_yield && urgency_a == urgency_b ==> a.time <= b.time
        }),
{
    super::queue::lemma_runs_before_is_an_order(m.clients);
    crate::sorting::lemma_sorted_is_ordered(m.sched, super::queue::runs_before(m.clients));
}

/// A cooldown of `d` from `start` on holds an equally urgent process back before it is over, and no
/// longer.
pub proof fn law_cooldown_lasts(
    m: QueueModel,
    h: DataManagerHandle,
    d: u128,
    start: u64,
    pid: i32,
    since: u64,
    now: u64,
    request: Option<GenericRequest>,
    after: QueueModel,
)
    requires
        m.idle.len() == 0,
        m.prefetch.len() == 0,
        m.sched.len() > 0,
        m.sched[0].pid != pid,
        m.clients.contains_key(pid),
        m.clients.contains_key(m.sched[0].pid),
        urgency(m.clients[pid].priority) == urgency(m.clients[m.sched[0].pid].priority),
        popped(
            m.cooling(Some(d), start),
            h,
            ActiveClientState::Active { pid, since },
            false,
            now,
            request,
            after,
        ),
    ensures
        now < start + d ==> request is None,
        now >= start + d ==> request == Some(GenericRequest::Schedule(m.sched[0])),
{
}

// Reports.

/// A process that wants to run waits behind all others from now on. One that steps back stops
/// running as well. One that has nothing to do only stops running.
pub proof fn law_report_is_taken_in(
    m: QueueModel,
    pid: i32,
    args: ActivityUpdate,
    client: ClientStatistics,
    now: u64,
)
    ensures
        ({
            let after = m.pushed(pid, args, client, now);
            let waits = !(args.content is Idle);
            let stops = !(args.content is RequestScheduling);
            &&& waits ==> after.sched.len() == m.sched.len() + 1 && after.sched.drop_last()
                == m.sched && after.sched.last().pid == pid && after.sched.last().time == now
                && after.sched.last().args == args && after.sched.last().is_yield == stops
            &&& !waits ==> after.sched == m.sched
            &&& stops ==> after.idle.len() == m.idle.len() + 1 && after.idle.drop_last() == m.idle
                && after.idle.last().pid == pid && after.idle.last().time == now
                && after.idle.last().request_type == (if waits {
                IdleRequestType::Yield
            } else {
                IdleRequestType::Idle
            })
            &&& !stops ==> after.idle == m.idle
            &&& after.clients.contains_key(pid)
            &&& after.clients[pid].last_message_id == args.message_id
            &&& after.clients[pid].queued_at == (if waits {
                Some(now)
            } else {
                client.queued_at
            })
            &&& after.clients[pid].priority == client.priority
            &&& after.clients[pid].accumulated == client.accumulated
            &&& after.clients[pid].idle_at == client.idle_at
            &&& forall|other: i32|
                other != pid && m.clients.contains_key(other) ==> #[trigger] after.clients[other]
                    == m.clients[other]
            &&& after.prefetch == m.prefetch && after.active == m.active && after.cooldown_until
                == m.cooldown_until
        }),
{
    let after = m.pushed(pid, args, client, now);
    assert(!(args.content is Idle) ==> after.sched.drop_last() =~= m.sched);
    assert(!(args.content is RequestScheduling) ==> after.idle.drop_last() =~= m.idle);
}

/// A report that goes before all others is the first, and the others keep their order.
pub proof fn law_urgent_report_is_first(
    m: QueueModel,
    pid: i32,
    args: ActivityUpdate,
    client: ClientStatistics,
    now: u64,
)
    ensures
        ({
            let after = m.pushed_first(pid, args, client, now);
            &&& args.content is RequestScheduling ==> after.sched.len() == m.sched.len() + 1
                && after.sched.drop_first() == m.sched && after.sched[0].pid == pid
                && after.sched[0].time == now && after.sched[0].args == args
                && !after.sched[0].is_yield && after.idle == m.idle
            &&& args.content is Idle ==> after.idle.len() == m.idle.len() + 1
                && after.idle.drop_first() == m.idle && after.idle[0].pid == pid
                && after.idle[0].time == now && after.idle[0].request_type == IdleRequestType::Idle
                && after.sched == m.sched
            &&& args.content is YieldThenRequestSchedulingAndMem ==> after.sched == m.sched
                && after.idle == m.idle
            &&& after.clients.contains_key(pid)
            &&& after.clients[pid].last_message_id == args.message_id
            &&& after.clients[pid].priority == client.priority
            &&& after.clients[pid].queued_at == (if args.content is RequestScheduling {
                Some(now)
            } else {
                client.queued_at
            })
            &&& forall|other: i32|
                other != pid && m.clients.contains_key(other) ==> #[trigger] after.clients[other]
                    == m.clients[other]
            &&& after.prefetch == m.prefetch
        }),
{
    let after = m.pushed_first(pid, args, client, now);
    assert(args.content is RequestScheduling ==> after.sched.drop_first() =~= m.sched);
    assert(args.content is Idle ==> after.idle.drop_first() =~= m.idle);
}

// Priorities.

/// What a process starts with is dynamic and as urgent as can be. The levels follow each other.
pub proof fn law_levels_follow_each_other(level: PriorityLevel, weight: u32)
    ensures
        urgency(initial_priority()) == 4,
        initial_priority() is Dynamic,
        urgency(Priority::Fixed(level)) == level.spec_rank(),
        urgency(Priority::Dynamic { level, weight }) == level.spec_rank(),
        level.spec_higher() is None <==> urgency(Priority::Fixed(level)) == 4,
        level.spec_lower() is None <==> urgency(Priority::Fixed(level)) == 0,
        level.spec_higher() matches Some(up) ==> urgency(Priority::Fixed(up)) == urgency(
            Priority::Fixed(level),
        ) + 1 && up.spec_lower() == Some(level),
        level.spec_lower() matches Some(down) ==> urgency(Priority::Fixed(down)) == urgency(
            Priority::Fixed(level),
        ) - 1 && down.spec_higher() == Some(level),
{
}

/// A quantum is eight seconds at the most urgent level, and twice as long at each level below.
pub proof fn law_quanta_double(level: PriorityLevel)
    ensures
        time_quantum(PriorityLevel::Interactive) == 8_000_000_000,
        level.spec_lower() matches Some(down) ==> time_quantum(down) == 2 * time_quantum(level),
{
}

/// How long a process has rested: since it is idle, less what counts of the time that it has
/// waited. Among `peers` processes of its level, but at least two, it waits for its turn, and only
/// one part more than these is rest.
pub open spec fn rest(client: ClientStatistics, peers: nat, now: u64) -> int {
    let turns: int = if peers < 2 {
        2
    } else {
        peers as int
    };
    let waited: int = match client.queued_at {
        Some(q) if q <= now => now - q,
        _ => 0,
    };
    match client.idle_at {
        Some(t) if t <= now => now - t - (waited * turns) / (turns + 1),
        _ => 0,
    }
}

/// What aging makes of a process that does not run. Where it has used up its quantum, it moves down
/// one level, but not below batch. Where it is otherwise, its priority is older than two quanta, and
/// it has rested for more than half a quantum and the time that it ran, it moves up one level.
/// Else it stays as it is.
pub proof fn law_rest_moves_up_and_use_moves_down(client: ClientStatistics, peers: nat, now: u64)
    requires
        client.priority is Dynamic,
    ensures
        ({
            let level = client.priority->level;
            let quantum = time_quantum(level);
            let before = urgency(client.priority);
            let after = aged_client(client, false, peers, now);
            let used_up = client.accumulated > quantum;
            let rested = now - client.priority_updated_at > 2 * quantum && client.idle_at is Some
                && rest(client, peers, now) > quantum / 2 + client.accumulated;
            &&& used_up && before > 1 ==> urgency(after.priority) == before - 1
            &&& !used_up && rested && before < 4 ==> urgency(after.priority) == before + 1
            &&& urgency(after.priority) != before ==> after.priority is Dynamic && after.accumulated
                == 0 && after.priority_updated_at == now
            &&& used_up && before <= 1 ==> after == client
            &&& !used_up && !rested ==> after == client
            &&& !used_up && before == 4 ==> after == client
            &&& after.pid == client.pid && after.queued_at == client.queued_at && after.idle_at
                == client.idle_at && after.active_at == client.active_at && after.history
                == client.history && after.last_message_id == client.last_message_id
        }),
{
}

/// What aging makes of the process that runs. The time that it ran is counted. Where that is more
/// than its quantum and its priority is older than ten seconds, it moves down one level, but not
/// below batch.
pub proof fn law_running_moves_down(client: ClientStatistics, peers: nat, now: u64, start: u64)
    requires
        client.active_at == Some(start),
        start <= now,
        client.accumulated + (now - start) <= u64::MAX,
    ensures
        ({
            let level = match client.priority {
                Priority::Dynamic { level, .. } => level,
                Priority::Fixed(level) => level,
            };
            let ran = client.accumulated + (now - start);
            let before = urgency(client.priority);
            let after = aged_client(client, true, peers, now);
            let down = client.priority is Dynamic && before > 1 && ran > time_quantum(level) && now
                - client.priority_updated_at > 10_000_000_000;
            &&& down ==> urgency(after.priority) == before - 1 && after.priority is Dynamic
                && after.accumulated == 0 && after.priority_updated_at == now
            &&& !down ==> after.priority == client.priority && after.accumulated == ran
                && after.priority_updated_at == client.priority_updated_at
            &&& after.active_at == Some(now)
            &&& after.pid == client.pid && after.queued_at == client.queued_at && after.idle_at
                == client.idle_at && after.history == client.history
        }),
{
}

/// The longer a process rests, the higher it gets: one that rests from some time on, neither runs
/// nor waits, and is aged once whenever two quanta and a half have passed, is at the most urgent
/// level after as many rounds as it was below it.
pub proof fn law_resting_leads_to_the_top(client: ClientStatistics, peers: nat, times: Seq<u64>)
    requires
        client.priority is Dynamic,
        client.idle_at is Some,
        client.queued_at is None,
        client.accumulated == 0,
        times.len() == 4 - urgency(client.priority),
        forall|i: int|
            0 <= i < times.len() ==> #[trigger] times[i] > client.idle_at->0 + 128_000_000_000,
        forall|i: int|
            0 <= i < times.len() ==> #[trigger] times[i] > 256_000_000_000 + if i == 0 {
                client.priority_updated_at
            } else {
                times[i - 1]
            },
    ensures
        urgency(aged_often(client, peers, times).priority) == 4,
    decreases times.len(),
{
    if times.len() > 0 {
        let next = aged_client(client, false, peers, times[0]);
        law_rest_moves_up_and_use_moves_down(client, peers, times[0]);
        law_resting_leads_to_the_top(next, peers, times.drop_first());
    }
}

/// A process after it was aged at each of some times without running.
pub open spec fn aged_often(client: ClientStatistics, peers: nat, times: Seq<u64>) -> ClientStatistics
    decreases times.len(),
{
    if times.len() == 0 {
        client
    } else {
        aged_often(aged_client(client, false, peers, times[0]), peers, times.drop_first())
    }
}

/// Aging looks at every process once: at the one that runs as such, and at another one among all of
/// its level. It makes nobody known or unknown and changes nothing else.
pub proof fn law_everyone_is_aged(m: QueueModel, pid: i32, peers: Seq<i32>, now: u64)
    requires
        m.clients.dom().finite(),
        m.clients.contains_key(pid),
        peers.no_duplicates(),
        forall|other: i32| #[trigger]
            peers.contains(other) <==> m.clients.contains_key(other) && urgency(
                m.clients[other].priority,
            ) == urgency(m.clients[pid].priority),
    ensures
        ({
            let after = m.aged(now);
            let runs = match m.active {
                ActiveClientState::Active { pid: active, .. } => active == pid,
                ActiveClientState::Inactive => false,
            };
            &&& after.clients.dom() == m.clients.dom()
            &&& after.clients[pid] == aged_client(m.clients[pid], runs, peers.len(), now)
            &&& after.sched == m.sched && after.idle == m.idle && after.prefetch == m.prefetch
            &&& after.active == m.active && after.cooldown_until == m.cooldown_until
        }),
{
    let level = m.clients[pid].priority.spec_level();
    let at_level = m.clients.dom().filter(
        |other: i32| m.clients[other].priority.spec_level() == level,
    );
    assert(m.aged(now).clients.dom() =~= m.clients.dom());
    assert forall|other: i32| peers.to_set().contains(other) == at_level.contains(other) by {
        assert(peers.to_set().contains(other) == peers.contains(other));
    }
    assert(peers.to_set() =~= at_level);
    peers.unique_seq_to_set();
}

/// Putting priorities back makes every dynamic one as urgent as can be and leaves the fixed ones.
pub proof fn law_reset_lifts_everyone(m: QueueModel, pid: i32, now: u64)
    requires
        m.clients.contains_key(pid),
    ensures
        ({
            let after = m.reset(now);
            &&& after.clients.dom() == m.clients.dom()
            &&& m.clients[pid].priority is Fixed ==> after.clients[pid] == m.clients[pid]
            &&& m.clients[pid].priority is Dynamic ==> after.clients[pid].priority is Dynamic
                && urgency(after.clients[pid].priority) == 4 && after.clients[pid].accumulated == 0
                && after.clients[pid].priority_updated_at == now
            &&& after.sched == m.sched && after.idle == m.idle && after.prefetch == m.prefetch
        }),
{
    assert(m.reset(now).clients.dom() =~= m.clients.dom());
}

/// What a user sets the priority of a process to, it has: any priority can be set, and one that is
/// fixed can be let go, at its level or at the level that a process starts with. Others keep theirs.
pub proof fn law_priority_is_set(m: QueueModel, pid: i32, to: SetPriorityLevel, now: u64)
    ensures
        ({
            let (answer, after) = m.with_priority(pid, to, now);
            let known = m.clients.contains_key(pid);
            let set = known && (to is SetTo || m.clients[pid].priority is Fixed);
            &&& answer == (if !known {
                SetPriorityResponse::FailureProcessNotExist
            } else if !set {
                SetPriorityResponse::FailurePriorityNotFixed
            } else {
                SetPriorityResponse::Success
            })
            &&& !set ==> after == m
            &&& set ==> after.clients.dom() == m.clients.dom()
            &&& set ==> (to matches SetPriorityLevel::SetTo(wanted)
                ==> after.clients[pid].priority == wanted)
            &&& set ==> (to is FixToDynamic ==> after.clients[pid].priority is Dynamic && urgency(
                after.clients[pid].priority,
            ) == urgency(m.clients[pid].priority))
            &&& set ==> (to is UnsetToDefault ==> after.clients[pid].priority is Dynamic && urgency(
                after.clients[pid].priority,
            ) == 4)
            &&& set ==> after.clients[pid].accumulated == 0
                && after.clients[pid].priority_updated_at == now
            &&& forall|other: i32|
                other != pid && m.clients.contains_key(other) ==> #[trigger] after.clients[other]
                    == m.clients[other]
            &&& after.sched == m.sched && after.idle == m.idle && after.prefetch == m.prefetch
        }),
{
    let after = m.with_priority(pid, to, now).1;
    if m.clients.contains_key(pid) {
        assert(after.clients.dom() =~= m.clients.dom());
    }
}

// Moves ahead of time.

/// The bytes that a list of moves takes from one place to another.
pub open spec fn moved(plan: Seq<PrefetchMsg>, from: BufferLocation, to: BufferLocation) -> int {
    sum_of(
        plan,
        |p: PrefetchMsg|
            if p.from == from && p.to == to {
                p.size as int
            } else {
                0
            },
    )
}

/// The bytes of a process in a store.
pub open spec fn bytes_in(list: Seq<(BufferId, AllocationCapacity)>, pid: i32) -> int {
    sum_of(
        list,
        |c: (BufferId, AllocationCapacity)|
            if c.0.pid == pid {
                c.0.size as int
            } else {
                0
            },
    )
}

proof fn lemma_bytes_in(list: Seq<(BufferId, AllocationCapacity)>, pid: i32)
    ensures
        bytes_in(list, pid) == sum_of(list, super::queue::bytes_of(pid)),
        bytes_in(list, pid) >= 0,
    decreases list.len(),
{
    let f = |c: (BufferId, AllocationCapacity)|
        if c.0.pid == pid {
            c.0.size as int
        } else {
            0
        };
    assert(f =~= super::queue::bytes_of(pid));
    if list.len() > 0 {
        lemma_bytes_in(list.drop_last(), pid);
    }
}

proof fn lemma_moved(plan: Seq<PrefetchMsg>, from: BufferLocation, to: BufferLocation)
    ensures
        moved(plan, from, to) == sum_of(plan, moved_between(from, to)),
{
    let f = |p: PrefetchMsg|
        if p.from == from && p.to == to {
            p.size as int
        } else {
            0
        };
    assert(f =~= moved_between(from, to));
}

/// Moves ahead of time bring a process as close to the GPU as there is room: what is in storage
/// goes to shared memory until that is full, then what is in host memory, and the rest of storage
/// goes to host memory until that is full. Nothing of another process is moved, and no move is
/// empty.
pub proof fn law_prefetch_uses_the_room(pid: i32, h: DataManagerHandle)
    ensures
        ({
            let plan = prefetch_plan(pid, h);
            let in_shm = bytes_in(h.shm@, pid);
            let in_host = bytes_in(h.hostmem@, pid);
            let in_storage = bytes_in(h.storage@, pid);
            let storage_to_shm = moved(plan, BufferLocation::Storage, BufferLocation::Shm);
            let host_to_shm = moved(plan, BufferLocation::HostMem, BufferLocation::Shm);
            let storage_to_host = moved(plan, BufferLocation::Storage, BufferLocation::HostMem);
            let shm_room = if h.shm_capacity >= in_shm {
                h.shm_capacity - in_shm
            } else {
                0
            };
            let host_room = if h.hostmem_capacity >= in_host - host_to_shm {
                h.hostmem_capacity - (in_host - host_to_shm)
            } else {
                0
            };
            // What moves fits and is there.
            &&& 0 <= storage_to_shm && 0 <= host_to_shm && 0 <= storage_to_host
            &&& storage_to_shm + host_to_shm <= shm_room
            &&& storage_to_host <= host_room
            &&& storage_to_shm + storage_to_host <= in_storage
            &&& host_to_shm <= in_host
            // What could move does.
            &&& storage_to_shm < in_storage ==> storage_to_shm == shm_room && host_to_shm == 0
            &&& host_to_shm < in_host ==> storage_to_shm + host_to_shm == shm_room
            &&& storage_to_shm + storage_to_host < in_storage ==> storage_to_host == host_room
            // There are no other moves.
            &&& forall|i: int|
                0 <= i < plan.len() ==> {
                    let p = #[trigger] plan[i];
                    &&& p.pid == pid
                    &&& p.size > 0
                    &&& p.from == BufferLocation::Storage && p.to == BufferLocation::Shm || p.from
                        == BufferLocation::HostMem && p.to == BufferLocation::Shm || p.from
                        == BufferLocation::Storage && p.to == BufferLocation::HostMem
                }
        }),
{
    let plan = prefetch_plan(pid, h);
    lemma_bytes_in(h.shm@, pid);
    lemma_bytes_in(h.hostmem@, pid);
    lemma_bytes_in(h.storage@, pid);
    let shm = bytes_in(h.shm@, pid);
    let hostmem = bytes_in(h.hostmem@, pid);
    let disk = bytes_in(h.storage@, pid);
    super::queue::law_prefetch_moves_fit(
        pid,
        shm,
        hostmem,
        disk,
        h.shm_capacity as int,
        h.hostmem_capacity as int,
    );
    lemma_moved(plan, BufferLocation::Storage, BufferLocation::Shm);
    lemma_moved(plan, BufferLocation::HostMem, BufferLocation::Shm);
    lemma_moved(plan, BufferLocation::Storage, BufferLocation::HostMem);
}

/// A priority that is moved down goes to the next lower level, where it is dynamic and above the
/// floor and above background; one that is moved up to the next higher, where it is dynamic and
/// below the ceiling and below interactive. Else it stays.
pub proof fn law_moves_keep_to_their_bounds(
    client: ClientStatistics,
    bound: Option<PriorityLevel>,
    now: u64,
)
    ensures
        ({
            let at = urgency(client.priority);
            let limit = match bound {
                Some(level) => urgency(Priority::Fixed(level)),
                None => -1,
            };
            let down = client.priority is Dynamic && at > 0 && (bound is Some ==> at > limit);
            let up = client.priority is Dynamic && at < 4 && (bound is Some ==> at < limit);
            &&& client.can_move_down(bound) == down
            &&& client.can_move_up(bound) == up
            &&& down ==> urgency(client.moved_down(bound, now).priority) == at - 1
                && client.moved_down(bound, now).priority is Dynamic && client.moved_down(
                bound,
                now,
            ).accumulated == 0 && client.moved_down(bound, now).priority_updated_at == now
            &&& up ==> urgency(client.moved_up(bound, now).priority) == at + 1 && client.moved_up(
                bound,
                now,
            ).priority is Dynamic && client.moved_up(bound, now).accumulated == 0
                && client.moved_up(bound, now).priority_updated_at == now
            &&& !down ==> client.moved_down(bound, now) == client
            &&& !up ==> client.moved_up(bound, now) == client
        }),
{
}

/// A process that was never seen before is as urgent as can be, has not run, does not wait, and
/// rests from now on.
pub proof fn law_new_process(client: ClientStatistics, pid: i32, now: u64)
    requires
        client.is_fresh(pid, now),
    ensures
        client.pid == pid,
        client.priority is Dynamic,
        urgency(client.priority) == 4,
        client.accumulated == 0,
        client.queued_at is None,
        client.active_at is None,
        client.idle_at == Some(now),
        client.priority_updated_at == now,
        client.history@.len() == 0,
{
}

/// Forgetting a process takes away its own requests and nothing else.
pub proof fn law_others_stay_in_line(
    m: QueueModel,
    pid: i32,
    request: SchedRequest,
    report: IdleRequest,
)
    ensures
        m.without(pid).sched.contains(request) <==> m.sched.contains(request) && request.pid != pid,
        m.without(pid).idle.contains(report) <==> m.idle.contains(report) && report.pid != pid,
        m.without(pid).prefetch == m.prefetch,
        m.without(pid).active == m.active,
        m.without(pid).cooldown_until == m.cooldown_until,
{
    let a = super::queue::sched_not_of(pid);
    let b = super::queue::idle_not_of(pid);
    crate::sorting::lemma_filter_members(m.sched, a);
    crate::sorting::lemma_filter_members(m.idle, b);
    if m.sched.contains(request) && request.pid != pid {
        let i = choose|i: int| 0 <= i < m.sched.len() && m.sched[i] == request;
        assert(a(m.sched[i]));
    }
    if m.sched.filter(a).contains(request) {
        let i = choose|i: int| 0 <= i < m.sched.filter(a).len() && m.sched.filter(a)[i] == request;
        assert(a(m.sched.filter(a)[i]));
    }
    if m.idle.contains(report) && report.pid != pid {
        let i = choose|i: int| 0 <= i < m.idle.len() && m.idle[i] == report;
        assert(b(m.idle[i]));
    }
    if m.idle.filter(b).contains(report) {
        let i = choose|i: int| 0 <= i < m.idle.filter(b).len() && m.idle.filter(b)[i] == report;
        assert(b(m.idle.filter(b)[i]));
    }
}

/// What is told of the runs of a process: one entry for each, in order, with how long ago it
/// started, how many whole milliseconds it lasted, and its levels.
pub proof fn law_history_is_told(
    answer: GetHistoryResult,
    m: QueueModel,
    pid: i32,
    now: u64,
    i: int,
)
    requires
        answer.tells(m, pid, now),
    ensures
        answer is FailureProcessNotExist <==> !m.clients.contains_key(pid),
        answer matches GetHistoryResult::Success(entries) ==> {
            let runs = m.clients[pid].history@;
            &&& entries@.len() == runs.len()
            &&& 0 <= i < runs.len() ==> {
                &&& runs[i].start <= now ==> entries@[i].started_ago == now - runs[i].start
                &&& runs[i].start <= runs[i].end ==> entries@[i].duration_ms * 1_000_000
                    <= runs[i].end - runs[i].start < (entries@[i].duration_ms + 1) * 1_000_000
                &&& entries@[i].start_priority == runs[i].start_priority
                &&& entries@[i].end_priority == runs[i].end_priority
                &&& entries@[i].stop_reason@ == runs[i].reason@
            }
        },
{
    if let GetHistoryResult::Success(entries) = answer {
        if 0 <= i < entries@.len() {
            assert(entries@[i].stop_reason@ == m.clients[pid].history@[i].reason@);
        }
    }
}

/// Without a cooldown an equally urgent process takes over at once.
pub proof fn law_no_cooldown(
    m: QueueModel,
    h: DataManagerHandle,
    start: u64,
    active: ActiveClientState,
    now: u64,
    request: Option<GenericRequest>,
    after: QueueModel,
)
    requires
        m.idle.len() == 0,
        m.prefetch.len() == 0,
        m.sched.len() > 0,
        active matches ActiveClientState::Active { pid, .. } && m.sched[0].pid != pid
            && m.clients.contains_key(pid) && m.clients.contains_key(m.sched[0].pid) && urgency(
            m.clients[pid].priority,
        ) == urgency(m.clients[m.sched[0].pid].priority),
        start <= now,
        popped(m.cooling(None, start), h, active, false, now, request, after),
    ensures
        request == Some(GenericRequest::Schedule(m.sched[0])),
{
}

/// Moves that are asked for wait behind those that were asked for before, and are turned to in that
/// order.
pub proof fn law_moves_wait_in_line(m: QueueModel, parameter: PrefetchArgs, now: u64)
    ensures
        ({
            let after = m.asked_to_move(parameter, now);
            &&& after.prefetch.len() == m.prefetch.len() + 1
            &&& after.prefetch.drop_last() == m.prefetch
            &&& after.prefetch.last().parameter == parameter
            &&& after.prefetch.last().time == now
            &&& after.sched == m.sched && after.idle == m.idle && after.clients == m.clients
        }),
{
    assert(m.asked_to_move(parameter, now).prefetch.drop_last() =~= m.prefetch);
}

/// The state of the scheduler is read in full.
pub proof fn law_scheduler_is_read_in_full(queue: ScheduleQueue)
    ensures
        queue@.sched == queue.sched_req@,
        queue@.idle == queue.idle_req_queue@,
        queue@.prefetch == queue.prefetch_queue@,
        queue@.clients == queue.clients@,
        queue@.cooldown_until == queue.cooldown_until,
        queue@.active == queue.active_client,
        queue@.last_reset == queue.last_mlfq_reset_timer,
        queue@.last_prefetch == queue.last_auto_prefetch_pop,
        queue@.last_schedule == queue.last_schedule_pop,
{
}

/// Taking a report in knows the process as it was known, or as a new one. Every process that waits
/// is known, under its own number.
pub proof fn law_reporting_process_is_known(
    m: QueueModel,
    pid: i32,
    args: ActivityUpdate,
    client: ClientStatistics,
    now: u64,
    i: int,
)
    requires
        m.wf(),
        m.knows(pid, client, now),
    ensures
        m.clients.contains_key(pid) ==> client == m.clients[pid],
        !m.clients.contains_key(pid) ==> client.is_fresh(pid, now),
        ({
            let after = m.pushed(pid, args, client, now);
            0 <= i < after.sched.len() ==> after.clients.contains_key(after.sched[i].pid)
                && after.clients[after.sched[i].pid].pid == after.sched[i].pid
        }),
{
    super::queue::lemma_pushed_wf(m, pid, args, client, now);
}

} // verus!
