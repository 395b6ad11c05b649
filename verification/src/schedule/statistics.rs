//! What the scheduler remembers of a process. All times are in nanoseconds.
use vstd::prelude::*;
use super::priority::{initial_priority, Priority, PriorityLevel};

verus! {

/// One stretch of time during which a process ran.
#[derive(Debug)]
pub struct HistoryChunk {
    pub start: u64,
    pub end: u64,
    pub start_priority: PriorityLevel,
    pub end_priority: PriorityLevel,
    /// Why the process stopped.
    pub reason: String,
}

/// How many stretches are remembered.
pub const HISTORY_LEN: usize = 64;

/// `later` less `earlier`, or zero where it is earlier.
pub open spec fn since(later: u64, earlier: u64) -> u64 {
    if later >= earlier {
        (later - earlier) as u64
    } else {
        0
    }
}

pub(crate) fn time_since(later: u64, earlier: u64) -> (d: u64)
    ensures
        d == since(later, earlier),
{
    if later >= earlier {
        later - earlier
    } else {
        0
    }
}

#[derive(Debug)]
pub struct ClientStatistics {
    pub pid: i32,
    pub priority: Priority,
    pub last_message_id: u64,
    /// Since when the process waits to run.
    pub queued_at: Option<u64>,
    /// How long the process ran since its priority changed.
    pub accumulated: u64,
    /// When the priority changed.
    pub priority_updated_at: u64,
    /// Since when the process is idle.
    pub idle_at: Option<u64>,
    /// Up to when the time that the process runs was counted.
    pub active_at: Option<u64>,
    pub history: Vec<HistoryChunk>,
}

impl ClientStatistics {
    /// A process that was never seen before.
    pub open spec fn is_fresh(self, pid: i32, now: u64) -> bool {
        &&& self.pid == pid
        &&& self.priority == initial_priority()
        &&& self.last_message_id == 0
        &&& self.queued_at is None
        &&& self.accumulated == 0
        &&& self.priority_updated_at == now
        &&& self.idle_at == Some(now)
        &&& self.active_at is None
        &&& self.history@.len() == 0
    }

    pub fn new(pid: i32, now: u64) -> (client: Self)
        ensures
            client.is_fresh(pid, now),
    {
        ClientStatistics {
            pid,
            priority: Priority::default_dynamic(),
            last_message_id: 0,
            queued_at: None,
            accumulated: 0,
            priority_updated_at: now,
            idle_at: Some(now),
            active_at: None,
            history: Vec::new(),
        }
    }

    pub fn pid(&self) -> (pid: i32)
        ensures
            pid == self.pid,
    {
        self.pid
    }

    pub fn priority(&self) -> (priority: Priority)
        ensures
            priority == self.priority,
    {
        self.priority
    }

    /// The same process at another priority, which it enters at `now`.
    pub open spec fn at_priority(self, priority: Priority, now: u64) -> ClientStatistics {
        ClientStatistics { priority, accumulated: 0, priority_updated_at: now, ..self }
    }

    pub fn set_priority(&mut self, priority: Priority, now: u64)
        ensures
            *final(self) == old(self).at_priority(priority, now),
    {
        self.priority = priority;
        self.accumulated = 0;
        self.priority_updated_at = now;
    }

    pub fn record_message_id(&mut self, message_id: u64)
        ensures
            *final(self) == (ClientStatistics { last_message_id: message_id, ..*old(self) }),
    {
        self.last_message_id = message_id;
    }

    pub fn set_is_in_schedule_queue(&mut self, queued: bool, now: u64)
        ensures
            *final(self) == (ClientStatistics {
                queued_at: if queued {
                    Some(now)
                } else {
                    None
                },
                ..*old(self)
            }),
    {
        self.queued_at = if queued {
            Some(now)
        } else {
            None
        };
    }

    /// How long the process has waited to run, where it waits.
    pub fn get_time_in_schedule_queue(&self, now: u64) -> (waited: Option<u64>)
        ensures
            waited == match self.queued_at {
                Some(t) => Some(since(now, t)),
                None => None,
            },
    {
        match self.queued_at {
            Some(t) => Some(time_since(now, t)),
            None => None,
        }
    }

    /// The same process as it runs from `now` on.
    pub open spec fn started(self, now: u64) -> ClientStatistics {
        ClientStatistics { active_at: Some(now), idle_at: None, ..self }
    }

    /// The same process as it rests from `now` on.
    pub open spec fn stopped(self, now: u64) -> ClientStatistics {
        ClientStatistics { active_at: None, idle_at: Some(now), ..self.counted(now) }
    }

    /// Notes that the process runs from `now` on.
    pub fn start_running(&mut self, now: u64)
        ensures
            *final(self) == (ClientStatistics {
                active_at: Some(now),
                idle_at: None,
                ..*old(self)
            }),
            *final(self) == old(self).started(now),
    {
        self.active_at = Some(now);
        self.idle_at = None;
    }

    /// Notes that the process no longer runs.
    pub fn stop_running(&mut self, now: u64)
        ensures
            *final(self) == (ClientStatistics {
                active_at: None,
                idle_at: Some(now),
                ..old(self).counted(now)
            }),
            *final(self) == old(self).stopped(now),
    {
        self.update_if_active(now);
        self.active_at = None;
        self.idle_at = Some(now);
    }

    /// The same process with the time that it ran counted up to `now`.
    pub open spec fn counted(self, now: u64) -> ClientStatistics {
        match self.active_at {
            Some(t) => ClientStatistics {
                accumulated: if self.accumulated + since(now, t) <= u64::MAX {
                    (self.accumulated + since(now, t)) as u64
                } else {
                    u64::MAX
                },
                active_at: Some(now),
                ..self
            },
            None => self,
        }
    }

    /// Counts the time that the process ran up to `now`, where it runs.
    pub fn update_if_active(&mut self, now: u64)
        ensures
            *final(self) == old(self).counted(now),
    {
        if let Some(t) = self.active_at {
            self.accumulated = self.accumulated.saturating_add(time_since(now, t));
            self.active_at = Some(now);
        }
    }

    pub fn accumulated_time_in_current_priority(&self) -> (d: u64)
        ensures
            d == self.accumulated,
    {
        self.accumulated
    }

    /// How long the priority has been what it is.
    pub fn priority_upd_since(&self, now: u64) -> (d: u64)
        ensures
            d == since(now, self.priority_updated_at),
    {
        time_since(now, self.priority_updated_at)
    }

    /// How long the process has been idle, where it is.
    pub fn idle_since(&self, now: u64) -> (d: Option<u64>)
        ensures
            d == match self.idle_at {
                Some(t) => Some(since(now, t)),
                None => None,
            },
    {
        match self.idle_at {
            Some(t) => Some(time_since(now, t)),
            None => None,
        }
    }

    /// Moves a dynamic priority down one level, but not below `floor`.
    pub fn decrease_priority(&mut self, floor: Option<PriorityLevel>, now: u64) -> (moved: bool)
        ensures
            moved == old(self).can_move_down(floor),
            *final(self) == old(self).moved_down(floor, now),
    {
        match self.priority {
            Priority::Fixed(_) => false,
            Priority::Dynamic { level, .. } => {
                match floor {
                    Some(f) => if level.rank() <= f.rank() {
                        return false;
                    },
                    None => {},
                }
                match level.lower() {
                    Some(lower) => {
                        self.set_priority(Priority::Dynamic { level: lower, weight: 0 }, now);
                        true
                    },
                    None => false,
                }
            },
        }
    }

    /// Moves a dynamic priority up one level, but not above `ceiling`.
    pub fn increase_priority(&mut self, ceiling: Option<PriorityLevel>, now: u64) -> (moved: bool)
        ensures
            moved == old(self).can_move_up(ceiling),
            *final(self) == old(self).moved_up(ceiling, now),
    {
        match self.priority {
            Priority::Fixed(_) => false,
            Priority::Dynamic { level, .. } => {
                match ceiling {
                    Some(c) => if level.rank() >= c.rank() {
                        return false;
                    },
                    None => {},
                }
                match level.higher() {
                    Some(higher) => {
                        self.set_priority(Priority::Dynamic { level: higher, weight: 0 }, now);
                        true
                    },
                    None => false,
                }
            },
        }
    }

    /// Whether the priority is dynamic and above `floor`.
    pub open spec fn can_move_down(self, floor: Option<PriorityLevel>) -> bool {
        &&& self.priority is Dynamic
        &&& self.priority.spec_level() != PriorityLevel::Background
        &&& floor matches Some(f) ==> self.priority.spec_level().spec_rank() > f.spec_rank()
    }

    /// Whether the priority is dynamic and below `ceiling`.
    pub open spec fn can_move_up(self, ceiling: Option<PriorityLevel>) -> bool {
        &&& self.priority is Dynamic
        &&& self.priority.spec_level() != PriorityLevel::Interactive
        &&& ceiling matches Some(c) ==> self.priority.spec_level().spec_rank() < c.spec_rank()
    }

    /// The same process one level down, where that is allowed.
    pub open spec fn moved_down(self, floor: Option<PriorityLevel>, now: u64) -> ClientStatistics {
        if self.can_move_down(floor) {
            self.at_priority(
                Priority::Dynamic { level: self.priority.spec_level().spec_lower()->0, weight: 0 },
                now,
            )
        } else {
            self
        }
    }

    /// The same process one level up, where that is allowed.
    pub open spec fn moved_up(self, ceiling: Option<PriorityLevel>, now: u64) -> ClientStatistics {
        if self.can_move_up(ceiling) {
            self.at_priority(
                Priority::Dynamic { level: self.priority.spec_level().spec_higher()->0, weight: 0 },
                now,
            )
        } else {
            self
        }
    }

    /// Remembers one more stretch, and forgets the oldest where there are too many.
    pub fn record_run(&mut self, chunk: HistoryChunk)
        requires
            old(self).history@.len() <= HISTORY_LEN,
        ensures
            final(self).history@.len() <= HISTORY_LEN,
            final(self).history@ == if old(self).history@.len() < HISTORY_LEN {
                old(self).history@.push(chunk)
            } else {
                old(self).history@.drop_first().push(chunk)
            },
            final(self).history@ == remembered(old(self).history@, chunk),
            final(self).pid == old(self).pid,
            final(self).priority == old(self).priority,
            final(self).last_message_id == old(self).last_message_id,
            final(self).queued_at == old(self).queued_at,
            final(self).accumulated == old(self).accumulated,
            final(self).priority_updated_at == old(self).priority_updated_at,
            final(self).idle_at == old(self).idle_at,
            final(self).active_at == old(self).active_at,
    {
        if self.history.len() == HISTORY_LEN {
            let ghost before = self.history@;
            let _ = self.history.remove(0);
            assert(self.history@ =~= before.drop_first());
        }
        self.history.push(chunk);
    }
}

/// Runs with one more, without the oldest where there are too many.
pub open spec fn remembered(history: Seq<HistoryChunk>, chunk: HistoryChunk) -> Seq<HistoryChunk> {
    if history.len() < HISTORY_LEN {
        history.push(chunk)
    } else {
        history.drop_first().push(chunk)
    }
}

/// The latest run is remembered last, and those before it in their order: all of them, or the last
/// 63.
pub proof fn law_latest_runs_are_remembered(history: Seq<HistoryChunk>, chunk: HistoryChunk, k: int)
    requires
        history.len() <= 64,
        0 <= k,
    ensures
        ({
            let after = remembered(history, chunk);
            &&& after.last() == chunk
            &&& after.len() == if history.len() < 64 {
                history.len() + 1
            } else {
                64
            }
            &&& k < history.len() && k < 63 ==> after[after.len() - 2 - k] == history[history.len()
                - 1 - k]
        }),
{
}

/// The time that a process runs is counted, however often it is looked at in between: from `start`
/// to `end` it grows by what lies between. Then the process rests. Its priority does not change.
pub proof fn law_running_time_is_counted(client: ClientStatistics, start: u64, mid: u64, end: u64)
    requires
        start <= mid <= end,
        client.accumulated + (end - start) <= u64::MAX,
    ensures
        ({
            let runs = client.started(start);
            let rests = runs.stopped(end);
            &&& runs.active_at == Some(start) && runs.idle_at is None && runs.accumulated
                == client.accumulated
            &&& rests.accumulated == client.accumulated + (end - start)
            &&& rests.idle_at == Some(end) && rests.active_at is None
            &&& rests.priority == client.priority && rests.priority_updated_at
                == client.priority_updated_at && rests.queued_at == client.queued_at && rests.pid
                == client.pid
            &&& runs.counted(mid).stopped(end) == rests
            &&& rests.counted(end) == rests
        }),
{
}

} // verus!
