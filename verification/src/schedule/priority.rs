//! Priorities and the times that go with them. All times are in nanoseconds.
use vstd::prelude::*;

verus! {

/// How soon a process should run, the least urgent first.
#[derive(Debug, Clone, Copy, PartialEq, Eq, PartialOrd, Ord, Hash, Structural)]
pub enum PriorityLevel {
    Background,
    Batch,
    HighBatch,
    LowInteractive,
    Interactive,
}

impl PriorityLevel {
    /// The place among the levels, the least urgent at zero.
    pub open spec fn spec_rank(self) -> int {
        match self {
            PriorityLevel::Background => 0,
            PriorityLevel::Batch => 1,
            PriorityLevel::HighBatch => 2,
            PriorityLevel::LowInteractive => 3,
            PriorityLevel::Interactive => 4,
        }
    }

    /// The place among the levels, the least urgent at zero.
    pub fn rank(self) -> (rank: u8)
        ensures
            rank == self.spec_rank(),
    {
        match self {
            PriorityLevel::Background => 0,
            PriorityLevel::Batch => 1,
            PriorityLevel::HighBatch => 2,
            PriorityLevel::LowInteractive => 3,
            PriorityLevel::Interactive => 4,
        }
    }

    /// The next less urgent level.
    pub open spec fn spec_lower(self) -> Option<PriorityLevel> {
        match self {
            PriorityLevel::Background => None,
            PriorityLevel::Batch => Some(PriorityLevel::Background),
            PriorityLevel::HighBatch => Some(PriorityLevel::Batch),
            PriorityLevel::LowInteractive => Some(PriorityLevel::HighBatch),
            PriorityLevel::Interactive => Some(PriorityLevel::LowInteractive),
        }
    }

    /// The next less urgent level.
    pub fn lower(self) -> (level: Option<PriorityLevel>)
        ensures
            level == self.spec_lower(),
    {
        match self {
            PriorityLevel::Background => None,
            PriorityLevel::Batch => Some(PriorityLevel::Background),
            PriorityLevel::HighBatch => Some(PriorityLevel::Batch),
            PriorityLevel::LowInteractive => Some(PriorityLevel::HighBatch),
            PriorityLevel::Interactive => Some(PriorityLevel::LowInteractive),
        }
    }

    /// The next more urgent level.
    pub open spec fn spec_higher(self) -> Option<PriorityLevel> {
        match self {
            PriorityLevel::Background => Some(PriorityLevel::Batch),
            PriorityLevel::Batch => Some(PriorityLevel::HighBatch),
            PriorityLevel::HighBatch => Some(PriorityLevel::LowInteractive),
            PriorityLevel::LowInteractive => Some(PriorityLevel::Interactive),
            PriorityLevel::Interactive => None,
        }
    }

    /// The next more urgent level.
    pub fn higher(self) -> (level: Option<PriorityLevel>)
        ensures
            level == self.spec_higher(),
    {
        match self {
            PriorityLevel::Background => Some(PriorityLevel::Batch),
            PriorityLevel::Batch => Some(PriorityLevel::HighBatch),
            PriorityLevel::HighBatch => Some(PriorityLevel::LowInteractive),
            PriorityLevel::LowInteractive => Some(PriorityLevel::Interactive),
            PriorityLevel::Interactive => None,
        }
    }

    /// The name as it is shown.
    pub open spec fn spec_name(self) -> Seq<char> {
        match self {
            PriorityLevel::Background => "Background"@,
            PriorityLevel::Batch => "Batch"@,
            PriorityLevel::HighBatch => "HighBatch"@,
            PriorityLevel::LowInteractive => "LowInteractive"@,
            PriorityLevel::Interactive => "Interactive"@,
        }
    }

    /// The name as it is shown.
    pub fn name(self) -> (name: &'static str)
        ensures
            name@ == self.spec_name(),
    {
        match self {
            PriorityLevel::Background => "Background",
            PriorityLevel::Batch => "Batch",
            PriorityLevel::HighBatch => "HighBatch",
            PriorityLevel::LowInteractive => "LowInteractive",
            PriorityLevel::Interactive => "Interactive",
        }
    }
}

/// The priority of a process.
#[derive(Debug, Clone, Copy, PartialEq, Eq, Structural)]
pub enum Priority {
    /// Moves between the levels as the process runs and waits.
    Dynamic { level: PriorityLevel, weight: u32 },
    /// Stays as it was set.
    Fixed(PriorityLevel),
}

impl Priority {
    pub open spec fn spec_level(self) -> PriorityLevel {
        match self {
            Priority::Dynamic { level, .. } => level,
            Priority::Fixed(level) => level,
        }
    }

    pub fn level(self) -> (level: PriorityLevel)
        ensures
            level == self.spec_level(),
    {
        match self {
            Priority::Dynamic { level, .. } => level,
            Priority::Fixed(level) => level,
        }
    }

    /// What a process starts with.
    pub fn default_dynamic() -> (priority: Priority)
        ensures
            priority == initial_priority(),
    {
        Priority::Dynamic { level: PriorityLevel::Interactive, weight: 0 }
    }
}

/// What a process starts with.
pub open spec fn initial_priority() -> Priority {
    Priority::Dynamic { level: PriorityLevel::Interactive, weight: 0 }
}

/// A second.
pub const SECOND: u64 = 1000000000;

/// How long a process may run at its level before it is moved down.
pub open spec fn time_quantum(level: PriorityLevel) -> int {
    match level {
        PriorityLevel::Interactive => 8 * SECOND,
        PriorityLevel::LowInteractive => 16 * SECOND,
        PriorityLevel::HighBatch => 32 * SECOND,
        PriorityLevel::Batch => 64 * SECOND,
        PriorityLevel::Background => 128 * SECOND,
    }
}

/// How long a process may run at its level before it is moved down.
pub fn priority_level_to_time_quantum(level: PriorityLevel) -> (quantum: u64)
    ensures
        quantum == time_quantum(level),
        quantum <= 128 * SECOND,
{
    match level {
        PriorityLevel::Interactive => 8 * SECOND,
        PriorityLevel::LowInteractive => 16 * SECOND,
        PriorityLevel::HighBatch => 32 * SECOND,
        PriorityLevel::Batch => 64 * SECOND,
        PriorityLevel::Background => 128 * SECOND,
    }
}

/// How long a process may run at its level before another may take its place: half as long as it
/// takes to be moved down.
pub fn priority_level_to_cooldown(level: PriorityLevel) -> (cooldown: u64)
    ensures
        2 * cooldown == time_quantum(level),
{
    match level {
        PriorityLevel::Interactive => 4 * SECOND,
        PriorityLevel::LowInteractive => 8 * SECOND,
        PriorityLevel::HighBatch => 16 * SECOND,
        PriorityLevel::Batch => 32 * SECOND,
        PriorityLevel::Background => 64 * SECOND,
    }
}

pub open spec fn max_of(a: int, b: int) -> int {
    if a >= b {
        a
    } else {
        b
    }
}

/// How long it takes to move `mb` megabytes: one and a half times what sixteen gigabytes a second
/// would take, to the nearest nanosecond, halves to the even one.
pub open spec fn migration_time(mb: u64) -> int {
    // mb / 1024 / 16 * 1.5 seconds are mb * 5859375 / 64 nanoseconds
    let scaled = mb * 5859375;
    let whole = scaled / 64;
    let part = scaled % 64;
    if part > 32 || part == 32 && whole % 2 == 1 {
        whole + 1
    } else {
        whole
    }
}

/// How long a process that was just brought in may stay: the longest of twice the time that the
/// move took, the configured time, and the time quantum of its level.
pub open spec fn cooldown_time(mb: u64, config: Option<u64>, priority: Priority) -> int {
    let configured = match config {
        Some(d) => d as int,
        None => 0,
    };
    max_of(max_of(configured, 2 * migration_time(mb)), time_quantum(priority.spec_level()))
}

/// How long it takes to move `mb` megabytes.
pub fn migration_nanos(mb: u64) -> (nanos: u128)
    ensures
        nanos == migration_time(mb),
        nanos < 0x1_0000_0000_0000_0000_0000_0000,
{
    let scaled: u128 = mb as u128 * 5859375;
    let whole: u128 = scaled / 64;
    let part: u128 = scaled % 64;
    if part > 32 || part == 32 && whole % 2 == 1 {
        whole + 1
    } else {
        whole
    }
}

/// The time to stay is at least each of the times that it is made from, and it is one of them.
pub proof fn law_cooldown_is_the_longest(mb: u64, config: Option<u64>, priority: Priority)
    ensures
        ({
            let c = cooldown_time(mb, config, priority);
            &&& c >= 2 * migration_time(mb)
            &&& c >= time_quantum(priority.spec_level())
            &&& config matches Some(d) ==> c >= d
            &&& c == 2 * migration_time(mb) || c == time_quantum(priority.spec_level()) || config
                == Some(c as u64)
        }),
{
}

/// A more urgent level has a shorter quantum.
pub proof fn law_urgent_levels_have_short_quanta(a: PriorityLevel, b: PriorityLevel)
    requires
        a.spec_rank() > b.spec_rank(),
    ensures
        time_quantum(a) < time_quantum(b),
{
}

/// Moving data takes a second and a half for every sixteen gigabytes, to the nearest nanosecond,
/// and to the even one where two are as near. Moving more never takes less.
pub proof fn law_moving_takes_its_time(mb: u64, more: u64)
    ensures
        -16384 <= 32768 * migration_time(mb) - 3_000_000_000 * mb <= 16384,
        32768 * migration_time(mb) - 3_000_000_000 * mb == 16384 || 32768 * migration_time(mb)
            - 3_000_000_000 * mb == -16384 ==> migration_time(mb) % 2 == 0,
        mb <= more ==> migration_time(mb) <= migration_time(more),
        migration_time(16384) == 1_500_000_000,
{
    let scaled = mb * 5859375;
    assert(scaled == 64 * (scaled / 64) + scaled % 64);
    assert(-32 <= 64 * migration_time(mb) - scaled <= 32);
    assert(1_500_000_000 * mb == 256 * scaled);
}

/// A process that was just brought in stays at least as long as its quantum, as twice the time that
/// moving it took, and as the user wants; and no longer than the longest of these. A process of a
/// less urgent level never stays shorter.
pub proof fn law_stay_of_a_process(mb: u64, config: Option<u64>, a: Priority, b: Priority)
    requires
        a.spec_level().spec_rank() >= b.spec_level().spec_rank(),
    ensures
        cooldown_time(mb, config, a) <= cooldown_time(mb, config, b),
        mb == 0 && config is None ==> cooldown_time(mb, config, a) == time_quantum(a.spec_level()),
        forall|d: u64|
            d > 2 * migration_time(mb) && d > time_quantum(a.spec_level()) ==> #[trigger]
                cooldown_time(mb, Some(d), a) == d,
{
}

} // verus!
