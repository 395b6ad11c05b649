//! What the log shows.
use vstd::prelude::*;
use crate::text::{push_padded, push_text};

verus! {

/// How much a line of the log matters.
#[derive(Debug, Clone, Copy, PartialEq, Eq, Structural)]
pub enum Level {
    Trace,
    Debug,
    Info,
    Warn,
    Error,
}

/// Lets exactly the lines of the given levels through.
#[derive(Debug)]
pub struct ExactLevelFilter {
    pub level: Vec<Level>,
}

impl ExactLevelFilter {
    pub fn new(level: Vec<Level>) -> (filter: Self)
        ensures
            filter.level@ == level@,
    {
        ExactLevelFilter { level }
    }

    /// Whether a line of level `level` gets through.
    pub fn enabled(&self, level: Level) -> (enabled: bool)
        ensures
            enabled == self.level@.contains(level),
    {
        let mut i: usize = 0;
        while i < self.level.len()
            invariant
                i <= self.level@.len(),
                forall|k: int| 0 <= k < i ==> self.level@[k] != level,
            decreases self.level@.len() - i,
        {
            if self.level[i] == level {
                assert(self.level@[i as int] == level);
                return true;
            }
            i = i + 1;
        }
        false
    }
}

/// Writes the time of day in front of a line.
#[derive(Debug, Clone, Copy, PartialEq, Eq, Structural)]
pub struct SystemTime;

/// `hh:mm:ss.mmm`.
pub open spec fn time_of_day(hour: u32, minute: u32, second: u32, millis: u32) -> Seq<char> {
    crate::text::padded(crate::text::digits((hour % 24) as nat, 10), 2) + ":"@
        + crate::text::padded(crate::text::digits(minute as nat, 10), 2) + ":"@
        + crate::text::padded(crate::text::digits(second as nat, 10), 2) + "."@
        + crate::text::padded(crate::text::digits(millis as nat, 10), 3)
}

impl SystemTime {
    /// The time of day as it stands in the log.
    pub fn format_time(&self, hour: u32, minute: u32, second: u32, millis: u32) -> (text: String)
        ensures
            text@ == time_of_day(hour, minute, second, millis),
    {
        let mut text = String::new();
        push_padded(&mut text, (hour % 24) as u64, 10, 2);
        push_text(&mut text, ":");
        push_padded(&mut text, minute as u64, 10, 2);
        push_text(&mut text, ":");
        push_padded(&mut text, second as u64, 10, 2);
        push_text(&mut text, ".");
        push_padded(&mut text, millis as u64, 10, 3);
        assert(text@ =~= time_of_day(hour, minute, second, millis));
        text
    }
}

} // verus!
