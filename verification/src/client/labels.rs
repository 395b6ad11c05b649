//! Short texts that are shown of processes.
use vstd::prelude::*;
use crate::schedule::priority::{Priority, PriorityLevel};
use crate::schedule::queue::SetPriorityResponse;
use crate::text::{push_digits, push_text};

verus! {

/// A priority as it is shown: a level that can move with its weight, a fixed one marked as such.
pub open spec fn priority_text(priority: Option<Priority>) -> Seq<char> {
    match priority {
        Some(Priority::Dynamic { level, weight }) => level.spec_name() + "/"@
            + crate::text::digits(weight as nat, 10),
        Some(Priority::Fixed(level)) => level.spec_name() + "[F]"@,
        None => "N/A"@,
    }
}

/// A priority as it is shown.
pub fn priority_label(priority: Option<Priority>) -> (text: String)
    ensures
        text@ == priority_text(priority),
{
    let mut text = String::new();
    match priority {
        Some(Priority::Dynamic { level, weight }) => {
            push_text(&mut text, level.name());
            push_text(&mut text, "/");
            push_digits(&mut text, weight as u64, 10);
        },
        Some(Priority::Fixed(level)) => {
            push_text(&mut text, level.name());
            push_text(&mut text, "[F]");
        },
        None => {
            push_text(&mut text, "N/A");
        },
    }
    assert(text@ =~= priority_text(priority));
    text
}

/// The priorities of a stretch of time as they are shown.
pub open spec fn change_text(start: PriorityLevel, end: PriorityLevel) -> Seq<char> {
    if start == end {
        "Priority: "@ + start.spec_name()
    } else {
        "Priority: "@ + start.spec_name() + " -> "@ + end.spec_name()
    }
}

/// The priorities of a stretch of time as they are shown.
pub fn change_label(start: PriorityLevel, end: PriorityLevel) -> (text: String)
    ensures
        text@ == change_text(start, end),
{
    let mut text = String::new();
    push_text(&mut text, "Priority: ");
    push_text(&mut text, start.name());
    if start != end {
        push_text(&mut text, " -> ");
        push_text(&mut text, end.name());
    }
    assert(text@ =~= change_text(start, end));
    text
}

/// What is said of a change of priority, where an answer came.
pub open spec fn response_text(response: Option<SetPriorityResponse>) -> Seq<char> {
    match response {
        Some(SetPriorityResponse::Success) => "Priority set successfully"@,
        Some(SetPriorityResponse::FailureProcessNotExist) =>
            "Failed to set priority: Process Not Exist"@,
        Some(SetPriorityResponse::FailurePriorityNotFixed) =>
            "Failed to set priority: Priority Not Fixed"@,
        None => "Failed to set priority: Unknown Error"@,
    }
}

/// What is said of a change of priority, where an answer came.
pub fn response_label(response: Option<SetPriorityResponse>) -> (text: &'static str)
    ensures
        text@ == response_text(response),
{
    match response {
        Some(SetPriorityResponse::Success) => "Priority set successfully",
        Some(SetPriorityResponse::FailureProcessNotExist) =>
            "Failed to set priority: Process Not Exist",
        Some(SetPriorityResponse::FailurePriorityNotFixed) =>
            "Failed to set priority: Priority Not Fixed",
        None => "Failed to set priority: Unknown Error",
    }
}

} // verus!
