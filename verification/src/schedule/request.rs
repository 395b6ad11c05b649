//! What processes and users ask of the scheduler.
use vstd::prelude::*;
use crate::control::PrefetchMsg;
use crate::ids::ProcessLocalDeviceId;

verus! {

/// The memory that a process wants on each of its devices.
#[derive(Debug)]
pub struct MemoryRequest {
    pub mem_req: Vec<(ProcessLocalDeviceId, Vec<u64>)>,
}

/// What a process reports of itself.
#[derive(Debug)]
pub enum ActivityUpdateContent {
    /// It has nothing to do.
    Idle,
    /// It wants to run.
    RequestScheduling,
    /// It steps back until it gets memory.
    YieldThenRequestSchedulingAndMem { memory_request: MemoryRequest },
}

/// A report with its number.
#[derive(Debug)]
pub struct ActivityUpdate {
    pub message_id: u64,
    pub content: ActivityUpdateContent,
}

/// A process that wants to run.
#[derive(Debug)]
pub struct SchedRequest {
    pub pid: i32,
    pub args: ActivityUpdate,
    pub time: u64,
    /// Whether the process stepped back for it.
    pub is_yield: bool,
}

#[derive(Debug, Clone, Copy, PartialEq, Eq, Structural)]
pub enum IdleRequestType {
    Idle,
    Yield,
}

/// A process that stops running.
#[derive(Debug, Clone, Copy, PartialEq, Eq, Structural)]
pub struct IdleRequest {
    pub pid: i32,
    pub time: u64,
    pub request_type: IdleRequestType,
}

/// Moves to be made ahead of time.
#[derive(Debug)]
pub struct PrefetchArgs {
    pub list: Vec<PrefetchMsg>,
    /// Whether someone waits for the result.
    pub rx_used: bool,
}

#[derive(Debug)]
pub struct PrefetchRequest {
    pub time: u64,
    pub parameter: PrefetchArgs,
}

/// What the scheduler turns to next.
#[derive(Debug)]
pub enum GenericRequest {
    Idle(IdleRequest),
    Schedule(SchedRequest),
    Prefetch(PrefetchRequest),
}

impl GenericRequest {
    /// The process that the request is about.
    pub fn pid(&self) -> (pid: Option<i32>)
        ensures
            pid == match self {
                GenericRequest::Idle(req) => Some(req.pid),
                GenericRequest::Schedule(req) => Some(req.pid),
                GenericRequest::Prefetch(_) => None,
            },
    {
        match self {
            GenericRequest::Idle(req) => Some(req.pid),
            GenericRequest::Schedule(req) => Some(req.pid),
            GenericRequest::Prefetch(_) => None,
        }
    }

    /// What to call the request.
    pub fn req_type(&self) -> (name: &'static str)
        ensures
            name@ == match self {
                GenericRequest::Idle(_) => "Idle"@,
                GenericRequest::Schedule(_) => "Schedule"@,
                GenericRequest::Prefetch(_) => "Prefetch"@,
            },
    {
        match self {
            GenericRequest::Idle(_) => "Idle",
            GenericRequest::Schedule(_) => "Schedule",
            GenericRequest::Prefetch(_) => "Prefetch",
        }
    }
}

} // verus!
