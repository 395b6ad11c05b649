//! What can go wrong, as the user reads it.
use vstd::prelude::*;
use crate::ids::BufferId;
use crate::text::{push_decimal, push_digits, push_text};

verus! {

/// A fault of the driver of unified memory.
#[derive(Debug)]
pub enum UvmError {
    Assertion(&'static str),
    /// What was called, the code it returned, and the version of the driver.
    DriverError(&'static str, i32, u32),
    /// What was called and what the system said.
    Io(&'static str, String),
}

impl UvmError {
    pub open spec fn text(self) -> Seq<char> {
        match self {
            UvmError::Assertion(what) => "Assertion failed: "@ + what@,
            UvmError::DriverError(what, code, version) => what@ + " failed with error: "@
                + crate::text::decimal(code as int) + ", (version?: "@ + crate::text::digits(
                version as nat,
                10,
            ) + ")"@,
            UvmError::Io(what, e) => what@ + " failed with IO error: "@ + e@,
        }
    }

    pub fn message(&self) -> (text: String)
        ensures
            text@ == self.text(),
    {
        let mut text = String::new();
        match self {
            UvmError::Assertion(what) => {
                push_text(&mut text, "Assertion failed: ");
                push_text(&mut text, what);
            },
            UvmError::DriverError(what, code, version) => {
                push_text(&mut text, what);
                push_text(&mut text, " failed with error: ");
                push_decimal(&mut text, *code as i64);
                push_text(&mut text, ", (version?: ");
                push_digits(&mut text, *version as u64, 10);
                push_text(&mut text, ")");
            },
            UvmError::Io(what, e) => {
                push_text(&mut text, what);
                push_text(&mut text, " failed with IO error: ");
                push_text(&mut text, e.as_str());
            },
        }
        assert(text@ =~= self.text());
        text
    }
}

/// A fault of the buffers.
#[derive(Debug)]
pub enum HybridBufferError {
    MemoryExhausted,
    InvalidInputBuffer,
    NoBufferId(BufferId),
    /// What the system said and what was called.
    IoError(String, String),
    /// What was said of a task that did not finish.
    TaskError(String),
}

impl HybridBufferError {
    pub open spec fn text(self) -> Seq<char> {
        match self {
            HybridBufferError::MemoryExhausted => "Failed to allocate hybrid buffer"@,
            HybridBufferError::InvalidInputBuffer => "Invalid hybrid buffer"@,
            HybridBufferError::NoBufferId(_) => "Invalid BufferId"@,
            HybridBufferError::IoError(e, what) => what@ + " failed with error: "@ + e@,
            HybridBufferError::TaskError(e) => "Tokio task failed: "@ + e@,
        }
    }

    pub fn message(&self) -> (text: String)
        ensures
            text@ == self.text(),
    {
        let mut text = String::new();
        match self {
            HybridBufferError::MemoryExhausted => {
                push_text(&mut text, "Failed to allocate hybrid buffer");
            },
            HybridBufferError::InvalidInputBuffer => {
                push_text(&mut text, "Invalid hybrid buffer");
            },
            HybridBufferError::NoBufferId(_) => {
                push_text(&mut text, "Invalid BufferId");
            },
            HybridBufferError::IoError(e, what) => {
                push_text(&mut text, what.as_str());
                push_text(&mut text, " failed with error: ");
                push_text(&mut text, e.as_str());
            },
            HybridBufferError::TaskError(e) => {
                push_text(&mut text, "Tokio task failed: ");
                push_text(&mut text, e.as_str());
            },
        }
        assert(text@ =~= self.text());
        text
    }
}

/// A fault of the daemon. The second part of most variants is what the system or the driver said.
#[derive(Debug)]
pub enum DaemonError {
    Io(&'static str, String),
    Cuda(&'static str, String),
    Nvml(&'static str, String),
    Config(&'static str, String),
    ConfigValue(&'static str, String),
    HybridBuffer(HybridBufferError),
}

impl DaemonError {
    pub open spec fn text(self) -> Seq<char> {
        match self {
            DaemonError::Io(what, e) => what@ + ": IO error "@ + e@,
            DaemonError::Cuda(what, e) => what@ + ": CUDA error "@ + e@,
            DaemonError::Nvml(what, e) => what@ + ": NVML error "@ + e@,
            DaemonError::Config(what, e) => what@ + ": Config error "@ + e@,
            DaemonError::ConfigValue(what, e) => what@ + ": Config error "@ + e@,
            DaemonError::HybridBuffer(e) => "HybridBuffer: "@ + e.text(),
        }
    }

    pub fn message(&self) -> (text: String)
        ensures
            text@ == self.text(),
    {
        let text = match self {
            DaemonError::Io(what, e) => three_parts(what, ": IO error ", e.as_str()),
            DaemonError::Cuda(what, e) => three_parts(what, ": CUDA error ", e.as_str()),
            DaemonError::Nvml(what, e) => three_parts(what, ": NVML error ", e.as_str()),
            DaemonError::Config(what, e) => three_parts(what, ": Config error ", e.as_str()),
            DaemonError::ConfigValue(what, e) => three_parts(what, ": Config error ", e.as_str()),
            DaemonError::HybridBuffer(e) => {
                let mut text = String::new();
                push_text(&mut text, "HybridBuffer: ");
                push_text(&mut text, e.message().as_str());
                text
            },
        };
        assert(text@ =~= self.text());
        text
    }
}

fn three_parts(a: &str, b: &str, c: &str) -> (text: String)
    ensures
        text@ == a@ + b@ + c@,
{
    let mut text = String::new();
    push_text(&mut text, a);
    push_text(&mut text, b);
    push_text(&mut text, c);
    assert(text@ =~= a@ + b@ + c@);
    text
}

/// A fault of one that controls the daemon.
#[derive(Debug)]
pub enum ClientError {
    ClientRpc(&'static str, String),
    Args(String),
    Io(&'static str, String),
    Nvml(&'static str, String),
}

impl ClientError {
    pub open spec fn text(self) -> Seq<char> {
        match self {
            ClientError::ClientRpc(what, e) => what@ + ": RPC error "@ + e@,
            ClientError::Args(what) => what@ + ": Invalid arguments"@,
            ClientError::Io(what, e) => what@ + ": IO error "@ + e@,
            ClientError::Nvml(what, e) => what@ + ": NVML error "@ + e@,
        }
    }

    pub fn message(&self) -> (text: String)
        ensures
            text@ == self.text(),
    {
        let text = match self {
            ClientError::ClientRpc(what, e) => three_parts(what, ": RPC error ", e.as_str()),
            ClientError::Args(what) => {
                let mut text = String::new();
                push_text(&mut text, what.as_str());
                push_text(&mut text, ": Invalid arguments");
                text
            },
            ClientError::Io(what, e) => three_parts(what, ": IO error ", e.as_str()),
            ClientError::Nvml(what, e) => three_parts(what, ": NVML error ", e.as_str()),
        };
        assert(text@ =~= self.text());
        text
    }
}

/// A fault of either side.
#[derive(Debug)]
pub enum NixieError {
    Daemon(DaemonError),
    Client(ClientError),
}

impl NixieError {
    pub open spec fn text(self) -> Seq<char> {
        match self {
            NixieError::Daemon(e) => "Daemon: "@ + e.text(),
            NixieError::Client(e) => "Client: "@ + e.text(),
        }
    }

    pub fn message(&self) -> (text: String)
        ensures
            text@ == self.text(),
    {
        let mut text = String::new();
        match self {
            NixieError::Daemon(e) => {
                push_text(&mut text, "Daemon: ");
                push_text(&mut text, e.message().as_str());
            },
            NixieError::Client(e) => {
                push_text(&mut text, "Client: ");
                push_text(&mut text, e.message().as_str());
            },
        }
        assert(text@ =~= self.text());
        text
    }
}

/// Why a request to the scheduler failed.
#[derive(Debug)]
pub enum ScheduleError {
    InvalidClient(i32),
    /// What was called, for which process, and what came back.
    RpcError(&'static str, i32, String),
    InvalidPrefetchRequest(String),
    Unavailable(String),
}

impl ScheduleError {
    pub open spec fn text(self) -> Seq<char> {
        match self {
            ScheduleError::InvalidClient(pid) => "Invalid process: "@ + crate::text::decimal(
                pid as int,
            ),
            ScheduleError::RpcError(what, pid, e) => what@ + " Failed to send RPC to "@
                + crate::text::decimal(pid as int) + ": "@ + e@,
            ScheduleError::InvalidPrefetchRequest(why) => "Invalid prefetch request: "@ + why@,
            ScheduleError::Unavailable(what) => "Unavailable resource: "@ + what@,
        }
    }

    pub fn message(&self) -> (text: String)
        ensures
            text@ == self.text(),
    {
        let mut text = String::new();
        match self {
            ScheduleError::InvalidClient(pid) => {
                push_text(&mut text, "Invalid process: ");
                push_decimal(&mut text, *pid as i64);
            },
            ScheduleError::RpcError(what, pid, e) => {
                push_text(&mut text, what);
                push_text(&mut text, " Failed to send RPC to ");
                push_decimal(&mut text, *pid as i64);
                push_text(&mut text, ": ");
                push_text(&mut text, e.as_str());
            },
            ScheduleError::InvalidPrefetchRequest(why) => {
                push_text(&mut text, "Invalid prefetch request: ");
                push_text(&mut text, why.as_str());
            },
            ScheduleError::Unavailable(what) => {
                push_text(&mut text, "Unavailable resource: ");
                push_text(&mut text, what.as_str());
            },
        }
        assert(text@ =~= self.text());
        text
    }
}

} // verus!
