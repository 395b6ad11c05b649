//! Calls that are ordered with the work on a stream.
use vstd::prelude::*;
use super::account::CudaResult;

verus! {

/// The largest allocation that is kept for reuse.
pub const MAX_ASYNC_CACHE_SIZE: u64 = 268435456;

/// A grid or block size.
#[derive(Debug, Clone, Copy, PartialEq, Eq, Structural)]
pub struct CudaDim3 {
    pub x: u32,
    pub y: u32,
    pub z: u32,
}

/// From where to where a copy goes.
#[derive(Debug, Clone, Copy, PartialEq, Eq, Structural)]
pub enum CudaMemcpyKind {
    HostToHost,
    HostToDevice,
    DeviceToHost,
    DeviceToDevice,
    Default,
}

impl CudaMemcpyKind {
    /// The code of a kind.
    pub open spec fn code_of(self) -> i32 {
        match self {
            CudaMemcpyKind::HostToHost => 0,
            CudaMemcpyKind::HostToDevice => 1,
            CudaMemcpyKind::DeviceToHost => 2,
            CudaMemcpyKind::DeviceToDevice => 3,
            CudaMemcpyKind::Default => 4,
        }
    }

    /// The code of the kind.
    pub fn code(self) -> (code: i32)
        ensures
            code == self.code_of(),
    {
        match self {
            CudaMemcpyKind::HostToHost => 0,
            CudaMemcpyKind::HostToDevice => 1,
            CudaMemcpyKind::DeviceToHost => 2,
            CudaMemcpyKind::DeviceToDevice => 3,
            CudaMemcpyKind::Default => 4,
        }
    }

    /// The kind with a code.
    pub fn from_code(code: i32) -> (kind: Option<CudaMemcpyKind>)
        ensures
            match kind {
                Some(kind) => kind.code_of() == code,
                None => code < 0 || 4 < code,
            },
    {
        if code == 0 {
            Some(CudaMemcpyKind::HostToHost)
        } else if code == 1 {
            Some(CudaMemcpyKind::HostToDevice)
        } else if code == 2 {
            Some(CudaMemcpyKind::DeviceToHost)
        } else if code == 3 {
            Some(CudaMemcpyKind::DeviceToDevice)
        } else if code == 4 {
            Some(CudaMemcpyKind::Default)
        } else {
            None
        }
    }

    /// The copy crosses between the host and a device.
    pub open spec fn crosses_host(self) -> bool {
        self == CudaMemcpyKind::HostToDevice || self == CudaMemcpyKind::DeviceToHost
    }

    /// Whether the caller may be held up: by every plain copy, and by a copy on a stream that
    /// crosses between the host and a device.
    pub fn may_block(self, on_stream: bool) -> (blocks: bool)
        ensures
            blocks == (!on_stream || self.crosses_host()),
    {
        if !on_stream {
            return true;
        }
        match self {
            CudaMemcpyKind::HostToDevice => true,
            CudaMemcpyKind::DeviceToHost => true,
            _ => false,
        }
    }

    /// The address whose device has to be current during the copy, where there is one.
    pub fn device_side(self, dst: u64, src: u64) -> (ptr: Option<u64>)
        ensures
            ptr == match self {
                CudaMemcpyKind::HostToDevice => Some(dst),
                CudaMemcpyKind::DeviceToHost => Some(src),
                _ => None,
            },
    {
        match self {
            CudaMemcpyKind::HostToDevice => Some(dst),
            CudaMemcpyKind::DeviceToHost => Some(src),
            _ => None,
        }
    }
}

/// What has happened to an allocation on a stream.
#[derive(Debug, Clone, Copy, PartialEq, Eq, Structural)]
pub enum MallocAsyncEvent {
    /// The pool was asked; it may have had a block at some address.
    Pooled(Option<u64>),
    /// The stream was waited for.
    Synchronized(CudaResult),
    /// The allocation was tried.
    Allocated(CudaResult),
    /// The pool gave up as many blocks.
    Released(usize),
    /// The blocks were freed and the allocation was tried again.
    Retried(CudaResult),
}

/// What is to be done next for an allocation on a stream.
#[derive(Debug, Clone, Copy, PartialEq, Eq, Structural)]
pub enum MallocAsyncAction {
    /// The block at the address is the allocation.
    Reuse(u64),
    /// Wait for the stream.
    Synchronize,
    /// Allocate.
    Allocate,
    /// Take back what the pool has on the device.
    ReleasePool,
    /// Free the blocks and allocate once more.
    FreeAndRetry,
    /// The call ends.
    Return(CudaResult),
}

/// What follows an event of an allocation on a stream.
pub open spec fn malloc_async_action(event: MallocAsyncEvent) -> MallocAsyncAction {
    match event {
        MallocAsyncEvent::Pooled(Some(ptr)) => MallocAsyncAction::Reuse(ptr),
        MallocAsyncEvent::Pooled(None) => MallocAsyncAction::Synchronize,
        MallocAsyncEvent::Synchronized(CudaResult::Success) => MallocAsyncAction::Allocate,
        MallocAsyncEvent::Synchronized(other) => MallocAsyncAction::Return(other),
        MallocAsyncEvent::Allocated(CudaResult::OutOfMemory) => MallocAsyncAction::ReleasePool,
        MallocAsyncEvent::Allocated(other) => MallocAsyncAction::Return(other),
        MallocAsyncEvent::Released(blocks) => if blocks == 0 {
            MallocAsyncAction::Return(CudaResult::OutOfMemory)
        } else {
            MallocAsyncAction::FreeAndRetry
        },
        MallocAsyncEvent::Retried(result) => MallocAsyncAction::Return(result),
    }
}

/// What follows an event of an allocation on a stream.
pub fn malloc_async_next(event: MallocAsyncEvent) -> (action: MallocAsyncAction)
    ensures
        action == malloc_async_action(event),
{
    match event {
        MallocAsyncEvent::Pooled(block) => match block {
            Some(ptr) => MallocAsyncAction::Reuse(ptr),
            None => MallocAsyncAction::Synchronize,
        },
        MallocAsyncEvent::Synchronized(result) => match result {
            CudaResult::Success => MallocAsyncAction::Allocate,
            other => MallocAsyncAction::Return(other),
        },
        MallocAsyncEvent::Allocated(result) => match result {
            CudaResult::OutOfMemory => MallocAsyncAction::ReleasePool,
            other => MallocAsyncAction::Return(other),
        },
        MallocAsyncEvent::Released(blocks) => if blocks == 0 {
            MallocAsyncAction::Return(CudaResult::OutOfMemory)
        } else {
            MallocAsyncAction::FreeAndRetry
        },
        MallocAsyncEvent::Retried(result) => MallocAsyncAction::Return(result),
    }
}

/// What has happened to a free on a stream.
#[derive(Debug, Clone, Copy, PartialEq, Eq, Structural)]
pub enum FreeAsyncEvent {
    /// The address was looked up; the size is known where something is allocated there.
    LookedUp(u64, Option<u64>),
    /// An event was created.
    EventCreated(CudaResult),
    /// The event was put behind the work on the stream.
    EventRecorded(CudaResult),
}

/// What is to be done next for a free on a stream.
#[derive(Debug, Clone, Copy, PartialEq, Eq, Structural)]
pub enum FreeAsyncAction {
    /// The call ends.
    Return(CudaResult),
    /// Wait for the stream and free.
    Free,
    /// Destroy the event, wait for the stream and free.
    DestroyEventAndFree,
    /// Create an event.
    CreateEvent,
    /// Put the event behind the work on the stream.
    RecordEvent,
    /// Keep the block for reuse.
    Cache,
}

/// What follows an event of a free on a stream.
pub open spec fn free_async_action(event: FreeAsyncEvent) -> FreeAsyncAction {
    match event {
        FreeAsyncEvent::LookedUp(ptr, size) => if ptr == 0 {
            FreeAsyncAction::Return(CudaResult::Success)
        } else {
            match size {
                None => FreeAsyncAction::Return(CudaResult::InvalidValue),
                Some(size) => if size > MAX_ASYNC_CACHE_SIZE {
                    FreeAsyncAction::Free
                } else {
                    FreeAsyncAction::CreateEvent
                },
            }
        },
        FreeAsyncEvent::EventCreated(result) => if result == CudaResult::Success {
            FreeAsyncAction::RecordEvent
        } else {
            FreeAsyncAction::Free
        },
        FreeAsyncEvent::EventRecorded(result) => if result == CudaResult::Success {
            FreeAsyncAction::Cache
        } else {
            FreeAsyncAction::DestroyEventAndFree
        },
    }
}

/// What follows an event of a free on a stream.
pub fn free_async_next(event: FreeAsyncEvent) -> (action: FreeAsyncAction)
    ensures
        action == free_async_action(event),
{
    match event {
        FreeAsyncEvent::LookedUp(ptr, size) => {
            if ptr == 0 {
                return FreeAsyncAction::Return(CudaResult::Success);
            }
            match size {
                None => FreeAsyncAction::Return(CudaResult::InvalidValue),
                Some(size) => if size > MAX_ASYNC_CACHE_SIZE {
                    FreeAsyncAction::Free
                } else {
                    FreeAsyncAction::CreateEvent
                },
            }
        },
        FreeAsyncEvent::EventCreated(result) => match result {
            CudaResult::Success => FreeAsyncAction::RecordEvent,
            _ => FreeAsyncAction::Free,
        },
        FreeAsyncEvent::EventRecorded(result) => match result {
            CudaResult::Success => FreeAsyncAction::Cache,
            _ => FreeAsyncAction::DestroyEventAndFree,
        },
    }
}

/// An allocation on a stream takes a block of the pool where that has one, and else allocates once
/// the stream is done. It is told that there is not enough memory only after the pool gave
/// everything back. Any other failure is told as it is.
pub proof fn law_pool_is_used_before_failing(event: MallocAsyncEvent, ptr: u64, result: CudaResult)
    ensures
        malloc_async_action(MallocAsyncEvent::Pooled(Some(ptr))) == MallocAsyncAction::Reuse(ptr),
        malloc_async_action(event) is Reuse ==> event is Pooled,
        malloc_async_action(MallocAsyncEvent::Pooled(None)) == MallocAsyncAction::Synchronize,
        malloc_async_action(MallocAsyncEvent::Synchronized(CudaResult::Success))
            == MallocAsyncAction::Allocate,
        malloc_async_action(MallocAsyncEvent::Allocated(CudaResult::OutOfMemory))
            == MallocAsyncAction::ReleasePool,
        malloc_async_action(event) == MallocAsyncAction::FreeAndRetry <==> (event
            matches MallocAsyncEvent::Released(blocks) && blocks > 0),
        malloc_async_action(event) == MallocAsyncAction::Return(CudaResult::OutOfMemory) ==> event
            == MallocAsyncEvent::Released(0) || event == MallocAsyncEvent::Retried(
            CudaResult::OutOfMemory,
        ) || event == MallocAsyncEvent::Synchronized(CudaResult::OutOfMemory),
        malloc_async_action(MallocAsyncEvent::Released(0)) == MallocAsyncAction::Return(
            CudaResult::OutOfMemory,
        ),
        malloc_async_action(event) == MallocAsyncAction::Return(CudaResult::Success) <==> event
            == MallocAsyncEvent::Allocated(CudaResult::Success) || event
            == MallocAsyncEvent::Retried(CudaResult::Success),
        result != CudaResult::Success ==> malloc_async_action(
            MallocAsyncEvent::Synchronized(result),
        ) == MallocAsyncAction::Return(result),
        result != CudaResult::OutOfMemory ==> malloc_async_action(
            MallocAsyncEvent::Allocated(result),
        ) == MallocAsyncAction::Return(result),
        malloc_async_action(MallocAsyncEvent::Retried(result)) == MallocAsyncAction::Return(result),
{
}

/// A free on a stream of nothing succeeds, and of an unknown address fails. A block of at most 256
/// megabytes is kept for reuse, once an event is behind the work on the stream; any other block, or
/// one for which there is no event, is freed.
pub proof fn law_blocks_are_kept_or_freed(event: FreeAsyncEvent, ptr: u64, size: u64)
    requires
        ptr != 0,
    ensures
        forall|known: Option<u64>|
            #[trigger] free_async_action(FreeAsyncEvent::LookedUp(0, known))
                == FreeAsyncAction::Return(CudaResult::Success),
        free_async_action(FreeAsyncEvent::LookedUp(ptr, None)) == FreeAsyncAction::Return(
            CudaResult::InvalidValue,
        ),
        size <= 0x1000_0000 ==> free_async_action(FreeAsyncEvent::LookedUp(ptr, Some(size)))
            == FreeAsyncAction::CreateEvent,
        size > 0x1000_0000 ==> free_async_action(FreeAsyncEvent::LookedUp(ptr, Some(size)))
            == FreeAsyncAction::Free,
        free_async_action(event) == FreeAsyncAction::RecordEvent <==> event
            == FreeAsyncEvent::EventCreated(CudaResult::Success),
        free_async_action(event) == FreeAsyncAction::Cache <==> event
            == FreeAsyncEvent::EventRecorded(CudaResult::Success),
        event is EventCreated && event != FreeAsyncEvent::EventCreated(CudaResult::Success)
            ==> free_async_action(event) == FreeAsyncAction::Free,
        event is EventRecorded && event != FreeAsyncEvent::EventRecorded(CudaResult::Success)
            ==> free_async_action(event) == FreeAsyncAction::DestroyEventAndFree,
{
}

/// The code of a kind leads back to the kind, and no two kinds share one.
pub proof fn law_codes_tell_kinds(a: CudaMemcpyKind, b: CudaMemcpyKind)
    ensures
        0 <= a.code_of() <= 4,
        a.code_of() == b.code_of() ==> a == b,
        a.crosses_host() <==> a.code_of() == 1 || a.code_of() == 2,
        CudaMemcpyKind::HostToHost.code_of() == 0,
        CudaMemcpyKind::HostToDevice.code_of() == 1,
        CudaMemcpyKind::DeviceToHost.code_of() == 2,
        CudaMemcpyKind::DeviceToDevice.code_of() == 3,
{
}

} // verus!
