//! Messages between the daemon and those that control it.
use vstd::prelude::*;
use crate::ids::{BufferLocation, GlobalDeviceId, PhysicalMemoryHandleId};
use crate::schedule::priority::Priority;

verus! {

/// Where those that control the daemon reach it.
pub const CONTROL_PATH: &'static str = "\\\\.\\pipe\\nixie-ctl";

/// One physical allocation of a process.
#[derive(Debug, Clone, Copy, PartialEq, Eq, Structural)]
pub struct PhysicalMemoryData {
    pub on_gpu: bool,
    pub handle_idx: PhysicalMemoryHandleId,
    pub size: u32,
}

/// What one process holds, device by device. Each device occurs once.
#[derive(Debug)]
pub struct ProcessResidualData {
    pub pid: i32,
    pub allocations: Vec<(GlobalDeviceId, Vec<PhysicalMemoryData>)>,
}

/// Reads a list of lists as sequences all the way down.
pub open spec fn deep_lists<T>(s: Seq<(GlobalDeviceId, Vec<T>)>) -> Seq<(GlobalDeviceId, Seq<T>)> {
    s.map_values(|p: (GlobalDeviceId, Vec<T>)| (p.0, p.1@))
}

impl ProcessResidualData {
    /// The allocations as sequences.
    pub open spec fn model(self) -> Seq<(GlobalDeviceId, Seq<PhysicalMemoryData>)> {
        deep_lists(self.allocations@)
    }
}

/// A request to move up to `size` bytes of a process between two places.
#[derive(Debug, Clone, Copy, PartialEq, Eq, Structural)]
pub struct PrefetchMsg {
    pub pid: i32,
    pub from: BufferLocation,
    pub to: BufferLocation,
    pub size: u64,
}

/// One allocation of a process: its bytes on the GPU and elsewhere, and what is behind it.
#[derive(Debug)]
pub struct AllocationData {
    pub on_gpu_bytes: u64,
    pub off_gpu_bytes: u64,
    pub physical: Vec<PhysicalMemoryData>,
}

/// What the daemon tells of one process. There is a state as long as the scheduler knows the
/// process.
#[derive(Debug)]
pub struct ProcessMetadata {
    pub pid: i32,
    pub state: Option<String>,
    pub priority: Option<Priority>,
    pub allocations: Vec<(GlobalDeviceId, Vec<AllocationData>)>,
}

/// One block that the daemon stores.
#[derive(Debug, Clone, Copy, PartialEq, Eq, Structural)]
pub struct DataBlockMeta {
    pub device_id: GlobalDeviceId,
    pub size: u64,
}

/// The blocks that the daemon stores for one process.
#[derive(Debug)]
pub struct ProcessDataMeta {
    pub pid: i32,
    pub data_blocks: Vec<DataBlockMeta>,
}

/// What the daemon stores where, and how much it could.
#[derive(Debug)]
pub struct DataManagerMetadata {
    pub shm: Vec<ProcessDataMeta>,
    pub hostmem: Vec<ProcessDataMeta>,
    pub storage: Vec<ProcessDataMeta>,
    pub shm_capacity: u64,
    pub hostmem_capacity: u64,
}

} // verus!
