//! A migration task: which buffers go where.
use vstd::prelude::*;
use crate::control::deep_lists;
use crate::ids::{BufferId, BufferLocation, GlobalDeviceId, PhysicalMemoryHandleId};
use super::store::{DataManagerHandle, LocationMap};

verus! {

/// One buffer that crosses PCIe.
#[derive(Debug, Clone, Copy, PartialEq, Eq, Structural)]
pub struct MigrationSpecEntry {
    pub size: u32,
    pub handle_idx: PhysicalMemoryHandleId,
    /// When true, the buffer is on the GPU or in shared memory.
    pub ready_for_pcie_xfer: bool,
}

impl MigrationSpecEntry {
    /// The buffer that the entry stands for.
    pub open spec fn buffer(self, pid: i32, device_id: GlobalDeviceId) -> BufferId {
        BufferId { pid, device_id, block_id: self.handle_idx, size: self.size }
    }

    pub fn to_buffer_id(&self, pid: i32, device_id: GlobalDeviceId) -> (id: BufferId)
        ensures
            id == self.buffer(pid, device_id),
    {
        BufferId { pid, device_id, block_id: self.handle_idx, size: self.size }
    }
}

/// The entries of one process, device by device.
#[derive(Debug)]
pub struct MigrationSpec {
    pub device_map: Vec<(GlobalDeviceId, Vec<MigrationSpecEntry>)>,
}

impl View for MigrationSpec {
    type V = Seq<(GlobalDeviceId, Seq<MigrationSpecEntry>)>;

    open spec fn view(&self) -> Seq<(GlobalDeviceId, Seq<MigrationSpecEntry>)> {
        deep_lists(self.device_map@)
    }
}

/// A process and its entries, as sequences.
pub type SpecModel = (i32, Seq<(GlobalDeviceId, Seq<MigrationSpecEntry>)>);

/// Reads a list of processes with their entries as sequences.
pub open spec fn deep_specs(s: Seq<(i32, MigrationSpec)>) -> Seq<SpecModel> {
    s.map_values(|p: (i32, MigrationSpec)| (p.0, p.1@))
}

/// What a task moves, as sequences.
#[verifier::ext_equal]
pub struct TaskModel {
    pub out_from_gpu: Seq<SpecModel>,
    pub into_gpu: Option<SpecModel>,
    pub storage_to_shm: Seq<BufferId>,
    pub hostmem_to_shm: Seq<BufferId>,
    pub shm_to_backend: Seq<(BufferId, BufferLocation)>,
    pub storage_to_hostmem: Seq<BufferId>,
    pub hostmem_to_storage: Seq<BufferId>,
}

/// Everything that one migration moves.
#[derive(Debug)]
pub struct DataMigrationTask {
    /// What leaves the GPU, process by process.
    pub out_from_gpu: Vec<(i32, MigrationSpec)>,
    /// What enters the GPU.
    pub into_gpu: Option<(i32, MigrationSpec)>,
    pub storage_to_shm: Vec<BufferId>,
    pub hostmem_to_shm: Vec<BufferId>,
    pub shm_to_backend: LocationMap,
    pub storage_to_hostmem: Vec<BufferId>,
    pub hostmem_to_storage: Vec<BufferId>,
    pub data_manager: DataManagerHandle,
}

impl View for DataMigrationTask {
    type V = TaskModel;

    open spec fn view(&self) -> TaskModel {
        TaskModel {
            out_from_gpu: deep_specs(self.out_from_gpu@),
            into_gpu: match self.into_gpu {
                Some(p) => Some((p.0, p.1@)),
                None => None,
            },
            storage_to_shm: self.storage_to_shm@,
            hostmem_to_shm: self.hostmem_to_shm@,
            shm_to_backend: self.shm_to_backend@,
            storage_to_hostmem: self.storage_to_hostmem@,
            hostmem_to_storage: self.hostmem_to_storage@,
        }
    }
}

impl DataMigrationTask {
    pub fn new(
        out_from_gpu: Vec<(i32, MigrationSpec)>,
        into_gpu: Option<(i32, MigrationSpec)>,
        storage_to_shm: Vec<BufferId>,
        host_mem_to_shm: Vec<BufferId>,
        shm_to_backend: LocationMap,
        storage_to_hostmem: Vec<BufferId>,
        hostmem_to_storage: Vec<BufferId>,
        data_manager: DataManagerHandle,
    ) -> (task: Self)
        ensures
            task.out_from_gpu == out_from_gpu,
            task.into_gpu == into_gpu,
            task.storage_to_shm == storage_to_shm,
            task.hostmem_to_shm == host_mem_to_shm,
            task.shm_to_backend == shm_to_backend,
            task.storage_to_hostmem == storage_to_hostmem,
            task.hostmem_to_storage == hostmem_to_storage,
            task.data_manager == data_manager,
    {
        DataMigrationTask {
            out_from_gpu,
            into_gpu,
            storage_to_shm,
            hostmem_to_shm: host_mem_to_shm,
            shm_to_backend,
            storage_to_hostmem,
            hostmem_to_storage,
            data_manager,
        }
    }

    /// What leaves the GPU.
    pub fn get_out_from_gpu(&self) -> (list: &Vec<(i32, MigrationSpec)>)
        ensures
            *list == self.out_from_gpu,
    {
        &self.out_from_gpu
    }
}

/// A task is read list by list and entry by entry, with nothing left out.
pub proof fn law_task_is_read_in_full(task: DataMigrationTask, p: int, d: int)
    ensures
        task@.storage_to_shm == task.storage_to_shm@,
        task@.hostmem_to_shm == task.hostmem_to_shm@,
        task@.shm_to_backend == task.shm_to_backend.items@,
        task@.storage_to_hostmem == task.storage_to_hostmem@,
        task@.hostmem_to_storage == task.hostmem_to_storage@,
        task@.out_from_gpu.len() == task.out_from_gpu@.len(),
        0 <= p < task.out_from_gpu@.len() ==> {
            let (pid, spec) = task.out_from_gpu@[p];
            &&& task@.out_from_gpu[p].0 == pid
            &&& task@.out_from_gpu[p].1.len() == spec.device_map@.len()
            &&& 0 <= d < spec.device_map@.len() ==> task@.out_from_gpu[p].1[d].0
                == spec.device_map@[d].0 && task@.out_from_gpu[p].1[d].1 == spec.device_map@[d].1@
        },
        task@.into_gpu is Some <==> task.into_gpu is Some,
        task.into_gpu matches Some((pid, spec)) ==> (task@.into_gpu matches Some((read, entries))
            && read == pid && entries.len() == spec.device_map@.len() && (0 <= d
            < spec.device_map@.len() ==> entries[d].0 == spec.device_map@[d].0 && entries[d].1
            == spec.device_map@[d].1@)),
{
}

/// The buffer of an entry is that of its process, its device and its handle, with its size.
pub proof fn law_entry_names_its_buffer(e: MigrationSpecEntry, pid: i32, device: GlobalDeviceId)
    ensures
        e.buffer(pid, device).pid == pid,
        e.buffer(pid, device).device_id == device,
        e.buffer(pid, device).block_id == e.handle_idx,
        e.buffer(pid, device).size == e.size,
{
}

} // verus!
