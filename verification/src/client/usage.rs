//! How much memory processes use, and where.
use vstd::prelude::*;
use crate::control::{AllocationData, DataBlockMeta, DataManagerMetadata, ProcessDataMeta, ProcessMetadata};
use crate::ids::GlobalDeviceId;
use crate::shm::lemma_prefix_sum;
use crate::sorting::lemma_filter_push;
use crate::sums::sum_of;

verus! {

// Processes.

/// The scheduler knows the process.
pub open spec fn is_known() -> spec_fn(ProcessMetadata) -> bool {
    |p: ProcessMetadata| p.state is Some
}

/// The processes that the scheduler knows.
pub fn filter_invalid_processes(processes: Vec<ProcessMetadata>) -> (known: Vec<ProcessMetadata>)
    ensures
        known@ == processes@.filter(is_known()),
{
    let ghost all = processes@;
    let mut rest = processes;
    let mut known: Vec<ProcessMetadata> = Vec::new();
    let ghost mut n: int = 0;
    proof {
        reveal(Seq::filter);
        assert(all.take(0).filter(is_known()) =~= Seq::empty());
        assert(all.skip(0) =~= all);
    }
    while rest.len() > 0
        invariant
            0 <= n <= all.len(),
            rest@ == all.skip(n),
            known@ == all.take(n).filter(is_known()),
        decreases rest@.len(),
    {
        let process = rest.remove(0);
        proof {
            assert(process == all[n]);
            assert(all.take(n + 1) =~= all.take(n).push(process));
            lemma_filter_push(all.take(n), process, is_known());
            assert(all.skip(n).remove(0) =~= all.skip(n + 1));
            n = n + 1;
        }
        if process.state.is_some() {
            known.push(process);
        }
    }
    proof {
        assert(all.take(n) =~= all);
    }
    known
}

pub open spec fn on_gpu() -> spec_fn(AllocationData) -> int {
    |a: AllocationData| a.on_gpu_bytes as int
}

pub open spec fn in_all() -> spec_fn(AllocationData) -> int {
    |a: AllocationData| a.on_gpu_bytes + a.off_gpu_bytes
}

/// The bytes of allocations that are on the GPU.
pub fn bytes_on_gpu(allocations: &Vec<AllocationData>) -> (bytes: u64)
    requires
        sum_of(allocations@, on_gpu()) <= u64::MAX,
    ensures
        bytes == sum_of(allocations@, on_gpu()),
{
    let mut bytes: u64 = 0;
    let mut i: usize = 0;
    while i < allocations.len()
        invariant
            i <= allocations@.len(),
            bytes == sum_of(allocations@.take(i as int), on_gpu()),
            sum_of(allocations@, on_gpu()) <= u64::MAX,
        decreases allocations@.len() - i,
    {
        proof {
            lemma_prefix_sum(allocations@, i as int, on_gpu(), u64::MAX as int);
        }
        bytes = bytes + allocations[i].on_gpu_bytes;
        i = i + 1;
    }
    assert(allocations@.take(i as int) =~= allocations@);
    bytes
}

/// The bytes of allocations, wherever they are.
pub fn bytes_in_all(allocations: &Vec<AllocationData>) -> (bytes: u64)
    requires
        sum_of(allocations@, in_all()) <= u64::MAX,
    ensures
        bytes == sum_of(allocations@, in_all()),
{
    let mut bytes: u64 = 0;
    let mut i: usize = 0;
    while i < allocations.len()
        invariant
            i <= allocations@.len(),
            bytes == sum_of(allocations@.take(i as int), in_all()),
            sum_of(allocations@, in_all()) <= u64::MAX,
        decreases allocations@.len() - i,
    {
        proof {
            lemma_prefix_sum(allocations@, i as int, in_all(), 2 * u64::MAX as int);
        }
        bytes = bytes + (allocations[i].on_gpu_bytes + allocations[i].off_gpu_bytes);
        i = i + 1;
    }
    assert(allocations@.take(i as int) =~= allocations@);
    bytes
}

/// The process has something on the GPU of a device.
pub open spec fn is_on(device: GlobalDeviceId) -> spec_fn(ProcessMetadata) -> bool {
    |p: ProcessMetadata|
        exists|i: int, k: int|
            0 <= i < p.allocations@.len() && p.allocations@[i].0 == device && 0 <= k
                < p.allocations@[i].1@.len() && (#[trigger] p.allocations@[i].1@[k]).on_gpu_bytes
                > 0
}

fn has_on_gpu(allocations: &Vec<AllocationData>) -> (found: bool)
    ensures
        found == exists|k: int|
            0 <= k < allocations@.len() && (#[trigger] allocations@[k]).on_gpu_bytes > 0,
{
    let mut i: usize = 0;
    while i < allocations.len()
        invariant
            i <= allocations@.len(),
            forall|k: int| 0 <= k < i ==> (#[trigger] allocations@[k]).on_gpu_bytes == 0,
        decreases allocations@.len() - i,
    {
        if allocations[i].on_gpu_bytes > 0 {
            assert(allocations@[i as int].on_gpu_bytes > 0);
            return true;
        }
        i = i + 1;
    }
    false
}

fn occupies(process: &ProcessMetadata, device: GlobalDeviceId) -> (found: bool)
    ensures
        found == is_on(device)(*process),
{
    let mut i: usize = 0;
    while i < process.allocations.len()
        invariant
            i <= process.allocations@.len(),
            forall|j: int, k: int|
                0 <= j < i && process.allocations@[j].0 == device && 0 <= k
                    < process.allocations@[j].1@.len() ==> (
                #[trigger] process.allocations@[j].1@[k]).on_gpu_bytes == 0,
        decreases process.allocations@.len() - i,
    {
        if process.allocations[i].0 == device && has_on_gpu(&process.allocations[i].1) {
            proof {
                let own = process.allocations@[i as int].1@;
                let k = choose|k: int| 0 <= k < own.len() && (#[trigger] own[k]).on_gpu_bytes > 0;
                assert(process.allocations@[i as int].1@[k].on_gpu_bytes > 0);
            }
            return true;
        }
        i = i + 1;
    }
    false
}

/// How many processes have something on the GPU of a device.
pub fn processes_on(processes: &Vec<ProcessMetadata>, device: GlobalDeviceId) -> (count: usize)
    ensures
        count == processes@.filter(is_on(device)).len(),
{
    let mut count: usize = 0;
    let mut i: usize = 0;
    proof {
        reveal(Seq::filter);
        assert(processes@.take(0).filter(is_on(device)) =~= Seq::empty());
    }
    while i < processes.len()
        invariant
            i <= processes@.len(),
            count <= i,
            count == processes@.take(i as int).filter(is_on(device)).len(),
        decreases processes@.len() - i,
    {
        proof {
            assert(processes@.take(i + 1) =~= processes@.take(i as int).push(
                processes@[i as int],
            ));
            lemma_filter_push(processes@.take(i as int), processes@[i as int], is_on(device));
        }
        if occupies(&processes[i], device) {
            count = count + 1;
        }
        i = i + 1;
    }
    assert(processes@.take(i as int) =~= processes@);
    count
}

// What the daemon stores.

pub open spec fn block_size() -> spec_fn(DataBlockMeta) -> int {
    |b: DataBlockMeta| b.size as int
}

/// The bytes that are stored for a process.
pub open spec fn process_size() -> spec_fn(ProcessDataMeta) -> int {
    |p: ProcessDataMeta| sum_of(p.data_blocks@, block_size())
}

/// The bytes that are stored for processes can be counted.
pub open spec fn countable(list: Seq<ProcessDataMeta>) -> bool {
    &&& sum_of(list, process_size()) <= u64::MAX
    &&& forall|i: int| 0 <= i < list.len() ==> process_size()(#[trigger] list[i]) <= u64::MAX
}

fn stored_size(blocks: &Vec<DataBlockMeta>) -> (bytes: u64)
    requires
        sum_of(blocks@, block_size()) <= u64::MAX,
    ensures
        bytes == sum_of(blocks@, block_size()),
{
    let mut bytes: u64 = 0;
    let mut i: usize = 0;
    while i < blocks.len()
        invariant
            i <= blocks@.len(),
            bytes == sum_of(blocks@.take(i as int), block_size()),
            sum_of(blocks@, block_size()) <= u64::MAX,
        decreases blocks@.len() - i,
    {
        proof {
            lemma_prefix_sum(blocks@, i as int, block_size(), u64::MAX as int);
        }
        bytes = bytes + blocks[i].size;
        i = i + 1;
    }
    assert(blocks@.take(i as int) =~= blocks@);
    bytes
}

proof fn lemma_process_size_positive(list: Seq<ProcessDataMeta>)
    ensures
        forall|i: int| 0 <= i < list.len() ==> 0 <= process_size()(#[trigger] list[i]),
{
    assert forall|i: int| 0 <= i < list.len() implies 0 <= process_size()(#[trigger] list[i]) by {
        crate::sums::lemma_sum_bounds(list[i].data_blocks@, block_size(), u64::MAX as int);
    }
}

/// The bytes that are stored for all processes.
pub fn bytes_stored(list: &Vec<ProcessDataMeta>) -> (bytes: u64)
    requires
        countable(list@),
    ensures
        bytes == sum_of(list@, process_size()),
{
    let mut bytes: u64 = 0;
    let mut i: usize = 0;
    while i < list.len()
        invariant
            i <= list@.len(),
            countable(list@),
            bytes == sum_of(list@.take(i as int), process_size()),
        decreases list@.len() - i,
    {
        proof {
            lemma_process_size_positive(list@);
            assert(process_size()(list@[i as int]) <= u64::MAX);
            lemma_prefix_sum(list@, i as int, process_size(), u64::MAX as int);
        }
        bytes = bytes + stored_size(&list[i].data_blocks);
        i = i + 1;
    }
    assert(list@.take(i as int) =~= list@);
    bytes
}

// Process by process.

/// What one process uses: bytes on each GPU, and bytes and blocks of each store.
#[derive(Debug)]
pub struct ProcessUsage {
    pub pid: i32,
    pub devices: Vec<(GlobalDeviceId, u64)>,
    pub shm: Option<(u64, usize)>,
    pub hostmem: Option<(u64, usize)>,
    pub storage: Option<(u64, usize)>,
}

/// The bytes and the number of blocks that are stored for a process: what is said last counts.
pub open spec fn stored_for(list: Seq<ProcessDataMeta>, pid: i32) -> Option<(int, nat)>
    decreases list.len(),
{
    if list.len() == 0 {
        None
    } else if list.last().pid == pid {
        Some((process_size()(list.last()), list.last().data_blocks@.len()))
    } else {
        stored_for(list.drop_last(), pid)
    }
}

/// The GPUs on which allocations are, with the bytes there.
pub open spec fn occupied(allocations: Seq<(GlobalDeviceId, Vec<AllocationData>)>) -> Seq<
    (GlobalDeviceId, int),
>
    decreases allocations.len(),
{
    if allocations.len() == 0 {
        Seq::empty()
    } else {
        let before = occupied(allocations.drop_last());
        let bytes = sum_of(allocations.last().1@, on_gpu());
        if bytes > 0 {
            before.push((allocations.last().0, bytes))
        } else {
            before
        }
    }
}

/// The GPUs on which a process is, with the bytes there.
pub open spec fn devices_of(processes: Seq<ProcessMetadata>, pid: i32) -> Seq<(GlobalDeviceId, int)>
    decreases processes.len(),
{
    if processes.len() == 0 {
        Seq::empty()
    } else if processes.last().pid == pid {
        devices_of(processes.drop_last(), pid) + occupied(processes.last().allocations@)
    } else {
        devices_of(processes.drop_last(), pid)
    }
}

pub open spec fn widened(use_of: Option<(u64, usize)>) -> Option<(int, nat)> {
    match use_of {
        Some(p) => Some((p.0 as int, p.1 as nat)),
        None => None,
    }
}

pub open spec fn deep_devices(s: Seq<(GlobalDeviceId, u64)>) -> Seq<(GlobalDeviceId, int)> {
    s.map_values(|p: (GlobalDeviceId, u64)| (p.0, p.1 as int))
}

impl ProcessUsage {
    /// The usage is that of its process.
    pub open spec fn is_use(
        self,
        processes: Seq<ProcessMetadata>,
        meta: DataManagerMetadata,
    ) -> bool {
        &&& deep_devices(self.devices@) == devices_of(processes, self.pid)
        &&& widened(self.shm) == stored_for(meta.shm@, self.pid)
        &&& widened(self.hostmem) == stored_for(meta.hostmem@, self.pid)
        &&& widened(self.storage) == stored_for(meta.storage@, self.pid)
    }
}

/// The process has something stored, or is running.
pub open spec fn is_mentioned(
    processes: Seq<ProcessMetadata>,
    meta: DataManagerMetadata,
    pid: i32,
) -> bool {
    ||| exists|i: int| 0 <= i < meta.shm@.len() && (#[trigger] meta.shm@[i]).pid == pid
    ||| exists|i: int| 0 <= i < meta.hostmem@.len() && (#[trigger] meta.hostmem@[i]).pid == pid
    ||| exists|i: int| 0 <= i < meta.storage@.len() && (#[trigger] meta.storage@[i]).pid == pid
    ||| exists|i: int| 0 <= i < processes.len() && (#[trigger] processes[i]).pid == pid
}

/// The bytes of all allocations can be counted, device by device.
pub open spec fn all_countable(processes: Seq<ProcessMetadata>) -> bool {
    forall|i: int, k: int|
        0 <= i < processes.len() && 0 <= k < processes[i].allocations@.len() ==> sum_of(
            (#[trigger] processes[i].allocations@[k]).1@,
            on_gpu(),
        ) <= u64::MAX
}

/// Puts a number into an increasing list, unless it is there.
fn add_pid(pids: &mut Vec<i32>, pid: i32)
    requires
        forall|a: int, b: int| 0 <= a < b < old(pids)@.len() ==> old(pids)@[a] < old(pids)@[b],
    ensures
        forall|a: int, b: int|
            0 <= a < b < final(pids)@.len() ==> final(pids)@[a] < final(pids)@[b],
        forall|p: i32| #[trigger]
            final(pids)@.contains(p) <==> p == pid || old(pids)@.contains(p),
{
    let ghost before = pids@;
    let mut i: usize = 0;
    while i < pids.len() && pids[i] < pid
        invariant
            i <= pids@.len(),
            pids@ == before,
            forall|k: int| 0 <= k < i ==> pids@[k] < pid,
        decreases pids@.len() - i,
    {
        i = i + 1;
    }
    if i < pids.len() && pids[i] == pid {
        proof {
            assert(pids@[i as int] == pid);
        }
        return ;
    }
    pids.insert(i, pid);
    proof {
        assert(pids@[i as int] == pid);
        assert forall|p: i32| #[trigger] pids@.contains(p) <==> p == pid || before.contains(p) by {
            if before.contains(p) {
                let k = choose|k: int| 0 <= k < before.len() && before[k] == p;
                if k < i {
                    assert(pids@[k] == p);
                } else {
                    assert(pids@[k + 1] == p);
                }
            }
            if pids@.contains(p) && p != pid {
                let k = choose|k: int| 0 <= k < pids@.len() && pids@[k] == p;
                if k < i {
                    assert(before[k] == p);
                } else {
                    assert(before[k - 1] == p);
                }
            }
        }
    }
}

/// Adds the processes of a store to an increasing list.
fn add_owners(pids: &mut Vec<i32>, list: &Vec<ProcessDataMeta>)
    requires
        forall|a: int, b: int| 0 <= a < b < old(pids)@.len() ==> old(pids)@[a] < old(pids)@[b],
    ensures
        forall|a: int, b: int|
            0 <= a < b < final(pids)@.len() ==> final(pids)@[a] < final(pids)@[b],
        forall|p: i32| #[trigger]
            final(pids)@.contains(p) <==> old(pids)@.contains(p) || exists|i: int|
                0 <= i < list@.len() && (#[trigger] list@[i]).pid == p,
{
    let ghost before = pids@;
    let mut i: usize = 0;
    while i < list.len()
        invariant
            i <= list@.len(),
            forall|a: int, b: int| 0 <= a < b < pids@.len() ==> pids@[a] < pids@[b],
            forall|p: i32| #[trigger]
                pids@.contains(p) <==> before.contains(p) || exists|k: int|
                    0 <= k < i && (#[trigger] list@[k]).pid == p,
        decreases list@.len() - i,
    {
        let ghost mid = pids@;
        add_pid(pids, list[i].pid);
        proof {
            assert forall|p: i32| #[trigger]
                pids@.contains(p) <==> before.contains(p) || exists|k: int|
                    0 <= k < i + 1 && (#[trigger] list@[k]).pid == p by {
                if pids@.contains(p) {
                    if p == list@[i as int].pid {
                        assert(list@[i as int].pid == p);
                    } else {
                        assert(mid.contains(p));
                    }
                } else {
                    assert(!mid.contains(p));
                }
            }
        }
        i = i + 1;
    }
}

/// Adds processes to an increasing list.
fn add_processes(pids: &mut Vec<i32>, list: &Vec<ProcessMetadata>)
    requires
        forall|a: int, b: int| 0 <= a < b < old(pids)@.len() ==> old(pids)@[a] < old(pids)@[b],
    ensures
        forall|a: int, b: int|
            0 <= a < b < final(pids)@.len() ==> final(pids)@[a] < final(pids)@[b],
        forall|p: i32| #[trigger]
            final(pids)@.contains(p) <==> old(pids)@.contains(p) || exists|i: int|
                0 <= i < list@.len() && (#[trigger] list@[i]).pid == p,
{
    let ghost before = pids@;
    let mut i: usize = 0;
    while i < list.len()
        invariant
            i <= list@.len(),
            forall|a: int, b: int| 0 <= a < b < pids@.len() ==> pids@[a] < pids@[b],
            forall|p: i32| #[trigger]
                pids@.contains(p) <==> before.contains(p) || exists|k: int|
                    0 <= k < i && (#[trigger] list@[k]).pid == p,
        decreases list@.len() - i,
    {
        let ghost mid = pids@;
        add_pid(pids, list[i].pid);
        proof {
            assert forall|p: i32| #[trigger]
                pids@.contains(p) <==> before.contains(p) || exists|k: int|
                    0 <= k < i + 1 && (#[trigger] list@[k]).pid == p by {
                if pids@.contains(p) {
                    if p == list@[i as int].pid {
                        assert(list@[i as int].pid == p);
                    } else {
                        assert(mid.contains(p));
                    }
                } else {
                    assert(!mid.contains(p));
                }
            }
        }
        i = i + 1;
    }
}

fn find_stored(list: &Vec<ProcessDataMeta>, pid: i32) -> (found: Option<(u64, usize)>)
    requires
        countable(list@),
    ensures
        widened(found) == stored_for(list@, pid),
{
    let mut found: Option<(u64, usize)> = None;
    let mut i: usize = 0;
    while i < list.len()
        invariant
            i <= list@.len(),
            countable(list@),
            widened(found) == stored_for(list@.take(i as int), pid),
        decreases list@.len() - i,
    {
        proof {
            assert(list@.take(i + 1).drop_last() =~= list@.take(i as int));
            assert(process_size()(list@[i as int]) <= u64::MAX);
        }
        if list[i].pid == pid {
            found = Some((stored_size(&list[i].data_blocks), list[i].data_blocks.len()));
        }
        i = i + 1;
    }
    assert(list@.take(i as int) =~= list@);
    found
}

fn add_occupied(devices: &mut Vec<(GlobalDeviceId, u64)>, allocations: &Vec<
    (GlobalDeviceId, Vec<AllocationData>),
>)
    requires
        forall|k: int|
            0 <= k < allocations@.len() ==> sum_of((#[trigger] allocations@[k]).1@, on_gpu())
                <= u64::MAX,
    ensures
        deep_devices(final(devices)@) == deep_devices(old(devices)@) + occupied(allocations@),
{
    let ghost before = deep_devices(devices@);
    let mut i: usize = 0;
    proof {
        assert(allocations@.take(0) =~= Seq::empty());
        assert(before + occupied(allocations@.take(0)) =~= before);
    }
    while i < allocations.len()
        invariant
            i <= allocations@.len(),
            forall|k: int|
                0 <= k < allocations@.len() ==> sum_of((#[trigger] allocations@[k]).1@, on_gpu())
                    <= u64::MAX,
            deep_devices(devices@) == before + occupied(allocations@.take(i as int)),
        decreases allocations@.len() - i,
    {
        let ghost mid = devices@;
        proof {
            assert(allocations@.take(i + 1).drop_last() =~= allocations@.take(i as int));
            assert(sum_of(allocations@[i as int].1@, on_gpu()) <= u64::MAX);
        }
        let bytes: u64 = bytes_on_gpu(&allocations[i].1);
        if bytes > 0 {
            devices.push((allocations[i].0, bytes));
            proof {
                assert(deep_devices(devices@) =~= deep_devices(mid).push(
                    (allocations@[i as int].0, bytes as int),
                ));
                assert(deep_devices(devices@) =~= before + occupied(allocations@.take(i + 1)));
            }
        }
        i = i + 1;
    }
    assert(allocations@.take(i as int) =~= allocations@);
}

fn find_devices(processes: &Vec<ProcessMetadata>, pid: i32) -> (devices: Vec<(GlobalDeviceId, u64)>)
    requires
        all_countable(processes@),
    ensures
        deep_devices(devices@) == devices_of(processes@, pid),
{
    let mut devices: Vec<(GlobalDeviceId, u64)> = Vec::new();
    let mut i: usize = 0;
    proof {
        assert(processes@.take(0) =~= Seq::empty());
        assert(deep_devices(devices@) =~= Seq::empty());
    }
    while i < processes.len()
        invariant
            i <= processes@.len(),
            all_countable(processes@),
            deep_devices(devices@) == devices_of(processes@.take(i as int), pid),
        decreases processes@.len() - i,
    {
        proof {
            assert(processes@.take(i + 1).drop_last() =~= processes@.take(i as int));
        }
        if processes[i].pid == pid {
            add_occupied(&mut devices, &processes[i].allocations);
        }
        i = i + 1;
    }
    assert(processes@.take(i as int) =~= processes@);
    devices
}

/// What every process that is mentioned uses, in the order of their numbers.
pub fn usage_by_process(processes: &Vec<ProcessMetadata>, meta: &DataManagerMetadata) -> (rows: Vec<
    ProcessUsage,
>)
    requires
        all_countable(processes@),
        countable(meta.shm@),
        countable(meta.hostmem@),
        countable(meta.storage@),
    ensures
        forall|a: int, b: int| 0 <= a < b < rows@.len() ==> rows@[a].pid < rows@[b].pid,
        forall|i: int|
            0 <= i < rows@.len() ==> (#[trigger] rows@[i]).is_use(processes@, *meta)
                && is_mentioned(processes@, *meta, rows@[i].pid),
        forall|pid: i32| #[trigger]
            is_mentioned(processes@, *meta, pid) ==> exists|i: int|
                0 <= i < rows@.len() && (#[trigger] rows@[i]).pid == pid,
{
    let mut pids: Vec<i32> = Vec::new();
    add_owners(&mut pids, &meta.shm);
    let ghost a = pids@;
    add_owners(&mut pids, &meta.hostmem);
    let ghost b = pids@;
    add_owners(&mut pids, &meta.storage);
    let ghost c = pids@;
    add_processes(&mut pids, processes);
    proof {
        assert forall|pid: i32| #[trigger]
            is_mentioned(processes@, *meta, pid) <==> pids@.contains(pid) by {
            assert(a.contains(pid) || !a.contains(pid));
            assert(b.contains(pid) || !b.contains(pid));
            assert(c.contains(pid) || !c.contains(pid));
        }
    }
    let mut rows: Vec<ProcessUsage> = Vec::new();
    let mut i: usize = 0;
    while i < pids.len()
        invariant
            i <= pids@.len(),
            all_countable(processes@),
            countable(meta.shm@),
            countable(meta.hostmem@),
            countable(meta.storage@),
            rows@.len() == i,
            forall|k: int|
                0 <= k < i ==> (#[trigger] rows@[k]).is_use(processes@, *meta) && rows@[k].pid
                    == pids@[k],
        decreases pids@.len() - i,
    {
        let pid: i32 = pids[i];
        rows.push(
            ProcessUsage {
                pid,
                devices: find_devices(processes, pid),
                shm: find_stored(&meta.shm, pid),
                hostmem: find_stored(&meta.hostmem, pid),
                storage: find_stored(&meta.storage, pid),
            },
        );
        i = i + 1;
    }
    proof {
        assert forall|k: int| 0 <= k < rows@.len() implies is_mentioned(
            processes@,
            *meta,
            (#[trigger] rows@[k]).pid,
        ) by {
            assert(pids@.contains(pids@[k]));
        }
        assert forall|pid: i32| #[trigger] is_mentioned(processes@, *meta, pid) implies exists|k:
            int| 0 <= k < rows@.len() && (#[trigger] rows@[k]).pid == pid by {
            let k = choose|k: int| 0 <= k < pids@.len() && pids@[k] == pid;
            assert(rows@[k].pid == pid);
        }
    }
    rows
}

// Laws.

/// What is stored for a process is what is said of it last: the bytes and the number of its blocks.
pub proof fn law_stored_for_a_process(list: Seq<ProcessDataMeta>, pid: i32)
    ensures
        match stored_for(list, pid) {
            Some((bytes, blocks)) => exists|i: int|
                0 <= i < list.len() && (#[trigger] list[i]).pid == pid && blocks
                    == list[i].data_blocks@.len() && bytes == sum_of(
                    list[i].data_blocks@,
                    |b: DataBlockMeta| b.size as int,
                ) && forall|j: int| i < j < list.len() ==> (#[trigger] list[j]).pid != pid,
            None => forall|j: int| 0 <= j < list.len() ==> (#[trigger] list[j]).pid != pid,
        },
    decreases list.len(),
{
    assert((|b: DataBlockMeta| b.size as int) =~= block_size());
    if list.len() > 0 {
        let rest = list.drop_last();
        assert(list[list.len() - 1] == list.last());
        assert(forall|j: int| 0 <= j < rest.len() ==> #[trigger] list[j] == rest[j]);
        if list.last().pid != pid {
            law_stored_for_a_process(rest, pid);
            match stored_for(rest, pid) {
                Some((bytes, blocks)) => {
                    let i = choose|i: int|
                        0 <= i < rest.len() && (#[trigger] rest[i]).pid == pid && blocks
                            == rest[i].data_blocks@.len() && bytes == sum_of(
                            rest[i].data_blocks@,
                            |b: DataBlockMeta| b.size as int,
                        ) && forall|j: int| i < j < rest.len() ==> (#[trigger] rest[j]).pid != pid;
                    assert(list[i] == rest[i]);
                    assert forall|j: int| i < j < list.len() implies (#[trigger] list[j]).pid
                        != pid by {
                        if j < rest.len() {
                            assert(rest[j] == list[j]);
                        }
                    }
                },
                None => {
                    assert forall|j: int| 0 <= j < list.len() implies (#[trigger] list[j]).pid
                        != pid by {
                        if j < rest.len() {
                            assert(rest[j] == list[j]);
                        }
                    }
                },
            }
        }
    }
}

/// The bytes of some allocations that are on the GPU.
pub open spec fn resident(allocations: Seq<AllocationData>) -> int {
    sum_of(allocations, |a: AllocationData| a.on_gpu_bytes as int)
}

/// The GPUs on which a process is are told with the bytes that it has there: none with nothing, and
/// together as many as are on that GPU.
pub proof fn law_occupied_devices(
    allocations: Seq<(GlobalDeviceId, Vec<AllocationData>)>,
    device: GlobalDeviceId,
)
    ensures
        forall|i: int|
            0 <= i < occupied(allocations).len() ==> (#[trigger] occupied(allocations)[i]).1 > 0,
        sum_of(
            occupied(allocations),
            |p: (GlobalDeviceId, int)|
                if p.0 == device {
                    p.1
                } else {
                    0
                },
        ) == sum_of(
            allocations,
            |p: (GlobalDeviceId, Vec<AllocationData>)|
                if p.0 == device {
                    resident(p.1@)
                } else {
                    0
                },
        ),
    decreases allocations.len(),
{
    let here = |p: (GlobalDeviceId, int)|
        if p.0 == device {
            p.1
        } else {
            0
        };
    assert((|a: AllocationData| a.on_gpu_bytes as int) =~= on_gpu());
    if allocations.len() > 0 {
        let rest = allocations.drop_last();
        law_occupied_devices(rest, device);
        let last = allocations.last();
        crate::sums::lemma_sum_bounds(last.1@, on_gpu(), u64::MAX as int);
        crate::sums::lemma_sum_push(occupied(rest), (last.0, resident(last.1@)), here);
    }
}

/// A process is counted on a device exactly where it has bytes on that GPU. One that the scheduler
/// does not know is not shown, and every other is.
pub proof fn law_who_is_counted(
    processes: Seq<ProcessMetadata>,
    p: ProcessMetadata,
    device: GlobalDeviceId,
)
    ensures
        processes.filter(is_known()).contains(p) <==> processes.contains(p) && p.state is Some,
        is_on(device)(p) <==> exists|i: int|
            0 <= i < p.allocations@.len() && (#[trigger] p.allocations@[i]).0 == device && resident(
                p.allocations@[i].1@,
            ) > 0,
{
    crate::sorting::lemma_filter_members(processes, is_known());
    if processes.filter(is_known()).contains(p) {
        let i = choose|i: int|
            0 <= i < processes.filter(is_known()).len() && processes.filter(is_known())[i] == p;
        assert(is_known()(processes.filter(is_known())[i]));
    }
    if processes.contains(p) && p.state is Some {
        let i = choose|i: int| 0 <= i < processes.len() && processes[i] == p;
        assert(is_known()(processes[i]));
    }
    if is_on(device)(p) {
        let (i, k) = choose|i: int, k: int|
            0 <= i < p.allocations@.len() && p.allocations@[i].0 == device && 0 <= k
                < p.allocations@[i].1@.len() && (#[trigger] p.allocations@[i].1@[k]).on_gpu_bytes
                > 0;
        lemma_resident(p.allocations@[i].1@);
        assert(p.allocations@[i].0 == device);
    }
    if exists|i: int|
        0 <= i < p.allocations@.len() && (#[trigger] p.allocations@[i]).0 == device && resident(
            p.allocations@[i].1@,
        ) > 0 {
        let i = choose|i: int|
            0 <= i < p.allocations@.len() && (#[trigger] p.allocations@[i]).0 == device && resident(
                p.allocations@[i].1@,
            ) > 0;
        lemma_resident(p.allocations@[i].1@);
        let k = choose|k: int|
            0 <= k < p.allocations@[i].1@.len() && (#[trigger] p.allocations@[i].1@[k]).on_gpu_bytes
                > 0;
        assert(p.allocations@[i].1@[k].on_gpu_bytes > 0);
    }
}

proof fn lemma_resident(allocations: Seq<AllocationData>)
    ensures
        resident(allocations) >= 0,
        resident(allocations) > 0 <==> exists|k: int|
            0 <= k < allocations.len() && (#[trigger] allocations[k]).on_gpu_bytes > 0,
    decreases allocations.len(),
{
    if allocations.len() > 0 {
        let rest = allocations.drop_last();
        lemma_resident(rest);
        assert(allocations[allocations.len() - 1] == allocations.last());
        if resident(rest) > 0 {
            let k = choose|k: int| 0 <= k < rest.len() && (#[trigger] rest[k]).on_gpu_bytes > 0;
            assert(allocations[k].on_gpu_bytes > 0);
        }
        if exists|k: int| 0 <= k < allocations.len() && (#[trigger] allocations[k]).on_gpu_bytes > 0 {
            let k = choose|k: int|
                0 <= k < allocations.len() && (#[trigger] allocations[k]).on_gpu_bytes > 0;
            if k < rest.len() {
                assert(rest[k].on_gpu_bytes > 0);
            }
        }
    }
}

/// The bytes of allocations are those on the GPU and those elsewhere, and the bytes that are stored
/// are those of all blocks.
pub proof fn law_bytes_in_all(allocations: Seq<AllocationData>, list: Seq<ProcessDataMeta>)
    ensures
        sum_of(allocations, on_gpu()) == resident(allocations),
        sum_of(allocations, in_all()) == resident(allocations) + sum_of(
            allocations,
            |a: AllocationData| a.off_gpu_bytes as int,
        ),
        sum_of(list, process_size()) == sum_of(
            list,
            |p: ProcessDataMeta| sum_of(p.data_blocks@, |b: DataBlockMeta| b.size as int),
        ),
    decreases allocations.len(),
{
    assert((|a: AllocationData| a.on_gpu_bytes as int) =~= on_gpu());
    assert((|b: DataBlockMeta| b.size as int) =~= block_size());
    assert((|p: ProcessDataMeta| sum_of(p.data_blocks@, |b: DataBlockMeta| b.size as int))
        =~= process_size());
    if allocations.len() > 0 {
        law_bytes_in_all(allocations.drop_last(), list);
    }
}

} // verus!
