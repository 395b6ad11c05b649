//! What the daemon stores, process by process.
use vstd::prelude::*;
use crate::assoc::assoc_get;
use crate::control::{DataBlockMeta, DataManagerMetadata, ProcessDataMeta};
use crate::ids::{AllocationCapacity, BufferId};
use crate::migration::store::DataManagerHandle;

verus! {

/// The blocks of stored buffers, process by process; each process comes where its first buffer
/// does.
pub open spec fn blocks_by_process(buffers: Seq<(BufferId, AllocationCapacity)>) -> Seq<
    (i32, Seq<DataBlockMeta>),
>
    decreases buffers.len(),
{
    if buffers.len() == 0 {
        Seq::empty()
    } else {
        let before = blocks_by_process(buffers.drop_last());
        let (id, capacity) = buffers.last();
        let block = DataBlockMeta { device_id: id.device_id, size: capacity.0 as u64 };
        let own = match assoc_get(before, id.pid) {
            Some(blocks) => blocks,
            None => Seq::empty(),
        };
        crate::assoc::assoc_put(before, id.pid, own.push(block))
    }
}

/// Reads a list of processes with their blocks as sequences.
pub open spec fn deep_meta(s: Seq<ProcessDataMeta>) -> Seq<(i32, Seq<DataBlockMeta>)> {
    s.map_values(|p: ProcessDataMeta| (p.pid, p.data_blocks@))
}

fn find_process(list: &Vec<ProcessDataMeta>, pid: i32) -> (found: Option<usize>)
    ensures
        match found {
            Some(i) => i < list@.len() && i == crate::assoc::assoc_pos(deep_meta(list@), pid),
            None => crate::assoc::assoc_pos(deep_meta(list@), pid) == list@.len(),
        },
{
    let ghost deep = deep_meta(list@);
    let mut i: usize = 0;
    while i < list.len()
        invariant
            i <= list@.len(),
            deep == deep_meta(list@),
            forall|j: int| 0 <= j < i ==> (#[trigger] deep[j]).0 != pid,
        decreases list@.len() - i,
    {
        if list[i].pid == pid {
            proof {
                crate::assoc::lemma_assoc_pos_is(deep, pid, i as int);
            }
            return Some(i);
        }
        i = i + 1;
    }
    proof {
        crate::assoc::lemma_assoc_pos_is(deep, pid, i as int);
    }
    None
}

/// The blocks of stored buffers, process by process.
pub fn to_meta(buffers: &Vec<(BufferId, AllocationCapacity)>) -> (list: Vec<ProcessDataMeta>)
    ensures
        deep_meta(list@) == blocks_by_process(buffers@),
{
    let mut list: Vec<ProcessDataMeta> = Vec::new();
    let mut i: usize = 0;
    proof {
        assert(buffers@.take(0) =~= Seq::empty());
        assert(deep_meta(list@) =~= Seq::empty());
    }
    while i < buffers.len()
        invariant
            i <= buffers@.len(),
            deep_meta(list@) == blocks_by_process(buffers@.take(i as int)),
        decreases buffers@.len() - i,
    {
        let id = buffers[i].0;
        let block = DataBlockMeta { device_id: id.device_id, size: buffers[i].1.0 as u64 };
        let ghost before = list@;
        proof {
            assert(buffers@.take(i + 1).drop_last() =~= buffers@.take(i as int));
        }
        match find_process(&list, id.pid) {
            Some(at) => {
                list[at].data_blocks.push(block);
                proof {
                    assert(deep_meta(list@) =~= deep_meta(before).update(
                        at as int,
                        (id.pid, deep_meta(before)[at as int].1.push(block)),
                    )) by {
                        crate::assoc::lemma_assoc_pos(deep_meta(before), id.pid);
                        assert(deep_meta(before)[at as int].0 == id.pid);
                    }
                }
            },
            None => {
                let mut data_blocks: Vec<DataBlockMeta> = Vec::new();
                data_blocks.push(block);
                proof {
                    assert(data_blocks@ =~= Seq::empty().push(block));
                }
                list.push(ProcessDataMeta { pid: id.pid, data_blocks });
                proof {
                    assert(deep_meta(list@) =~= deep_meta(before).push(
                        (id.pid, Seq::empty().push(block)),
                    ));
                }
            },
        }
        i = i + 1;
    }
    proof {
        assert(buffers@.take(i as int) =~= buffers@);
    }
    list
}

/// What is stored where, and how much could be.
pub fn data_details(manager: &DataManagerHandle) -> (meta: DataManagerMetadata)
    ensures
        deep_meta(meta.shm@) == blocks_by_process(manager.shm@),
        deep_meta(meta.hostmem@) == blocks_by_process(manager.hostmem@),
        deep_meta(meta.storage@) == blocks_by_process(manager.storage@),
        meta.shm_capacity == manager.shm_capacity,
        meta.hostmem_capacity == manager.hostmem_capacity,
{
    DataManagerMetadata {
        shm: to_meta(&manager.shm),
        hostmem: to_meta(&manager.hostmem),
        storage: to_meta(&manager.storage),
        shm_capacity: manager.shm_capacity as u64,
        hostmem_capacity: manager.hostmem_capacity as u64,
    }
}

/// A process is listed exactly if it has a buffer, and only once.
pub proof fn law_owners_are_listed_once(buffers: Seq<(BufferId, AllocationCapacity)>)
    ensures
        crate::assoc::keys_distinct(blocks_by_process(buffers)),
        forall|pid: i32| #[trigger]
            crate::assoc::assoc_has(blocks_by_process(buffers), pid) <==> exists|k: int|
                0 <= k < buffers.len() && (#[trigger] buffers[k]).0.pid == pid,
    decreases buffers.len(),
{
    if buffers.len() > 0 {
        let rest = buffers.drop_last();
        let before = blocks_by_process(rest);
        let (id, capacity) = buffers.last();
        law_owners_are_listed_once(rest);
        let block = DataBlockMeta { device_id: id.device_id, size: capacity.0 as u64 };
        let own = match assoc_get(before, id.pid) {
            Some(blocks) => blocks,
            None => Seq::empty(),
        };
        crate::assoc::lemma_assoc_put_distinct(before, id.pid, own.push(block));
        assert forall|pid: i32| #[trigger]
            crate::assoc::assoc_has(blocks_by_process(buffers), pid) <==> exists|k: int|
                0 <= k < buffers.len() && (#[trigger] buffers[k]).0.pid == pid by {
            crate::assoc::lemma_assoc_put_get(before, id.pid, own.push(block), pid);
            if pid == id.pid {
                assert(buffers[buffers.len() - 1].0.pid == pid);
            } else if crate::assoc::assoc_has(before, pid) {
                let k = choose|k: int| 0 <= k < rest.len() && (#[trigger] rest[k]).0.pid == pid;
                assert(buffers[k].0.pid == pid);
            } else if exists|k: int| 0 <= k < buffers.len() && (#[trigger] buffers[k]).0.pid == pid {
                let k = choose|k: int|
                    0 <= k < buffers.len() && (#[trigger] buffers[k]).0.pid == pid;
                assert(rest[k].0.pid == pid);
            }
        }
    }
}

/// Every process is told as many blocks and bytes as are stored for it.
pub proof fn law_stored_bytes_are_told(buffers: Seq<(BufferId, AllocationCapacity)>, pid: i32)
    ensures
        ({
            let own = buffers.filter(|c: (BufferId, AllocationCapacity)| c.0.pid == pid);
            match assoc_get(blocks_by_process(buffers), pid) {
                Some(blocks) => blocks.len() == own.len() && forall|k: int|
                    0 <= k < own.len() ==> (#[trigger] blocks[k]).size == own[k].1.0
                        && blocks[k].device_id == own[k].0.device_id,
                None => own.len() == 0,
            }
        }),
    decreases buffers.len(),
{
    let own = |c: (BufferId, AllocationCapacity)| c.0.pid == pid;
    if buffers.len() > 0 {
        let rest = buffers.drop_last();
        let before = blocks_by_process(rest);
        let (id, capacity) = buffers.last();
        law_stored_bytes_are_told(rest, pid);
        let block = DataBlockMeta { device_id: id.device_id, size: capacity.0 as u64 };
        let kept = match assoc_get(before, id.pid) {
            Some(blocks) => blocks,
            None => Seq::empty(),
        };
        crate::assoc::lemma_assoc_put_get(before, id.pid, kept.push(block), pid);
        crate::sorting::lemma_filter_push(rest, buffers.last(), own);
        assert(rest.push(buffers.last()) =~= buffers);
    } else {
        assert(buffers.filter(own).len() == 0) by {
            reveal(Seq::filter);
        }
    }
}

} // verus!
