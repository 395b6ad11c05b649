//! What is moved between the stores for a request, and what is not.
use vstd::prelude::*;
use crate::assoc::{assoc_get, lemma_assoc_put_get};
use crate::control::PhysicalMemoryData;
use crate::ids::{block_count, AllocationCapacity, BufferId, BufferLocation};
use crate::sums::{lemma_sum_first, lemma_sum_push, sum_of};
use super::clearing_laws::{bytes_held, bytes_of_allocations, law_on_the_gpu_already};
use super::prefetch::{
    buffer_size,
    chosen,
    evict_shm,
    fitting,
    fitting_allocs,
    gpu_prefetch_plan,
    hand_out,
    law_choice,
    listed_id,
    local_plan,
    make_space,
    moves_before,
    pids_distinct,
    send_all,
    sent_id,
    to_hostmem,
    unchosen,
    HostEviction,
    Listing,
    MigrationRequirement,
    Moves,
    Refusal,
};
use super::realtime::{entry_size, AllocationModel, PlanModel};
use super::staging::{PlanFault, Staging};
use super::store::DataManagerHandle;
use super::task::TaskModel;

verus! {

/// The bytes of some buffers.
pub open spec fn bytes_listed(list: Listing) -> int {
    sum_of(list, |c: (BufferId, AllocationCapacity)| c.0.size as int)
}

/// The blocks of some buffers.
pub open spec fn blocks_listed(list: Listing) -> int {
    sum_of(list, |c: (BufferId, AllocationCapacity)| c.1.0 as int / 0x20_0000)
}

proof fn lemma_measures(list: Listing)
    ensures
        bytes_listed(list) == sum_of(list, buffer_size()),
        blocks_listed(list) == sum_of(list, super::staging::capacity_blocks()),
{
    assert((|c: (BufferId, AllocationCapacity)| c.0.size as int) =~= buffer_size());
    assert((|c: (BufferId, AllocationCapacity)| c.1.0 as int / 0x20_0000)
        =~= super::staging::capacity_blocks());
}

proof fn lemma_choice_parts(list: Listing, pid: i32, need: int, c: (BufferId, AllocationCapacity))
    ensures
        list.contains(c) <==> chosen(list, pid, need).contains(c) || unchosen(
            list,
            pid,
            need,
        ).contains(c),
        need <= 0 ==> chosen(list, pid, need).len() == 0,
    decreases list.len(),
{
    if list.len() > 0 {
        let rest = list.drop_first();
        let first = list[0];
        let takes = first.0.pid == pid && need > 0;
        let next = if takes {
            need - first.0.size
        } else {
            need
        };
        lemma_choice_parts(rest, pid, next, c);
        let a = chosen(rest, pid, next);
        let b = unchosen(rest, pid, next);
        let all = chosen(list, pid, need);
        let left = unchosen(list, pid, need);
        lemma_contains_first(first, rest, c);
        assert(seq![first] + rest =~= list);
        if takes {
            lemma_contains_first(first, a, c);
            assert(all == seq![first] + a);
            assert(left == b);
        } else {
            lemma_contains_first(first, b, c);
            assert(all == a);
            assert(left == seq![first] + b);
        }
    }
}

proof fn lemma_contains_first(
    first: (BufferId, AllocationCapacity),
    rest: Listing,
    c: (BufferId, AllocationCapacity),
)
    ensures
        (seq![first] + rest).contains(c) <==> c == first || rest.contains(c),
{
    let all = seq![first] + rest;
    assert(all[0] == first);
    if rest.contains(c) {
        let i = choose|i: int| 0 <= i < rest.len() && rest[i] == c;
        assert(all[i + 1] == c);
    }
    if all.contains(c) {
        let i = choose|i: int| 0 <= i < all.len() && all[i] == c;
        if i > 0 {
            assert(rest[i - 1] == c);
        }
    }
}

/// What is chosen for a move: buffers of the process and no others, as many as have the bytes that
/// are asked for, and none too many. Where the process has too little, all of it. What is not
/// chosen stays, and nothing is lost.
pub proof fn law_enough_is_chosen(
    list: Listing,
    pid: i32,
    need: int,
    c: (BufferId, AllocationCapacity),
)
    ensures
        ({
            let moved = chosen(list, pid, need);
            let kept = unchosen(list, pid, need);
            &&& moved.contains(c) ==> c.0.pid == pid && list.contains(c)
            &&& list.contains(c) <==> moved.contains(c) || kept.contains(c)
            &&& moved.len() + kept.len() == list.len()
            &&& bytes_listed(moved) >= need || (kept.contains(c) ==> c.0.pid != pid)
            &&& moved.len() > 0 ==> bytes_listed(moved.drop_last()) < need
            &&& need <= 0 ==> moved.len() == 0
        }),
{
    let moved = chosen(list, pid, need);
    let kept = unchosen(list, pid, need);
    law_choice(list, pid, need);
    lemma_choice_parts(list, pid, need, c);
    lemma_measures(moved);
    if moved.len() > 0 {
        lemma_measures(moved.drop_last());
    }
    if moved.contains(c) {
        let i = choose|i: int| 0 <= i < moved.len() && moved[i] == c;
        assert(moved[i].0.pid == pid);
    }
    if kept.contains(c) {
        let i = choose|i: int| 0 <= i < kept.len() && kept[i] == c;
        assert(kept[i] == c);
    }
}

proof fn lemma_sent(
    map: Seq<(BufferId, BufferLocation)>,
    ids: Seq<BufferId>,
    to: BufferLocation,
    id: BufferId,
)
    ensures
        assoc_get(send_all(map, ids, to), id) == if ids.contains(id) {
            Some(to)
        } else {
            assoc_get(map, id)
        },
    decreases ids.len(),
{
    if ids.len() > 0 {
        let before = ids.drop_last();
        lemma_sent(map, before, to, id);
        lemma_assoc_put_get(send_all(map, before, to), ids.last(), to, id);
        assert(ids[ids.len() - 1] == ids.last());
        if before.contains(id) {
            let i = choose|i: int| 0 <= i < before.len() && before[i] == id;
            assert(ids[i] == id);
        }
        if ids.contains(id) && id != ids.last() {
            let i = choose|i: int| 0 <= i < ids.len() && ids[i] == id;
            assert(before[i] == id);
        }
    }
}

/// The list that a requirement takes from.
pub open spec fn source(m: Moves, from: BufferLocation) -> Listing {
    match from {
        BufferLocation::Shm => m.shm,
        BufferLocation::HostMem => m.hostmem,
        _ => Seq::empty(),
    }
}

/// A requirement cannot be met exactly where it is about a GPU, would move host memory to itself, or
/// asks for more than the process has there and will not do with less. Where it can be, the chosen
/// buffers go where they should, their blocks become free, and they are no longer to be decided of.
/// Nothing else changes. What is in storage stays there.
pub proof fn law_requirement_is_met(m: Moves, pid: i32, req: MigrationRequirement, id: BufferId)
    ensures
        ({
            let list = source(m, req.from);
            let moved = chosen(list, pid, req.size as int);
            let ids = moved.map_values(|c: (BufferId, AllocationCapacity)| c.0);
            let short = bytes_listed(moved) < req.size && !req.allow_incomplete;
            let result = m.decide(pid, req);
            &&& result is None <==> req.from is Gpu || req.to is Gpu || req.from is HostMem && req.to
                is HostMem || !(req.from is Storage) && short
            &&& result matches Some(n) ==> {
                &&& req.from is Storage ==> n == m
                &&& req.from is Shm ==> {
                    &&& assoc_get(n.shm_to_backend, id) == (if ids.contains(id) {
                        Some(req.to)
                    } else {
                        assoc_get(m.shm_to_backend, id)
                    })
                    &&& n.shm == unchosen(m.shm, pid, req.size as int)
                    &&& n.shm_free == m.shm_free + blocks_listed(moved)
                    &&& n.hostmem == m.hostmem && n.host_free == m.host_free
                    &&& n.hostmem_to_shm == m.hostmem_to_shm && n.hostmem_to_storage
                        == m.hostmem_to_storage
                }
                &&& req.from is HostMem ==> {
                    &&& req.to is Shm ==> n.hostmem_to_shm == m.hostmem_to_shm + ids
                        && n.hostmem_to_storage == m.hostmem_to_storage
                    &&& req.to is Storage ==> n.hostmem_to_storage == m.hostmem_to_storage + ids
                        && n.hostmem_to_shm == m.hostmem_to_shm
                    &&& n.hostmem == unchosen(m.hostmem, pid, req.size as int)
                    &&& n.host_free == m.host_free + blocks_listed(moved)
                    &&& n.shm == m.shm && n.shm_free == m.shm_free && n.shm_to_backend
                        == m.shm_to_backend
                }
            }
        }),
{
    let list = source(m, req.from);
    let moved = chosen(list, pid, req.size as int);
    let ids = moved.map_values(|c: (BufferId, AllocationCapacity)| c.0);
    assert((|c: (BufferId, AllocationCapacity)| c.0) =~= listed_id());
    lemma_measures(moved);
    lemma_sent(m.shm_to_backend, ids, req.to, id);
}

proof fn lemma_all_handed_out(free: int, ids: Seq<BufferId>)
    requires
        sum_of(ids, |id: BufferId| block_count(id.size) as int) <= free,
    ensures
        hand_out(free, ids).1.len() == 0,
        hand_out(free, ids).0 == free - sum_of(ids, |id: BufferId| block_count(id.size) as int),
    decreases ids.len(),
{
    if ids.len() > 0 {
        lemma_all_handed_out(free, ids.drop_last());
    }
}

/// The blocks that some buffers need.
pub open spec fn blocks_needed(ids: Seq<BufferId>) -> int {
    sum_of(ids, |id: BufferId| block_count(id.size) as int)
}

/// The buffers that are sent to host memory.
pub open spec fn bound_for_hostmem(map: Seq<(BufferId, BufferLocation)>) -> Seq<BufferId> {
    map.filter(|p: (BufferId, BufferLocation)| p.1 == BufferLocation::HostMem).map_values(
        |p: (BufferId, BufferLocation)| p.0,
    )
}

/// What was decided is what is done: buffers that go from host memory to shared memory are those
/// that were decided of, and those that go to storage begin with them. Nothing leaves or enters the
/// GPU, and nothing leaves storage. Where there is room for everything, nothing else is moved.
pub proof fn law_decisions_are_carried_out(m: Moves)
    ensures
        make_space(m) matches Ok(task) ==> {
            &&& task.hostmem_to_shm == m.hostmem_to_shm
            &&& task.hostmem_to_storage.len() >= m.hostmem_to_storage.len()
            &&& task.hostmem_to_storage.take(m.hostmem_to_storage.len() as int)
                == m.hostmem_to_storage
            &&& task.out_from_gpu.len() == 0 && task.into_gpu is None
            &&& task.storage_to_shm.len() == 0 && task.storage_to_hostmem.len() == 0
        },
        blocks_needed(m.hostmem_to_shm) <= m.shm_free && blocks_needed(
            bound_for_hostmem(m.shm_to_backend),
        ) <= m.host_free ==> (make_space(m) matches Ok(task) && task.shm_to_backend
            == m.shm_to_backend && task.hostmem_to_storage == m.hostmem_to_storage),
{
    let bound = m.shm_to_backend.filter(to_hostmem()).map_values(sent_id());
    assert((|p: (BufferId, BufferLocation)| p.1 == BufferLocation::HostMem) =~= to_hostmem());
    assert((|p: (BufferId, BufferLocation)| p.0) =~= sent_id());
    assert(bound == bound_for_hostmem(m.shm_to_backend));
    let (shm_free, shm_short) = hand_out(m.shm_free, m.hostmem_to_shm);
    let (host_free, host_short) = hand_out(m.host_free, bound);
    let staging = Staging {
        shm_free,
        host_free,
        candidates: m.shm,
        spilled: m.shm_to_backend,
        queue: Seq::empty(),
    };
    if let Ok(done) = evict_shm(staging, shm_short) {
        let host = HostEviction {
            free: done.host_free,
            candidates: m.hostmem,
            to_storage: m.hostmem_to_storage,
        };
        lemma_evict_appends(host, host_short);
    }
    if blocks_needed(m.hostmem_to_shm) <= m.shm_free && blocks_needed(bound) <= m.host_free {
        lemma_all_handed_out(m.shm_free, m.hostmem_to_shm);
        lemma_all_handed_out(m.host_free, bound);
        assert(evict_shm(staging, shm_short) == Ok::<Staging, PlanFault>(staging));
    }
}

proof fn lemma_room_appends(m: HostEviction, need: int)
    ensures
        m.make_room(need) matches Ok(r) ==> r.to_storage.len() >= m.to_storage.len()
            && r.to_storage.take(m.to_storage.len() as int) == m.to_storage,
    decreases m.candidates.len(),
{
    assert(m.to_storage.take(m.to_storage.len() as int) =~= m.to_storage);
    if m.free < need && m.candidates.len() > 0 {
        let (id, capacity) = m.candidates[0];
        let next = HostEviction {
            free: m.free + capacity.0 as int / crate::constant::BLOCK_BYTES as int,
            candidates: m.candidates.drop_first(),
            to_storage: m.to_storage.push(id),
        };
        lemma_room_appends(next, need);
        if let Ok(r) = m.make_room(need) {
            assert(r.to_storage.take(m.to_storage.len() as int) =~= r.to_storage.take(
                next.to_storage.len() as int,
            ).take(m.to_storage.len() as int));
            assert(next.to_storage.take(m.to_storage.len() as int) =~= m.to_storage);
        }
    }
}

proof fn lemma_evict_appends(m: HostEviction, sizes: Seq<u32>)
    ensures
        m.evict(sizes) matches Ok(r) ==> r.to_storage.len() >= m.to_storage.len()
            && r.to_storage.take(m.to_storage.len() as int) == m.to_storage,
    decreases sizes.len(),
{
    assert(m.to_storage.take(m.to_storage.len() as int) =~= m.to_storage);
    if sizes.len() > 0 {
        let need = block_count(sizes[0]) as int;
        lemma_room_appends(m, need);
        if let Ok(room) = m.make_room(need) {
            let next = HostEviction { free: room.free - need, ..room };
            lemma_evict_appends(next, sizes.drop_first());
            if let Ok(r) = m.evict(sizes) {
                assert(r.to_storage.take(m.to_storage.len() as int) =~= r.to_storage.take(
                    next.to_storage.len() as int,
                ).take(m.to_storage.len() as int));
            }
        }
    }
}

/// A request for one process with one requirement, from host memory to shared memory: buffers of
/// the process that are in host memory go, with as many bytes as were asked for, or all of them
/// where less will do. Where neither is possible, the request is refused.
pub proof fn law_hostmem_is_brought_closer(
    pid: i32,
    req: MigrationRequirement,
    h: DataManagerHandle,
    c: (BufferId, AllocationCapacity),
)
    requires
        req.from is HostMem,
        req.to is Shm,
    ensures
        ({
            let plan = local_plan(seq![(pid, seq![req])], h);
            &&& plan matches Ok(task) ==> {
                &&& bytes_of(task.hostmem_to_shm) >= req.size || req.allow_incomplete && (
                h.hostmem@.contains(c) && c.0.pid == pid ==> task.hostmem_to_shm.contains(c.0))
                &&& task.hostmem_to_shm.contains(c.0) ==> c.0.pid == pid && exists|k: int|
                    0 <= k < h.hostmem@.len() && (#[trigger] h.hostmem@[k]).0 == c.0
            }
            &&& !req.allow_incomplete && bytes_listed(
                h.hostmem@.filter(|x: (BufferId, AllocationCapacity)| x.0.pid == pid),
            ) < req.size ==> plan == Err::<TaskModel, Refusal>(Refusal::Unsatisfiable)
        }),
{
    let requests = seq![(pid, seq![req])];
    let m = moves_before(h);
    let moved = chosen(h.hostmem@, pid, req.size as int);
    let ids = moved.map_values(|x: (BufferId, AllocationCapacity)| x.0);
    law_requirement_is_met(m, pid, req, c.0);
    law_enough_is_chosen(h.hostmem@, pid, req.size as int, c);
    assert(pids_distinct(requests));
    assert(seq![req].drop_first() =~= Seq::<MigrationRequirement>::empty());
    assert(requests.drop_first() =~= Seq::<(i32, Seq<MigrationRequirement>)>::empty());
    reveal_with_fuel(Moves::decide_all, 3);
    reveal_with_fuel(Moves::decide_requests, 3);
    assert(m.decide_all(pid, seq![req]) == m.decide(pid, req));
    lemma_chosen_bytes(h.hostmem@, pid, req.size as int);
    if let Some(n) = m.decide(pid, req) {
        let end = n.settle(pid);
        assert(m.decide_requests(requests) == Some(end));
        law_decisions_are_carried_out(end);
        assert(n.hostmem_to_shm =~= ids);
        lemma_ids_bytes(moved);
        if ids.contains(c.0) {
            let k = choose|k: int| 0 <= k < ids.len() && ids[k] == c.0;
            law_enough_is_chosen(h.hostmem@, pid, req.size as int, moved[k]);
            assert(moved.contains(moved[k]));
            let j = choose|j: int| 0 <= j < h.hostmem@.len() && h.hostmem@[j] == moved[k];
            assert(h.hostmem@[j].0 == c.0);
        }
        if moved.contains(c) {
            let k = choose|k: int| 0 <= k < moved.len() && moved[k] == c;
            assert(ids[k] == c.0);
        }
    }
}

/// The bytes of some buffers.
pub open spec fn bytes_of(ids: Seq<BufferId>) -> int {
    sum_of(ids, |id: BufferId| id.size as int)
}

proof fn lemma_ids_bytes(list: Listing)
    ensures
        bytes_of(list.map_values(|x: (BufferId, AllocationCapacity)| x.0)) == bytes_listed(list),
    decreases list.len(),
{
    if list.len() > 0 {
        lemma_ids_bytes(list.drop_last());
        assert(list.map_values(|x: (BufferId, AllocationCapacity)| x.0).drop_last()
            =~= list.drop_last().map_values(|x: (BufferId, AllocationCapacity)| x.0));
    }
}

proof fn lemma_chosen_bytes(list: Listing, pid: i32, need: int)
    ensures
        0 <= bytes_listed(chosen(list, pid, need)) <= bytes_listed(
            list.filter(|x: (BufferId, AllocationCapacity)| x.0.pid == pid),
        ),
    decreases list.len(),
{
    let own = |x: (BufferId, AllocationCapacity)| x.0.pid == pid;
    let size = |c: (BufferId, AllocationCapacity)| c.0.size as int;
    reveal(Seq::filter);
    if list.len() > 0 {
        let rest = list.drop_first();
        let next = if list[0].0.pid == pid && need > 0 {
            need - list[0].0.size
        } else {
            need
        };
        lemma_chosen_bytes(rest, pid, next);
        lemma_filter_first(list, own);
        if own(list[0]) {
            let kept = list.filter(own);
            assert(kept.drop_first() =~= rest.filter(own));
            lemma_sum_first(kept, size);
            if need > 0 {
                let all = chosen(list, pid, need);
                assert(all.drop_first() =~= chosen(rest, pid, next));
                lemma_sum_first(all, size);
            }
        }
    }
}

proof fn lemma_filter_first(list: Listing, keep: spec_fn((BufferId, AllocationCapacity)) -> bool)
    requires
        list.len() > 0,
    ensures
        list.filter(keep) == if keep(list[0]) {
            seq![list[0]] + list.drop_first().filter(keep)
        } else {
            list.drop_first().filter(keep)
        },
    decreases list.len(),
{
    let init = list.drop_last();
    crate::sorting::lemma_filter_push(init, list.last(), keep);
    assert(init.push(list.last()) =~= list);
    let none = Seq::<(BufferId, AllocationCapacity)>::empty();
    assert(none.filter(keep) =~= none) by {
        reveal(Seq::filter);
    }
    if init.len() > 0 {
        lemma_filter_first(init, keep);
        crate::sorting::lemma_filter_push(init.drop_first(), list.last(), keep);
        assert(init.drop_first().push(list.last()) =~= list.drop_first());
    } else {
        assert(init =~= none);
        assert(list.drop_first() =~= none);
    }
    assert(list.filter(keep) =~= if keep(list[0]) {
        seq![list[0]] + list.drop_first().filter(keep)
    } else {
        list.drop_first().filter(keep)
    });
}

/// A request that names a process twice is refused for that, and no other is.
pub proof fn law_no_process_twice(
    requests: Seq<(i32, Seq<MigrationRequirement>)>,
    h: DataManagerHandle,
)
    ensures
        (exists|i: int, j: int|
            0 <= i < j < requests.len() && (#[trigger] requests[i]).0 == (#[trigger] requests[j]).0)
            <==> local_plan(requests, h) == Err::<TaskModel, Refusal>(Refusal::DuplicatedPids),
{
    if let Some(m) = moves_before(h).decide_requests(requests) {
        let bound = m.shm_to_backend.filter(to_hostmem()).map_values(sent_id());
        let (shm_free, shm_short) = hand_out(m.shm_free, m.hostmem_to_shm);
        let (host_free, host_short) = hand_out(m.host_free, bound);
        let staging = Staging {
            shm_free,
            host_free,
            candidates: m.shm,
            spilled: m.shm_to_backend,
            queue: Seq::empty(),
        };
        if let Ok(done) = evict_shm(staging, shm_short) {
            lemma_evict_refusals(
                HostEviction {
                    free: done.host_free,
                    candidates: m.hostmem,
                    to_storage: m.hostmem_to_storage,
                },
                host_short,
            );
        }
    }
}

proof fn lemma_room_refusals(m: HostEviction, need: int)
    ensures
        m.make_room(need) matches Err(e) ==> e == Refusal::NotEnoughHostMem || e
            == Refusal::MisalignedCapacity,
    decreases m.candidates.len(),
{
    if m.free < need && m.candidates.len() > 0 {
        let (id, capacity) = m.candidates[0];
        lemma_room_refusals(
            HostEviction {
                free: m.free + capacity.0 as int / crate::constant::BLOCK_BYTES as int,
                candidates: m.candidates.drop_first(),
                to_storage: m.to_storage.push(id),
            },
            need,
        );
    }
}

proof fn lemma_evict_refusals(m: HostEviction, sizes: Seq<u32>)
    ensures
        m.evict(sizes) matches Err(e) ==> e == Refusal::NotEnoughHostMem || e
            == Refusal::MisalignedCapacity,
    decreases sizes.len(),
{
    if sizes.len() > 0 {
        let need = block_count(sizes[0]) as int;
        lemma_room_refusals(m, need);
        if let Ok(room) = m.make_room(need) {
            lemma_evict_refusals(
                HostEviction { free: room.free - need, ..room },
                sizes.drop_first(),
            );
        }
    }
}

// Part of a process.

proof fn lemma_fitting(entries: Seq<PhysicalMemoryData>, room: int, x: int)
    requires
        0 <= x < entries.len(),
        room >= 0,
    ensures
        bytes_of_allocations(fitting(entries, room)) <= room,
        fitting(entries, room).contains(entries[x]) || bytes_of_allocations(fitting(entries, room))
            + entries[x].size > room,
    decreases entries.len(),
{
    let size = |e: PhysicalMemoryData| e.size as int;
    assert(size =~= entry_size());
    let before = entries.drop_last();
    let kept = fitting(before, room);
    let all = fitting(entries, room);
    lemma_fitting_room(before, room);
    lemma_fitting_room(entries, room);
    lemma_sum_push(kept, entries.last(), entry_size());
    if x < before.len() {
        lemma_fitting(before, room, x);
        assert(before[x] == entries[x]);
        if kept.contains(entries[x]) {
            let i = choose|i: int| 0 <= i < kept.len() && kept[i] == entries[x];
            assert(all[i] == entries[x]);
        }
    } else if all.len() > kept.len() {
        assert(all[kept.len() as int] == entries[x]);
    }
}

proof fn lemma_fitting_room(entries: Seq<PhysicalMemoryData>, room: int)
    requires
        room >= 0,
    ensures
        bytes_of_allocations(fitting(entries, room)) <= room,
    decreases entries.len(),
{
    assert((|e: PhysicalMemoryData| e.size as int) =~= entry_size());
    if entries.len() > 0 {
        lemma_fitting_room(entries.drop_last(), room);
        lemma_sum_push(fitting(entries.drop_last(), room), entries.last(), entry_size());
    }
}

/// What is brought in ahead of time on a device fits where the others are, and nothing is left out
/// that would still fit.
pub proof fn law_nothing_that_fits_is_left_out(
    allocs: AllocationModel,
    victims: Seq<(i32, AllocationModel)>,
    i: int,
    x: int,
)
    requires
        0 <= i < allocs.len(),
        0 <= x < allocs[i].1.len(),
    ensures
        ({
            let kept = fitting_allocs(allocs, victims)[i];
            let room = bytes_held(victims, allocs[i].0);
            &&& fitting_allocs(allocs, victims).len() == allocs.len()
            &&& kept.0 == allocs[i].0
            &&& bytes_of_allocations(kept.1) <= room
            &&& kept.1.contains(allocs[i].1[x]) || bytes_of_allocations(kept.1)
                + allocs[i].1[x].size > room
        }),
{
    super::clearing_laws::lemma_held(victims, allocs[i].0);
    super::clearing_laws::lemma_held_nonneg(victims, allocs[i].0);
    lemma_fitting(allocs[i].1, bytes_held(victims, allocs[i].0), x);
}

/// A process that is on the GPU already, with any allocation, is not brought onto it ahead of time;
/// and that is the only reason to say so.
pub proof fn law_prefetch_of_what_is_on_the_gpu(
    pid: i32,
    allocs: AllocationModel,
    victims: Seq<(i32, AllocationModel)>,
    h: DataManagerHandle,
)
    ensures
        gpu_prefetch_plan(pid, allocs, victims, h) == PlanModel::Fault(PlanFault::AlreadyOnGpu)
            <==> exists|i: int, j: int|
            0 <= i < allocs.len() && 0 <= j < allocs[i].1.len()
                && (#[trigger] allocs[i].1[j]).on_gpu,
{
    if !super::realtime::any_on_gpu(allocs) {
        super::gpu_prefetch_laws::lemma_fitting_off_gpu(allocs, victims);
        law_on_the_gpu_already(pid, fitting_allocs(allocs, victims), victims, h, false);
    }
}

/// Requests are read in full: process by process and requirement by requirement.
pub proof fn law_requests_are_read(
    requests: Seq<(i32, Vec<MigrationRequirement>)>,
    i: int,
)
    ensures
        super::prefetch::deep_requests(requests).len() == requests.len(),
        0 <= i < requests.len() ==> super::prefetch::deep_requests(requests)[i].0 == requests[i].0
            && super::prefetch::deep_requests(requests)[i].1 == requests[i].1@,
        forall|h: DataManagerHandle|
            (#[trigger] moves_before(h)).shm == h.shm@ && moves_before(h).hostmem == h.hostmem@
                && moves_before(h).shm_free == h.shm_free_blocks.0 && moves_before(h).host_free
                == h.hostmem_free_blocks.0,
{
}

} // verus!
