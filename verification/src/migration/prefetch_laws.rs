//! What holds of every plan that moves data between the stores.
use vstd::prelude::*;
use crate::assoc::{assoc_has, assoc_put, keys_distinct};
use crate::constant::BLOCK_BYTES;
use crate::ids::{block_count, AllocationCapacity, BufferId, BufferLocation};
use crate::sums::{lemma_sum_append, lemma_sum_first, lemma_sum_push, sum_of};
use super::prefetch::{
    chosen,
    evict_shm,
    hand_out,
    listed_id,
    local_plan,
    make_space,
    moves_before,
    send_all,
    sent_id,
    to_hostmem,
    unchosen,
    HostEviction,
    Listing,
    MigrationRequirement,
    Moves,
};
use super::realtime::of_others;
use super::staging::{capacity_blocks, Staging};
use super::store::DataManagerHandle;

verus! {

/// Blocks that a buffer needs.
pub open spec fn id_blocks() -> spec_fn(BufferId) -> int {
    |id: BufferId| block_count(id.size) as int
}

/// Blocks of a buffer that is sent on.
pub open spec fn sent_blocks() -> spec_fn((BufferId, BufferLocation)) -> int {
    |p: (BufferId, BufferLocation)| block_count(p.0.size) as int
}

/// Blocks that a buffer which is sent on needs in host memory.
pub open spec fn hostmem_blocks() -> spec_fn((BufferId, BufferLocation)) -> int {
    |p: (BufferId, BufferLocation)|
        if p.1 == BufferLocation::HostMem {
            block_count(p.0.size) as int
        } else {
            0
        }
}

/// Blocks for a size.
pub open spec fn size_blocks() -> spec_fn(u32) -> int {
    |size: u32| block_count(size) as int
}

/// Every buffer has as many blocks as it needs, and whole ones.
pub open spec fn whole_blocks(list: Listing) -> bool {
    forall|i: int|
        0 <= i < list.len() ==> (#[trigger] list[i]).1.0 == block_count(list[i].0.size) * BLOCK_BYTES
}

/// No buffer of the list is sent on.
pub open spec fn unsent(list: Listing, map: Seq<(BufferId, BufferLocation)>) -> bool {
    forall|i: int| 0 <= i < list.len() ==> !assoc_has(map, (#[trigger] list[i]).0)
}

/// Every member of `sub` is a member of `list`.
spec fn within(sub: Listing, list: Listing) -> bool {
    forall|i: int| 0 <= i < sub.len() ==> list.contains(#[trigger] sub[i])
}

/// No buffer stands in both lists.
spec fn disjoint(a: Listing, b: Listing) -> bool {
    forall|i: int, j: int|
        0 <= i < a.len() && 0 <= j < b.len() ==> (#[trigger] a[i]).0 != (#[trigger] b[j]).0
}

proof fn lemma_split_within(list: Listing, pid: i32, need: int)
    ensures
        within(chosen(list, pid, need), list),
        within(unchosen(list, pid, need), list),
    decreases list.len(),
{
    if list.len() > 0 {
        let rest = list.drop_first();
        let taken = list[0].0.pid == pid && need > 0;
        let left = if taken {
            need - list[0].0.size
        } else {
            need
        };
        lemma_split_within(rest, pid, left);
        let c = chosen(rest, pid, left);
        let u = unchosen(rest, pid, left);
        assert forall|x: (BufferId, AllocationCapacity)| rest.contains(x) implies list.contains(
            x,
        ) by {
            let k = choose|k: int| 0 <= k < rest.len() && rest[k] == x;
            assert(list[k + 1] == x);
        }
        assert(list.contains(list[0]));
        let all = chosen(list, pid, need);
        let others = unchosen(list, pid, need);
        assert forall|i: int| 0 <= i < all.len() implies list.contains(#[trigger] all[i]) by {
            if taken && i > 0 {
                assert(all[i] == c[i - 1]);
            } else if !taken {
                assert(all[i] == c[i]);
            }
        }
        assert forall|i: int| 0 <= i < others.len() implies list.contains(#[trigger] others[i]) by {
            if !taken && i > 0 {
                assert(others[i] == u[i - 1]);
            } else if taken {
                assert(others[i] == u[i]);
            }
        }
    }
}

proof fn lemma_split(list: Listing, pid: i32, need: int)
    requires
        keys_distinct(list),
    ensures
        keys_distinct(chosen(list, pid, need)),
        keys_distinct(unchosen(list, pid, need)),
        disjoint(chosen(list, pid, need), unchosen(list, pid, need)),
    decreases list.len(),
{
    if list.len() > 0 {
        let rest = list.drop_first();
        let left = if list[0].0.pid == pid && need > 0 {
            need - list[0].0.size
        } else {
            need
        };
        lemma_split(rest, pid, left);
        lemma_split_within(rest, pid, left);
        let c = chosen(rest, pid, left);
        let u = unchosen(rest, pid, left);
        assert forall|i: int| 0 <= i < c.len() implies (#[trigger] c[i]).0 != list[0].0 by {
            let k = choose|k: int| 0 <= k < rest.len() && rest[k] == c[i];
            assert(list[k + 1] == c[i]);
        }
        assert forall|i: int| 0 <= i < u.len() implies (#[trigger] u[i]).0 != list[0].0 by {
            let k = choose|k: int| 0 <= k < rest.len() && rest[k] == u[i];
            assert(list[k + 1] == u[i]);
        }
    }
}

proof fn lemma_within(sub: Listing, list: Listing, map: Seq<(BufferId, BufferLocation)>)
    requires
        within(sub, list),
    ensures
        unsent(list, map) ==> unsent(sub, map),
        whole_blocks(list) ==> whole_blocks(sub),
{
    assert forall|i: int| 0 <= i < sub.len() implies exists|k: int|
        0 <= k < list.len() && list[k] == #[trigger] sub[i] by {
        assert(list.contains(sub[i]));
    }
}

proof fn lemma_capacities(list: Listing)
    requires
        whole_blocks(list),
    ensures
        sum_of(list, capacity_blocks()) == sum_of(list.map_values(listed_id()), id_blocks()),
    decreases list.len(),
{
    let ids = list.map_values(listed_id());
    if list.len() > 0 {
        let sub = list.drop_last();
        assert(whole_blocks(sub)) by {
            assert forall|i: int| 0 <= i < sub.len() implies (#[trigger] sub[i]).1.0 == block_count(
                sub[i].0.size,
            ) * BLOCK_BYTES by {
                assert(sub[i] == list[i]);
            }
        }
        lemma_capacities(sub);
        assert(ids.drop_last() =~= sub.map_values(listed_id()));
        assert(list[list.len() - 1].1.0 == block_count(list.last().0.size) * BLOCK_BYTES);
    }
}

proof fn lemma_put(map: Seq<(BufferId, BufferLocation)>, id: BufferId, to: BufferLocation, k: BufferId)
    requires
        !assoc_has(map, id),
    ensures
        assoc_put(map, id, to) == map.push((id, to)),
        assoc_has(assoc_put(map, id, to), k) == (assoc_has(map, k) || k == id),
{
    crate::assoc::lemma_assoc_put_get(map, id, to, k);
}

/// What is sent on for the first time adds its blocks to those sent on.
proof fn lemma_send_all(
    map: Seq<(BufferId, BufferLocation)>,
    moved: Listing,
    to: BufferLocation,
    k: BufferId,
)
    requires
        keys_distinct(moved),
        unsent(moved, map),
    ensures
        ({
            let ids = moved.map_values(listed_id());
            let all = send_all(map, ids, to);
            &&& sum_of(all, sent_blocks()) == sum_of(map, sent_blocks()) + sum_of(ids, id_blocks())
            &&& assoc_has(all, k) ==> assoc_has(map, k) || exists|i: int|
                0 <= i < moved.len() && (#[trigger] moved[i]).0 == k
        }),
    decreases moved.len(),
{
    let ids = moved.map_values(listed_id());
    if moved.len() > 0 {
        let sub = moved.drop_last();
        let last = moved.last();
        assert(ids.drop_last() =~= sub.map_values(listed_id()));
        assert(unsent(sub, map)) by {
            assert forall|i: int| 0 <= i < sub.len() implies !assoc_has(
                map,
                (#[trigger] sub[i]).0,
            ) by {
                assert(sub[i] == moved[i]);
            }
        }
        lemma_send_all(map, sub, to, last.0);
        lemma_send_all(map, sub, to, k);
        assert(!assoc_has(map, moved[moved.len() - 1].0));
        let before = send_all(map, sub.map_values(listed_id()), to);
        if assoc_has(before, last.0) {
            let i = choose|i: int| 0 <= i < sub.len() && (#[trigger] sub[i]).0 == last.0;
            assert(moved[i].0 == moved[moved.len() - 1].0);
        }
        lemma_put(before, last.0, to, k);
        lemma_sum_push(before, (last.0, to), sent_blocks());
        if assoc_has(send_all(map, ids, to), k) && !assoc_has(map, k) {
            if k == last.0 {
                assert(moved[moved.len() - 1].0 == k);
            } else {
                let i = choose|i: int| 0 <= i < sub.len() && (#[trigger] sub[i]).0 == k;
                assert(moved[i].0 == k);
            }
        }
    }
}

/// The blocks are counted rightly while moves are decided: what is free is what was free and what
/// the decided moves free.
pub open spec fn counted(m: Moves, h: DataManagerHandle) -> bool {
    &&& keys_distinct(m.shm)
    &&& whole_blocks(m.shm)
    &&& whole_blocks(m.hostmem)
    &&& unsent(m.shm, m.shm_to_backend)
    &&& m.shm_free == h.shm_free_blocks.0 + sum_of(m.shm_to_backend, sent_blocks())
    &&& m.host_free == h.hostmem_free_blocks.0 + sum_of(m.hostmem_to_shm, id_blocks()) + sum_of(
        m.hostmem_to_storage,
        id_blocks(),
    )
}

proof fn lemma_decide(m: Moves, h: DataManagerHandle, pid: i32, req: MigrationRequirement)
    requires
        counted(m, h),
        m.decide(pid, req) is Some,
    ensures
        counted(m.decide(pid, req)->0, h),
{
    let next = m.decide(pid, req)->0;
    let need = req.size as int;
    match req.from {
        BufferLocation::Shm => {
            let moved = chosen(m.shm, pid, need);
            let rest = unchosen(m.shm, pid, need);
            let ids = moved.map_values(listed_id());
            lemma_split(m.shm, pid, need);
            lemma_split_within(m.shm, pid, need);
            lemma_within(moved, m.shm, m.shm_to_backend);
            lemma_within(rest, m.shm, m.shm_to_backend);
            lemma_capacities(moved);
            assert(next.shm_to_backend == send_all(m.shm_to_backend, ids, req.to));
            assert forall|i: int| 0 <= i < rest.len() implies !assoc_has(
                next.shm_to_backend,
                (#[trigger] rest[i]).0,
            ) by {
                lemma_send_all(m.shm_to_backend, moved, req.to, rest[i].0);
            }
            if moved.len() > 0 {
                lemma_send_all(m.shm_to_backend, moved, req.to, moved[0].0);
            }
        },
        BufferLocation::HostMem => {
            let moved = chosen(m.hostmem, pid, need);
            let rest = unchosen(m.hostmem, pid, need);
            let ids = moved.map_values(listed_id());
            lemma_split_within(m.hostmem, pid, need);
            lemma_within(moved, m.hostmem, Seq::empty());
            lemma_within(rest, m.hostmem, Seq::empty());
            lemma_capacities(moved);
            lemma_sum_append(m.hostmem_to_shm, ids, id_blocks());
            lemma_sum_append(m.hostmem_to_storage, ids, id_blocks());
        },
        _ => {},
    }
}

proof fn lemma_decide_all(
    m: Moves,
    h: DataManagerHandle,
    pid: i32,
    reqs: Seq<MigrationRequirement>,
)
    requires
        counted(m, h),
        m.decide_all(pid, reqs) is Some,
    ensures
        counted(m.decide_all(pid, reqs)->0, h),
    decreases reqs.len(),
{
    if reqs.len() > 0 {
        lemma_decide(m, h, pid, reqs[0]);
        lemma_decide_all(m.decide(pid, reqs[0])->0, h, pid, reqs.drop_first());
    }
}

proof fn lemma_kept(list: Listing, keep: spec_fn((BufferId, AllocationCapacity)) -> bool)
    ensures
        within(list.filter(keep), list),
        keys_distinct(list) ==> keys_distinct(list.filter(keep)),
    decreases list.len(),
{
    crate::sorting::lemma_filter_members(list, keep);
    if list.len() == 0 {
        reveal(Seq::filter);
    } else {
        let sub = list.drop_last();
        lemma_kept(sub, keep);
        assert(sub.push(list.last()) =~= list);
        crate::sorting::lemma_filter_push(sub, list.last(), keep);
        if keys_distinct(list) {
            let kept = sub.filter(keep);
            assert(keys_distinct(sub)) by {
                assert forall|i: int, j: int| 0 <= i < j < sub.len() implies (#[trigger] sub[i]).0
                    != (#[trigger] sub[j]).0 by {
                    assert(list[i].0 != list[j].0);
                }
            }
            assert forall|i: int| 0 <= i < kept.len() implies (#[trigger] kept[i]).0
                != list.last().0 by {
                assert(sub.contains(kept[i]));
                let k = choose|k: int| 0 <= k < sub.len() && sub[k] == kept[i];
                assert(list[k].0 != list[list.len() - 1].0);
            }
        }
    }
}

proof fn lemma_decide_requests(
    m: Moves,
    h: DataManagerHandle,
    requests: Seq<(i32, Seq<MigrationRequirement>)>,
)
    requires
        counted(m, h),
        m.decide_requests(requests) is Some,
    ensures
        counted(m.decide_requests(requests)->0, h),
    decreases requests.len(),
{
    if requests.len() > 0 {
        let (pid, reqs) = requests[0];
        lemma_decide_all(m, h, pid, reqs);
        let next = m.decide_all(pid, reqs)->0;
        lemma_kept(next.shm, of_others(pid));
        lemma_kept(next.hostmem, of_others(pid));
        lemma_within(next.shm.filter(of_others(pid)), next.shm, next.shm_to_backend);
        lemma_within(next.hostmem.filter(of_others(pid)), next.hostmem, Seq::empty());
        lemma_decide_requests(next.settle(pid), h, requests.drop_first());
    }
}

/// What is handed out was free, and what is not handed out is still needed.
proof fn lemma_hand_out(free: int, ids: Seq<BufferId>)
    requires
        free >= 0,
    ensures
        ({
            let (left, short) = hand_out(free, ids);
            &&& left >= 0
            &&& sum_of(ids, id_blocks()) == free - left + sum_of(short, size_blocks())
        }),
    decreases ids.len(),
{
    if ids.len() > 0 {
        lemma_hand_out(free, ids.drop_last());
        let (left, short) = hand_out(free, ids.drop_last());
        lemma_sum_push(short, ids.last().size, size_blocks());
    }
}

/// Blocks are neither lost nor found while buffers are moved on from shared memory.
spec fn moving_on(a: Staging, b: Staging) -> bool {
    &&& b.queue.len() == 0
    &&& keys_distinct(b.candidates)
    &&& whole_blocks(b.candidates)
    &&& unsent(b.candidates, b.spilled)
    &&& b.host_free >= 0
    &&& b.shm_free - a.shm_free == sum_of(b.spilled, sent_blocks()) - sum_of(
        a.spilled,
        sent_blocks(),
    )
    &&& a.host_free - b.host_free == sum_of(b.spilled, hostmem_blocks()) - sum_of(
        a.spilled,
        hostmem_blocks(),
    )
}

proof fn lemma_spill(m: Staging)
    requires
        m.queue.len() == 0,
        m.candidates.len() > 0,
        keys_distinct(m.candidates),
        whole_blocks(m.candidates),
        unsent(m.candidates, m.spilled),
        m.host_free >= 0,
    ensures
        ({
            let (id, capacity) = m.candidates[0];
            moving_on(
                m,
                Staging { candidates: m.candidates.drop_first(), ..m }.spill(
                    id,
                    capacity.0 as int / BLOCK_BYTES as int,
                ),
            )
        }),
{
    let (id, capacity) = m.candidates[0];
    let count = capacity.0 as int / BLOCK_BYTES as int;
    assert(count == block_count(id.size));
    let rest = m.candidates.drop_first();
    let to = if m.host_free >= count {
        BufferLocation::HostMem
    } else {
        BufferLocation::Storage
    };
    let spilled = assoc_put(m.spilled, id, to);
    lemma_put(m.spilled, id, to, id);
    lemma_sum_push(m.spilled, (id, to), sent_blocks());
    lemma_sum_push(m.spilled, (id, to), hostmem_blocks());
    assert forall|i: int| 0 <= i < rest.len() implies !assoc_has(spilled, (#[trigger] rest[i]).0)
        && rest[i].1.0 == block_count(rest[i].0.size) * BLOCK_BYTES by {
        assert(rest[i] == m.candidates[i + 1]);
        assert(!assoc_has(m.spilled, m.candidates[i + 1].0));
        lemma_put(m.spilled, id, to, rest[i].0);
    }
    assert forall|i: int, j: int| 0 <= i < j < rest.len() implies (#[trigger] rest[i]).0 != (
    #[trigger] rest[j]).0 by {
        assert(m.candidates[i + 1].0 != m.candidates[j + 1].0);
    }
}

proof fn lemma_make_room(m: Staging, need: int)
    requires
        moving_on(m, m),
        m.shm_free >= 0,
        m.make_room(need) is Ok,
    ensures
        moving_on(m, m.make_room(need)->Ok_0),
        m.make_room(need)->Ok_0.shm_free >= need,
    decreases m.candidates.len(),
{
    if m.shm_free < need {
        if m.candidates.len() == 0 {
            assert(m.drain(need, 0) is Err);
        } else {
            let (id, capacity) = m.candidates[0];
            let next = Staging { candidates: m.candidates.drop_first(), ..m }.spill(
                id,
                capacity.0 as int / BLOCK_BYTES as int,
            );
            lemma_spill(m);
            lemma_make_room(next, need);
        }
    }
}

proof fn lemma_evict_shm(m: Staging, sizes: Seq<u32>)
    requires
        moving_on(m, m),
        m.shm_free >= 0,
        evict_shm(m, sizes) is Ok,
    ensures
        ({
            let end = evict_shm(m, sizes)->Ok_0;
            &&& moving_on(
                m,
                Staging { shm_free: end.shm_free + sum_of(sizes, size_blocks()), ..end },
            )
            &&& end.shm_free >= 0
        }),
    decreases sizes.len(),
{
    if sizes.len() > 0 {
        let need = block_count(sizes[0]) as int;
        lemma_make_room(m, need);
        let room = m.make_room(need)->Ok_0;
        lemma_sum_first(sizes, size_blocks());
        lemma_evict_shm(Staging { shm_free: room.shm_free - need, ..room }, sizes.drop_first());
    }
}

proof fn lemma_host_make_room(m: HostEviction, need: int)
    requires
        whole_blocks(m.candidates),
        m.make_room(need) is Ok,
    ensures
        ({
            let r = m.make_room(need)->Ok_0;
            &&& whole_blocks(r.candidates)
            &&& r.free >= need
            &&& r.free - m.free == sum_of(r.to_storage, id_blocks()) - sum_of(
                m.to_storage,
                id_blocks(),
            )
        }),
    decreases m.candidates.len(),
{
    if m.free < need {
        let (id, capacity) = m.candidates[0];
        let rest = m.candidates.drop_first();
        let next = HostEviction {
            free: m.free + capacity.0 as int / BLOCK_BYTES as int,
            candidates: rest,
            to_storage: m.to_storage.push(id),
        };
        assert(m.candidates[0].1.0 == block_count(id.size) * BLOCK_BYTES);
        lemma_sum_push(m.to_storage, id, id_blocks());
        assert forall|i: int| 0 <= i < rest.len() implies (#[trigger] rest[i]).1.0 == block_count(
            rest[i].0.size,
        ) * BLOCK_BYTES by {
            assert(rest[i] == m.candidates[i + 1]);
        }
        lemma_host_make_room(next, need);
    }
}

proof fn lemma_host_evict(m: HostEviction, sizes: Seq<u32>)
    requires
        whole_blocks(m.candidates),
        m.free >= 0,
        m.evict(sizes) is Ok,
    ensures
        ({
            let end = m.evict(sizes)->Ok_0;
            &&& end.free >= 0
            &&& end.free + sum_of(sizes, size_blocks()) - m.free == sum_of(
                end.to_storage,
                id_blocks(),
            ) - sum_of(m.to_storage, id_blocks())
        }),
    decreases sizes.len(),
{
    if sizes.len() > 0 {
        let need = block_count(sizes[0]) as int;
        lemma_host_make_room(m, need);
        let room = m.make_room(need)->Ok_0;
        lemma_sum_first(sizes, size_blocks());
        lemma_host_evict(HostEviction { free: room.free - need, ..room }, sizes.drop_first());
    }
}

/// Those that are sent to host memory, taken out of all that are sent on.
proof fn lemma_sent_to_hostmem(map: Seq<(BufferId, BufferLocation)>)
    ensures
        sum_of(map.filter(to_hostmem()).map_values(sent_id()), id_blocks()) == sum_of(
            map,
            hostmem_blocks(),
        ),
    decreases map.len(),
{
    if map.len() == 0 {
        reveal(Seq::filter);
    } else {
        let sub = map.drop_last();
        let last = map.last();
        lemma_sent_to_hostmem(sub);
        assert(sub.push(last) =~= map);
        crate::sorting::lemma_filter_push(sub, last, to_hostmem());
        let kept = sub.filter(to_hostmem());
        assert(kept.push(last).map_values(sent_id()) =~= kept.map_values(sent_id()).push(last.0));
        lemma_sum_push(kept.map_values(sent_id()), last.0, id_blocks());
    }
}

proof fn lemma_sum_not_negative(map: Seq<(BufferId, BufferLocation)>, ids: Seq<BufferId>)
    ensures
        sum_of(map, sent_blocks()) >= 0,
        sum_of(ids, id_blocks()) >= 0,
{
    crate::sums::lemma_sum_bounds(map, sent_blocks(), u32::MAX as int);
    crate::sums::lemma_sum_bounds(ids, id_blocks(), u32::MAX as int);
}

/// A plan never needs more blocks of shared memory, or of host memory, than are free there and than
/// it frees there. Every buffer in shared memory is listed once, and buffers have whole blocks.
pub proof fn law_blocks_suffice(
    requests: Seq<(i32, Seq<MigrationRequirement>)>,
    h: DataManagerHandle,
)
    requires
        local_plan(requests, h) is Ok,
        keys_distinct(h.shm@),
        whole_blocks(h.shm@),
        whole_blocks(h.hostmem@),
    ensures
        ({
            let task = local_plan(requests, h)->Ok_0;
            &&& sum_of(task.hostmem_to_shm, id_blocks()) + sum_of(task.storage_to_shm, id_blocks())
                <= h.shm_free_blocks.0 + sum_of(task.shm_to_backend, sent_blocks())
            &&& sum_of(task.storage_to_hostmem, id_blocks()) + sum_of(
                task.shm_to_backend,
                hostmem_blocks(),
            ) <= h.hostmem_free_blocks.0 + sum_of(task.hostmem_to_shm, id_blocks()) + sum_of(
                task.hostmem_to_storage,
                id_blocks(),
            )
        }),
{
    let start = moves_before(h);
    assert(unsent(start.shm, start.shm_to_backend));
    lemma_decide_requests(start, h, requests);
    let m = start.decide_requests(requests)->0;
    let task = make_space(m)->Ok_0;
    let to_host = m.shm_to_backend.filter(to_hostmem()).map_values(sent_id());
    lemma_sum_not_negative(m.shm_to_backend, m.hostmem_to_shm);
    lemma_sum_not_negative(m.shm_to_backend, m.hostmem_to_storage);
    lemma_hand_out(m.shm_free, m.hostmem_to_shm);
    lemma_hand_out(m.host_free, to_host);
    lemma_sent_to_hostmem(m.shm_to_backend);
    let (shm_free, shm_short) = hand_out(m.shm_free, m.hostmem_to_shm);
    let (host_free, host_short) = hand_out(m.host_free, to_host);
    let staging = Staging {
        shm_free,
        host_free,
        candidates: m.shm,
        spilled: m.shm_to_backend,
        queue: Seq::empty(),
    };
    lemma_evict_shm(staging, shm_short);
    let done = evict_shm(staging, shm_short)->Ok_0;
    let host = HostEviction {
        free: done.host_free,
        candidates: m.hostmem,
        to_storage: m.hostmem_to_storage,
    };
    lemma_host_evict(host, host_short);
}

} // verus!
