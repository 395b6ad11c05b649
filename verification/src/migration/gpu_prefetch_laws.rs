//! What holds of every plan that brings part of a process onto the GPU ahead of time.
use vstd::prelude::*;
use crate::assoc::{assoc_get, assoc_has, assoc_pos, keys_distinct, lemma_assoc_pos};
use crate::control::PhysicalMemoryData;
use crate::ids::{block_count, BufferId, GlobalDeviceId};
use crate::sorting::{insert_ordered, lemma_filter_push, lemma_sorted_is_permutation, stable_sorted};
use crate::sums::{lemma_sum_bounds, lemma_sum_first, lemma_sum_push, sum_of};
use super::prefetch::{fitting, fitting_allocs, gpu_prefetch_plan, held_on, law_prefetch_fits};
use super::prefetch_laws::id_blocks;
use super::realtime::{
    any_on_gpu,
    by_size,
    clear_devices,
    entry_buffer,
    entry_size,
    hostmem_returned,
    incoming,
    incoming_on,
    incoming_spec,
    larger_first,
    lemma_taken_len,
    located,
    outgoing,
    realtime_plan,
    requested_ids,
    requirement,
    shm_returned,
    staging_before,
    taken_len,
    waits_in_hostmem,
    waits_in_storage,
    AllocationModel,
    Clearing,
    RequestModel,
};
use super::realtime_laws::{bytes_on, freed_on, law_plan_frees_enough, spec_entry_size};
use super::staging::Staging;
use super::store::DataManagerHandle;
use super::task::{MigrationSpecEntry, SpecModel};

verus! {

/// Blocks that an allocation needs in shared memory.
pub open spec fn entry_blocks() -> spec_fn(PhysicalMemoryData) -> int {
    |e: PhysicalMemoryData| block_count(e.size) as int
}

/// Blocks that all that a process has on one device needs.
pub open spec fn device_blocks() -> spec_fn((GlobalDeviceId, Seq<PhysicalMemoryData>)) -> int {
    |p: (GlobalDeviceId, Seq<PhysicalMemoryData>)| sum_of(p.1, entry_blocks())
}

/// Blocks that all that a process has needs.
pub open spec fn all_blocks() -> spec_fn((i32, AllocationModel)) -> int {
    |v: (i32, AllocationModel)| sum_of(v.1, device_blocks())
}

/// Blocks that what a process has on `device` needs.
pub open spec fn blocks_on(device: GlobalDeviceId) -> spec_fn((i32, AllocationModel)) -> int {
    |v: (i32, AllocationModel)|
        match assoc_get(v.1, device) {
            Some(entries) => sum_of(entries, entry_blocks()),
            None => 0,
        }
}

// Sums over what is sorted.

proof fn lemma_insert_sum<T>(t: Seq<T>, x: T, before: spec_fn(T, T) -> bool, f: spec_fn(T) -> int)
    ensures
        sum_of(insert_ordered(t, x, before), f) == sum_of(t, f) + f(x),
    decreases t.len(),
{
    if t.len() == 0 || !before(x, t.last()) {
        lemma_sum_push(t, x, f);
    } else {
        lemma_insert_sum(t.drop_last(), x, before, f);
        lemma_sum_push(insert_ordered(t.drop_last(), x, before), t.last(), f);
    }
}

pub proof fn lemma_sorted_sum<T>(s: Seq<T>, before: spec_fn(T, T) -> bool, f: spec_fn(T) -> int)
    ensures
        sum_of(stable_sorted(s, before), f) == sum_of(s, f),
    decreases s.len(),
{
    if s.len() > 0 {
        lemma_sorted_sum(s.drop_last(), before, f);
        lemma_insert_sum(stable_sorted(s.drop_last(), before), s.last(), before, f);
    }
}

proof fn lemma_take_sum<T>(s: Seq<T>, n: int, f: spec_fn(T) -> int)
    requires
        0 <= n <= s.len(),
        forall|x: T| #[trigger] f(x) >= 0,
    ensures
        0 <= sum_of(s.take(n), f) <= sum_of(s, f),
    decreases s.len(),
{
    if n == s.len() {
        assert(s.take(n) =~= s);
        if n > 0 {
            lemma_take_sum(s.drop_last(), n - 1, f);
            assert(s.drop_last().take(n - 1) =~= s.drop_last());
        }
    } else {
        lemma_take_sum(s.drop_last(), n, f);
        assert(s.drop_last().take(n) =~= s.take(n));
        assert(f(s.last()) >= 0);
    }
}

proof fn lemma_buffer_blocks(pid: i32, device: GlobalDeviceId, entries: Seq<PhysicalMemoryData>)
    ensures
        sum_of(entries.map_values(entry_buffer(pid, device)), id_blocks()) == sum_of(
            entries,
            entry_blocks(),
        ),
    decreases entries.len(),
{
    let ids = entries.map_values(entry_buffer(pid, device));
    if entries.len() > 0 {
        lemma_buffer_blocks(pid, device, entries.drop_last());
        assert(ids.drop_last() =~= entries.drop_last().map_values(entry_buffer(pid, device)));
    }
}

// Room is there.

/// Where enough blocks are free, buffers are placed and nothing is moved on.
proof fn lemma_place_all_fits(m: Staging, ids: Seq<BufferId>)
    requires
        sum_of(ids, id_blocks()) <= m.shm_free,
    ensures
        m.place_all(ids) is Ok,
        m.place_all(ids)->Ok_0.shm_free == m.shm_free - sum_of(ids, id_blocks()),
    decreases ids.len(),
{
    if ids.len() > 0 {
        lemma_sum_bounds(ids.drop_last(), id_blocks(), u32::MAX as int);
        lemma_place_all_fits(m, ids.drop_last());
        let next = m.place_all(ids.drop_last())->Ok_0;
        assert(next.make_room(block_count(ids.last().size) as int) == Ok::<
            Staging,
            super::staging::PlanFault,
        >(next));
    }
}

/// What taking from one process comes to: it needs no more blocks than all that the process has
/// there, and it frees enough or everything.
proof fn lemma_take_from_fits(
    c: Clearing,
    victim: (i32, AllocationModel),
    device: GlobalDeviceId,
    required: int,
)
    requires
        blocks_on(device)(victim) <= c.staging.shm_free,
    ensures
        c.take_from(victim, device, required) is Ok,
        ({
            let r = c.take_from(victim, device, required)->Ok_0;
            &&& r.staging.shm_free >= c.staging.shm_free - blocks_on(device)(victim)
            &&& r.freed >= required || r.freed == c.freed + held_on(device)(victim)
        }),
{
    if let Some(entries) = assoc_get(victim.1, device) {
        let sorted = by_size(entries);
        let n = taken_len(sorted, c.freed, required) as int;
        let chosen = sorted.take(n);
        lemma_taken_len(sorted, c.freed, required);
        lemma_take_sum(sorted, n, entry_blocks());
        lemma_sorted_sum(entries, larger_first(), entry_blocks());
        lemma_sorted_sum(entries, larger_first(), entry_size());
        lemma_buffer_blocks(victim.0, device, chosen);
        lemma_place_all_fits(c.staging, chosen.map_values(entry_buffer(victim.0, device)));
        if n == sorted.len() {
            assert(chosen =~= sorted);
        }
    }
}

proof fn lemma_held_one(victim: (i32, AllocationModel), device: GlobalDeviceId)
    ensures
        blocks_on(device)(victim) >= 0,
        held_on(device)(victim) >= 0,
{
    if let Some(entries) = assoc_get(victim.1, device) {
        lemma_sum_bounds(entries, entry_blocks(), u32::MAX as int);
        lemma_sum_bounds(entries, entry_size(), u32::MAX as int);
    }
}

proof fn lemma_held_bounds(victims: Seq<(i32, AllocationModel)>, device: GlobalDeviceId)
    ensures
        sum_of(victims, blocks_on(device)) >= 0,
        sum_of(victims, held_on(device)) >= 0,
    decreases victims.len(),
{
    if victims.len() > 0 {
        lemma_held_bounds(victims.drop_last(), device);
        lemma_held_one(victims.last(), device);
    }
}

proof fn lemma_take_from_all_fits(
    c: Clearing,
    victims: Seq<(i32, AllocationModel)>,
    device: GlobalDeviceId,
    required: int,
)
    requires
        sum_of(victims, blocks_on(device)) <= c.staging.shm_free,
    ensures
        c.take_from_all(victims, device, required) is Ok,
        ({
            let r = c.take_from_all(victims, device, required)->Ok_0;
            &&& r.staging.shm_free >= c.staging.shm_free - sum_of(victims, blocks_on(device))
            &&& r.freed >= required || r.freed == c.freed + sum_of(victims, held_on(device))
        }),
    decreases victims.len(),
{
    if victims.len() > 0 {
        let fewer = victims.drop_last();
        let last = victims.last();
        lemma_held_one(last, device);
        lemma_take_from_all_fits(c, fewer, device, required);
        let next = c.take_from_all(fewer, device, required)->Ok_0;
        lemma_take_from_fits(next, last, device, required);
        let r = next.take_from(last, device, required)->Ok_0;
        if next.freed >= required {
            if let Some(entries) = assoc_get(last.1, device) {
                let sorted = by_size(entries);
                let n = taken_len(sorted, next.freed, required) as int;
                assert(sorted.take(n) =~= Seq::empty());
            }
        }
    }
}

/// Blocks that all that the others have on the devices asked for needs.
pub open spec fn asked_blocks(victims: Seq<(i32, AllocationModel)>, required: Seq<(GlobalDeviceId, int)>) -> int
    decreases required.len(),
{
    if required.len() == 0 {
        0
    } else {
        asked_blocks(victims, required.drop_last()) + sum_of(victims, blocks_on(required.last().0))
    }
}

pub proof fn lemma_clear_devices_fits(
    staging: Staging,
    victims: Seq<(i32, AllocationModel)>,
    required: Seq<(GlobalDeviceId, int)>,
)
    requires
        asked_blocks(victims, required) <= staging.shm_free,
        forall|i: int|
            0 <= i < required.len() ==> (#[trigger] required[i]).1 <= sum_of(
                victims,
                held_on(required[i].0),
            ),
    ensures
        clear_devices(staging, victims, required) is Enough,
        clear_devices(staging, victims, required)->Enough_0.shm_free >= staging.shm_free
            - asked_blocks(victims, required),
    decreases required.len(),
{
    if required.len() > 0 {
        let fewer = required.drop_last();
        let (device, bytes) = required.last();
        lemma_held_bounds(victims, device);
        assert forall|i: int| 0 <= i < fewer.len() implies (#[trigger] fewer[i]).1 <= sum_of(
            victims,
            held_on(fewer[i].0),
        ) by {
            assert(required[i].1 <= sum_of(victims, held_on(required[i].0)));
        }
        assert(required[required.len() - 1].1 <= sum_of(victims, held_on(device)));
        lemma_clear_devices_fits(staging, victims, fewer);
        let before = clear_devices(staging, victims, fewer);
        let start = Clearing {
            staging: Staging { queue: Seq::empty(), ..before->Enough_0 },
            out: before->Enough_1,
            freed: 0,
        };
        lemma_take_from_all_fits(start, victims, device, bytes);
    }
}

/// A device has at most one place among those asked for.
spec fn at_device(device: GlobalDeviceId, blocks: int) -> spec_fn((GlobalDeviceId, int)) -> int {
    |p: (GlobalDeviceId, int)|
        if p.0 == device {
            blocks
        } else {
            0
        }
}

proof fn lemma_asked_once(required: Seq<(GlobalDeviceId, int)>, device: GlobalDeviceId, blocks: int)
    requires
        keys_distinct(required),
        blocks >= 0,
    ensures
        0 <= sum_of(required, at_device(device, blocks)) <= blocks,
        (forall|i: int| 0 <= i < required.len() ==> (#[trigger] required[i]).0 != device) ==> sum_of(
            required,
            at_device(device, blocks),
        ) == 0,
    decreases required.len(),
{
    if required.len() > 0 {
        let fewer = required.drop_last();
        assert forall|i: int, j: int| 0 <= i < j < fewer.len() implies (#[trigger] fewer[i]).0 != (
        #[trigger] fewer[j]).0 by {
            assert(required[i].0 != required[j].0);
        }
        lemma_asked_once(fewer, device, blocks);
        if required.last().0 == device {
            assert forall|i: int| 0 <= i < fewer.len() implies (#[trigger] fewer[i]).0 != device by {
                assert(required[i].0 != required[required.len() - 1].0);
            }
        } else if forall|i: int|
            0 <= i < required.len() ==> (#[trigger] required[i]).0 != device {
            assert forall|i: int| 0 <= i < fewer.len() implies (#[trigger] fewer[i]).0 != device by {
                assert(required[i].0 != device);
            }
        }
    }
}

/// Blocks that what one process has on the devices asked for needs.
spec fn asked_of(v: (i32, AllocationModel)) -> spec_fn((GlobalDeviceId, int)) -> int {
    |p: (GlobalDeviceId, int)| blocks_on(p.0)(v)
}

proof fn lemma_asked_split(
    v: (i32, AllocationModel),
    rest: (i32, AllocationModel),
    required: Seq<(GlobalDeviceId, int)>,
)
    requires
        v.1.len() > 0,
        rest.1 == v.1.drop_first(),
    ensures
        sum_of(required, asked_of(v)) <= sum_of(
            required,
            at_device(v.1[0].0, sum_of(v.1[0].1, entry_blocks())),
        ) + sum_of(required, asked_of(rest)),
    decreases required.len(),
{
    if required.len() > 0 {
        lemma_asked_split(v, rest, required.drop_last());
        let device = required.last().0;
        lemma_held_one(rest, device);
        if v.1[0].0 != device {
            lemma_assoc_pos(rest.1, device);
            let p = assoc_pos(rest.1, device);
            assert(assoc_pos(v.1, device) == p + 1);
            if p < rest.1.len() {
                assert(rest.1[p] == v.1[p + 1]);
            }
            assert(blocks_on(device)(v) == blocks_on(device)(rest));
        } else {
            assert(assoc_pos(v.1, device) == 0);
        }
    }
}

/// What a process has on distinct devices is part of what it has.
proof fn lemma_asked_of_one(v: (i32, AllocationModel), required: Seq<(GlobalDeviceId, int)>)
    requires
        keys_distinct(required),
    ensures
        sum_of(required, asked_of(v)) <= all_blocks()(v),
    decreases v.1.len(),
{
    if v.1.len() == 0 {
        lemma_asked_of_none(v, required);
    } else {
        let rest = (v.0, v.1.drop_first());
        let blocks = sum_of(v.1[0].1, entry_blocks());
        lemma_sum_bounds(v.1[0].1, entry_blocks(), u32::MAX as int);
        lemma_asked_split(v, rest, required);
        lemma_asked_once(required, v.1[0].0, blocks);
        lemma_asked_of_one(rest, required);
        lemma_sum_first(v.1, device_blocks());
    }
}

proof fn lemma_asked_of_none(v: (i32, AllocationModel), required: Seq<(GlobalDeviceId, int)>)
    requires
        v.1.len() == 0,
    ensures
        sum_of(required, asked_of(v)) == 0,
    decreases required.len(),
{
    if required.len() > 0 {
        lemma_asked_of_none(v, required.drop_last());
        assert(assoc_get(v.1, required.last().0) is None);
    }
}

proof fn lemma_asked_push(
    victims: Seq<(i32, AllocationModel)>,
    required: Seq<(GlobalDeviceId, int)>,
)
    requires
        victims.len() > 0,
    ensures
        asked_blocks(victims, required) == asked_blocks(victims.drop_last(), required) + sum_of(
            required,
            asked_of(victims.last()),
        ),
    decreases required.len(),
{
    if required.len() > 0 {
        lemma_asked_push(victims, required.drop_last());
    }
}

pub proof fn lemma_asked_of_all(
    victims: Seq<(i32, AllocationModel)>,
    required: Seq<(GlobalDeviceId, int)>,
)
    requires
        keys_distinct(required),
    ensures
        asked_blocks(victims, required) <= sum_of(victims, all_blocks()),
    decreases victims.len(),
{
    if victims.len() == 0 {
        lemma_asked_of_nobody(victims, required);
    } else {
        lemma_asked_of_all(victims.drop_last(), required);
        lemma_asked_push(victims, required);
        lemma_asked_of_one(victims.last(), required);
    }
}

proof fn lemma_asked_of_nobody(
    victims: Seq<(i32, AllocationModel)>,
    required: Seq<(GlobalDeviceId, int)>,
)
    requires
        victims.len() == 0,
    ensures
        asked_blocks(victims, required) == 0,
    decreases required.len(),
{
    if required.len() > 0 {
        lemma_asked_of_nobody(victims, required.drop_last());
    }
}

proof fn lemma_fitting_member(entries: Seq<PhysicalMemoryData>, room: int)
    ensures
        fitting(entries, room).to_multiset().subset_of(entries.to_multiset()),
        forall|j: int|
            0 <= j < fitting(entries, room).len() ==> entries.contains(
                #[trigger] fitting(entries, room)[j],
            ),
    decreases entries.len(),
{
    broadcast use vstd::seq_lib::group_to_multiset_ensures;

    if entries.len() > 0 {
        let fewer = entries.drop_last();
        lemma_fitting_member(fewer, room);
        assert(fewer.push(entries.last()) =~= entries);
        assert(entries.contains(entries.last()));
        assert forall|j: int| 0 <= j < fitting(entries, room).len() implies entries.contains(
            #[trigger] fitting(entries, room)[j],
        ) by {
            if j < fitting(fewer, room).len() {
                let x = fitting(fewer, room)[j];
                assert(fewer.contains(x));
                let k = choose|k: int| 0 <= k < fewer.len() && fewer[k] == x;
                assert(entries[k] == x);
            }
        }
    }
}

pub proof fn lemma_fitting_off_gpu(allocs: AllocationModel, victims: Seq<(i32, AllocationModel)>)
    requires
        !any_on_gpu(allocs),
    ensures
        !any_on_gpu(fitting_allocs(allocs, victims)),
{
    let part = fitting_allocs(allocs, victims);
    assert forall|i: int, j: int| 0 <= i < part.len() && 0 <= j < part[i].1.len() implies !(
    #[trigger] part[i].1[j]).on_gpu by {
        let entries = allocs[i].1;
        lemma_fitting_member(entries, sum_of(victims, held_on(allocs[i].0)));
        assert(entries.contains(part[i].1[j]));
        let k = choose|k: int| 0 <= k < entries.len() && entries[k] == part[i].1[j];
        assert(!allocs[i].1[k].on_gpu);
    }
}

/// A plan exists wherever free blocks of shared memory could take all that the others have on the
/// GPU, provided that nothing that should come in is on the GPU already.
pub proof fn law_prefetch_plan_exists(
    pid: i32,
    allocs: AllocationModel,
    victims: Seq<(i32, AllocationModel)>,
    h: DataManagerHandle,
)
    requires
        keys_distinct(allocs),
        !any_on_gpu(allocs),
        sum_of(victims, all_blocks()) <= h.shm_free_blocks.0,
    ensures
        gpu_prefetch_plan(pid, allocs, victims, h) is Task,
{
    let part = fitting_allocs(allocs, victims);
    let args = RequestModel::Residual(part);
    let required = requirement(args, h.gpu_free@, false);
    let start = staging_before(h, pid, args);
    lemma_fitting_off_gpu(allocs, victims);
    assert(keys_distinct(required)) by {
        assert forall|i: int, j: int| 0 <= i < j < required.len() implies (#[trigger] required[i]).0
            != (#[trigger] required[j]).0 by {
            assert(allocs[i].0 != allocs[j].0);
        }
    }
    assert forall|i: int| 0 <= i < required.len() implies (#[trigger] required[i]).1 <= sum_of(
        victims,
        held_on(required[i].0),
    ) by {
        law_prefetch_fits(allocs, victims, i);
        lemma_sum_bounds(part[i].1, entry_size(), u32::MAX as int);
        assert(part[i].0 == allocs[i].0);
    }
    lemma_asked_of_all(victims, required);
    lemma_sum_bounds(requested_ids(pid, args), shm_returned(h), u32::MAX as int);
    lemma_clear_devices_fits(start, victims, required);
}

// How much moves.

/// Taking on one device leaves what leaves the others as it was.
pub proof fn lemma_take_from_leaves(
    c: Clearing,
    victims: Seq<(i32, AllocationModel)>,
    device: GlobalDeviceId,
    required: int,
    other: GlobalDeviceId,
)
    requires
        c.take_from_all(victims, device, required) is Ok,
    ensures
        ({
            let r = c.take_from_all(victims, device, required)->Ok_0;
            &&& other != device ==> freed_on(r.out, other) == freed_on(c.out, other)
            &&& freed_on(r.out, device) - freed_on(c.out, device) == r.freed - c.freed
            &&& r.freed <= c.freed + sum_of(victims, held_on(device))
        }),
    decreases victims.len(),
{
    if victims.len() > 0 {
        lemma_take_from_leaves(c, victims.drop_last(), device, required, other);
        let next = c.take_from_all(victims.drop_last(), device, required)->Ok_0;
        let victim = victims.last();
        super::realtime_laws::lemma_take_from_frees(next, victim, device, required, other);
        if let Some(entries) = assoc_get(victim.1, device) {
            let sorted = by_size(entries);
            let n = taken_len(sorted, next.freed, required) as int;
            let chosen = sorted.take(n);
            lemma_taken_len(sorted, next.freed, required);
            lemma_take_sum(sorted, n, entry_size());
            lemma_sorted_sum(entries, larger_first(), entry_size());
            if chosen.len() > 0 && other != device {
                let spec: SpecModel = (victim.0, seq![(device, chosen.map_values(outgoing()))]);
                lemma_sum_push(next.out, spec, bytes_on(other));
                lemma_assoc_pos(spec.1, other);
                assert(bytes_on(other)(spec) == 0);
            }
        }
    }
}

/// What leaves a device is no more than the others have there, and nothing leaves a device that
/// is not asked for.
pub proof fn lemma_clear_devices_leaves(
    staging: Staging,
    victims: Seq<(i32, AllocationModel)>,
    required: Seq<(GlobalDeviceId, int)>,
    device: GlobalDeviceId,
)
    requires
        keys_distinct(required),
        clear_devices(staging, victims, required) is Enough,
    ensures
        ({
            let out = clear_devices(staging, victims, required)->Enough_1;
            &&& freed_on(out, device) <= sum_of(victims, held_on(device))
            &&& (forall|i: int| 0 <= i < required.len() ==> (#[trigger] required[i]).0 != device)
                ==> freed_on(out, device) == 0
        }),
    decreases required.len(),
{
    lemma_held_bounds(victims, device);
    if required.len() > 0 {
        let fewer = required.drop_last();
        let (last, bytes) = required.last();
        assert forall|i: int, j: int| 0 <= i < j < fewer.len() implies (#[trigger] fewer[i]).0 != (
        #[trigger] fewer[j]).0 by {
            assert(required[i].0 != required[j].0);
        }
        lemma_clear_devices_leaves(staging, victims, fewer, device);
        let before = clear_devices(staging, victims, fewer);
        let start = Clearing {
            staging: Staging { queue: Seq::empty(), ..before->Enough_0 },
            out: before->Enough_1,
            freed: 0,
        };
        lemma_take_from_leaves(start, victims, last, bytes, device);
        if last == device {
            assert forall|i: int| 0 <= i < fewer.len() implies (#[trigger] fewer[i]).0 != device by {
                assert(required[i].0 != required[required.len() - 1].0);
            }
            assert(required[required.len() - 1].0 == device);
        } else if forall|i: int| 0 <= i < required.len() ==> (#[trigger] required[i]).0 != device {
            assert forall|i: int| 0 <= i < fewer.len() implies (#[trigger] fewer[i]).0 != device by {
                assert(required[i].0 != device);
            }
        }
    }
}

proof fn lemma_incoming_sum(
    h: DataManagerHandle,
    pid: i32,
    device: GlobalDeviceId,
    sorted: Seq<PhysicalMemoryData>,
)
    ensures
        sum_of(
            sorted.filter(located(h, pid, device)).map_values(incoming(h, pid, device)),
            spec_entry_size(),
        ) <= sum_of(sorted, entry_size()),
    decreases sorted.len(),
{
    let keep = located(h, pid, device);
    let f = incoming(h, pid, device);
    if sorted.len() == 0 {
        reveal(Seq::filter);
    } else {
        let fewer = sorted.drop_last();
        let last = sorted.last();
        lemma_incoming_sum(h, pid, device, fewer);
        assert(fewer.push(last) =~= sorted);
        lemma_filter_push(fewer, last, keep);
        let kept = fewer.filter(keep);
        if keep(last) {
            assert(kept.push(last).map_values(f) =~= kept.map_values(f).push(f(last)));
            lemma_sum_push(kept.map_values(f), f(last), spec_entry_size());
        }
    }
}

/// On every device no more comes in than leaves it, and no more leaves it than the others have
/// there. Nothing leaves a device that the process does not ask for.
pub proof fn law_prefetch_is_balanced(
    pid: i32,
    allocs: AllocationModel,
    victims: Seq<(i32, AllocationModel)>,
    h: DataManagerHandle,
    device: GlobalDeviceId,
)
    requires
        keys_distinct(allocs),
        gpu_prefetch_plan(pid, allocs, victims, h) is Task,
    ensures
        ({
            let task = gpu_prefetch_plan(pid, allocs, victims, h)->Task_0;
            let entering = bytes_on(device)(task.into_gpu->0);
            let leaving = freed_on(task.out_from_gpu, device);
            &&& task.into_gpu is Some
            &&& entering <= leaving <= sum_of(victims, held_on(device))
            &&& !assoc_has(allocs, device) ==> leaving == 0
        }),
{
    let part = fitting_allocs(allocs, victims);
    let args = RequestModel::Residual(part);
    let required = requirement(args, h.gpu_free@, false);
    let task = gpu_prefetch_plan(pid, allocs, victims, h)->Task_0;
    let spec = incoming_spec(h, pid, part);
    assert(keys_distinct(required)) by {
        assert forall|i: int, j: int| 0 <= i < j < required.len() implies (#[trigger] required[i]).0
            != (#[trigger] required[j]).0 by {
            assert(allocs[i].0 != allocs[j].0);
        }
    }
    lemma_clear_devices_leaves(staging_before(h, pid, args), victims, required, device);
    lemma_assoc_pos(spec, device);
    lemma_assoc_pos(allocs, device);
    crate::assoc::lemma_assoc_pos_same_keys(spec, allocs, device);
    let i = assoc_pos(spec, device);
    if i < spec.len() {
        law_plan_frees_enough(pid, args, victims, h, false, i);
        lemma_sorted_sum(part[i].1, larger_first(), entry_size());
        lemma_incoming_sum(h, pid, device, by_size(part[i].1));
        lemma_sum_bounds(part[i].1, entry_size(), u32::MAX as int);
    } else {
        assert forall|k: int| 0 <= k < required.len() implies (#[trigger] required[k]).0
            != device by {
            assert(allocs[k].0 != device);
        }
    }
}

proof fn lemma_filter_multiset<T>(s: Seq<T>, keep: spec_fn(T) -> bool)
    ensures
        s.filter(keep).to_multiset().subset_of(s.to_multiset()),
    decreases s.len(),
{
    broadcast use vstd::seq_lib::group_to_multiset_ensures;

    if s.len() == 0 {
        reveal(Seq::filter);
    } else {
        let fewer = s.drop_last();
        lemma_filter_multiset(fewer, keep);
        assert(fewer.push(s.last()) =~= s);
        lemma_filter_push(fewer, s.last(), keep);
    }
}

/// What comes in to a device is part of what was asked for there, each allocation at most as often
/// as it was asked for.
pub open spec fn part_of(
    h: DataManagerHandle,
    pid: i32,
    device: GlobalDeviceId,
    entering: Seq<MigrationSpecEntry>,
    asked: Seq<PhysicalMemoryData>,
) -> bool {
    exists|kept: Seq<PhysicalMemoryData>|
        #![trigger kept.to_multiset()]
        entering == kept.map_values(incoming(h, pid, device)) && kept.to_multiset().subset_of(
            asked.to_multiset(),
        )
}

/// Only what was asked for comes in, device by device.
pub proof fn law_prefetch_brings_in_what_was_asked(
    pid: i32,
    allocs: AllocationModel,
    victims: Seq<(i32, AllocationModel)>,
    h: DataManagerHandle,
    i: int,
)
    requires
        gpu_prefetch_plan(pid, allocs, victims, h) is Task,
        0 <= i < allocs.len(),
    ensures
        ({
            let task = gpu_prefetch_plan(pid, allocs, victims, h)->Task_0;
            let (owner, spec) = task.into_gpu->0;
            &&& task.into_gpu is Some
            &&& owner == pid
            &&& spec.len() == allocs.len()
            &&& spec[i].0 == allocs[i].0
            &&& part_of(h, pid, allocs[i].0, spec[i].1, allocs[i].1)
        }),
{
    let (device, entries) = allocs[i];
    let room = sum_of(victims, held_on(device));
    let part = fitting(entries, room);
    let kept = by_size(part).filter(located(h, pid, device));
    lemma_fitting_member(entries, room);
    lemma_sorted_is_permutation(part, larger_first());
    lemma_filter_multiset(by_size(part), located(h, pid, device));
    assert(kept.to_multiset().subset_of(entries.to_multiset()));
    assert(fitting_allocs(allocs, victims)[i] == (device, part));
    let task = gpu_prefetch_plan(pid, allocs, victims, h)->Task_0;
    let (owner, spec) = task.into_gpu->0;
    assert(spec[i].1 == incoming_on(h, pid, device, part));
}

/// Free memory of the GPU plays no part: stores that differ only in what is free there give the
/// same plan.
pub proof fn law_prefetch_ignores_free_gpu_memory(
    pid: i32,
    allocs: AllocationModel,
    victims: Seq<(i32, AllocationModel)>,
    h: DataManagerHandle,
    g: DataManagerHandle,
)
    requires
        g == (DataManagerHandle { gpu_free: g.gpu_free, ..h }),
    ensures
        gpu_prefetch_plan(pid, allocs, victims, g) == gpu_prefetch_plan(pid, allocs, victims, h),
{
    let part = fitting_allocs(allocs, victims);
    let args = RequestModel::Residual(part);
    assert(requirement(args, g.gpu_free@, false) =~= requirement(args, h.gpu_free@, false));
    assert(shm_returned(g) =~= shm_returned(h));
    assert(hostmem_returned(g) =~= hostmem_returned(h));
    assert(waits_in_hostmem(g) =~= waits_in_hostmem(h));
    assert(waits_in_storage(g) =~= waits_in_storage(h));
    assert forall|device: GlobalDeviceId| located(g, pid, device) == #[trigger] located(
        h,
        pid,
        device,
    ) by {
        assert(located(g, pid, device) =~= located(h, pid, device));
    }
    assert forall|device: GlobalDeviceId| incoming(g, pid, device) == #[trigger] incoming(
        h,
        pid,
        device,
    ) by {
        assert(incoming(g, pid, device) =~= incoming(h, pid, device));
    }
    assert(incoming_spec(g, pid, part) =~= incoming_spec(h, pid, part));
    assert(realtime_plan(pid, args, victims, g, false) == realtime_plan(pid, args, victims, h, false));
}

} // verus!
