//! A task in one line.
use std::collections::{BTreeMap, HashMap};
use vstd::prelude::*;
use crate::general::{push_size, size_text};
use crate::ids::BufferId;
use crate::sums::{lemma_sum_push, sum_of};
use crate::text::{push_decimal, push_digits, push_text};
use super::run::{buffer_bytes, entry_bytes};
use super::store::LocationMap;
use super::task::{DataMigrationTask, MigrationSpec, MigrationSpecEntry, SpecModel, TaskModel};

verus! {

broadcast use vstd::std_specs::hash::group_hash_axioms;

// Rows.

/// A process and what is moved of it.
pub type Cell = (Seq<char>, Seq<char>);

/// A direction and what is moved in it, process by process.
pub type Row = (Seq<char>, Seq<Cell>);

/// All entries of a process, device after device.
pub open spec fn all_entries(spec: Seq<(crate::ids::GlobalDeviceId, Seq<MigrationSpecEntry>)>) -> Seq<
    MigrationSpecEntry,
>
    decreases spec.len(),
{
    if spec.len() == 0 {
        Seq::empty()
    } else {
        all_entries(spec.drop_last()) + spec.last().1
    }
}

/// The bytes and the number of all entries of a process.
pub open spec fn entries_cell(p: SpecModel) -> Cell {
    let entries = all_entries(p.1);
    (
        crate::text::decimal(p.0 as int),
        size_text(sum_of(entries, entry_bytes()) as nat) + "("@ + crate::text::digits(
            entries.len(),
            10,
        ) + ")"@,
    )
}

/// What leaves the GPU, process by process. Of a process that is named twice, the last counts.
pub open spec fn leaving_cells(out: Seq<SpecModel>) -> Seq<Cell>
    decreases out.len(),
{
    if out.len() == 0 {
        Seq::empty()
    } else {
        let cell = entries_cell(out.last());
        crate::assoc::assoc_put(leaving_cells(out.drop_last()), cell.0, cell.1)
    }
}

pub open spec fn of_pid(pid: i32) -> spec_fn(BufferId) -> bool {
    |id: BufferId| id.pid == pid
}

/// The processes that own `ids`, each where it first occurs.
pub open spec fn owners(ids: Seq<BufferId>) -> Seq<i32>
    decreases ids.len(),
{
    if ids.len() == 0 {
        Seq::empty()
    } else {
        let before = owners(ids.drop_last());
        if before.contains(ids.last().pid) {
            before
        } else {
            before.push(ids.last().pid)
        }
    }
}

/// The bytes of `ids` that belong to a process.
pub open spec fn owned_cell(ids: Seq<BufferId>) -> spec_fn(i32) -> Cell {
    |pid: i32|
        (
            crate::text::decimal(pid as int),
            size_text(sum_of(ids.filter(of_pid(pid)), buffer_bytes()) as nat),
        )
}

/// The bytes of `ids`, process by process.
pub open spec fn owned_cells(ids: Seq<BufferId>) -> Seq<Cell> {
    owners(ids).map_values(owned_cell(ids))
}

/// A row, where something is moved.
pub open spec fn row_if(cond: bool, name: Seq<char>, cells: Seq<Cell>) -> Seq<Row> {
    if cond {
        seq![(name, cells)]
    } else {
        Seq::empty()
    }
}

pub open spec fn moved_ids(map: Seq<(BufferId, crate::ids::BufferLocation)>) -> Seq<BufferId> {
    map.map_values(|p: (BufferId, crate::ids::BufferLocation)| p.0)
}

/// What a task moves, direction by direction.
pub open spec fn summary_rows(task: TaskModel) -> Seq<Row> {
    let into = match task.into_gpu {
        Some(p) => seq![entries_cell(p)],
        None => Seq::empty(),
    };
    let moved = moved_ids(task.shm_to_backend);
    row_if(task.into_gpu is Some, "shm -> gpu"@, into) + row_if(
        task.out_from_gpu.len() > 0,
        "gpu -> shm"@,
        leaving_cells(task.out_from_gpu),
    ) + row_if(
        task.hostmem_to_shm.len() > 0,
        "hostmem -> shm"@,
        owned_cells(task.hostmem_to_shm),
    ) + row_if(
        task.storage_to_shm.len() > 0,
        "storage -> shm"@,
        owned_cells(task.storage_to_shm),
    ) + row_if(moved.len() > 0, "shm -> backend"@, owned_cells(moved)) + row_if(
        task.storage_to_hostmem.len() > 0,
        "storage -> hostmem"@,
        owned_cells(task.storage_to_hostmem),
    ) + row_if(
        task.hostmem_to_storage.len() > 0,
        "hostmem -> storage"@,
        owned_cells(task.hostmem_to_storage),
    )
}

/// Reads cells as sequences.
pub open spec fn deep_cells(s: Seq<(String, String)>) -> Seq<Cell> {
    s.map_values(|p: (String, String)| (p.0@, p.1@))
}

/// Reads rows as sequences.
pub open spec fn deep_rows(s: Seq<(String, Vec<(String, String)>)>) -> Seq<Row> {
    s.map_values(|p: (String, Vec<(String, String)>)| (p.0@, deep_cells(p.1@)))
}

// What other crates do.

/// What `serde_json` failed at.
#[verifier::external_type_specification]
#[verifier::external_body]
pub struct ExJsonError(serde_json::Error);

/// The JSON text of an object of objects of strings, where there is one.
pub uninterp spec fn json_object(rows: Seq<(Seq<char>, Seq<(Seq<char>, Seq<char>)>)>) -> Option<Seq<char>>;

/// `serde_json::to_string` of a map of maps of strings. What it returns depends on the rows alone,
/// each of which becomes one entry.
#[verifier::external_body]
fn to_json(rows: &Vec<(String, Vec<(String, String)>)>) -> (json: Result<String, serde_json::Error>)
    requires
        crate::assoc::keys_distinct(deep_rows(rows@)),
        forall|i: int|
            0 <= i < rows@.len() ==> crate::assoc::keys_distinct(
                (#[trigger] deep_rows(rows@)[i]).1,
            ),
    ensures
        match json {
            Ok(text) => json_object(deep_rows(rows@)) == Some(text@),
            Err(_) => json_object(deep_rows(rows@)) is None,
        },
{
    let map: BTreeMap<&String, BTreeMap<&String, &String>> = rows
        .iter()
        .map(|(name, cells)| (name, cells.iter().map(|(key, value)| (key, value)).collect()))
        .collect();
    serde_json::to_string(&map)
}

pub open spec fn with_key(pid: i32) -> spec_fn((i32, u32)) -> bool {
    |p: (i32, u32)| p.0 == pid
}

pub open spec fn paired_value() -> spec_fn((i32, u32)) -> u32 {
    |p: (i32, u32)| p.1
}

/// `itertools::Itertools::into_group_map`: every key that occurs leads to its values, in the order
/// in which they occur, and no other key is there.
#[verifier::external_body]
fn group_by_key(pairs: Vec<(i32, u32)>) -> (groups: HashMap<i32, Vec<u32>>)
    ensures
        forall|pid: i32| #[trigger]
            groups@.contains_key(pid) == (pairs@.filter(with_key(pid)).len() > 0),
        forall|pid: i32| #[trigger]
            groups@.contains_key(pid) ==> groups@[pid]@ == pairs@.filter(
                with_key(pid),
            ).map_values(paired_value()),
{
    itertools::Itertools::into_group_map(pairs.into_iter())
}

// The summary, computed.

fn flatten_entries(spec: &MigrationSpec) -> (entries: Vec<MigrationSpecEntry>)
    ensures
        entries@ == all_entries(spec@),
{
    let ghost deep = spec@;
    let mut entries: Vec<MigrationSpecEntry> = Vec::new();
    let mut i: usize = 0;
    proof {
        assert(deep.take(0) =~= Seq::empty());
    }
    while i < spec.device_map.len()
        invariant
            i <= spec.device_map@.len(),
            deep == spec@,
            entries@ == all_entries(deep.take(i as int)),
        decreases spec.device_map@.len() - i,
    {
        let list = &spec.device_map[i].1;
        let ghost start = entries@;
        let mut j: usize = 0;
        while j < list.len()
            invariant
                j <= list@.len(),
                entries@ == start + list@.take(j as int),
            decreases list@.len() - j,
        {
            entries.push(list[j]);
            proof {
                assert(entries@ =~= start + list@.take(j + 1));
            }
            j = j + 1;
        }
        proof {
            assert(list@.take(j as int) =~= list@);
            assert(deep.take(i + 1).drop_last() =~= deep.take(i as int));
            assert(deep.take(i + 1).last().1 == list@);
        }
        i = i + 1;
    }
    proof {
        assert(deep.take(i as int) =~= deep);
    }
    entries
}

fn sum_of_entries(entries: &Vec<MigrationSpecEntry>) -> (bytes: u128)
    ensures
        bytes == sum_of(entries@, entry_bytes()),
        bytes < 0x1_0000_0000_0000_0000_0000_0000,
{
    let mut bytes: u128 = 0;
    let mut i: usize = 0;
    while i < entries.len()
        invariant
            i <= entries@.len(),
            bytes == sum_of(entries@.take(i as int), entry_bytes()),
            bytes <= i * u32::MAX,
        decreases entries@.len() - i,
    {
        proof {
            assert(entries@.take(i + 1) =~= entries@.take(i as int).push(entries@[i as int]));
            lemma_sum_push(entries@.take(i as int), entries@[i as int], entry_bytes());
        }
        bytes = bytes + entries[i].size as u128;
        i = i + 1;
    }
    assert(entries@.take(i as int) =~= entries@);
    bytes
}

fn pid_text(pid: i32) -> (text: String)
    ensures
        text@ == crate::text::decimal(pid as int),
{
    let mut text = String::new();
    push_decimal(&mut text, pid as i64);
    assert(text@ =~= crate::text::decimal(pid as int));
    text
}

fn entries_text(spec: &MigrationSpec, Ghost(pid): Ghost<i32>) -> (text: String)
    ensures
        text@ == entries_cell((pid, spec@)).1,
{
    let entries = flatten_entries(spec);
    let mut text = String::new();
    push_size(&mut text, sum_of_entries(&entries));
    push_text(&mut text, "(");
    push_digits(&mut text, entries.len() as u64, 10);
    push_text(&mut text, ")");
    assert(text@ =~= entries_cell((pid, spec@)).1);
    text
}

/// Two processes with the same text are the same process.
proof fn lemma_decimal_distinct(a: int, b: int)
    requires
        crate::text::decimal(a) == crate::text::decimal(b),
    ensures
        a == b,
{
    let x = crate::text::decimal(a);
    let y = crate::text::decimal(b);
    lemma_digits_start(if a < 0 { (-a) as nat } else { a as nat });
    lemma_digits_start(if b < 0 { (-b) as nat } else { b as nat });
    if a < 0 {
        assert(x[0] == '-');
        assert(x.drop_first() =~= crate::text::digits((-a) as nat, 10));
    }
    if b < 0 {
        assert(y[0] == '-');
        assert(y.drop_first() =~= crate::text::digits((-b) as nat, 10));
    }
    if a < 0 && b < 0 {
        crate::text::lemma_value_of_digits((-a) as nat, 10);
        crate::text::lemma_value_of_digits((-b) as nat, 10);
    } else if a >= 0 && b >= 0 {
        crate::text::lemma_value_of_digits(a as nat, 10);
        crate::text::lemma_value_of_digits(b as nat, 10);
    }
}

/// Digits do not start with a sign.
proof fn lemma_digits_start(n: nat)
    ensures
        crate::text::digits(n, 10).len() > 0,
        crate::text::digits(n, 10)[0] != '-',
    decreases n,
{
    if n >= 10 {
        lemma_digits_start(n / 10);
    }
}

fn find_cell(cells: &Vec<(String, String)>, key: &String) -> (at: Option<usize>)
    ensures
        match at {
            Some(i) => i < cells@.len() && i == crate::assoc::assoc_pos(deep_cells(cells@), key@),
            None => crate::assoc::assoc_pos(deep_cells(cells@), key@) == cells@.len(),
        },
{
    let ghost deep = deep_cells(cells@);
    let mut i: usize = 0;
    while i < cells.len()
        invariant
            i <= cells@.len(),
            deep == deep_cells(cells@),
            forall|j: int| 0 <= j < i ==> (#[trigger] deep[j]).0 != key@,
        decreases cells@.len() - i,
    {
        if cells[i].0 == *key {
            proof {
                crate::assoc::lemma_assoc_pos_is(deep, key@, i as int);
            }
            return Some(i);
        }
        i = i + 1;
    }
    proof {
        crate::assoc::lemma_assoc_pos_is(deep, key@, i as int);
    }
    None
}

fn leaving_row(out: &Vec<(i32, MigrationSpec)>) -> (cells: Vec<(String, String)>)
    ensures
        deep_cells(cells@) == leaving_cells(super::task::deep_specs(out@)),
        crate::assoc::keys_distinct(deep_cells(cells@)),
{
    let ghost deep = super::task::deep_specs(out@);
    let mut cells: Vec<(String, String)> = Vec::new();
    let mut i: usize = 0;
    proof {
        assert(deep.take(0) =~= Seq::empty());
        assert(deep_cells(cells@) =~= Seq::empty());
    }
    while i < out.len()
        invariant
            i <= out@.len(),
            deep == super::task::deep_specs(out@),
            deep_cells(cells@) == leaving_cells(deep.take(i as int)),
            crate::assoc::keys_distinct(deep_cells(cells@)),
        decreases out@.len() - i,
    {
        let pid: i32 = out[i].0;
        let key = pid_text(pid);
        let value = entries_text(&out[i].1, Ghost(pid));
        let ghost before = cells@;
        let ghost cell = (key@, value@);
        proof {
            assert(deep.take(i + 1).drop_last() =~= deep.take(i as int));
            assert(deep.take(i + 1).last() == (pid, out@[i as int].1@));
            assert(cell == entries_cell((pid, out@[i as int].1@)));
            crate::assoc::lemma_assoc_put_distinct(deep_cells(before), cell.0, cell.1);
        }
        match find_cell(&cells, &key) {
            Some(at) => {
                cells.set(at, (key, value));
                proof {
                    assert(deep_cells(cells@) =~= deep_cells(before).update(at as int, cell));
                }
            },
            None => {
                cells.push((key, value));
                proof {
                    assert(deep_cells(cells@) =~= deep_cells(before).push(cell));
                }
            },
        }
        i = i + 1;
    }
    proof {
        assert(deep.take(i as int) =~= deep);
    }
    cells
}

/// What `ids` and the pairs of their processes and sizes have in common.
proof fn lemma_pairs(ids: Seq<BufferId>, pairs: Seq<(i32, u32)>, pid: i32)
    requires
        pairs == ids.map_values(|id: BufferId| (id.pid, id.size)),
    ensures
        pairs.filter(with_key(pid)) == ids.filter(of_pid(pid)).map_values(
            |id: BufferId| (id.pid, id.size),
        ),
    decreases ids.len(),
{
    let f = |id: BufferId| (id.pid, id.size);
    if ids.len() == 0 {
        reveal(Seq::filter);
        assert(pairs =~= Seq::empty());
        assert(ids.filter(of_pid(pid)).map_values(f) =~= Seq::empty());
    } else {
        let rest = ids.drop_last();
        assert(pairs.drop_last() =~= rest.map_values(f));
        lemma_pairs(rest, pairs.drop_last(), pid);
        crate::sorting::lemma_filter_push(rest, ids.last(), of_pid(pid));
        crate::sorting::lemma_filter_push(pairs.drop_last(), pairs.last(), with_key(pid));
        assert(rest.push(ids.last()) =~= ids);
        assert(pairs.drop_last().push(pairs.last()) =~= pairs);
        let kept = rest.filter(of_pid(pid));
        assert(kept.push(ids.last()).map_values(f) =~= kept.map_values(f).push(f(ids.last())));
    }
}

proof fn lemma_owner_has_buffers(ids: Seq<BufferId>, i: int)
    requires
        0 <= i < ids.len(),
    ensures
        ids.filter(of_pid(ids[i].pid)).len() > 0,
{
    crate::sorting::lemma_filter_members(ids, of_pid(ids[i].pid));
    assert(of_pid(ids[i].pid)(ids[i]));
}

fn sum_of_sizes(sizes: &Vec<u32>) -> (bytes: u128)
    ensures
        bytes == sum_of(sizes@, |x: u32| x as int),
        bytes < 0x1_0000_0000_0000_0000_0000_0000,
{
    let ghost f = |x: u32| x as int;
    let mut bytes: u128 = 0;
    let mut i: usize = 0;
    while i < sizes.len()
        invariant
            i <= sizes@.len(),
            f == (|x: u32| x as int),
            bytes == sum_of(sizes@.take(i as int), f),
            bytes <= i * u32::MAX,
        decreases sizes@.len() - i,
    {
        proof {
            assert(sizes@.take(i + 1) =~= sizes@.take(i as int).push(sizes@[i as int]));
            lemma_sum_push(sizes@.take(i as int), sizes@[i as int], f);
        }
        bytes = bytes + sizes[i] as u128;
        i = i + 1;
    }
    assert(sizes@.take(i as int) =~= sizes@);
    bytes
}

proof fn lemma_sizes_sum(ids: Seq<BufferId>)
    ensures
        sum_of(
            ids.map_values(|id: BufferId| (id.pid, id.size)).map_values(paired_value()),
            |x: u32| x as int,
        ) == sum_of(ids, buffer_bytes()),
    decreases ids.len(),
{
    let f = |id: BufferId| (id.pid, id.size);
    let all = ids.map_values(f).map_values(paired_value());
    if ids.len() > 0 {
        lemma_sizes_sum(ids.drop_last());
        assert(all.drop_last() =~= ids.drop_last().map_values(f).map_values(paired_value()));
    }
}

fn has_pid(list: &Vec<i32>, pid: i32) -> (found: bool)
    ensures
        found == list@.contains(pid),
{
    let mut i: usize = 0;
    while i < list.len()
        invariant
            i <= list@.len(),
            forall|j: int| 0 <= j < i ==> list@[j] != pid,
        decreases list@.len() - i,
    {
        if list[i] == pid {
            assert(list@[i as int] == pid);
            return true;
        }
        i = i + 1;
    }
    false
}

fn list_owners(ids: &Vec<BufferId>) -> (pids: Vec<i32>)
    ensures
        pids@ == owners(ids@),
        pids@.no_duplicates(),
        forall|k: int| 0 <= k < pids@.len() ==> ids@.filter(of_pid(#[trigger] pids@[k])).len() > 0,
{
    let mut pids: Vec<i32> = Vec::new();
    let mut i: usize = 0;
    proof {
        assert(ids@.take(0) =~= Seq::empty());
    }
    while i < ids.len()
        invariant
            i <= ids@.len(),
            pids@ == owners(ids@.take(i as int)),
            pids@.no_duplicates(),
            forall|k: int|
                0 <= k < pids@.len() ==> ids@.filter(of_pid(#[trigger] pids@[k])).len() > 0,
        decreases ids@.len() - i,
    {
        proof {
            assert(ids@.take(i + 1).drop_last() =~= ids@.take(i as int));
            lemma_owner_has_buffers(ids@, i as int);
        }
        if !has_pid(&pids, ids[i].pid) {
            pids.push(ids[i].pid);
        }
        i = i + 1;
    }
    proof {
        assert(ids@.take(i as int) =~= ids@);
    }
    pids
}

fn owned_row(ids: &Vec<BufferId>) -> (cells: Vec<(String, String)>)
    ensures
        deep_cells(cells@) == owned_cells(ids@),
        crate::assoc::keys_distinct(deep_cells(cells@)),
{
    let mut pairs: Vec<(i32, u32)> = Vec::new();
    let mut i: usize = 0;
    while i < ids.len()
        invariant
            i <= ids@.len(),
            pairs@.len() == i,
            forall|k: int| 0 <= k < i ==> #[trigger] pairs@[k] == (ids@[k].pid, ids@[k].size),
        decreases ids@.len() - i,
    {
        pairs.push((ids[i].pid, ids[i].size));
        i = i + 1;
    }
    let ghost paired = pairs@;
    assert(paired =~= ids@.map_values(|id: BufferId| (id.pid, id.size)));
    let pids = list_owners(ids);
    let groups = group_by_key(pairs);
    let mut cells: Vec<(String, String)> = Vec::new();
    let mut k: usize = 0;
    proof {
        assert(deep_cells(cells@) =~= pids@.take(0).map_values(owned_cell(ids@)));
    }
    while k < pids.len()
        invariant
            k <= pids@.len(),
            pids@ == owners(ids@),
            forall|a: int|
                0 <= a < pids@.len() ==> ids@.filter(of_pid(#[trigger] pids@[a])).len() > 0,
            paired == ids@.map_values(|id: BufferId| (id.pid, id.size)),
            forall|pid: i32| #[trigger]
                groups@.contains_key(pid) == (paired.filter(with_key(pid)).len() > 0),
            forall|pid: i32| #[trigger]
                groups@.contains_key(pid) ==> groups@[pid]@ == paired.filter(
                    with_key(pid),
                ).map_values(paired_value()),
            deep_cells(cells@) == pids@.take(k as int).map_values(owned_cell(ids@)),
        decreases pids@.len() - k,
    {
        let pid: i32 = pids[k];
        proof {
            lemma_pairs(ids@, paired, pid);
            lemma_sizes_sum(ids@.filter(of_pid(pid)));
            assert(ids@.filter(of_pid(pids@[k as int])).len() > 0);
            assert(groups@.contains_key(pid));
        }
        let mut value = String::new();
        match groups.get(&pid) {
            Some(sizes) => {
                push_size(&mut value, sum_of_sizes(sizes));
                proof {
                    assert(value@ =~= owned_cell(ids@)(pid).1);
                }
            },
            None => {},
        }
        let key = pid_text(pid);
        let ghost before = cells@;
        let ghost cell = (key@, value@);
        cells.push((key, value));
        proof {
            assert(cell == owned_cell(ids@)(pid));
            assert(deep_cells(cells@) =~= deep_cells(before).push(cell));
            assert(deep_cells(cells@) =~= pids@.take(k + 1).map_values(owned_cell(ids@)));
        }
        k = k + 1;
    }
    proof {
        assert(pids@.take(k as int) =~= pids@);
        let deep = deep_cells(cells@);
        assert forall|a: int, b: int| 0 <= a < b < deep.len() implies (#[trigger] deep[a]).0 != (
        #[trigger] deep[b]).0 by {
            if deep[a].0 == deep[b].0 {
                lemma_decimal_distinct(pids@[a] as int, pids@[b] as int);
            }
        }
    }
    cells
}

fn moved_on(map: &LocationMap) -> (ids: Vec<BufferId>)
    ensures
        ids@ == moved_ids(map@),
{
    let mut ids: Vec<BufferId> = Vec::new();
    let mut i: usize = 0;
    while i < map.items.len()
        invariant
            i <= map@.len(),
            ids@.len() == i,
            forall|k: int| 0 <= k < i ==> #[trigger] ids@[k] == map@[k].0,
        decreases map@.len() - i,
    {
        ids.push(map.items[i].0);
        i = i + 1;
    }
    assert(ids@ =~= moved_ids(map@));
    ids
}

/// The rows so far are among those that a task can have, in order.
spec fn rows_ok(rows: Seq<Row>, names: Seq<Seq<char>>) -> bool {
    &&& forall|i: int|
        0 <= i < rows.len() ==> names.contains((#[trigger] rows[i]).0)
            && crate::assoc::keys_distinct(rows[i].1)
    &&& crate::assoc::keys_distinct(rows)
}

/// Adds a row where there is something to say.
fn push_row(
    rows: &mut Vec<(String, Vec<(String, String)>)>,
    cond: bool,
    name: &str,
    cells: Vec<(String, String)>,
    Ghost(names): Ghost<Seq<Seq<char>>>,
)
    requires
        rows_ok(deep_rows(old(rows)@), names),
        !names.contains(name@),
        crate::assoc::keys_distinct(deep_cells(cells@)),
    ensures
        deep_rows(final(rows)@) == deep_rows(old(rows)@) + row_if(cond, name@, deep_cells(cells@)),
        rows_ok(deep_rows(final(rows)@), names.push(name@)),
{
    let ghost before = deep_rows(rows@);
    let ghost row = (name@, deep_cells(cells@));
    let ghost more = names.push(name@);
    proof {
        assert forall|i: int| 0 <= i < before.len() implies more.contains(
            (#[trigger] before[i]).0,
        ) by {
            assert(names.contains(before[i].0));
            let k = choose|k: int| 0 <= k < names.len() && names[k] == before[i].0;
            assert(more[k] == before[i].0);
        }
        assert(more[names.len() as int] == name@);
    }
    if cond {
        let mut title = String::new();
        push_text(&mut title, name);
        assert(title@ =~= name@);
        rows.push((title, cells));
        proof {
            let after = deep_rows(rows@);
            assert(after =~= before.push(row));
            assert forall|i: int, j: int| 0 <= i < j < after.len() implies (#[trigger] after[i]).0
                != (#[trigger] after[j]).0 by {
                if j == before.len() {
                    assert(names.contains(before[i].0));
                }
            }
        }
    }
}

/// No two directions have the same name.
proof fn lemma_titles_differ()
    ensures
        seq![
            "shm -> gpu"@,
            "gpu -> shm"@,
            "hostmem -> shm"@,
            "storage -> shm"@,
            "shm -> backend"@,
            "storage -> hostmem"@,
            "hostmem -> storage"@,
        ].no_duplicates(),
{
    reveal_strlit("shm -> gpu");
    reveal_strlit("gpu -> shm");
    reveal_strlit("hostmem -> shm");
    reveal_strlit("storage -> shm");
    reveal_strlit("shm -> backend");
    reveal_strlit("storage -> hostmem");
    reveal_strlit("hostmem -> storage");
    let short = seq!["shm -> gpu"@, "gpu -> shm"@];
    let middle = seq!["hostmem -> shm"@, "storage -> shm"@, "shm -> backend"@];
    let long = seq!["storage -> hostmem"@, "hostmem -> storage"@];
    assert(short[0][0] == 's' && short[1][0] == 'g');
    assert(middle[0][0] == 'h' && middle[1][0] == 's' && middle[2][0] == 's');
    assert(middle[1][1] == 't' && middle[2][1] == 'h');
    assert(long[0][0] == 's' && long[1][0] == 'h');
    let all = seq![
        "shm -> gpu"@,
        "gpu -> shm"@,
        "hostmem -> shm"@,
        "storage -> shm"@,
        "shm -> backend"@,
        "storage -> hostmem"@,
        "hostmem -> storage"@,
    ];
    assert forall|i: int, j: int| 0 <= i < j < 7 implies #[trigger] all[i] != #[trigger] all[j] by {
        if i < 2 && j >= 2 {
            assert(all[i].len() == 10 && all[j].len() >= 14);
        } else if 2 <= i < 5 && j >= 5 {
            assert(all[i].len() == 14 && all[j].len() == 18);
        }
    }
}

/// The rows of a task.
pub fn task_rows(task: &DataMigrationTask) -> (rows: Vec<(String, Vec<(String, String)>)>)
    ensures
        deep_rows(rows@) == summary_rows(task@),
        crate::assoc::keys_distinct(deep_rows(rows@)),
        forall|i: int|
            0 <= i < rows@.len() ==> crate::assoc::keys_distinct(
                (#[trigger] deep_rows(rows@)[i]).1,
            ),
{
    let mut rows: Vec<(String, Vec<(String, String)>)> = Vec::new();
    let ghost titles = seq![
        "shm -> gpu"@,
        "gpu -> shm"@,
        "hostmem -> shm"@,
        "storage -> shm"@,
        "shm -> backend"@,
        "storage -> hostmem"@,
        "hostmem -> storage"@,
    ];
    proof {
        lemma_titles_differ();
        assert(deep_rows(rows@) =~= Seq::empty());
        assert forall|k: int| 0 <= k < 7 implies !(#[trigger] titles.take(k)).contains(titles[k])
            by {
            if titles.take(k).contains(titles[k]) {
                let j = choose|j: int| 0 <= j < k && titles.take(k)[j] == titles[k];
                assert(titles[j] == titles[k]);
            }
        }
        assert forall|k: int| 0 <= k < 7 implies (#[trigger] titles.take(k)).push(titles[k])
            == titles.take(k + 1) by {
            assert(titles.take(k).push(titles[k]) =~= titles.take(k + 1));
        }
    }
    let mut into: Vec<(String, String)> = Vec::new();
    match &task.into_gpu {
        Some(p) => {
            into.push((pid_text(p.0), entries_text(&p.1, Ghost(p.0))));
            proof {
                assert(deep_cells(into@) =~= seq![entries_cell((p.0, p.1@))]);
            }
        },
        None => {
            proof {
                assert(deep_cells(into@) =~= Seq::empty());
            }
        },
    }
    let moved = moved_on(&task.shm_to_backend);
    push_row(&mut rows, task.into_gpu.is_some(), "shm -> gpu", into, Ghost(titles.take(0)));
    push_row(
        &mut rows,
        task.out_from_gpu.len() > 0,
        "gpu -> shm",
        leaving_row(&task.out_from_gpu),
        Ghost(titles.take(1)),
    );
    push_row(
        &mut rows,
        task.hostmem_to_shm.len() > 0,
        "hostmem -> shm",
        owned_row(&task.hostmem_to_shm),
        Ghost(titles.take(2)),
    );
    push_row(
        &mut rows,
        task.storage_to_shm.len() > 0,
        "storage -> shm",
        owned_row(&task.storage_to_shm),
        Ghost(titles.take(3)),
    );
    push_row(
        &mut rows,
        moved.len() > 0,
        "shm -> backend",
        owned_row(&moved),
        Ghost(titles.take(4)),
    );
    push_row(
        &mut rows,
        task.storage_to_hostmem.len() > 0,
        "storage -> hostmem",
        owned_row(&task.storage_to_hostmem),
        Ghost(titles.take(5)),
    );
    push_row(
        &mut rows,
        task.hostmem_to_storage.len() > 0,
        "hostmem -> storage",
        owned_row(&task.hostmem_to_storage),
        Ghost(titles.take(6)),
    );
    rows
}

/// The text of a summary: nothing, where there is none.
pub open spec fn summary_text(json: Option<Seq<char>>) -> Seq<char> {
    match json {
        Some(text) => text,
        None => Seq::empty(),
    }
}

impl DataMigrationTask {
    /// What the task moves, as one JSON object: direction by direction, and in each process by
    /// process.
    pub fn json_summary(&self) -> (text: String)
        ensures
            text@ == summary_text(json_object(summary_rows(self@))),
    {
        let rows = task_rows(self);
        match to_json(&rows) {
            Ok(text) => text,
            Err(_) => {
                let empty = String::new();
                assert(empty@ =~= Seq::empty());
                empty
            },
        }
    }
}

// Laws.

/// A task is told direction by direction: each exactly where something is moved in it.
pub proof fn law_every_direction_is_told(task: TaskModel, name: Seq<char>)
    ensures
        ({
            let rows = summary_rows(task);
            let told = exists|i: int| 0 <= i < rows.len() && (#[trigger] rows[i]).0 == name;
            &&& name == "shm -> gpu"@ ==> told == task.into_gpu is Some
            &&& name == "gpu -> shm"@ ==> told == (task.out_from_gpu.len() > 0)
            &&& name == "hostmem -> shm"@ ==> told == (task.hostmem_to_shm.len() > 0)
            &&& name == "storage -> shm"@ ==> told == (task.storage_to_shm.len() > 0)
            &&& name == "shm -> backend"@ ==> told == (task.shm_to_backend.len() > 0)
            &&& name == "storage -> hostmem"@ ==> told == (task.storage_to_hostmem.len() > 0)
            &&& name == "hostmem -> storage"@ ==> told == (task.hostmem_to_storage.len() > 0)
        }),
{
    let titles = seq![
        "shm -> gpu"@,
        "gpu -> shm"@,
        "hostmem -> shm"@,
        "storage -> shm"@,
        "shm -> backend"@,
        "storage -> hostmem"@,
        "hostmem -> storage"@,
    ];
    lemma_titles_differ();
    let rows = summary_rows(task);
    let into = match task.into_gpu {
        Some(p) => seq![entries_cell(p)],
        None => Seq::empty(),
    };
    let moved = moved_ids(task.shm_to_backend);
    let a = row_if(task.into_gpu is Some, titles[0], into);
    let b = row_if(task.out_from_gpu.len() > 0, titles[1], leaving_cells(task.out_from_gpu));
    let c = row_if(task.hostmem_to_shm.len() > 0, titles[2], owned_cells(task.hostmem_to_shm));
    let d = row_if(task.storage_to_shm.len() > 0, titles[3], owned_cells(task.storage_to_shm));
    let e = row_if(moved.len() > 0, titles[4], owned_cells(moved));
    let f = row_if(
        task.storage_to_hostmem.len() > 0,
        titles[5],
        owned_cells(task.storage_to_hostmem),
    );
    let g = row_if(
        task.hostmem_to_storage.len() > 0,
        titles[6],
        owned_cells(task.hostmem_to_storage),
    );
    assert(rows == a + b + c + d + e + f + g);
    lemma_told_append(a, b, name);
    lemma_told_append(a + b, c, name);
    lemma_told_append(a + b + c, d, name);
    lemma_told_append(a + b + c + d, e, name);
    lemma_told_append(a + b + c + d + e, f, name);
    lemma_told_append(a + b + c + d + e + f, g, name);
    lemma_told_row(task.into_gpu is Some, titles[0], into, name);
    lemma_told_row(
        task.out_from_gpu.len() > 0,
        titles[1],
        leaving_cells(task.out_from_gpu),
        name,
    );
    lemma_told_row(
        task.hostmem_to_shm.len() > 0,
        titles[2],
        owned_cells(task.hostmem_to_shm),
        name,
    );
    lemma_told_row(
        task.storage_to_shm.len() > 0,
        titles[3],
        owned_cells(task.storage_to_shm),
        name,
    );
    lemma_told_row(moved.len() > 0, titles[4], owned_cells(moved), name);
    lemma_told_row(
        task.storage_to_hostmem.len() > 0,
        titles[5],
        owned_cells(task.storage_to_hostmem),
        name,
    );
    lemma_told_row(
        task.hostmem_to_storage.len() > 0,
        titles[6],
        owned_cells(task.hostmem_to_storage),
        name,
    );
    assert forall|i: int, j: int| 0 <= i < j < 7 implies titles[i] != titles[j] by {}
}

/// Some row has the name.
spec fn is_told(rows: Seq<Row>, name: Seq<char>) -> bool {
    exists|i: int| 0 <= i < rows.len() && (#[trigger] rows[i]).0 == name
}

proof fn lemma_told_append(a: Seq<Row>, b: Seq<Row>, name: Seq<char>)
    ensures
        is_told(a + b, name) == (is_told(a, name) || is_told(b, name)),
{
    let all = a + b;
    if is_told(a, name) {
        let i = choose|i: int| 0 <= i < a.len() && (#[trigger] a[i]).0 == name;
        assert(all[i].0 == name);
    }
    if is_told(b, name) {
        let i = choose|i: int| 0 <= i < b.len() && (#[trigger] b[i]).0 == name;
        assert(all[a.len() + i].0 == name);
    }
    if is_told(all, name) {
        let i = choose|i: int| 0 <= i < all.len() && (#[trigger] all[i]).0 == name;
        if i < a.len() {
            assert(a[i].0 == name);
        } else {
            assert(b[i - a.len()].0 == name);
        }
    }
}

proof fn lemma_told_row(cond: bool, title: Seq<char>, cells: Seq<Cell>, name: Seq<char>)
    ensures
        is_told(row_if(cond, title, cells), name) == (cond && title == name),
{
    if cond {
        assert(row_if(cond, title, cells)[0].0 == title);
    }
}

/// Every process that owns a buffer is told, once, with the bytes of its buffers.
pub proof fn law_owners_are_told(ids: Seq<BufferId>, pid: i32)
    ensures
        owners(ids).contains(pid) <==> exists|i: int|
            0 <= i < ids.len() && (#[trigger] ids[i]).pid == pid,
        owners(ids).no_duplicates(),
        owned_cell(ids)(pid).1 == size_text(
            sum_of(
                ids.filter(|id: BufferId| id.pid == pid),
                |id: BufferId| id.size as int,
            ) as nat,
        ),
        owned_cells(ids).len() == owners(ids).len(),
    decreases ids.len(),
{
    assert((|id: BufferId| id.pid == pid) =~= of_pid(pid));
    assert((|id: BufferId| id.size as int) =~= buffer_bytes());
    if ids.len() > 0 {
        let rest = ids.drop_last();
        let before = owners(rest);
        law_owners_are_told(rest, pid);
        law_owners_are_told(rest, ids.last().pid);
        assert(ids[ids.len() - 1] == ids.last());
        if before.contains(pid) {
            let k = choose|k: int| 0 <= k < before.len() && before[k] == pid;
            assert(owners(ids)[k] == pid);
            let i = choose|i: int| 0 <= i < rest.len() && (#[trigger] rest[i]).pid == pid;
            assert(ids[i].pid == pid);
        }
        if owners(ids).contains(pid) && !before.contains(pid) {
            let k = choose|k: int| 0 <= k < owners(ids).len() && owners(ids)[k] == pid;
            if k < before.len() {
                assert(before[k] == pid);
            }
            assert(ids[ids.len() - 1].pid == pid);
        }
        if exists|i: int| 0 <= i < ids.len() && (#[trigger] ids[i]).pid == pid {
            let i = choose|i: int| 0 <= i < ids.len() && (#[trigger] ids[i]).pid == pid;
            if i < rest.len() {
                assert(rest[i].pid == pid);
            } else if !before.contains(pid) {
                assert(owners(ids)[before.len() as int] == pid);
            }
        }
    }
}

} // verus!
