//! The processes that are connected to the daemon, in the order in which they came.
use hashlink::LinkedHashMap;
use vstd::prelude::*;
use crate::assoc::{assoc_get, assoc_has, keys_distinct, lemma_assoc_pos, lemma_assoc_pos_is};
use crate::control::PrefetchMsg;

verus! {

/// How `hashlink` hashes keys.
#[verifier::external_type_specification]
#[verifier::external_body]
pub struct ExDefaultHashBuilder(hashlink::DefaultHashBuilder);

/// A map that keeps the order of its entries.
#[verifier::external_type_specification]
#[verifier::external_body]
#[verifier::reject_recursive_types(K)]
#[verifier::reject_recursive_types(V)]
#[verifier::reject_recursive_types(S)]
pub struct ExLinkedHashMap<K, V, S>(hashlink::LinkedHashMap<K, V, S>);

/// The entries of a map, first to last.
pub uninterp spec fn linked_entries(map: LinkedHashMap<i32, u64>) -> Seq<(i32, u64)>;

/// All but the entries with `key`.
pub open spec fn other_than(key: i32) -> spec_fn((i32, u64)) -> bool {
    |p: (i32, u64)| p.0 != key
}

/// `LinkedHashMap::new`: there are no entries.
#[verifier::external_body]
fn linked_new() -> (map: LinkedHashMap<i32, u64>)
    ensures
        linked_entries(map) == Seq::<(i32, u64)>::empty(),
{
    LinkedHashMap::new()
}

/// `LinkedHashMap::insert`: the entry is put at the back. An entry that the key had before is gone,
/// and its value is handed out. No key occurs twice.
#[verifier::external_body]
fn linked_insert(map: &mut LinkedHashMap<i32, u64>, key: i32, value: u64) -> (previous: Option<u64>)
    ensures
        linked_entries(*final(map)) == linked_entries(*old(map)).filter(other_than(key)).push(
            (key, value),
        ),
        keys_distinct(linked_entries(*final(map))),
        previous == assoc_get(linked_entries(*old(map)), key),
{
    map.insert(key, value)
}

/// `LinkedHashMap::remove`: the entry is gone, and its value is handed out. The others keep their
/// order, and no key occurs twice.
#[verifier::external_body]
fn linked_remove(map: &mut LinkedHashMap<i32, u64>, key: i32) -> (previous: Option<u64>)
    ensures
        linked_entries(*final(map)) == linked_entries(*old(map)).filter(other_than(key)),
        keys_distinct(linked_entries(*final(map))),
        previous == assoc_get(linked_entries(*old(map)), key),
{
    map.remove(&key)
}

/// `LinkedHashMap::contains_key`: whether there is an entry with the key.
#[verifier::external_body]
fn linked_contains(map: &LinkedHashMap<i32, u64>, key: i32) -> (found: bool)
    ensures
        found == assoc_has(linked_entries(*map), key),
{
    map.contains_key(&key)
}

/// `LinkedHashMap::keys`: the keys, first to last.
#[verifier::external_body]
fn linked_keys(map: &LinkedHashMap<i32, u64>) -> (keys: Vec<i32>)
    ensures
        keys@ == linked_entries(*map).map_values(|p: (i32, u64)| p.0),
{
    map.keys().copied().collect()
}

/// `LinkedHashMap::values`: the values, first to last.
#[verifier::external_body]
fn linked_values(map: &LinkedHashMap<i32, u64>) -> (values: Vec<u64>)
    ensures
        values@ == linked_entries(*map).map_values(|p: (i32, u64)| p.1),
{
    map.values().copied().collect()
}

/// The connected processes, each with the number of its connection.
pub struct DaemonData {
    processes: LinkedHashMap<i32, u64>,
}

impl View for DaemonData {
    type V = Seq<(i32, u64)>;

    closed spec fn view(&self) -> Seq<(i32, u64)> {
        linked_entries(self.processes)
    }
}

impl DaemonData {
    /// No process occurs twice.
    pub open spec fn wf(self) -> bool {
        keys_distinct(self@)
    }

    /// No process is connected.
    pub fn new() -> (data: Self)
        ensures
            data@ == Seq::<(i32, u64)>::empty(),
            data.wf(),
    {
        DaemonData { processes: linked_new() }
    }

    /// A process has connected. It comes last, even if it was connected before.
    pub fn join(&mut self, pid: i32, connection: u64)
        ensures
            final(self)@ == old(self)@.filter(other_than(pid)).push((pid, connection)),
            final(self).wf(),
    {
        let _previous = linked_insert(&mut self.processes, pid, connection);
    }

    /// A process has ended. What comes back is the connection that it had.
    pub fn leave(&mut self, pid: i32) -> (connection: Option<u64>)
        ensures
            final(self)@ == old(self)@.filter(other_than(pid)),
            final(self).wf(),
            connection == assoc_get(old(self)@, pid),
    {
        linked_remove(&mut self.processes, pid)
    }

    /// Whether a process is connected.
    pub fn contains(&self, pid: i32) -> (found: bool)
        ensures
            found == assoc_has(self@, pid),
    {
        linked_contains(&self.processes, pid)
    }

    /// The connected processes, in the order in which they came.
    pub fn list_pid(&self) -> (pids: Vec<i32>)
        ensures
            pids@ == self@.map_values(|p: (i32, u64)| p.0),
    {
        linked_keys(&self.processes)
    }

    /// The connections, in the order in which the processes came.
    pub fn connections(&self) -> (connections: Vec<u64>)
        ensures
            connections@ == self@.map_values(|p: (i32, u64)| p.1),
    {
        linked_values(&self.processes)
    }

    /// The first process of a request that is not connected. A request is passed on only where
    /// there is none.
    pub fn unknown_target(&self, list: &Vec<PrefetchMsg>) -> (pid: Option<i32>)
        ensures
            pid == first_unknown(self@, list@),
    {
        let mut i: usize = 0;
        proof {
            assert(list@.skip(0) =~= list@);
        }
        while i < list.len()
            invariant
                i <= list@.len(),
                first_unknown(self@, list@) == first_unknown(self@, list@.skip(i as int)),
            decreases list@.len() - i,
        {
            proof {
                assert(list@.skip(i as int).drop_first() =~= list@.skip(i + 1));
            }
            if !self.contains(list[i].pid) {
                return Some(list[i].pid);
            }
            i = i + 1;
        }
        None
    }
}

/// The first process of a request that is not connected.
pub open spec fn first_unknown(processes: Seq<(i32, u64)>, list: Seq<PrefetchMsg>) -> Option<i32>
    decreases list.len(),
{
    if list.len() == 0 {
        None
    } else if !assoc_has(processes, list[0].pid) {
        Some(list[0].pid)
    } else {
        first_unknown(processes, list.drop_first())
    }
}

/// A process that has connected is found under its connection; the others are as they were.
pub proof fn law_joined_process_is_found(
    processes: Seq<(i32, u64)>,
    pid: i32,
    connection: u64,
    other: i32,
)
    requires
        keys_distinct(processes),
    ensures
        assoc_get(processes.filter(other_than(pid)).push((pid, connection)), pid) == Some(
            connection,
        ),
        other != pid ==> assoc_get(
            processes.filter(other_than(pid)).push((pid, connection)),
            other,
        ) == assoc_get(processes, other),
{
    let kept = processes.filter(other_than(pid));
    let after = kept.push((pid, connection));
    lemma_kept(processes, pid);
    assert forall|j: int| 0 <= j < kept.len() implies (#[trigger] kept[j]).0 != pid by {
        assert(kept.contains(kept[j]));
    }
    lemma_assoc_pos_is(after, pid, kept.len() as int);
    if other != pid {
        lemma_get_in_both(processes, kept, pid, other);
        lemma_assoc_pos(kept, other);
        if assoc_has(kept, other) {
            let i = crate::assoc::assoc_pos(kept, other);
            assert(after[i] == kept[i]);
            assert forall|j: int| 0 <= j < i implies (#[trigger] after[j]).0 != other by {
                assert(kept[j].0 != other);
            }
            lemma_assoc_pos_is(after, other, i);
        } else {
            assert forall|j: int| 0 <= j < after.len() implies (#[trigger] after[j]).0 != other by {
                if j < kept.len() {
                    assert(kept[j].0 != other);
                }
            }
            lemma_assoc_pos_is(after, other, after.len() as int);
        }
    }
}

/// A process that has ended is not found; the others are as they were.
pub proof fn law_ended_process_is_gone(processes: Seq<(i32, u64)>, pid: i32, other: i32)
    requires
        keys_distinct(processes),
    ensures
        !assoc_has(processes.filter(other_than(pid)), pid),
        other != pid ==> assoc_get(processes.filter(other_than(pid)), other) == assoc_get(
            processes,
            other,
        ),
{
    let kept = processes.filter(other_than(pid));
    lemma_kept(processes, pid);
    assert forall|j: int| 0 <= j < kept.len() implies (#[trigger] kept[j]).0 != pid by {
        assert(kept.contains(kept[j]));
    }
    lemma_assoc_pos_is(kept, pid, kept.len() as int);
    if other != pid {
        lemma_get_in_both(processes, kept, pid, other);
    }
}

proof fn lemma_kept(processes: Seq<(i32, u64)>, pid: i32)
    requires
        keys_distinct(processes),
    ensures
        keys_distinct(processes.filter(other_than(pid))),
        forall|p: (i32, u64)| #[trigger]
            processes.filter(other_than(pid)).contains(p) <==> processes.contains(p) && p.0 != pid,
    decreases processes.len(),
{
    let kept = processes.filter(other_than(pid));
    crate::sorting::lemma_filter_members(processes, other_than(pid));
    if processes.len() > 0 {
        let rest = processes.drop_last();
        assert(rest.push(processes.last()) =~= processes);
        assert(keys_distinct(rest)) by {
            assert forall|i: int, j: int| 0 <= i < j < rest.len() implies (#[trigger] rest[i]).0
                != (#[trigger] rest[j]).0 by {
                assert(processes[i].0 != processes[j].0);
            }
        }
        lemma_kept(rest, pid);
        crate::sorting::lemma_filter_push(rest, processes.last(), other_than(pid));
        let before = rest.filter(other_than(pid));
        assert forall|i: int, j: int| 0 <= i < j < kept.len() implies (#[trigger] kept[i]).0 != (
        #[trigger] kept[j]).0 by {
            if j == before.len() {
                assert(before.contains(before[i]));
                let k = choose|k: int| 0 <= k < rest.len() && rest[k] == before[i];
                assert(processes[k].0 != processes[processes.len() - 1].0);
            }
        }
    } else {
        reveal(Seq::filter);
        assert(kept =~= Seq::empty());
    }
}

/// What is kept is found as before.
proof fn lemma_get_in_both(
    processes: Seq<(i32, u64)>,
    kept: Seq<(i32, u64)>,
    pid: i32,
    other: i32,
)
    requires
        keys_distinct(processes),
        keys_distinct(kept),
        other != pid,
        forall|p: (i32, u64)| #[trigger]
            kept.contains(p) <==> processes.contains(p) && p.0 != pid,
    ensures
        assoc_get(kept, other) == assoc_get(processes, other),
{
    lemma_assoc_pos(processes, other);
    lemma_assoc_pos(kept, other);
    if assoc_has(processes, other) {
        let i = crate::assoc::assoc_pos(processes, other);
        assert(processes.contains(processes[i]));
        assert(kept.contains(processes[i]));
        let k = choose|k: int| 0 <= k < kept.len() && kept[k] == processes[i];
        crate::assoc::lemma_assoc_distinct(kept, k);
    } else if assoc_has(kept, other) {
        let k = crate::assoc::assoc_pos(kept, other);
        assert(kept.contains(kept[k]));
        let i = choose|i: int| 0 <= i < processes.len() && processes[i] == kept[k];
        assert(processes[i].0 == other);
    }
}

/// The first process of a request that is not connected is found, and none is only where all are
/// connected.
pub proof fn law_unknown_process_is_found(processes: Seq<(i32, u64)>, list: Seq<PrefetchMsg>)
    ensures
        match first_unknown(processes, list) {
            Some(pid) => exists|i: int|
                0 <= i < list.len() && (#[trigger] list[i]).pid == pid && !assoc_has(processes, pid)
                    && forall|j: int|
                    0 <= j < i ==> assoc_has(processes, (#[trigger] list[j]).pid),
            None => forall|j: int|
                0 <= j < list.len() ==> assoc_has(processes, (#[trigger] list[j]).pid),
        },
    decreases list.len(),
{
    if list.len() > 0 {
        let rest = list.drop_first();
        if assoc_has(processes, list[0].pid) {
            law_unknown_process_is_found(processes, rest);
            match first_unknown(processes, rest) {
                Some(pid) => {
                    let i = choose|i: int|
                        0 <= i < rest.len() && (#[trigger] rest[i]).pid == pid && !assoc_has(
                            processes,
                            pid,
                        ) && forall|j: int|
                            0 <= j < i ==> assoc_has(processes, (#[trigger] rest[j]).pid);
                    assert(list[i + 1] == rest[i]);
                    assert forall|j: int| 0 <= j < i + 1 implies assoc_has(
                        processes,
                        (#[trigger] list[j]).pid,
                    ) by {
                        if j > 0 {
                            assert(rest[j - 1] == list[j]);
                        }
                    }
                },
                None => {
                    assert forall|j: int| 0 <= j < list.len() implies assoc_has(
                        processes,
                        (#[trigger] list[j]).pid,
                    ) by {
                        if j > 0 {
                            assert(rest[j - 1] == list[j]);
                        }
                    }
                },
            }
        } else {
            assert(list[0].pid == first_unknown(processes, list)->0);
        }
    }
}

} // verus!
