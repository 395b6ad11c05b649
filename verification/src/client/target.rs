//! Which process a command is about.
use vstd::prelude::*;
use crate::control::PrefetchMsg;
use crate::error::ClientError;
use crate::ids::BufferLocation;
use crate::text::{chars_of, push_decimal, push_digits, push_text, read_signed, read_unsigned};

verus! {

/// A process, by its number or by its place in the list of processes.
#[derive(Debug, Clone, Copy, PartialEq, Eq, Structural)]
pub struct ProcArgs {
    pub pid: Option<i32>,
    pub idx: Option<u32>,
}

impl ProcArgs {
    pub fn empty() -> (args: Self)
        ensures
            args == (ProcArgs { pid: Some(0), idx: None }),
    {
        ProcArgs { pid: Some(0), idx: None }
    }
}

/// The process that a selector names: `1234` is a number, `idx3` and `i3` are places in the list.
pub open spec fn selected(s: Seq<char>) -> Option<ProcArgs> {
    let place = if s.len() >= 3 && s[0] == 'i' && s[1] == 'd' && s[2] == 'x' {
        Some(s.skip(3))
    } else if s.len() >= 1 && s[0] == 'i' {
        Some(s.skip(1))
    } else {
        None
    };
    match place {
        Some(digits) => match crate::text::parse_unsigned(digits) {
            Some(idx) => Some(ProcArgs { pid: None, idx: Some(idx) }),
            None => None,
        },
        None => match crate::text::parse_signed(s) {
            Some(pid) => Some(ProcArgs { pid: Some(pid), idx: None }),
            None => None,
        },
    }
}

/// The process that a selector names, where it is one.
pub fn parse_pid(selector: &str) -> (args: Option<ProcArgs>)
    ensures
        args == selected(selector@),
{
    read_selector(&chars_of(selector))
}

/// The process that a selector names, where it is one.
pub fn read_selector(s: &Vec<char>) -> (args: Option<ProcArgs>)
    ensures
        args == selected(s@),
{
    let start: usize = if s.len() >= 3 && s[0] == 'i' && s[1] == 'd' && s[2] == 'x' {
        3
    } else if s.len() >= 1 && s[0] == 'i' {
        1
    } else {
        0
    };
    if start > 0 {
        match read_unsigned(s, start) {
            Some(idx) => Some(ProcArgs { pid: None, idx: Some(idx) }),
            None => None,
        }
    } else {
        match read_signed(s) {
            Some(pid) => Some(ProcArgs { pid: Some(pid), idx: None }),
            None => None,
        }
    }
}

/// The process that is meant, or what is wrong.
pub open spec fn target_of(args: ProcArgs, pids: Seq<i32>) -> Result<i32, Seq<char>> {
    match args.pid {
        Some(pid) => if pids.contains(pid) {
            Ok(pid)
        } else {
            Err("Process with pid "@ + crate::text::decimal(pid as int) + " not found"@)
        },
        None => match args.idx {
            Some(idx) => if idx < pids.len() {
                Ok(pids[idx as int])
            } else {
                Err("Process index "@ + crate::text::digits(idx as nat, 10) + " out of range"@)
            },
            None => Err("Either pid or idx must be specified"@),
        },
    }
}

/// The result is as `target` says.
pub open spec fn agrees<T>(result: Result<T, ClientError>, target: Result<T, Seq<char>>) -> bool {
    match result {
        Ok(value) => target == Ok::<T, Seq<char>>(value),
        Err(ClientError::Args(text)) => target == Err::<T, Seq<char>>(text@),
        Err(_) => false,
    }
}

fn has_pid(pids: &Vec<i32>, pid: i32) -> (found: bool)
    ensures
        found == pids@.contains(pid),
{
    let mut i: usize = 0;
    while i < pids.len()
        invariant
            i <= pids@.len(),
            forall|k: int| 0 <= k < i ==> pids@[k] != pid,
        decreases pids@.len() - i,
    {
        if pids[i] == pid {
            assert(pids@[i as int] == pid);
            return true;
        }
        i = i + 1;
    }
    false
}

/// The process that is meant, given the processes that there are.
pub fn get_pid_checked(args: ProcArgs, pid_list: &Vec<i32>) -> (pid: Result<i32, ClientError>)
    ensures
        agrees(pid, target_of(args, pid_list@)),
{
    let mut text = String::new();
    if let Some(pid) = args.pid {
        if has_pid(pid_list, pid) {
            return Ok(pid);
        }
        push_text(&mut text, "Process with pid ");
        push_decimal(&mut text, pid as i64);
        push_text(&mut text, " not found");
        assert(text@ =~= "Process with pid "@ + crate::text::decimal(pid as int) + " not found"@);
    } else if let Some(idx) = args.idx {
        if (idx as usize) < pid_list.len() {
            return Ok(pid_list[idx as usize]);
        }
        push_text(&mut text, "Process index ");
        push_digits(&mut text, idx as u64, 10);
        push_text(&mut text, " out of range");
        assert(text@ =~= "Process index "@ + crate::text::digits(idx as nat, 10)
            + " out of range"@);
    } else {
        push_text(&mut text, "Either pid or idx must be specified");
        assert(text@ =~= "Either pid or idx must be specified"@);
    }
    Err(ClientError::Args(text))
}

/// A request to move up to `size` bytes of a process.
#[derive(Debug, Clone, Copy, PartialEq, Eq, Structural)]
pub struct MoveOperation {
    pub pid: ProcArgs,
    pub src: BufferLocation,
    pub dest: BufferLocation,
    pub size: u64,
}

/// The requests with their processes, or what is wrong with the first that is wrong.
pub open spec fn moves_of(ops: Seq<MoveOperation>, pids: Seq<i32>) -> Result<
    Seq<PrefetchMsg>,
    Seq<char>,
>
    decreases ops.len(),
{
    if ops.len() == 0 {
        Ok(Seq::empty())
    } else {
        match moves_of(ops.drop_last(), pids) {
            Err(text) => Err(text),
            Ok(before) => match target_of(ops.last().pid, pids) {
                Err(text) => Err(text),
                Ok(pid) => Ok(
                    before.push(
                        PrefetchMsg {
                            pid,
                            from: ops.last().src,
                            to: ops.last().dest,
                            size: ops.last().size,
                        },
                    ),
                ),
            },
        }
    }
}

/// What is wrong with the first requests is wrong with all.
proof fn lemma_moves_fault(ops: Seq<MoveOperation>, pids: Seq<i32>, n: int)
    requires
        0 <= n <= ops.len(),
        moves_of(ops.take(n), pids) is Err,
    ensures
        moves_of(ops, pids) == moves_of(ops.take(n), pids),
    decreases ops.len() - n,
{
    if n == ops.len() {
        assert(ops.take(n) =~= ops);
    } else {
        assert(ops.take(n + 1).drop_last() =~= ops.take(n));
        lemma_moves_fault(ops, pids, n + 1);
    }
}

/// The requests with their processes. The first that is wrong is reported.
pub fn resolve_moves(ops: &Vec<MoveOperation>, pid_list: &Vec<i32>) -> (list: Result<
    Vec<PrefetchMsg>,
    ClientError,
>)
    ensures
        match list {
            Ok(list) => moves_of(ops@, pid_list@) == Ok::<Seq<PrefetchMsg>, Seq<char>>(list@),
            Err(ClientError::Args(text)) => moves_of(ops@, pid_list@) == Err::<
                Seq<PrefetchMsg>,
                Seq<char>,
            >(text@),
            Err(_) => false,
        },
{
    let mut list: Vec<PrefetchMsg> = Vec::new();
    let mut i: usize = 0;
    proof {
        assert(ops@.take(0) =~= Seq::empty());
    }
    while i < ops.len()
        invariant
            i <= ops@.len(),
            moves_of(ops@.take(i as int), pid_list@) == Ok::<Seq<PrefetchMsg>, Seq<char>>(list@),
        decreases ops@.len() - i,
    {
        let op = ops[i];
        proof {
            assert(ops@.take(i + 1).drop_last() =~= ops@.take(i as int));
        }
        match get_pid_checked(op.pid, pid_list) {
            Ok(pid) => {
                list.push(PrefetchMsg { pid, from: op.src, to: op.dest, size: op.size });
            },
            Err(e) => {
                proof {
                    assert(moves_of(ops@.take(i + 1), pid_list@) is Err);
                    lemma_moves_fault(ops@, pid_list@, i + 1);
                }
                return Err(e);
            },
        }
        i = i + 1;
    }
    proof {
        assert(ops@.take(i as int) =~= ops@);
    }
    Ok(list)
}

/// Whatever is meant is among the processes that there are.
pub proof fn law_target_exists(args: ProcArgs, pids: Seq<i32>)
    ensures
        target_of(args, pids) matches Ok(pid) ==> pids.contains(pid),
{
    if let Some(idx) = args.idx {
        if idx < pids.len() {
            assert(pids.contains(pids[idx as int]));
        }
    }
}

/// Every process can be named: the selector that writes out its number, or its place, names it and
/// no other.
pub proof fn law_selectors_name_all(pid: i32, idx: u32)
    ensures
        selected(crate::text::decimal(pid as int)) == Some(
            (ProcArgs { pid: Some(pid), idx: None }),
        ),
        selected(seq!['i'] + crate::text::digits(idx as nat, 10)) == Some(
            (ProcArgs { pid: None, idx: Some(idx) }),
        ),
        selected(seq!['i', 'd', 'x'] + crate::text::digits(idx as nat, 10)) == Some(
            (ProcArgs { pid: None, idx: Some(idx) }),
        ),
{
    let n = if pid < 0 {
        -pid as nat
    } else {
        pid as nat
    };
    let digits = crate::text::digits(n, 10);
    crate::text::lemma_digits_read_back(n);
    assert(crate::text::is_digit(digits[0]));
    if pid < 0 {
        assert((seq!['-'] + digits).drop_first() =~= digits);
    }
    let place = crate::text::digits(idx as nat, 10);
    crate::text::lemma_digits_read_back(idx as nat);
    assert(crate::text::is_digit(place[0]));
    assert((seq!['i'] + place).skip(1) =~= place);
    assert((seq!['i'] + place)[1] == place[0]);
    assert((seq!['i', 'd', 'x'] + place).skip(3) =~= place);
}

/// A process that is named by its number is meant where it exists. One that is named by its place
/// is meant where there is such a place; the number goes before the place. Anything else is wrong.
pub proof fn law_which_process_is_meant(args: ProcArgs, pids: Seq<i32>)
    ensures
        args.pid matches Some(pid) ==> (target_of(args, pids) is Ok <==> pids.contains(pid)) && (
        target_of(args, pids) is Ok ==> target_of(args, pids)->Ok_0 == pid),
        args.pid is None ==> (args.idx matches Some(idx) ==> (target_of(args, pids) is Ok <==> idx
            < pids.len()) && (idx < pids.len() ==> target_of(args, pids)->Ok_0 == pids[idx as int])),
        args.pid is None && args.idx is None ==> target_of(args, pids) is Err,
{
}

/// Requests are passed on one for one, each with the process that is meant, exactly where each of
/// them means a process.
pub proof fn law_requests_are_passed_on(ops: Seq<MoveOperation>, pids: Seq<i32>)
    ensures
        match moves_of(ops, pids) {
            Ok(list) => list.len() == ops.len() && forall|i: int|
                0 <= i < ops.len() ==> {
                    let op = #[trigger] ops[i];
                    &&& target_of(op.pid, pids) is Ok
                    &&& list[i].pid == target_of(op.pid, pids)->Ok_0
                    &&& list[i].from == op.src && list[i].to == op.dest && list[i].size == op.size
                },
            Err(text) => exists|i: int|
                0 <= i < ops.len() && target_of((#[trigger] ops[i]).pid, pids) == Err::<
                    i32,
                    Seq<char>,
                >(text) && forall|j: int|
                    0 <= j < i ==> target_of((#[trigger] ops[j]).pid, pids) is Ok,
        },
    decreases ops.len(),
{
    if ops.len() > 0 {
        let rest = ops.drop_last();
        law_requests_are_passed_on(rest, pids);
        assert(ops[ops.len() - 1] == ops.last());
        assert(forall|j: int| 0 <= j < rest.len() ==> #[trigger] ops[j] == rest[j]);
        match moves_of(rest, pids) {
            Err(text) => {
                let i = choose|i: int|
                    0 <= i < rest.len() && target_of((#[trigger] rest[i]).pid, pids) == Err::<
                        i32,
                        Seq<char>,
                    >(text) && forall|j: int|
                        0 <= j < i ==> target_of((#[trigger] rest[j]).pid, pids) is Ok;
                assert(ops[i] == rest[i]);
                assert forall|j: int| 0 <= j < i implies target_of(
                    (#[trigger] ops[j]).pid,
                    pids,
                ) is Ok by {
                    assert(rest[j] == ops[j]);
                }
            },
            Ok(list) => {
                assert forall|j: int| 0 <= j < rest.len() implies target_of(
                    (#[trigger] ops[j]).pid,
                    pids,
                ) is Ok by {
                    assert(rest[j] == ops[j]);
                }
                if let Ok(all) = moves_of(ops, pids) {
                    assert forall|i: int| 0 <= i < ops.len() implies ({
                        let op = #[trigger] ops[i];
                        &&& target_of(op.pid, pids) is Ok
                        &&& all[i].pid == target_of(op.pid, pids)->Ok_0
                        &&& all[i].from == op.src && all[i].to == op.dest && all[i].size == op.size
                    }) by {
                        if i < rest.len() {
                            assert(rest[i] == ops[i]);
                        }
                    }
                } else {
                    assert(target_of(ops[ops.len() - 1].pid, pids) is Err);
                }
            },
        }
    }
}

} // verus!
