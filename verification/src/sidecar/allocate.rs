//! Allocating memory: what follows what, and what is undone where a step fails.
use vstd::prelude::*;
use super::account::{CudaResult, MallocPlan};

verus! {

/// What has happened to an allocation.
#[derive(Debug, Clone, Copy, PartialEq, Eq, Structural)]
pub enum MallocEvent {
    /// It was held against what the application may have.
    Planned(MallocPlan),
    /// The driver allocated it, as it does small ones.
    SmallAllocated(CudaResult),
    /// Address space was reserved.
    Reserved(CudaResult),
    /// Handles were taken, or ran out.
    Booked(bool),
    /// Memory was put behind the handles, or there was too little.
    Populated(bool),
    /// The handles were given back.
    Cancelled,
    /// The table took it up, or was full.
    Admitted(bool),
    /// The counter of the device went up.
    Counted,
}

/// What is to be done next for an allocation.
#[derive(Debug, Clone, Copy, PartialEq, Eq, Structural)]
pub enum MallocAction {
    /// Let the driver allocate it, once the process may go on.
    AllocateSmall,
    /// Note a small allocation and count its bytes.
    CountSmall,
    /// Reserve as many bytes of address space, once the process may go on.
    Reserve(usize),
    /// Take handles.
    Book,
    /// Put memory behind the handles.
    Populate,
    /// Give the handles back.
    Cancel,
    /// Take it up into the table.
    Admit,
    /// Count its bytes.
    Count,
    /// The call ends.
    Return(CudaResult),
}

/// What follows an event of an allocation. A table that is full does not undo it.
pub open spec fn malloc_action(event: MallocEvent) -> MallocAction {
    match event {
        MallocEvent::Planned(MallocPlan::Refuse) => MallocAction::Return(CudaResult::OutOfMemory),
        MallocEvent::Planned(MallocPlan::Small) => MallocAction::AllocateSmall,
        MallocEvent::Planned(MallocPlan::Large(bytes)) => MallocAction::Reserve(bytes),
        MallocEvent::SmallAllocated(result) => if result == CudaResult::Success {
            MallocAction::CountSmall
        } else {
            MallocAction::Return(result)
        },
        MallocEvent::Reserved(result) => if result == CudaResult::Success {
            MallocAction::Book
        } else {
            MallocAction::Return(result)
        },
        MallocEvent::Booked(true) => MallocAction::Populate,
        MallocEvent::Booked(false) => MallocAction::Return(CudaResult::OutOfMemory),
        MallocEvent::Populated(true) => MallocAction::Admit,
        MallocEvent::Populated(false) => MallocAction::Cancel,
        MallocEvent::Cancelled => MallocAction::Return(CudaResult::OutOfMemory),
        MallocEvent::Admitted(_) => MallocAction::Count,
        MallocEvent::Counted => MallocAction::Return(CudaResult::Success),
    }
}

/// What follows an event of an allocation.
pub fn malloc_next(event: MallocEvent) -> (action: MallocAction)
    ensures
        action == malloc_action(event),
{
    match event {
        MallocEvent::Planned(plan) => match plan {
            MallocPlan::Refuse => MallocAction::Return(CudaResult::OutOfMemory),
            MallocPlan::Small => MallocAction::AllocateSmall,
            MallocPlan::Large(bytes) => MallocAction::Reserve(bytes),
        },
        MallocEvent::SmallAllocated(result) => match result {
            CudaResult::Success => MallocAction::CountSmall,
            _ => MallocAction::Return(result),
        },
        MallocEvent::Reserved(result) => match result {
            CudaResult::Success => MallocAction::Book,
            _ => MallocAction::Return(result),
        },
        MallocEvent::Booked(done) => if done {
            MallocAction::Populate
        } else {
            MallocAction::Return(CudaResult::OutOfMemory)
        },
        MallocEvent::Populated(done) => if done {
            MallocAction::Admit
        } else {
            MallocAction::Cancel
        },
        MallocEvent::Cancelled => MallocAction::Return(CudaResult::OutOfMemory),
        MallocEvent::Admitted(_) => MallocAction::Count,
        MallocEvent::Counted => MallocAction::Return(CudaResult::Success),
    }
}

/// The events that can come of an action.
pub open spec fn comes_of(action: MallocAction, event: MallocEvent) -> bool {
    match action {
        MallocAction::AllocateSmall => event is SmallAllocated,
        MallocAction::CountSmall => event is Counted,
        MallocAction::Reserve(_) => event is Reserved,
        MallocAction::Book => event is Booked,
        MallocAction::Populate => event is Populated,
        MallocAction::Cancel => event is Cancelled,
        MallocAction::Admit => event is Admitted,
        MallocAction::Count => event is Counted,
        MallocAction::Return(_) => false,
    }
}

/// Each event of `run` comes of what follows the event before it, and the first is the plan.
pub open spec fn is_run(run: Seq<MallocEvent>) -> bool {
    &&& run.len() > 0
    &&& run[0] is Planned
    &&& forall|i: int|
        0 < i < run.len() ==> comes_of(malloc_action(run[i - 1]), #[trigger] run[i])
}

/// The most events that can lie before an event.
spec fn stage(event: MallocEvent) -> int {
    match event {
        MallocEvent::Planned(_) => 0,
        MallocEvent::SmallAllocated(_) => 1,
        MallocEvent::Reserved(_) => 1,
        MallocEvent::Booked(_) => 2,
        MallocEvent::Populated(_) => 3,
        MallocEvent::Cancelled => 4,
        MallocEvent::Admitted(_) => 4,
        MallocEvent::Counted => 5,
    }
}

proof fn lemma_stages(run: Seq<MallocEvent>, i: int)
    requires
        is_run(run),
        0 <= i < run.len(),
    ensures
        stage(run[i]) >= i,
    decreases i,
{
    if i > 0 {
        lemma_stages(run, i - 1);
        assert(comes_of(malloc_action(run[i - 1]), run[i]));
    }
}

/// An allocation ends after at most six events, and it is counted exactly where it succeeds: what
/// it returns is success if and only if its last event is that its bytes were counted, and no
/// earlier event is.
pub proof fn law_counted_where_it_succeeds(run: Seq<MallocEvent>)
    requires
        is_run(run),
    ensures
        run.len() <= 6,
        malloc_action(run.last()) == MallocAction::Return(CudaResult::Success) <==> run.last()
            == MallocEvent::Counted,
        forall|i: int| 0 <= i < run.len() - 1 ==> #[trigger] run[i] != MallocEvent::Counted,
{
    lemma_stages(run, run.len() - 1);
    assert forall|i: int| 0 <= i < run.len() - 1 implies #[trigger] run[i]
        != MallocEvent::Counted by {
        assert(comes_of(malloc_action(run[i]), run[i + 1]));
    }
}

/// Where no memory could be put behind the handles of an allocation, they are given back before
/// the call ends, and the call fails.
pub proof fn law_unbacked_handles_are_given_back(run: Seq<MallocEvent>, i: int)
    requires
        is_run(run),
        malloc_action(run.last()) is Return,
        0 <= i < run.len(),
        run[i] == MallocEvent::Populated(false),
    ensures
        i + 1 < run.len(),
        run[i + 1] == MallocEvent::Cancelled,
        malloc_action(run.last()) == MallocAction::Return(CudaResult::OutOfMemory),
{
    if i + 1 < run.len() {
        assert(comes_of(malloc_action(run[i]), run[i + 1]));
        if i + 2 < run.len() {
            assert(comes_of(malloc_action(run[i + 1]), run[i + 2]));
        }
    }
}

/// The steps of an allocation that succeeds: a large one reserves as many bytes as its plan says,
/// takes handles, gets memory, is taken up where the table has room, and is counted. A small one is
/// allocated by the driver and counted. One that is refused goes no further.
pub proof fn law_steps_of_an_allocation(run: Seq<MallocEvent>, bytes: usize)
    requires
        is_run(run),
    ensures
        malloc_action(run.last()) == MallocAction::Return(CudaResult::Success) ==> {
            ||| {
                &&& run.len() == 6
                &&& run[0] matches MallocEvent::Planned(MallocPlan::Large(_))
                &&& run[1] == MallocEvent::Reserved(CudaResult::Success)
                &&& run[2] == MallocEvent::Booked(true)
                &&& run[3] == MallocEvent::Populated(true)
                &&& run[4] is Admitted
                &&& run[5] == MallocEvent::Counted
            }
            ||| {
                &&& run.len() == 3
                &&& run[0] == MallocEvent::Planned(MallocPlan::Small)
                &&& run[1] == MallocEvent::SmallAllocated(CudaResult::Success)
                &&& run[2] == MallocEvent::Counted
            }
        },
        run[0] == MallocEvent::Planned(MallocPlan::Refuse) ==> run.len() == 1 && malloc_action(
            run[0],
        ) == MallocAction::Return(CudaResult::OutOfMemory),
        malloc_action(MallocEvent::Planned(MallocPlan::Large(bytes))) == MallocAction::Reserve(
            bytes,
        ),
{
    lemma_stages(run, run.len() - 1);
    if run.len() > 1 {
        assert(comes_of(malloc_action(run[0]), run[1]));
    }
    if run.len() > 2 {
        assert(comes_of(malloc_action(run[1]), run[2]));
    }
    if run.len() > 3 {
        assert(comes_of(malloc_action(run[2]), run[3]));
    }
    if run.len() > 4 {
        assert(comes_of(malloc_action(run[3]), run[4]));
    }
    if run.len() > 5 {
        assert(comes_of(malloc_action(run[4]), run[5]));
    }
}

/// What a step failed with is what the call returns; where handles run out or memory does, that is
/// that there is not enough. A step that succeeds does not end the call.
pub proof fn law_failures_are_told(result: CudaResult, admitted: bool)
    ensures
        result != CudaResult::Success ==> malloc_action(MallocEvent::Reserved(result))
            == MallocAction::Return(result) && malloc_action(MallocEvent::SmallAllocated(result))
            == MallocAction::Return(result),
        !(malloc_action(MallocEvent::Reserved(CudaResult::Success)) is Return),
        !(malloc_action(MallocEvent::SmallAllocated(CudaResult::Success)) is Return),
        malloc_action(MallocEvent::Booked(false)) == MallocAction::Return(CudaResult::OutOfMemory),
        malloc_action(MallocEvent::Cancelled) == MallocAction::Return(CudaResult::OutOfMemory),
        malloc_action(MallocEvent::Admitted(admitted)) == MallocAction::Count,
        malloc_action(MallocEvent::SmallAllocated(CudaResult::Success)) == MallocAction::CountSmall,
{
}

} // verus!
