//! The state of the connection to one process.
use vstd::prelude::*;
use crate::assoc::assoc_get;
use crate::ids::{GlobalDeviceId, ProcessLocalDeviceId};
use super::mapping::DeviceOrdinalMapping;

verus! {

/// How far a process has got.
#[derive(Debug, Clone, Copy, PartialEq, Eq, Structural)]
pub enum ServerState {
    /// It has connected.
    Start,
    /// It has introduced itself.
    Launched {
        client_pid: i32,
    },
    /// It is being introduced, or that has failed.
    Partial,
}

impl ServerState {
    pub open spec fn name_of(self) -> Seq<char> {
        match self {
            ServerState::Start => "Start"@,
            ServerState::Launched { .. } => "Launched"@,
            ServerState::Partial => "Inconsistent state when lock is hold"@,
        }
    }

    pub fn state_name(&self) -> (name: &'static str)
        ensures
            name@ == self.name_of(),
    {
        match self {
            ServerState::Start => "Start",
            ServerState::Launched { .. } => "Launched",
            ServerState::Partial => "Inconsistent state when lock is hold",
        }
    }

    /// A process introduces itself. Where it may not, the name of the state it was in comes back,
    /// and its later messages are dropped.
    pub fn begin_handshake(&mut self) -> (begun: Result<(), &'static str>)
        ensures
            *final(self) == after_event(*old(self), ServerEvent::Handshake(None)),
            *final(self) == ServerState::Partial,
            match begun {
                Ok(_) => *old(self) == ServerState::Start,
                Err(name) => *old(self) != ServerState::Start && name@ == old(self).name_of(),
            },
    {
        let before = *self;
        *self = ServerState::Partial;
        match before {
            ServerState::Start => Ok(()),
            other => Err(other.state_name()),
        }
    }

    /// The process, which was at the start, has introduced itself as `client_pid`.
    pub fn launch(&mut self, client_pid: i32)
        ensures
            *final(self) == (ServerState::Launched { client_pid }),
            *final(self) == after_event(
                ServerState::Start,
                ServerEvent::Handshake(Some(client_pid)),
            ),
    {
        *self = ServerState::Launched { client_pid };
    }

    /// The process that a message comes from. Where there is none, the name of the state comes
    /// back, and the message is dropped.
    pub fn sender(&self) -> (pid: Result<i32, &'static str>)
        ensures
            match pid {
                Ok(pid) => *self == (ServerState::Launched { client_pid: pid }),
                Err(name) => !(self is Launched) && name@ == self.name_of(),
            },
    {
        match self {
            ServerState::Launched { client_pid } => Ok(*client_pid),
            other => Err(other.state_name()),
        }
    }
}

/// The memory of the devices that a process sees, under the numbers that it gives them.
pub open spec fn visible_sizes(
    real_to_visible: Seq<(GlobalDeviceId, ProcessLocalDeviceId)>,
    sizes: Seq<(GlobalDeviceId, u64)>,
) -> Seq<(ProcessLocalDeviceId, u64)>
    decreases sizes.len(),
{
    if sizes.len() == 0 {
        Seq::empty()
    } else {
        let before = visible_sizes(real_to_visible, sizes.drop_last());
        match assoc_get(real_to_visible, sizes.last().0) {
            Some(visible) => before.push((visible, sizes.last().1)),
            None => before,
        }
    }
}

/// The memory of the devices that a process sees, under the numbers that it gives them.
pub fn visible_mem_sizes(
    mapping: &DeviceOrdinalMapping,
    sizes: &Vec<(GlobalDeviceId, u64)>,
) -> (visible: Vec<(ProcessLocalDeviceId, u64)>)
    ensures
        visible@ == visible_sizes(mapping.real_to_visible@, sizes@),
{
    let mut visible: Vec<(ProcessLocalDeviceId, u64)> = Vec::new();
    let mut i: usize = 0;
    proof {
        assert(sizes@.take(0) =~= Seq::empty());
    }
    while i < sizes.len()
        invariant
            i <= sizes@.len(),
            visible@ == visible_sizes(mapping.real_to_visible@, sizes@.take(i as int)),
        decreases sizes@.len() - i,
    {
        proof {
            assert(sizes@.take(i + 1).drop_last() =~= sizes@.take(i as int));
        }
        if let Some(device) = mapping.real_to_visible(sizes[i].0) {
            visible.push((device, sizes[i].1));
        }
        i = i + 1;
    }
    proof {
        assert(sizes@.take(i as int) =~= sizes@);
    }
    visible
}

/// What has happened on a connection.
#[derive(Debug, Clone, Copy, PartialEq, Eq, Structural)]
pub enum ServerEvent {
    /// The process introduced itself; where that went well, as whom.
    Handshake(Option<i32>),
    /// The process sent a message.
    Message,
}

/// The state after an event.
pub open spec fn after_event(state: ServerState, event: ServerEvent) -> ServerState {
    match event {
        ServerEvent::Handshake(pid) => match (state, pid) {
            (ServerState::Start, Some(client_pid)) => ServerState::Launched { client_pid },
            _ => ServerState::Partial,
        },
        ServerEvent::Message => state,
    }
}

/// The state after a row of events.
pub open spec fn after_events(state: ServerState, events: Seq<ServerEvent>) -> ServerState
    decreases events.len(),
{
    if events.len() == 0 {
        state
    } else {
        after_event(after_events(state, events.drop_last()), events.last())
    }
}

/// A process introduces itself at most once: whoever it is at the end is whom the only
/// introduction named.
pub proof fn law_one_introduction(events: Seq<ServerEvent>, i: int)
    requires
        0 <= i < events.len(),
        events[i] is Handshake,
        after_events(ServerState::Start, events) is Launched,
    ensures
        after_events(ServerState::Start, events) matches ServerState::Launched { client_pid }
            && events[i] == ServerEvent::Handshake(Some(client_pid)),
        forall|j: int| 0 <= j < events.len() && j != i ==> #[trigger] events[j] is Message,
    decreases events.len(),
{
    let before = events.drop_last();
    if events.last() is Handshake {
        assert(after_events(ServerState::Start, before) == ServerState::Start);
        lemma_still_at_start(before);
        assert forall|j: int| 0 <= j < events.len() && j != events.len() - 1 implies
            #[trigger] events[j] is Message by {
            assert(before[j] == events[j]);
        }
        if i < events.len() - 1 {
            assert(events[i] is Message);
        }
    } else {
        law_one_introduction(before, i);
        assert forall|j: int| 0 <= j < events.len() && j != i implies #[trigger] events[j] is Message
            by {
            if j < before.len() {
                assert(before[j] == events[j]);
            }
        }
    }
}

/// Who is still at the start has not introduced itself.
proof fn lemma_still_at_start(events: Seq<ServerEvent>)
    requires
        after_events(ServerState::Start, events) == ServerState::Start,
    ensures
        forall|j: int| 0 <= j < events.len() ==> #[trigger] events[j] is Message,
    decreases events.len(),
{
    if events.len() > 0 {
        lemma_still_at_start(events.drop_last());
        assert forall|j: int| 0 <= j < events.len() implies #[trigger] events[j] is Message by {
            if j < events.len() - 1 {
                assert(events.drop_last()[j] == events[j]);
            }
        }
    }
}

/// A device that a process sees is told with its memory, under the number by which the process
/// knows it, and no other is.
pub proof fn law_visible_memory_is_told(
    real_to_visible: Seq<(GlobalDeviceId, ProcessLocalDeviceId)>,
    sizes: Seq<(GlobalDeviceId, u64)>,
    visible: ProcessLocalDeviceId,
    bytes: u64,
)
    ensures
        visible_sizes(real_to_visible, sizes).contains((visible, bytes)) <==> exists|i: int|
            0 <= i < sizes.len() && (#[trigger] sizes[i]).1 == bytes && assoc_get(
                real_to_visible,
                sizes[i].0,
            ) == Some(visible),
        visible_sizes(real_to_visible, sizes).len() <= sizes.len(),
    decreases sizes.len(),
{
    if sizes.len() > 0 {
        let rest = sizes.drop_last();
        let before = visible_sizes(real_to_visible, rest);
        let all = visible_sizes(real_to_visible, sizes);
        law_visible_memory_is_told(real_to_visible, rest, visible, bytes);
        assert(sizes[sizes.len() - 1] == sizes.last());
        if all.contains((visible, bytes)) {
            let k = choose|k: int| 0 <= k < all.len() && all[k] == (visible, bytes);
            if k < before.len() {
                assert(before[k] == (visible, bytes));
                let i = choose|i: int|
                    0 <= i < rest.len() && (#[trigger] rest[i]).1 == bytes && assoc_get(
                        real_to_visible,
                        rest[i].0,
                    ) == Some(visible);
                assert(sizes[i] == rest[i]);
            }
        }
        if exists|i: int|
            0 <= i < sizes.len() && (#[trigger] sizes[i]).1 == bytes && assoc_get(
                real_to_visible,
                sizes[i].0,
            ) == Some(visible) {
            let i = choose|i: int|
                0 <= i < sizes.len() && (#[trigger] sizes[i]).1 == bytes && assoc_get(
                    real_to_visible,
                    sizes[i].0,
                ) == Some(visible);
            if i < rest.len() {
                assert(rest[i] == sizes[i]);
                let k = choose|k: int| 0 <= k < before.len() && before[k] == (visible, bytes);
                assert(all[k] == (visible, bytes));
            } else {
                assert(all[before.len() as int] == (visible, bytes));
            }
        }
    }
}

/// A process that introduces itself at the start, and once, is known by its number from then on,
/// whatever messages it sends.
pub proof fn law_introduced_process_is_known(pid: i32, messages: Seq<ServerEvent>)
    requires
        forall|i: int| 0 <= i < messages.len() ==> #[trigger] messages[i] is Message,
    ensures
        after_events(
            ServerState::Start,
            seq![ServerEvent::Handshake(Some(pid))] + messages,
        ) == (ServerState::Launched { client_pid: pid }),
    decreases messages.len(),
{
    let events = seq![ServerEvent::Handshake(Some(pid))] + messages;
    reveal_with_fuel(after_events, 2);
    if messages.len() > 0 {
        law_introduced_process_is_known(pid, messages.drop_last());
        assert(events.drop_last() =~= seq![ServerEvent::Handshake(Some(pid))]
            + messages.drop_last());
        assert(events.last() == messages[messages.len() - 1]);
    } else {
        assert(events.drop_last() =~= Seq::<ServerEvent>::empty());
    }
}

} // verus!
