//! Bringing the buffers of one process onto one device.
//!
//! Buffers that are in shared memory already go first, in order. The others follow as they arrive
//! there. While room on the device is still being made, each buffer waits until enough of it is
//! free.
use std::collections::VecDeque;
use vstd::prelude::*;
use crate::ids::{BufferId, GlobalDeviceId};
use super::task::MigrationSpecEntry;

verus! {

/// Where the next buffer was found.
#[derive(Debug, Clone, Copy, PartialEq, Eq, Structural)]
pub enum BufferSource {
    /// In shared memory from the start.
    Ready,
    /// In shared memory since a moment ago.
    Pending,
}

/// What has to be done next.
#[derive(Debug, Clone, Copy, PartialEq, Eq, Structural)]
pub enum H2dAction {
    /// Wait until a buffer arrives in shared memory.
    AwaitData,
    /// Wait until memory of the device is freed.
    AwaitToken,
    /// Bring the buffer onto the device.
    Transfer(BufferId),
    /// Stop. Everything was brought in, or not.
    Finish { complete: bool },
}

/// What a buffer that arrived was.
#[derive(Debug, Clone, Copy, PartialEq, Eq, Structural)]
pub enum Arrival {
    Expected,
    Unexpected,
    /// No more will arrive.
    Closed,
}

#[derive(Debug)]
pub struct HostToDevice {
    pub ready: VecDeque<BufferId>,
    pub pending: Vec<BufferId>,
    pub next: Option<(BufferId, BufferSource)>,
    /// Bytes of the device that are free for the next buffers.
    pub tokens: u64,
    pub data_closed: bool,
    /// Whether a buffer was not in shared memory when it should have been brought in.
    pub missing: bool,
    pub ready_count: usize,
    pub pending_count: usize,
    pub ready_done: usize,
    pub pending_done: usize,
    /// How often what was freed was not enough.
    pub token_not_enough: u64,
}

/// What is left to bring in.
#[verifier::ext_equal]
pub struct H2dModel {
    pub next: Option<(BufferId, BufferSource)>,
    pub ready: Seq<BufferId>,
    pub pending: Seq<BufferId>,
    pub tokens: int,
    pub data_closed: bool,
    pub missing: bool,
    pub ready_done: int,
    pub pending_done: int,
}

impl View for HostToDevice {
    type V = H2dModel;

    open spec fn view(&self) -> H2dModel {
        H2dModel {
            next: self.next,
            ready: self.ready@,
            pending: self.pending@,
            tokens: self.tokens as int,
            data_closed: self.data_closed,
            missing: self.missing,
            ready_done: self.ready_done as int,
            pending_done: self.pending_done as int,
        }
    }
}

/// The buffers among `entries` that are in shared memory, or those that are not, in order.
pub open spec fn buffers_where(
    entries: Seq<MigrationSpecEntry>,
    pid: i32,
    device: GlobalDeviceId,
    ready: bool,
) -> Seq<BufferId>
    decreases entries.len(),
{
    if entries.len() == 0 {
        Seq::empty()
    } else {
        let before = buffers_where(entries.drop_last(), pid, device, ready);
        if entries.last().ready_for_pcie_xfer == ready {
            before.push(entries.last().buffer(pid, device))
        } else {
            before
        }
    }
}

/// `s` with each element once, where it first occurs.
pub open spec fn once_each(s: Seq<BufferId>) -> Seq<BufferId>
    decreases s.len(),
{
    if s.len() == 0 {
        s
    } else {
        let before = once_each(s.drop_last());
        if before.contains(s.last()) {
            before
        } else {
            before.push(s.last())
        }
    }
}

fn position(list: &Vec<BufferId>, id: BufferId) -> (at: Option<usize>)
    ensures
        match at {
            Some(i) => i < list@.len() && list@[i as int] == id && forall|j: int|
                0 <= j < i ==> list@[j] != id,
            None => !list@.contains(id),
        },
{
    let mut i: usize = 0;
    while i < list.len()
        invariant
            i <= list@.len(),
            forall|j: int| 0 <= j < i ==> list@[j] != id,
        decreases list@.len() - i,
    {
        if list[i] == id {
            return Some(i);
        }
        i = i + 1;
    }
    None
}

impl H2dModel {
    /// The buffers that are left, the next one first.
    pub open spec fn left(self) -> Seq<BufferId> {
        match self.next {
            Some((id, _)) => seq![id] + self.ready + self.pending,
            None => self.ready + self.pending,
        }
    }

    /// Takes the first ready buffer as the next one.
    pub open spec fn take_ready(self) -> H2dModel {
        if self.ready.len() > 0 {
            H2dModel {
                next: Some((self.ready[0], BufferSource::Ready)),
                ready: self.ready.drop_first(),
                ..self
            }
        } else {
            H2dModel { next: None, ..self }
        }
    }

    /// What has to be done next. Nobody has to wait for room once all of it is made, and nothing
    /// more is done once a buffer is missing.
    pub open spec fn action(self, tokens_open: bool, complete: bool) -> H2dAction {
        if self.missing {
            H2dAction::Finish { complete }
        } else {
            match self.next {
                None => if self.pending.len() > 0 && !self.data_closed {
                    H2dAction::AwaitData
                } else {
                    H2dAction::Finish { complete }
                },
                Some((id, _)) => if tokens_open {
                    H2dAction::AwaitToken
                } else {
                    H2dAction::Transfer(id)
                },
            }
        }
    }

    /// The buffer `id` has arrived in shared memory.
    pub open spec fn arrived(self, id: BufferId) -> H2dModel {
        if self.pending.contains(id) {
            H2dModel {
                next: Some((id, BufferSource::Pending)),
                pending: self.pending.remove_value(id),
                ..self
            }
        } else {
            self
        }
    }

    /// The next buffer has been brought in.
    pub open spec fn transferred(self) -> H2dModel {
        match self.next {
            Some((_, BufferSource::Ready)) => H2dModel {
                ready_done: self.ready_done + 1,
                ..self.take_ready()
            },
            Some((_, BufferSource::Pending)) => H2dModel {
                pending_done: self.pending_done + 1,
                ..self.take_ready()
            },
            None => self,
        }
    }
}

impl HostToDevice {
    /// Every buffer is waiting, being brought in or done, and the counts agree.
    pub open spec fn wf(self) -> bool {
        let busy_ready: int = if self.next matches Some((_, BufferSource::Ready)) {
            1
        } else {
            0
        };
        let busy_pending: int = if self.next matches Some((_, BufferSource::Pending)) {
            1
        } else {
            0
        };
        &&& self.ready@.len() + busy_ready + self.ready_done == self.ready_count
        &&& self.pending@.len() + busy_pending + self.pending_done == self.pending_count
        &&& self.next is None ==> self.ready@.len() == 0
    }

    /// Starts to bring `entries` of `pid` onto `device`.
    pub fn new(entries: &Vec<MigrationSpecEntry>, pid: i32, device: GlobalDeviceId) -> (state: Self)
        ensures
            state.wf(),
            state@ == (H2dModel {
                next: None,
                ready: buffers_where(entries@, pid, device, true),
                pending: once_each(buffers_where(entries@, pid, device, false)),
                tokens: 0,
                data_closed: false,
                missing: false,
                ready_done: 0,
                pending_done: 0,
            }).take_ready(),
            state.ready_count == buffers_where(entries@, pid, device, true).len(),
            state.pending_count == once_each(buffers_where(entries@, pid, device, false)).len(),
            state.token_not_enough == 0,
    {
        let mut ready: VecDeque<BufferId> = VecDeque::new();
        let mut pending: Vec<BufferId> = Vec::new();
        let mut i: usize = 0;
        proof {
            assert(entries@.take(0) =~= Seq::empty());
        }
        while i < entries.len()
            invariant
                i <= entries@.len(),
                ready@ == buffers_where(entries@.take(i as int), pid, device, true),
                pending@ == once_each(
                    buffers_where(entries@.take(i as int), pid, device, false),
                ),
            decreases entries@.len() - i,
        {
            let e = entries[i];
            let id = e.to_buffer_id(pid, device);
            let ghost waiting = buffers_where(entries@.take(i as int), pid, device, false);
            proof {
                assert(entries@.take(i + 1).drop_last() =~= entries@.take(i as int));
                assert(waiting.push(id).drop_last() =~= waiting);
            }
            if e.ready_for_pcie_xfer {
                ready.push_back(id);
            } else {
                match position(&pending, id) {
                    Some(at) => {
                        assert(pending@[at as int] == id);
                    },
                    None => {
                        pending.push(id);
                    },
                }
            }
            i = i + 1;
        }
        proof {
            assert(entries@.take(i as int) =~= entries@);
        }
        let ready_count: usize = ready.len();
        let pending_count: usize = pending.len();
        let mut state = HostToDevice {
            ready,
            pending,
            next: None,
            tokens: 0,
            data_closed: false,
            missing: false,
            ready_count,
            pending_count,
            ready_done: 0,
            pending_done: 0,
            token_not_enough: 0,
        };
        state.take_ready();
        state
    }

    fn take_ready(&mut self)
        ensures
            final(self)@ == old(self)@.take_ready(),
            final(self).ready_count == old(self).ready_count,
            final(self).pending_count == old(self).pending_count,
            final(self).token_not_enough == old(self).token_not_enough,
    {
        let ghost before = self@;
        self.next = match self.ready.pop_front() {
            Some(id) => Some((id, BufferSource::Ready)),
            None => None,
        };
        proof {
            if before.ready.len() > 0 {
                assert(self.ready@ =~= before.ready.drop_first());
            } else {
                assert(self.ready@ =~= before.ready);
            }
        }
    }

    /// Whether everything was brought in.
    pub open spec fn complete(self) -> bool {
        self.ready_done == self.ready_count && self.pending_done == self.pending_count
    }

    /// What has to be done next, where `tokens_open` says whether room is still being made.
    pub fn action(&self, tokens_open: bool) -> (action: H2dAction)
        ensures
            action == self@.action(tokens_open, self.complete()),
    {
        let complete = self.ready_done == self.ready_count && self.pending_done
            == self.pending_count;
        if self.missing {
            return H2dAction::Finish { complete };
        }
        match self.next {
            None => if self.pending.len() > 0 && !self.data_closed {
                H2dAction::AwaitData
            } else {
                H2dAction::Finish { complete }
            },
            Some((id, _)) => if tokens_open {
                H2dAction::AwaitToken
            } else {
                H2dAction::Transfer(id)
            },
        }
    }

    /// Takes note that a buffer has arrived in shared memory, or that none will.
    pub fn on_data(&mut self, arrived: Option<BufferId>) -> (arrival: Arrival)
        requires
            old(self).wf(),
            old(self).next is None,
        ensures
            match arrived {
                Some(id) => {
                    &&& final(self)@ == old(self)@.arrived(id)
                    &&& arrival == if old(self)@.pending.contains(id) {
                        Arrival::Expected
                    } else {
                        Arrival::Unexpected
                    }
                },
                None => {
                    &&& final(self)@ == (H2dModel { data_closed: true, ..old(self)@ })
                    &&& arrival == Arrival::Closed
                },
            },
            final(self).wf(),
            final(self).ready_count == old(self).ready_count,
            final(self).pending_count == old(self).pending_count,
            final(self).token_not_enough == old(self).token_not_enough,
    {
        match arrived {
            None => {
                self.data_closed = true;
                Arrival::Closed
            },
            Some(id) => match position(&self.pending, id) {
                None => Arrival::Unexpected,
                Some(at) => {
                    let ghost before = self.pending@;
                    let _ = self.pending.remove(at);
                    proof {
                        lemma_remove_first(before, id, at as int);
                    }
                    self.next = Some((id, BufferSource::Pending));
                    Arrival::Expected
                },
            },
        }
    }

    /// Takes note that `freed` bytes of the device are free, or that no more will be. Says whether
    /// the next buffer may be brought in now.
    pub fn on_token(&mut self, freed: Option<u64>) -> (granted: bool)
        requires
            old(self).wf(),
            old(self).next is Some,
            freed matches Some(size) ==> old(self).tokens + size <= u64::MAX,
        ensures
            final(self).wf(),
            final(self)@ == (H2dModel { tokens: final(self).tokens as int, ..old(self)@ }),
            final(self).ready_count == old(self).ready_count,
            final(self).pending_count == old(self).pending_count,
            match (freed, old(self).next) {
                (Some(size), Some((id, _))) => {
                    let have = old(self).tokens + size;
                    &&& granted == (have >= id.size)
                    &&& final(self).tokens == if granted {
                        have - id.size
                    } else {
                        have
                    }
                },
                _ => granted && final(self).tokens == old(self).tokens,
            },
            freed matches Some(size) ==> (granted, final(self).tokens as int) == spend(
                old(self).tokens as int,
                size as int,
                (old(self).next->0).0.size as int,
            ),
            granted ==> final(self).token_not_enough == old(self).token_not_enough,
            !granted && old(self).token_not_enough < u64::MAX ==> final(self).token_not_enough
                == old(self).token_not_enough + 1,
    {
        match freed {
            None => true,
            Some(size) => {
                self.tokens = self.tokens + size;
                match self.next {
                    None => true,
                    Some((id, _)) => if self.tokens >= id.size as u64 {
                        self.tokens = self.tokens - id.size as u64;
                        true
                    } else {
                        self.token_not_enough = self.token_not_enough.saturating_add(1);
                        false
                    },
                }
            },
        }
    }

    /// Takes note that the next buffer was brought in.
    pub fn on_transferred(&mut self)
        requires
            old(self).wf(),
            old(self).next is Some,
        ensures
            final(self).wf(),
            final(self)@ == old(self)@.transferred(),
            final(self).ready_count == old(self).ready_count,
            final(self).pending_count == old(self).pending_count,
            final(self).token_not_enough == old(self).token_not_enough,
    {
        match self.next {
            Some((_, BufferSource::Ready)) => {
                self.ready_done = self.ready_done + 1;
            },
            Some((_, BufferSource::Pending)) => {
                self.pending_done = self.pending_done + 1;
            },
            None => {},
        }
        self.take_ready();
    }

    /// Takes note that the next buffer is not in shared memory. The transfer ends with it, and it
    /// is not complete.
    pub fn on_missing(&mut self)
        requires
            old(self).wf(),
            old(self).next is Some,
        ensures
            final(self).wf(),
            final(self)@ == (H2dModel { missing: true, ..old(self)@ }),
            final(self).ready_count == old(self).ready_count,
            final(self).pending_count == old(self).pending_count,
            final(self).token_not_enough == old(self).token_not_enough,
            forall|tokens_open: bool| #[trigger]
                final(self)@.action(tokens_open, final(self).complete()) == (H2dAction::Finish {
                    complete: false,
                }),
    {
        self.missing = true;
    }
}

proof fn lemma_remove_first(s: Seq<BufferId>, id: BufferId, at: int)
    requires
        0 <= at < s.len(),
        s[at] == id,
        forall|j: int| 0 <= j < at ==> s[j] != id,
    ensures
        s.remove_value(id) == s.remove(at),
        s.contains(id),
{
    s.index_of_first_ensures(id);
}

// Laws.

/// Where waiting buffers run out, everything was brought in: a stop is incomplete only because
/// the arrivals ended early or a buffer was missing.
pub proof fn law_stops_when_all_is_done(state: HostToDevice)
    requires
        state.wf(),
        state@.action(true, state.complete()) is Finish,
        !state.data_closed,
        !state.missing,
    ensures
        state.complete(),
{
}

/// A buffer that was brought in is not brought in again.
pub proof fn law_each_buffer_once(m: H2dModel, id: BufferId)
    requires
        m.left().no_duplicates(),
        m.next matches Some((next, _)) && next == id,
    ensures
        !m.transferred().left().contains(id),
        m.transferred().left().no_duplicates(),
{
    let left = m.left();
    let after = m.transferred().left();
    assert(left[0] == id);
    assert(after =~= left.drop_first());
    assert forall|i: int| 0 <= i < after.len() implies after[i] != id by {
        assert(left[i + 1] == after[i]);
    }
    assert forall|i: int, j: int| 0 <= i < after.len() && 0 <= j < after.len() && i != j implies
        after[i] != after[j] by {
        assert(left[i + 1] == after[i]);
        assert(left[j + 1] == after[j]);
    }
}

/// An arrival adds no buffer and loses none.
pub proof fn law_arrival_keeps_buffers(m: H2dModel, id: BufferId)
    requires
        m.next is None,
        m.ready.len() == 0,
        m.pending.no_duplicates(),
    ensures
        m.arrived(id).left().to_set() == m.left().to_set(),
        m.arrived(id).left().no_duplicates(),
{
    let before = m.left();
    let after = m.arrived(id).left();
    assert(before =~= m.pending);
    if m.pending.contains(id) {
        m.pending.index_of_first_ensures(id);
        let at = m.pending.index_of_first(id)->0;
        let rest = m.pending.remove(at);
        assert(after =~= seq![id] + rest);
        assert forall|x: BufferId| after.contains(x) == before.contains(x) by {
            if before.contains(x) {
                let k = choose|k: int| 0 <= k < before.len() && before[k] == x;
                if k < at {
                    assert(after[k + 1] == x);
                } else if k == at {
                    assert(after[0] == x);
                } else {
                    assert(after[k] == x);
                }
            }
            if after.contains(x) {
                let k = choose|k: int| 0 <= k < after.len() && after[k] == x;
                if k == 0 {
                    assert(before[at] == x);
                } else if k - 1 < at {
                    assert(before[k - 1] == x);
                } else {
                    assert(before[k] == x);
                }
            }
        }
        assert(after.to_set() =~= before.to_set());
        assert forall|i: int, j: int|
            0 <= i < after.len() && 0 <= j < after.len() && i != j implies after[i]
            != after[j] by {
            let source = |k: int|
                if k == 0 {
                    at
                } else if k - 1 < at {
                    k - 1
                } else {
                    k
                };
            assert(after[i] == before[source(i)]);
            assert(after[j] == before[source(j)]);
            assert(source(i) != source(j));
        }
    } else {
        assert(after =~= before);
    }
}

/// The buffer of an entry.
pub open spec fn buffer_id(e: MigrationSpecEntry, pid: i32, device: GlobalDeviceId) -> BufferId {
    BufferId { pid, device_id: device, block_id: e.handle_idx, size: e.size }
}

proof fn lemma_buffers_where(
    entries: Seq<MigrationSpecEntry>,
    pid: i32,
    device: GlobalDeviceId,
    ready: bool,
    id: BufferId,
)
    ensures
        buffers_where(entries, pid, device, ready).contains(id) <==> exists|i: int|
            0 <= i < entries.len() && (#[trigger] entries[i]).ready_for_pcie_xfer == ready
                && buffer_id(entries[i], pid, device) == id,
    decreases entries.len(),
{
    if entries.len() > 0 {
        let before = entries.drop_last();
        let list = buffers_where(before, pid, device, ready);
        let all = buffers_where(entries, pid, device, ready);
        lemma_buffers_where(before, pid, device, ready, id);
        assert(entries[entries.len() - 1] == entries.last());
        if all.contains(id) {
            let k = choose|k: int| 0 <= k < all.len() && all[k] == id;
            if k < list.len() {
                assert(list[k] == id);
                let i = choose|i: int|
                    0 <= i < before.len() && (#[trigger] before[i]).ready_for_pcie_xfer == ready
                        && buffer_id(before[i], pid, device) == id;
                assert(entries[i] == before[i]);
            }
        }
        if exists|i: int|
            0 <= i < entries.len() && (#[trigger] entries[i]).ready_for_pcie_xfer == ready
                && buffer_id(entries[i], pid, device) == id {
            let i = choose|i: int|
                0 <= i < entries.len() && (#[trigger] entries[i]).ready_for_pcie_xfer == ready
                    && buffer_id(entries[i], pid, device) == id;
            if i < before.len() {
                assert(before[i] == entries[i]);
                let k = choose|k: int| 0 <= k < list.len() && list[k] == id;
                assert(all[k] == id);
            } else {
                assert(all[list.len() as int] == id);
            }
        }
    }
}

proof fn lemma_once_each(s: Seq<BufferId>, id: BufferId)
    ensures
        once_each(s).contains(id) == s.contains(id),
        once_each(s).no_duplicates(),
    decreases s.len(),
{
    if s.len() > 0 {
        let t = s.drop_last();
        lemma_once_each(t, id);
        lemma_once_each(t, s.last());
        let before = once_each(t);
        if s.contains(id) {
            let i = choose|i: int| 0 <= i < s.len() && s[i] == id;
            if i < t.len() {
                assert(t[i] == id);
                let k = choose|k: int| 0 <= k < before.len() && before[k] == id;
                assert(once_each(s)[k] == id);
            } else if !before.contains(id) {
                assert(once_each(s)[before.len() as int] == id);
            }
        }
        if once_each(s).contains(id) {
            let k = choose|k: int| 0 <= k < once_each(s).len() && once_each(s)[k] == id;
            if k < before.len() {
                assert(before[k] == id);
                let i = choose|i: int| 0 <= i < t.len() && t[i] == id;
                assert(s[i] == id);
            } else {
                assert(s[s.len() - 1] == id);
            }
        }
    }
}

/// Every entry is brought in, and nothing else: those in shared memory are ready, and the others
/// are waited for.
pub proof fn law_every_entry_is_brought_in(
    entries: Seq<MigrationSpecEntry>,
    pid: i32,
    device: GlobalDeviceId,
    id: BufferId,
)
    ensures
        buffers_where(entries, pid, device, true).contains(id) <==> exists|i: int|
            0 <= i < entries.len() && (#[trigger] entries[i]).ready_for_pcie_xfer && buffer_id(
                entries[i],
                pid,
                device,
            ) == id,
        once_each(buffers_where(entries, pid, device, false)).contains(id) <==> exists|i: int|
            0 <= i < entries.len() && !(#[trigger] entries[i]).ready_for_pcie_xfer && buffer_id(
                entries[i],
                pid,
                device,
            ) == id,
        once_each(buffers_where(entries, pid, device, false)).no_duplicates(),
{
    lemma_buffers_where(entries, pid, device, true, id);
    lemma_buffers_where(entries, pid, device, false, id);
    lemma_once_each(buffers_where(entries, pid, device, false), id);
}

/// What is done next. Once a buffer is missing, nothing. Where a buffer is next, it is brought in,
/// but while room is still being made that is waited for. Where none is next, one is waited for as
/// long as any can arrive, and else all is over.
pub proof fn law_what_is_done_next(m: H2dModel, tokens_open: bool, complete: bool)
    ensures
        m.missing ==> m.action(tokens_open, complete) == (H2dAction::Finish { complete }),
        !m.missing ==> (m.next matches Some((id, _)) ==> m.action(tokens_open, complete) == (
        if tokens_open {
            H2dAction::AwaitToken
        } else {
            H2dAction::Transfer(id)
        })),
        !m.missing && m.next is None ==> (m.action(tokens_open, complete) == H2dAction::AwaitData
            <==> m.pending.len() > 0 && !m.data_closed),
        !m.missing && m.next is None && (m.pending.len() == 0 || m.data_closed) ==> m.action(
            tokens_open,
            complete,
        ) == (H2dAction::Finish { complete }),
{
}

/// Once a buffer is brought in, it is counted, and the first of those that are ready is next.
pub proof fn law_next_buffer(m: H2dModel)
    requires
        m.next is Some,
    ensures
        ({
            let r = m.transferred();
            &&& m.left() == seq![(m.next->0).0] + r.left()
            &&& m.ready.len() > 0 ==> r.next == Some((m.ready[0], BufferSource::Ready)) && seq![
                m.ready[0],
            ] + r.ready == m.ready
            &&& m.ready.len() == 0 ==> r.next is None && r.ready == m.ready
            &&& r.pending == m.pending && r.tokens == m.tokens && r.data_closed == m.data_closed
                && r.missing == m.missing
            &&& r.ready_done + r.pending_done == m.ready_done + m.pending_done + 1
            &&& r.ready_done == m.ready_done + if (m.next->0).1 == BufferSource::Ready {
                1int
            } else {
                0
            }
        }),
{
    let r = m.transferred();
    if m.ready.len() > 0 {
        assert(seq![m.ready[0]] + m.ready.drop_first() =~= m.ready);
    }
    assert(m.left() =~= seq![(m.next->0).0] + r.left());
}

/// A buffer that arrives is next where it was waited for, and then it is waited for no longer. Any
/// other changes nothing.
pub proof fn law_arrived_buffer_is_next(m: H2dModel, id: BufferId)
    requires
        m.pending.no_duplicates(),
    ensures
        ({
            let r = m.arrived(id);
            &&& m.pending.contains(id) ==> r.next == Some((id, BufferSource::Pending))
                && !r.pending.contains(id) && r.pending.len() == m.pending.len() - 1
            &&& !m.pending.contains(id) ==> r == m
            &&& r.ready == m.ready && r.tokens == m.tokens && r.ready_done == m.ready_done
                && r.pending_done == m.pending_done && r.missing == m.missing
        }),
{
    if m.pending.contains(id) {
        let at = m.pending.index_of_first(id)->0;
        m.pending.index_of_first_ensures(id);
        let r = m.arrived(id).pending;
        assert(r == m.pending.remove(at));
        if r.contains(id) {
            let k = choose|k: int| 0 <= k < r.len() && r[k] == id;
            if k < at {
                assert(m.pending[k] == id);
            } else {
                assert(m.pending[k + 1] == id);
            }
        }
    }
}

/// Whether a buffer of `size` bytes may enter once `freed` more bytes are free, `tokens` of which
/// were before, and what is free then.
pub open spec fn spend(tokens: int, freed: int, size: int) -> (bool, int) {
    if tokens + freed >= size {
        (true, tokens + freed - size)
    } else {
        (false, tokens + freed)
    }
}

/// What is free after each of some reports of freed bytes, while the same buffer waits, up to the one
/// that lets it in.
pub open spec fn waiting_for(tokens: int, reports: Seq<int>, size: int) -> (bool, int)
    decreases reports.len(),
{
    if reports.len() == 0 {
        (false, tokens)
    } else {
        let (granted, left) = waiting_for(tokens, reports.drop_last(), size);
        if granted {
            (true, left)
        } else {
            spend(left, reports.last(), size)
        }
    }
}

/// No buffer enters the device before as many bytes are free as it has, and it enters as soon as
/// they are. What is left is what was freed and not used.
pub proof fn law_buffers_wait_for_room(tokens: int, reports: Seq<int>, size: int)
    requires
        0 <= tokens,
        forall|i: int| 0 <= i < reports.len() ==> 0 <= #[trigger] reports[i],
    ensures
        ({
            let (granted, left) = waiting_for(tokens, reports, size);
            let freed = crate::sums::sum_of(reports, |b: int| b);
            &&& !granted ==> left == tokens + freed && (reports.len() > 0 ==> tokens + freed < size)
            &&& granted ==> tokens + freed >= size && 0 <= left <= tokens + freed - size
            &&& reports.len() > 0 && tokens + freed < size ==> !granted
        }),
    decreases reports.len(),
{
    if reports.len() > 0 {
        let rest = reports.drop_last();
        assert forall|i: int| 0 <= i < rest.len() implies 0 <= #[trigger] rest[i] by {
            assert(rest[i] == reports[i]);
        }
        law_buffers_wait_for_room(tokens, rest, size);
        assert(reports[reports.len() - 1] == reports.last());
    }
}

/// The state of a transfer is read in full, and it is complete where everything was brought in.
pub proof fn law_transfer_is_read_in_full(state: HostToDevice)
    ensures
        state@.next == state.next,
        state@.ready == state.ready@,
        state@.pending == state.pending@,
        state@.tokens == state.tokens,
        state@.data_closed == state.data_closed,
        state@.missing == state.missing,
        state.complete() <==> state.ready_done == state.ready_count && state.pending_done
            == state.pending_count,
        state.wf() && state.complete() ==> state.next is None && state.ready@.len() == 0
            && state.pending@.len() == 0,
{
}

} // verus!
