//! Locks between processes.
use vstd::prelude::*;
use crate::text::{push_digits, push_padded, push_text};

verus! {

/// What a process that waited for a lock got.
#[derive(Debug, Clone, Copy, PartialEq, Eq, Structural)]
pub enum LockOutcome {
    Acquired,
    /// The lock is held, and its last owner died without giving it back.
    AcquiredAbandoned,
    Failed,
}

/// The wait ended because the lock was free.
pub const WAIT_OBJECT_0: u32 = 0;

/// The wait ended because the owner of the lock died.
pub const WAIT_ABANDONED: u32 = 128;

/// What the result of a wait means for the one that waited.
pub fn lock_outcome(wait: u32) -> (outcome: LockOutcome)
    ensures
        outcome == (if wait == WAIT_OBJECT_0 {
            LockOutcome::Acquired
        } else if wait == WAIT_ABANDONED {
            LockOutcome::AcquiredAbandoned
        } else {
            LockOutcome::Failed
        }),
{
    if wait == WAIT_OBJECT_0 {
        LockOutcome::Acquired
    } else if wait == WAIT_ABANDONED {
        LockOutcome::AcquiredAbandoned
    } else {
        LockOutcome::Failed
    }
}

/// Data in shared memory with the number of the lock that guards it. Each process derives the name
/// of the lock from the number.
#[derive(Debug)]
pub struct IpcMutex<T> {
    pub id: u64,
    /// How many processes have the data open.
    pub ref_count: u8,
    pub inner: T,
}

/// The name of the lock `id` within the session.
pub open spec fn mutex_name_of(id: u64) -> Seq<char> {
    "Local\\nixie-mtx-"@ + crate::text::padded(crate::text::digits(id as nat, 16), 16)
}

impl<T> IpcMutex<T> {
    /// Notes one more process that has the data open. The count wraps around.
    pub fn increase_ref_count(&mut self)
        ensures
            final(self).id == old(self).id,
            final(self).inner == old(self).inner,
            final(self).ref_count == (old(self).ref_count + 1) % 256,
    {
        self.ref_count = self.ref_count.wrapping_add(1);
    }

    /// Notes that one process has closed the data. The count wraps around.
    pub fn close(&mut self)
        ensures
            final(self).id == old(self).id,
            final(self).inner == old(self).inner,
            final(self).ref_count == (old(self).ref_count + 255) % 256,
    {
        self.ref_count = self.ref_count.wrapping_sub(1);
    }

    /// The name under which every process finds the lock.
    pub fn mutex_name(&self) -> (name: String)
        ensures
            name@ == mutex_name_of(self.id),
    {
        let mut name = String::new();
        push_text(&mut name, "Local\\nixie-mtx-");
        push_padded(&mut name, self.id, 16, 16);
        assert(name@ =~= mutex_name_of(self.id));
        name
    }

    /// What to report of a lock whose owner died.
    pub fn abandoned_warning(&self) -> (line: String)
        ensures
            line@ == "NIXIE-WARN: IpcMutex 0x"@ + crate::text::digits(self.id as nat, 16)
                + " abandoned by a dead owner"@,
    {
        let mut line = String::new();
        push_text(&mut line, "NIXIE-WARN: IpcMutex 0x");
        push_digits(&mut line, self.id, 16);
        push_text(&mut line, " abandoned by a dead owner");
        assert(line@ =~= "NIXIE-WARN: IpcMutex 0x"@ + crate::text::digits(self.id as nat, 16)
            + " abandoned by a dead owner"@);
        line
    }
}

/// Locks with different numbers have different names.
pub proof fn law_mutex_names_distinct(a: u64, b: u64)
    requires
        mutex_name_of(a) == mutex_name_of(b),
    ensures
        a == b,
{
    let prefix = "Local\\nixie-mtx-"@;
    let x = crate::text::padded(crate::text::digits(a as nat, 16), 16);
    let y = crate::text::padded(crate::text::digits(b as nat, 16), 16);
    assert(x =~= (prefix + x).skip(prefix.len() as int));
    assert(y =~= (prefix + y).skip(prefix.len() as int));
    crate::text::lemma_padded_digits_distinct(a as nat, b as nat, 16, 16);
}

/// Closing undoes opening.
pub proof fn law_ref_count_round_trip(count: u8)
    ensures
        ((count + 1) % 256 + 255) % 256 == count,
{
}

} // verus!
