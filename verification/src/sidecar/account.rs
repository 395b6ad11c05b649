//! How much an application has allocated, and how much it may.
use std::collections::BTreeMap;
use vstd::prelude::*;
use crate::constant::{MAX_GPUS, MIN_ALLOCATION_SIZE};

verus! {

broadcast use vstd::laws_cmp::group_laws_cmp;

/// What a call to the driver ended with.
#[derive(Debug, Clone, Copy, PartialEq, Eq, Structural)]
pub enum CudaResult {
    Success,
    OutOfMemory,
    InvalidValue,
    /// Any other code.
    Other(u32),
}

/// The smallest multiple of the smallest allocation that holds `size` bytes.
pub open spec fn rounded_up(size: int) -> int {
    ((size + MIN_ALLOCATION_SIZE - 1) / MIN_ALLOCATION_SIZE as int) * MIN_ALLOCATION_SIZE
}

/// The bytes that an allocation of `size` bytes takes: small ones are taken as they are.
pub open spec fn effective(size: int) -> int {
    if size < MIN_ALLOCATION_SIZE {
        size
    } else {
        rounded_up(size)
    }
}

/// Rounding up is to the next multiple.
pub proof fn lemma_rounded_up(size: int)
    requires
        0 <= size,
    ensures
        size <= rounded_up(size) < size + MIN_ALLOCATION_SIZE,
        rounded_up(size) % MIN_ALLOCATION_SIZE as int == 0,
        0 < size ==> 0 < rounded_up(size),
{
    let q = (size + MIN_ALLOCATION_SIZE - 1) / MIN_ALLOCATION_SIZE as int;
    assert((q * MIN_ALLOCATION_SIZE) % (MIN_ALLOCATION_SIZE as int) == 0) by (nonlinear_arith)
        requires
            MIN_ALLOCATION_SIZE == 2097152,
    ;
}

/// The smallest multiple of the smallest allocation that holds `size` bytes.
pub fn round_up(size: usize) -> (rounded: usize)
    requires
        size + MIN_ALLOCATION_SIZE - 1 <= usize::MAX,
    ensures
        rounded == rounded_up(size as int),
{
    proof {
        lemma_rounded_up(size as int);
    }
    (size + (MIN_ALLOCATION_SIZE - 1)) / MIN_ALLOCATION_SIZE * MIN_ALLOCATION_SIZE
}

/// The bytes that an allocation of `size` bytes takes.
pub fn effective_size(size: usize) -> (bytes: usize)
    requires
        size + MIN_ALLOCATION_SIZE - 1 <= usize::MAX,
    ensures
        bytes == effective(size as int),
{
    if size >= MIN_ALLOCATION_SIZE {
        round_up(size)
    } else {
        size
    }
}

/// What is to be done for an allocation.
#[derive(Debug, Clone, Copy, PartialEq, Eq, Structural)]
pub enum MallocPlan {
    /// It would exceed what the application may have.
    Refuse,
    /// The driver allocates it, and it stays on the GPU.
    Small,
    /// As many bytes of address space are reserved, and handles back them.
    Large(usize),
}

/// The plan for `size` bytes, where `current` of `max` bytes are allocated.
pub open spec fn malloc_plan(current: u64, max: u64, size: usize) -> MallocPlan {
    if current + size > max {
        MallocPlan::Refuse
    } else if size < MIN_ALLOCATION_SIZE {
        MallocPlan::Small
    } else {
        MallocPlan::Large(rounded_up(size as int) as usize)
    }
}

/// Small allocations by address, with their device and size, and the bytes allocated on each
/// device.
#[derive(Debug)]
pub struct Account {
    pub small: BTreeMap<u64, (i32, u64)>,
    pub current: Vec<u64>,
}

/// `bytes` more on `device`. The counters wrap around.
pub open spec fn grown(current: Seq<u64>, device: int, bytes: u64) -> Seq<u64> {
    current.update(device, ((current[device] + bytes) % 0x1_0000_0000_0000_0000) as u64)
}

/// `bytes` fewer on `device`. The counters wrap around.
pub open spec fn shrunk(current: Seq<u64>, device: int, bytes: u64) -> Seq<u64> {
    current.update(device, ((current[device] - bytes) % 0x1_0000_0000_0000_0000) as u64)
}

impl Account {
    /// There is a counter for every device, and small allocations are on devices.
    pub open spec fn wf(self) -> bool {
        &&& self.current@.len() == MAX_GPUS
        &&& forall|ptr: u64| #[trigger]
            self.small@.contains_key(ptr) ==> 0 <= self.small@[ptr].0 < MAX_GPUS
    }

    /// Nothing is allocated.
    pub fn new() -> (account: Self)
        ensures
            account.wf(),
            account.small@ == Map::<u64, (i32, u64)>::empty(),
            account.current@ == Seq::new(MAX_GPUS as nat, |i: int| 0u64),
    {
        let mut current: Vec<u64> = Vec::new();
        let mut i: usize = 0;
        while i < MAX_GPUS
            invariant
                i <= MAX_GPUS,
                current@.len() == i,
                forall|k: int| 0 <= k < i ==> #[trigger] current@[k] == 0,
            decreases MAX_GPUS - i,
        {
            current.push(0);
            i = i + 1;
        }
        assert(current@ =~= Seq::new(MAX_GPUS as nat, |i: int| 0u64));
        Account { small: BTreeMap::new(), current }
    }

    /// What is to be done for `size` bytes on `device`, of which the application may have `max`.
    pub fn plan_malloc(&self, device: usize, max: u64, size: usize) -> (plan: MallocPlan)
        requires
            device < self.current@.len(),
            self.current@[device as int] + size <= max ==> size + MIN_ALLOCATION_SIZE - 1
                <= usize::MAX,
        ensures
            plan == malloc_plan(self.current@[device as int], max, size),
    {
        if self.current[device] as u128 + size as u128 > max as u128 {
            return MallocPlan::Refuse;
        }
        if size < MIN_ALLOCATION_SIZE {
            return MallocPlan::Small;
        }
        MallocPlan::Large(round_up(size))
    }

    /// Notes a small allocation.
    pub fn add_small(&mut self, ptr: u64, device: usize, size: u64)
        requires
            old(self).wf(),
            device < MAX_GPUS,
        ensures
            final(self).wf(),
            final(self).small@ == old(self).small@.insert(ptr, (device as i32, size)),
            final(self).current@ == grown(old(self).current@, device as int, size),
    {
        let _previous = self.small.insert(ptr, (device as i32, size));
        self.add_large(device, size);
    }

    /// Forgets a small allocation, where there is one at `ptr`, and says where it was.
    pub fn remove_small(&mut self, ptr: u64) -> (found: Option<(i32, u64)>)
        requires
            old(self).wf(),
        ensures
            final(self).wf(),
            match found {
                Some(p) => {
                    &&& old(self).small@.contains_key(ptr)
                    &&& p == old(self).small@[ptr]
                    &&& 0 <= p.0 < MAX_GPUS
                    &&& final(self).small@ == old(self).small@.remove(ptr)
                    &&& final(self).current@ == shrunk(old(self).current@, p.0 as int, p.1)
                },
                None => {
                    &&& !old(self).small@.contains_key(ptr)
                    &&& final(self).small@ == old(self).small@
                    &&& final(self).current@ == old(self).current@
                },
            },
    {
        let ghost before = *self;
        let found = self.small.remove(&ptr);
        match found {
            Some(p) => {
                self.remove_large(p.0 as usize, p.1);
            },
            None => {},
        }
        found
    }

    /// Notes `bytes` more on `device`.
    pub fn add_large(&mut self, device: usize, bytes: u64)
        requires
            device < old(self).current@.len(),
        ensures
            final(self).small == old(self).small,
            final(self).current@ == grown(old(self).current@, device as int, bytes),
    {
        let now: u64 = self.current[device].wrapping_add(bytes);
        self.current.set(device, now);
    }

    /// Notes `bytes` fewer on `device`.
    pub fn remove_large(&mut self, device: usize, bytes: u64)
        requires
            device < old(self).current@.len(),
        ensures
            final(self).small == old(self).small,
            final(self).current@ == shrunk(old(self).current@, device as int, bytes),
    {
        let now: u64 = self.current[device].wrapping_sub(bytes);
        self.current.set(device, now);
    }

    /// The bytes that the application may still allocate on `device`, of `max` in all.
    pub fn available(&self, device: usize, max: u64) -> (bytes: u64)
        requires
            device < self.current@.len(),
        ensures
            bytes == if max >= self.current@[device as int] {
                max - self.current@[device as int]
            } else {
                0
            },
            bytes == left_over(self.current@[device as int], max),
    {
        max.saturating_sub(self.current[device])
    }
}

/// Allocating and freeing leave a counter as it was.
pub proof fn law_counters_return(current: Seq<u64>, device: int, bytes: u64)
    requires
        0 <= device < current.len(),
    ensures
        shrunk(grown(current, device, bytes), device, bytes) == current,
{
    let now = (current[device] + bytes) % 0x1_0000_0000_0000_0000;
    assert((now - bytes) % 0x1_0000_0000_0000_0000 == current[device]);
    assert(shrunk(grown(current, device, bytes), device, bytes) =~= current);
}

/// What is not refused stays within the limit, but for the bytes that rounding adds to a large
/// allocation.
pub proof fn law_limit_is_kept(current: u64, max: u64, size: usize)
    requires
        malloc_plan(current, max, size) != MallocPlan::Refuse,
        current + size + MIN_ALLOCATION_SIZE <= u64::MAX,
    ensures
        current + effective(size as int) < max + MIN_ALLOCATION_SIZE,
        malloc_plan(current, max, size) == MallocPlan::Small ==> current + size <= max,
{
    lemma_rounded_up(size as int);
}

/// The application never gets an allocation that is larger than what it was told is available.
pub proof fn law_refused_beyond_available(current: u64, max: u64, size: usize)
    requires
        size > (if max >= current {
            max - current
        } else {
            0
        }),
    ensures
        malloc_plan(current, max, size) == MallocPlan::Refuse,
{
}

/// An allocation is refused exactly where what is allocated and its bytes together exceed the limit.
/// Where it is not, it is small where it has less than two megabytes. Else it is large, with the
/// fewest whole two megabytes that hold it.
pub proof fn law_only_the_limit_refuses(current: u64, max: u64, size: usize)
    ensures
        ({
            let plan = malloc_plan(current, max, size);
            &&& plan == MallocPlan::Refuse <==> current + size > max
            &&& plan == MallocPlan::Small <==> current + size <= max && size < 0x20_0000
            &&& plan is Large <==> current + size <= max && size >= 0x20_0000
            &&& size + 0x20_0000 <= usize::MAX ==> (plan matches MallocPlan::Large(bytes)
                ==> size <= bytes < size + 0x20_0000 && bytes % 0x20_0000 == 0)
        }),
{
    lemma_rounded_up(size as int);
}

/// An allocation takes the bytes that it asks for where it is small, and else as many as its plan
/// says.
pub proof fn law_bytes_taken(current: u64, max: u64, size: usize)
    requires
        size + 0x20_0000 <= usize::MAX,
    ensures
        malloc_plan(current, max, size) == MallocPlan::Small ==> effective(size as int) == size,
        malloc_plan(current, max, size) matches MallocPlan::Large(bytes) ==> effective(size as int)
            == bytes,
        size <= effective(size as int) < size + 0x20_0000,
        size < 0x20_0000 ==> effective(size as int) == size,
        size >= 0x20_0000 ==> effective(size as int) % 0x20_0000 == 0,
{
    lemma_rounded_up(size as int);
}

/// The counter of a device goes up and down by the bytes that are allocated and freed, as long as
/// it can hold them, and those of other devices stay.
pub proof fn law_counters_count(current: Seq<u64>, device: int, bytes: u64, other: int)
    requires
        0 <= device < current.len(),
        0 <= other < current.len(),
    ensures
        grown(current, device, bytes).len() == current.len(),
        shrunk(current, device, bytes).len() == current.len(),
        current[device] + bytes <= u64::MAX ==> grown(current, device, bytes)[device]
            == current[device] + bytes,
        bytes <= current[device] ==> shrunk(current, device, bytes)[device] == current[device]
            - bytes,
        other != device ==> grown(current, device, bytes)[other] == current[other] && shrunk(
            current,
            device,
            bytes,
        )[other] == current[other],
{
}

/// Two allocations of which the first fits are both admitted exactly where they fit together, as
/// far as the first one takes no more bytes than it asks for.
pub proof fn law_allocations_add_up(current: Seq<u64>, device: int, max: u64, a: usize, b: usize)
    requires
        0 <= device < current.len(),
        malloc_plan(current[device], max, a) != MallocPlan::Refuse,
        effective(a as int) == a,
        a <= u64::MAX,
    ensures
        malloc_plan(grown(current, device, a as u64)[device], max, b) != MallocPlan::Refuse
            <==> current[device] + a + b <= max,
{
}

/// The bytes that are left where `current` of `max` bytes are allocated.
pub open spec fn left_over(current: u64, max: u64) -> int {
    if max >= current {
        max - current
    } else {
        0
    }
}

/// What is left is what the limit allows beyond what is allocated. Exactly what is not larger than
/// that is admitted, as long as the limit is not exceeded already; and after a small allocation that
/// much less is left.
pub proof fn law_available_is_admitted(current: Seq<u64>, device: int, max: u64, size: usize)
    requires
        0 <= device < current.len(),
    ensures
        ({
            let left = left_over(current[device], max);
            &&& current[device] <= max ==> left + current[device] == max
            &&& current[device] > max ==> left == 0
            &&& current[device] <= max ==> (malloc_plan(current[device], max, size)
                == MallocPlan::Refuse <==> size > left)
            &&& malloc_plan(current[device], max, size) == MallocPlan::Small ==> left_over(
                grown(current, device, size as u64)[device],
                max,
            ) == left - size
        }),
{
}

} // verus!
