//! How much of the memory of each device may be used.
use vstd::prelude::*;
use crate::ids::GlobalDeviceId;
use crate::text::{chars_of, read_long, read_unsigned, split_chars};
use super::command::{read_size, size_in_mb};

verus! {

/// An amount of memory.
#[derive(Debug, Clone, Copy, PartialEq, Eq, Structural)]
pub enum Amount {
    Megabytes(u64),
    /// So many of so many equal parts of all there is.
    Share { parts: u64, of: u64 },
}

/// The most that may be used, of one device or of each.
#[derive(Debug, Clone, Copy, PartialEq, Eq, Structural)]
pub struct DeviceLimit {
    pub device: Option<GlobalDeviceId>,
    pub amount: Amount,
}

/// Ten, `n` times multiplied with itself.
pub open spec fn power_of_ten(n: nat) -> nat
    decreases n,
{
    if n == 0 {
        1
    } else {
        10 * power_of_ten((n - 1) as nat)
    }
}

fn ten_to(n: usize) -> (power: u64)
    requires
        n <= 9,
    ensures
        power == power_of_ten(n as nat),
        1 <= power <= 1000000000,
{
    let mut power: u64 = 1;
    let mut i: usize = 0;
    proof {
        reveal_with_fuel(power_of_ten, 10);
    }
    while i < n
        invariant
            i <= n <= 9,
            power == power_of_ten(i as nat),
            1 <= power,
            power_of_ten(0) == 1,
            power_of_ten(1) == 10,
            power_of_ten(2) == 100,
            power_of_ten(3) == 1000,
            power_of_ten(4) == 10000,
            power_of_ten(5) == 100000,
            power_of_ten(6) == 1000000,
            power_of_ten(7) == 10000000,
            power_of_ten(8) == 100000000,
            power_of_ten(9) == 1000000000,
        decreases n - i,
    {
        power = power * 10;
        i = i + 1;
    }
    power
}

/// The share that a decimal fraction with up to nine digits stands for. It is not more than all.
pub open spec fn share_named(s: Seq<char>) -> Option<Amount> {
    let halves = crate::text::split_at(s, '.');
    if halves.len() == 2 && halves[0].len() > 0 && 0 < halves[1].len() <= 9 {
        match crate::text::parse_digits(halves[0] + halves[1]) {
            Some(n) if n <= power_of_ten(halves[1].len()) => Some(
                Amount::Share { parts: n as u64, of: power_of_ten(halves[1].len()) as u64 },
            ),
            _ => None,
        }
    } else {
        None
    }
}

fn read_share(s: &Vec<char>) -> (share: Option<Amount>)
    ensures
        share == share_named(s@),
{
    let mut halves = split_chars(s, '.');
    let ghost deep = crate::text::deep_chars(halves@);
    if halves.len() != 2 {
        return None;
    }
    let mut after = halves.pop().unwrap();
    let mut digits = halves.pop().unwrap();
    assert(deep[0] == digits@ && deep[1] == after@);
    if digits.len() == 0 || after.len() == 0 || after.len() > 9 {
        return None;
    }
    let of: u64 = ten_to(after.len());
    digits.append(&mut after);
    let number = read_long(&digits, 0, digits.len());
    assert(digits@.subrange(0, digits@.len() as int) =~= deep[0] + deep[1]);
    match number {
        Some(parts) => if parts <= of {
            Some(Amount::Share { parts, of })
        } else {
            None
        },
        None => None,
    }
}

/// The limit that `<device>:<amount>` stands for. The device is a number, or `g` for each; the
/// amount is a size like `31g` or a share like `0.95`.
pub open spec fn limit_named(s: Seq<char>) -> Option<DeviceLimit> {
    let halves = crate::text::split_at(s, ':');
    if halves.len() == 2 {
        let device = if halves[0] == seq!['g'] {
            Some(None)
        } else {
            match crate::text::parse_unsigned(halves[0]) {
                Some(n) if n <= i32::MAX => Some(Some(GlobalDeviceId(n as i32))),
                _ => None,
            }
        };
        let amount = match size_in_mb(halves[1]) {
            Some(mb) => Some(Amount::Megabytes(mb)),
            None => share_named(halves[1]),
        };
        match (device, amount) {
            (Some(device), Some(amount)) => Some(DeviceLimit { device, amount }),
            _ => None,
        }
    } else {
        None
    }
}

fn read_limit(s: &Vec<char>) -> (limit: Option<DeviceLimit>)
    ensures
        limit == limit_named(s@),
{
    let halves = split_chars(s, ':');
    let ghost deep = crate::text::deep_chars(halves@);
    if halves.len() != 2 {
        return None;
    }
    assert(deep[0] == halves@[0]@ && deep[1] == halves@[1]@);
    let device = if halves[0].len() == 1 && halves[0][0] == 'g' {
        assert(deep[0] =~= seq!['g']);
        None
    } else {
        assert(deep[0] != seq!['g']) by {
            if deep[0] == seq!['g'] {
                assert(deep[0].len() == 1 && deep[0][0] == 'g');
            }
        }
        assert(deep[0].skip(0) =~= deep[0]);
        match read_unsigned(&halves[0], 0) {
            Some(n) => if n <= 0x7fff_ffff {
                Some(GlobalDeviceId(n as i32))
            } else {
                return None;
            },
            None => {
                return None;
            },
        }
    };
    let amount = match read_size(&halves[1]) {
        Some(mb) => Some(Amount::Megabytes(mb)),
        None => read_share(&halves[1]),
    };
    match amount {
        Some(amount) => Some(DeviceLimit { device, amount }),
        None => None,
    }
}

/// The limits that are written one after the other with `/` between them, like `g:31g/3:24g`.
pub open spec fn limits_named(parts: Seq<Seq<char>>) -> Option<Seq<DeviceLimit>>
    decreases parts.len(),
{
    if parts.len() == 0 {
        Some(Seq::empty())
    } else {
        match (limits_named(parts.drop_last()), limit_named(parts.last())) {
            (Some(earlier), Some(limit)) => Some(earlier.push(limit)),
            _ => None,
        }
    }
}

proof fn lemma_limits_prefix(parts: Seq<Seq<char>>, n: int)
    requires
        0 <= n <= parts.len(),
        limits_named(parts) is Some,
    ensures
        limits_named(parts.take(n)) is Some,
    decreases parts.len(),
{
    if n == parts.len() {
        assert(parts.take(n) =~= parts);
    } else {
        lemma_limits_prefix(parts.drop_last(), n);
        assert(parts.drop_last().take(n) =~= parts.take(n));
    }
}

/// Reads limits like `g:0.95`, `g:31g` or `g:31g/3:24g`.
pub fn parse_device_limit(text: &str) -> (limits: Option<Vec<DeviceLimit>>)
    ensures
        match limits_named(crate::text::split_at(text@, '/')) {
            Some(list) => limits matches Some(limits) && limits@ == list,
            None => limits is None,
        },
{
    let s = chars_of(text);
    let parts = split_chars(&s, '/');
    let ghost deep = crate::text::deep_chars(parts@);
    let mut limits: Vec<DeviceLimit> = Vec::new();
    let mut i: usize = 0;
    proof {
        assert(deep.take(0) =~= Seq::empty());
    }
    while i < parts.len()
        invariant
            i <= parts@.len(),
            deep == crate::text::deep_chars(parts@),
            deep == crate::text::split_at(text@, '/'),
            limits_named(deep.take(i as int)) == Some(limits@),
        decreases parts@.len() - i,
    {
        proof {
            assert(deep.take(i + 1).drop_last() =~= deep.take(i as int));
            assert(deep.take(i + 1).last() == parts@[i as int]@);
        }
        match read_limit(&parts[i]) {
            Some(limit) => {
                limits.push(limit);
            },
            None => {
                proof {
                    if limits_named(deep) is Some {
                        lemma_limits_prefix(deep, i + 1);
                    }
                }
                return None;
            },
        }
        i = i + 1;
    }
    assert(deep.take(i as int) =~= deep);
    Some(limits)
}

/// The last limit of the device itself, or of each device where `device` is none.
pub open spec fn last_limit(limits: Seq<DeviceLimit>, device: Option<GlobalDeviceId>) -> Option<Amount>
    decreases limits.len(),
{
    if limits.len() == 0 {
        None
    } else if limits.last().device == device {
        Some(limits.last().amount)
    } else {
        last_limit(limits.drop_last(), device)
    }
}

fn find_limit(limits: &Vec<DeviceLimit>, device: Option<GlobalDeviceId>) -> (amount: Option<Amount>)
    ensures
        amount == last_limit(limits@, device),
{
    let mut n: usize = limits.len();
    proof {
        assert(limits@.take(n as int) =~= limits@);
    }
    while n > 0
        invariant
            n <= limits@.len(),
            last_limit(limits@, device) == last_limit(limits@.take(n as int), device),
        decreases n,
    {
        n = n - 1;
        proof {
            assert(limits@.take(n + 1).drop_last() =~= limits@.take(n as int));
        }
        let limit = limits[n];
        let same = match (limit.device, device) {
            (Some(a), Some(b)) => a.0 == b.0,
            (None, None) => true,
            _ => false,
        };
        if same {
            return Some(limit.amount);
        }
    }
    None
}

/// The bytes that an amount comes to, of `total`, and not more than that. A part of a byte does not
/// count.
pub open spec fn bytes_of(amount: Amount, total: u64) -> int {
    let bytes = match amount {
        Amount::Megabytes(mb) => mb * 0x10_0000,
        Amount::Share { parts, of } => if of == 0 {
            total as int
        } else {
            (total * parts) / of as int
        },
    };
    if bytes <= total {
        bytes
    } else {
        total as int
    }
}

/// The bytes of `device` that may be used, of `total`: its own limit goes before the one for each.
pub open spec fn allowed(limits: Seq<DeviceLimit>, device: GlobalDeviceId, total: u64) -> int {
    match last_limit(limits, Some(device)) {
        Some(amount) => bytes_of(amount, total),
        None => match last_limit(limits, None) {
            Some(amount) => bytes_of(amount, total),
            None => total as int,
        },
    }
}

fn amount_bytes(amount: Amount, total: u64) -> (bytes: u64)
    ensures
        bytes == bytes_of(amount, total),
{
    let bytes: u128 = match amount {
        Amount::Megabytes(mb) => mb as u128 * 0x10_0000,
        Amount::Share { parts, of } => if of == 0 {
            total as u128
        } else {
            proof {
                assert(total * parts <= u64::MAX * u64::MAX) by (nonlinear_arith)
                    requires
                        total <= u64::MAX,
                        parts <= u64::MAX,
                ;
            }
            total as u128 * parts as u128 / of as u128
        },
    };
    if bytes <= total as u128 {
        bytes as u64
    } else {
        total
    }
}

/// The bytes of `device` that may be used, where it has `total`.
pub fn get_bytes(limits: &Vec<DeviceLimit>, device: GlobalDeviceId, total: u64) -> (bytes: u64)
    ensures
        bytes == allowed(limits@, device, total),
{
    match find_limit(limits, Some(device)) {
        Some(amount) => amount_bytes(amount, total),
        None => match find_limit(limits, None) {
            Some(amount) => amount_bytes(amount, total),
            None => total,
        },
    }
}

/// A limit never allows more than there is.
pub proof fn law_limit_is_within_the_device(
    limits: Seq<DeviceLimit>,
    device: GlobalDeviceId,
    total: u64,
)
    ensures
        0 <= allowed(limits, device, total) <= total,
{
    if let Some(amount) = last_limit(limits, Some(device)) {
        lemma_bytes_of(amount, total);
    } else if let Some(amount) = last_limit(limits, None) {
        lemma_bytes_of(amount, total);
    }
}

proof fn lemma_bytes_of(amount: Amount, total: u64)
    ensures
        0 <= bytes_of(amount, total) <= total,
{
    if let Amount::Share { parts, of } = amount {
        assert(total * parts >= 0) by (nonlinear_arith);
        if of > 0 {
            assert((total * parts) / of as int >= 0) by (nonlinear_arith)
                requires
                    total * parts >= 0,
                    of > 0,
            ;
        }
    }
}

/// The limit of a device is the last one that is given for it, and that for each device the last one
/// that is given for each.
pub proof fn law_last_limit_counts(limits: Seq<DeviceLimit>, device: Option<GlobalDeviceId>)
    ensures
        match last_limit(limits, device) {
            Some(amount) => exists|i: int|
                0 <= i < limits.len() && (#[trigger] limits[i]).device == device && limits[i].amount
                    == amount && forall|j: int|
                    i < j < limits.len() ==> (#[trigger] limits[j]).device != device,
            None => forall|j: int| 0 <= j < limits.len() ==> (#[trigger] limits[j]).device != device,
        },
    decreases limits.len(),
{
    if limits.len() > 0 {
        let rest = limits.drop_last();
        assert(limits[limits.len() - 1] == limits.last());
        assert(forall|j: int| 0 <= j < rest.len() ==> #[trigger] limits[j] == rest[j]);
        if limits.last().device != device {
            law_last_limit_counts(rest, device);
            match last_limit(rest, device) {
                Some(amount) => {
                    let i = choose|i: int|
                        0 <= i < rest.len() && (#[trigger] rest[i]).device == device
                            && rest[i].amount == amount && forall|j: int|
                            i < j < rest.len() ==> (#[trigger] rest[j]).device != device;
                    assert(limits[i] == rest[i]);
                    assert forall|j: int| i < j < limits.len() implies (
                    #[trigger] limits[j]).device != device by {
                        if j < rest.len() {
                            assert(rest[j] == limits[j]);
                        }
                    }
                },
                None => {
                    assert forall|j: int| 0 <= j < limits.len() implies (
                    #[trigger] limits[j]).device != device by {
                        if j < rest.len() {
                            assert(rest[j] == limits[j]);
                        }
                    }
                },
            }
        }
    }
}

/// How much of a device may be used: as many megabytes as its limit says, or as large a share, but
/// never more than there is. Its own limit goes before the one for each device; without either, all
/// of it may be used.
pub proof fn law_limits_are_kept(limits: Seq<DeviceLimit>, device: GlobalDeviceId, total: u64)
    ensures
        ({
            let bytes = allowed(limits, device, total);
            let own = last_limit(limits, Some(device));
            let each = last_limit(limits, None);
            let limit = if own is Some {
                own
            } else {
                each
            };
            &&& limit is None ==> bytes == total
            &&& limit matches Some(Amount::Megabytes(mb)) ==> bytes <= mb * 1048576 && (bytes == mb
                * 1048576 || bytes == total)
            &&& limit matches Some(Amount::Share { parts, of }) ==> (0 < of && parts <= of ==> bytes
                * of <= total * parts && (bytes + 1) * of > total * parts)
        }),
{
    let own = last_limit(limits, Some(device));
    let limit = if own is Some {
        own
    } else {
        last_limit(limits, None)
    };
    if let Some(Amount::Share { parts, of }) = limit {
        if 0 < of && parts <= of {
            let product = total * parts;
            let q = product / of as int;
            assert(q * of <= product && (q + 1) * of > product) by (nonlinear_arith)
                requires
                    q == product / of as int,
                    of > 0,
            ;
            assert(product <= total * of) by (nonlinear_arith)
                requires
                    product == total * parts,
                    parts <= of,
            ;
            assert(q <= total) by (nonlinear_arith)
                requires
                    q * of <= product,
                    product <= total * of,
                    of > 0,
            ;
        }
    }
}

} // verus!
