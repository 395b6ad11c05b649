//! Sizes as they are shown.
use vstd::prelude::*;
use crate::text::{digits, padded, push_digits, push_padded, push_text};

verus! {

/// A number of bytes in the largest unit of which there is at least one, with two digits after the
/// point, rounded down.
pub open spec fn size_text(bytes: nat) -> Seq<char> {
    if bytes < 1024 {
        digits(bytes, 10) + "B"@
    } else if bytes < 0x10_0000 {
        scaled_text(bytes, 1024) + "KB"@
    } else if bytes < 0x4000_0000 {
        scaled_text(bytes, 0x10_0000) + "MB"@
    } else if bytes < 0x100_0000_0000 {
        scaled_text(bytes, 0x4000_0000) + "GB"@
    } else {
        scaled_text(bytes, 0x100_0000_0000) + "TB"@
    }
}

/// `bytes` divided by `unit`, with two digits after the point, rounded down.
pub open spec fn scaled_text(bytes: nat, unit: nat) -> Seq<char> {
    digits(bytes / unit, 10) + "."@ + padded(
        digits((bytes % unit) * 100 / unit, 10),
        2,
    )
}

fn push_scaled(out: &mut String, bytes: u128, unit: u128)
    requires
        1024 <= unit <= 0x100_0000_0000,
        bytes / unit <= u64::MAX,
    ensures
        final(out)@ == old(out)@ + scaled_text(bytes as nat, unit as nat),
{
    let ghost start = out@;
    let rest: u128 = bytes % unit;
    let part: u128 = rest * 100 / unit;
    proof {
        assert(part < 100) by (nonlinear_arith)
            requires
                rest < unit,
                part == (rest * 100) / (unit as int),
                unit >= 1024,
        ;
    }
    push_digits(out, (bytes / unit) as u64, 10);
    push_text(out, ".");
    push_padded(out, part as u64, 10, 2);
    assert(out@ =~= start + scaled_text(bytes as nat, unit as nat));
}

/// Appends a number of bytes, in the largest unit of which there is at least one.
pub fn push_size(out: &mut String, bytes: u128)
    requires
        bytes < 0x1_0000_0000_0000_0000_0000_0000,
    ensures
        final(out)@ == old(out)@ + size_text(bytes as nat),
{
    let ghost start = out@;
    if bytes < 1024 {
        push_digits(out, bytes as u64, 10);
        push_text(out, "B");
    } else if bytes < 0x10_0000 {
        push_scaled(out, bytes, 1024);
        push_text(out, "KB");
    } else if bytes < 0x4000_0000 {
        push_scaled(out, bytes, 0x10_0000);
        push_text(out, "MB");
    } else if bytes < 0x100_0000_0000 {
        push_scaled(out, bytes, 0x4000_0000);
        push_text(out, "GB");
    } else {
        push_scaled(out, bytes, 0x100_0000_0000);
        push_text(out, "TB");
    }
    assert(out@ =~= start + size_text(bytes as nat));
}

/// A number of bytes as it is shown.
pub fn pretty_size(bytes: u64) -> (text: String)
    ensures
        text@ == size_text(bytes as nat),
{
    let mut text = String::new();
    push_size(&mut text, bytes as u128);
    assert(text@ =~= size_text(bytes as nat));
    text
}

/// `whole` units and `hundredths` are what `bytes` are, rounded down.
pub open spec fn rounds_to(bytes: nat, unit: nat, whole: nat, hundredths: nat) -> bool {
    &&& hundredths < 100
    &&& (100 * whole + hundredths) * unit <= 100 * bytes < (100 * whole + hundredths + 1) * unit
}

/// What is shown of a number of bytes is that number in its unit, with two digits after the point,
/// rounded down.
pub proof fn law_shown_size_is_rounded_down(bytes: nat, unit: nat)
    requires
        unit > 0,
    ensures
        exists|whole: nat, hundredths: nat|
            #![trigger rounds_to(bytes, unit, whole, hundredths)]
            rounds_to(bytes, unit, whole, hundredths) && scaled_text(bytes, unit) == digits(
                whole,
                10,
            ) + "."@ + padded(digits(hundredths, 10), 2),
{
    let whole = bytes / unit;
    let rest = bytes % unit;
    let hundredths = rest * 100 / unit;
    assert(bytes == whole * unit + rest && rest < unit) by (nonlinear_arith)
        requires
            unit > 0,
            whole == bytes / unit,
            rest == bytes % unit,
    ;
    assert(hundredths * unit <= rest * 100 < (hundredths + 1) * unit && hundredths < 100)
        by (nonlinear_arith)
        requires
            unit > 0,
            rest < unit,
            hundredths == rest * 100 / unit,
    ;
    assert((100 * whole + hundredths) * unit == 100 * (whole * unit) + hundredths * unit)
        by (nonlinear_arith);
    assert((100 * whole + hundredths + 1) * unit == 100 * (whole * unit) + (hundredths + 1) * unit)
        by (nonlinear_arith);
    assert(rounds_to(bytes, unit, whole, hundredths));
}

/// The unit of a size that is shown is the largest of which there is at least one.
pub proof fn law_unit_of_a_size(bytes: nat)
    ensures
        bytes < 1024 ==> size_text(bytes) == digits(bytes, 10) + "B"@,
        1024 <= bytes < 1024 * 1024 ==> size_text(bytes) == scaled_text(bytes, 1024) + "KB"@,
        1024 * 1024 <= bytes < 1024 * 1024 * 1024 ==> size_text(bytes) == scaled_text(
            bytes,
            1024 * 1024,
        ) + "MB"@,
        1024 * 1024 * 1024 <= bytes < 1024 * 1024 * 1024 * 1024 ==> size_text(bytes) == scaled_text(
            bytes,
            1024 * 1024 * 1024,
        ) + "GB"@,
        1024 * 1024 * 1024 * 1024 <= bytes ==> size_text(bytes) == scaled_text(
            bytes,
            1024 * 1024 * 1024 * 1024,
        ) + "TB"@,
{
}

} // verus!
