//! How the user writes down that data should move.
use vstd::prelude::*;
use crate::ids::{BufferLocation, GlobalDeviceId};
use crate::text::{chars_of, read_unsigned, same_text, split_chars};
use super::command::{read_size, size_in_mb};
use super::target::{read_selector, selected, MoveOperation};

verus! {

/// The place that a word names: `shm`, `hostmem`, `storage`, or a device like `gpu0`.
pub open spec fn place_named(s: Seq<char>) -> Option<BufferLocation> {
    if s == "shm"@ {
        Some(BufferLocation::Shm)
    } else if s == "hostmem"@ {
        Some(BufferLocation::HostMem)
    } else if s == "storage"@ {
        Some(BufferLocation::Storage)
    } else if s.len() >= 3 && s[0] == 'g' && s[1] == 'p' && s[2] == 'u' {
        match crate::text::parse_unsigned(s.skip(3)) {
            Some(n) if n <= i32::MAX => Some(BufferLocation::Gpu(GlobalDeviceId(n as i32))),
            _ => None,
        }
    } else {
        None
    }
}

fn read_place(s: &Vec<char>) -> (place: Option<BufferLocation>)
    ensures
        place == place_named(s@),
{
    if same_text(s, "shm") {
        Some(BufferLocation::Shm)
    } else if same_text(s, "hostmem") {
        Some(BufferLocation::HostMem)
    } else if same_text(s, "storage") {
        Some(BufferLocation::Storage)
    } else if s.len() >= 3 && s[0] == 'g' && s[1] == 'p' && s[2] == 'u' {
        match read_unsigned(s, 3) {
            Some(n) => if n <= 0x7fff_ffff {
                Some(BufferLocation::Gpu(GlobalDeviceId(n as i32)))
            } else {
                None
            },
            None => None,
        }
    } else {
        None
    }
}

/// The places in `<src>-><dest>`.
pub open spec fn places_named(s: Seq<char>) -> Option<(BufferLocation, BufferLocation)> {
    let parts = crate::text::split_at(s, '>');
    if parts.len() == 2 && parts[0].len() > 0 && parts[0].last() == '-' {
        match (place_named(parts[0].drop_last()), place_named(parts[1])) {
            (Some(src), Some(dest)) => Some((src, dest)),
            _ => None,
        }
    } else {
        None
    }
}

fn read_places(s: &Vec<char>) -> (places: Option<(BufferLocation, BufferLocation)>)
    ensures
        places == places_named(s@),
{
    let mut parts = split_chars(s, '>');
    let ghost deep = crate::text::deep_chars(parts@);
    if parts.len() != 2 {
        return None;
    }
    let dest = parts.pop().unwrap();
    let mut src = parts.pop().unwrap();
    assert(deep[0] == src@ && deep[1] == dest@);
    match src.pop() {
        Some('-') => {
            assert(src@ =~= deep[0].drop_last());
            match (read_place(&src), read_place(&dest)) {
                (Some(from), Some(to)) => Some((from, to)),
                _ => None,
            }
        },
        _ => None,
    }
}

/// The move that `<pid>:<src>-><dest>=<size>` asks for.
pub open spec fn move_named(s: Seq<char>) -> Option<MoveOperation> {
    let parts = crate::text::split_at(s, ':');
    let what = crate::text::split_at(parts[1], '=');
    if parts.len() == 2 && what.len() == 2 {
        match (selected(parts[0]), places_named(what[0]), size_in_mb(what[1])) {
            (Some(pid), Some((src, dest)), Some(mb)) if mb * 0x10_0000 <= u64::MAX => Some(
                MoveOperation { pid, src, dest, size: (mb * 0x10_0000) as u64 },
            ),
            _ => None,
        }
    } else {
        None
    }
}

/// The move that `<pid>:<src>-><dest>=<size>` asks for.
pub fn parse_move(text: &str) -> (op: Option<MoveOperation>)
    ensures
        op == move_named(text@),
{
    let s = chars_of(text);
    let parts = split_chars(&s, ':');
    let ghost deep = crate::text::deep_chars(parts@);
    if parts.len() != 2 {
        return None;
    }
    assert(deep[0] == parts@[0]@ && deep[1] == parts@[1]@);
    let what = split_chars(&parts[1], '=');
    let ghost deep_what = crate::text::deep_chars(what@);
    if what.len() != 2 {
        return None;
    }
    assert(deep_what[0] == what@[0]@ && deep_what[1] == what@[1]@);
    match (read_selector(&parts[0]), read_places(&what[0]), read_size(&what[1])) {
        (Some(pid), Some((src, dest)), Some(mb)) => match mb.checked_mul(0x10_0000) {
            Some(size) => Some(MoveOperation { pid, src, dest, size }),
            None => None,
        },
        _ => None,
    }
}

/// Every place has a name, and the name of a device is its number behind `gpu`.
pub proof fn law_places_have_names(device: i32)
    requires
        0 <= device,
    ensures
        place_named("shm"@) == Some(BufferLocation::Shm),
        place_named("hostmem"@) == Some(BufferLocation::HostMem),
        place_named("storage"@) == Some(BufferLocation::Storage),
        place_named("gpu"@ + crate::text::digits(device as nat, 10)) == Some(
            BufferLocation::Gpu(GlobalDeviceId(device)),
        ),
{
    reveal_strlit("shm");
    reveal_strlit("hostmem");
    reveal_strlit("storage");
    reveal_strlit("gpu");
    let digits = crate::text::digits(device as nat, 10);
    crate::text::lemma_digits_read_back(device as nat);
    let name = "gpu"@ + digits;
    assert(name.skip(3) =~= digits);
    assert("shm"@ != "hostmem"@ && "shm"@ != "storage"@ && "hostmem"@ != "storage"@) by {
        assert("shm"@.len() == 3 && "hostmem"@.len() == 7 && "storage"@.len() == 7);
        assert("hostmem"@[0] == 'h' && "storage"@[0] == 's');
    }
    assert(name[0] == 'g' && "shm"@[0] == 's' && "hostmem"@[0] == 'h' && "storage"@[0] == 's');
}

} // verus!
