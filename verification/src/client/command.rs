//! Commands that need no daemon, and settings.
use vstd::prelude::*;
use crate::schedule::priority::{Priority, PriorityLevel};
use crate::text::{chars_of, push_text, read_long, split_chars};

verus! {

/// The levels that the user can set.
#[derive(Debug, Clone, Copy, PartialEq, Eq, Structural)]
pub enum SetPriorityLevel {
    Interactive,
    LowInteractive,
    Batch,
    Background,
}

impl SetPriorityLevel {
    /// The level among all.
    pub open spec fn level_of(self) -> PriorityLevel {
        match self {
            SetPriorityLevel::Interactive => PriorityLevel::Interactive,
            SetPriorityLevel::LowInteractive => PriorityLevel::LowInteractive,
            SetPriorityLevel::Batch => PriorityLevel::Batch,
            SetPriorityLevel::Background => PriorityLevel::Background,
        }
    }

    /// A priority that stays at the level.
    pub fn to_fixed(self) -> (priority: Priority)
        ensures
            priority == Priority::Fixed(self.level_of()),
    {
        match self {
            SetPriorityLevel::Interactive => Priority::Fixed(PriorityLevel::Interactive),
            SetPriorityLevel::LowInteractive => Priority::Fixed(PriorityLevel::LowInteractive),
            SetPriorityLevel::Batch => Priority::Fixed(PriorityLevel::Batch),
            SetPriorityLevel::Background => Priority::Fixed(PriorityLevel::Background),
        }
    }
}

/// Which of two switches was used; exactly one has to be.
pub fn is_set(set: bool, unset: bool) -> (result: Option<bool>)
    ensures
        result == (if set != unset {
            Some(set)
        } else {
            None
        }),
{
    if set != unset {
        Some(set)
    } else {
        None
    }
}

/// The megabytes that a size stands for: `16g` and `1024m` are sizes.
pub open spec fn size_in_mb(s: Seq<char>) -> Option<u64> {
    if s.len() == 0 {
        None
    } else {
        match crate::text::parse_digits(s.drop_last()) {
            None => None,
            Some(n) => if s.last() == 'g' && n * 1024 <= u64::MAX {
                Some((n * 1024) as u64)
            } else if s.last() == 'm' && n <= u64::MAX {
                Some(n as u64)
            } else {
                None
            },
        }
    }
}

/// The megabytes that a size in gigabytes, like `16g`, or in megabytes, like `1024m`, stands for.
pub fn parse_size(text: &str) -> (mb: Option<u64>)
    ensures
        mb == size_in_mb(text@),
{
    let s = chars_of(text);
    read_size(&s)
}

/// The megabytes that a size stands for.
pub fn read_size(s: &Vec<char>) -> (mb: Option<u64>)
    ensures
        mb == size_in_mb(s@),
{
    if s.len() == 0 {
        return None;
    }
    let end: usize = s.len() - 1;
    let number = read_long(s, 0, end);
    assert(s@.drop_last() =~= s@.subrange(0, end as int));
    match number {
        None => None,
        Some(n) => if s[end] == 'g' {
            n.checked_mul(1024)
        } else if s[end] == 'm' {
            Some(n)
        } else {
            None
        },
    }
}

/// Every number of gigabytes, and of megabytes, that 64 bits can hold in megabytes can be asked
/// for.
pub proof fn law_sizes_are_read(n: u64)
    ensures
        n * 1024 <= u64::MAX ==> size_in_mb(crate::text::digits(n as nat, 10).push('g')) == Some(
            (n * 1024) as u64,
        ),
        size_in_mb(crate::text::digits(n as nat, 10).push('m')) == Some(n),
{
    let digits = crate::text::digits(n as nat, 10);
    crate::text::lemma_digits_read_back(n as nat);
    assert(digits.push('g').drop_last() =~= digits);
    assert(digits.push('m').drop_last() =~= digits);
}

/// The cooldown between processes, in milliseconds, that a setting of `ms` stands for: zero turns
/// it off.
pub fn cooldown_setting(ms: u32) -> (cooldown: Option<u64>)
    ensures
        cooldown == (if ms == 0 {
            None
        } else {
            Some(ms as u64)
        }),
{
    if ms == 0 {
        None
    } else {
        Some(ms as u64)
    }
}

/// The bytes in as many MB, where they can be counted.
pub fn mb_to_bytes(mb: usize) -> (bytes: Option<usize>)
    ensures
        bytes == (if mb * 1048576 <= usize::MAX {
            Some((mb * 1048576) as usize)
        } else {
            None
        }),
{
    mb.checked_mul(1048576)
}

/// The library that is put into programs.
pub const SIDECAR_NAME: &'static str = "nixiesidecar.dll";

/// A directory: one that is known, and a path from there.
pub type Place = (Seq<char>, Seq<char>);

/// Reads directories as sequences.
pub open spec fn deep_places(s: Seq<(String, &'static str)>) -> Seq<Place> {
    s.map_values(|p: (String, &'static str)| (p.0@, p.1@))
}

/// The directories of the system.
pub open spec fn system_places() -> Seq<Place> {
    seq![
        ("/usr/local/lib"@, ""@),
        ("/usr/lib"@, ""@),
        ("/usr/lib64"@, ""@),
        ("/lib"@, ""@),
        ("/lib64"@, ""@),
    ]
}

/// The directories where the library is looked for, in order: by the program, beside it, in the
/// home directory, on the search path, and in the system.
pub open spec fn sidecar_places(
    exe_dir: Seq<char>,
    home: Option<Seq<char>>,
    search_path: Option<Seq<char>>,
) -> Seq<Place> {
    let at_home = match home {
        Some(home) => seq![(home, ".local/lib"@)],
        None => Seq::empty(),
    };
    let on_path = match search_path {
        Some(path) => crate::text::split_at(path, ':').map_values(|part: Seq<char>| (part, ""@)),
        None => Seq::empty(),
    };
    seq![(exe_dir, ""@), (exe_dir, "../lib"@)] + at_home + on_path + system_places()
}

fn push_place(places: &mut Vec<(String, &'static str)>, dir: &str, below: &'static str)
    ensures
        deep_places(final(places)@) == deep_places(old(places)@).push((dir@, below@)),
{
    let ghost before = places@;
    let mut owned = String::new();
    push_text(&mut owned, dir);
    assert(owned@ =~= dir@);
    places.push((owned, below));
    assert(deep_places(places@) =~= deep_places(before).push((dir@, below@)));
}

fn text_of(chars: &Vec<char>) -> (text: String)
    ensures
        text@ == chars@,
{
    let mut text = String::new();
    let mut i: usize = 0;
    while i < chars.len()
        invariant
            i <= chars@.len(),
            text@ == chars@.take(i as int),
        decreases chars@.len() - i,
    {
        text.push(chars[i]);
        proof {
            assert(chars@.take(i + 1) =~= chars@.take(i as int).push(chars@[i as int]));
        }
        i = i + 1;
    }
    assert(chars@.take(i as int) =~= chars@);
    text
}

/// The directories where the library is looked for, in order.
pub fn sidecar_dirs(exe_dir: &str, home: Option<&str>, search_path: Option<&str>) -> (places: Vec<
    (String, &'static str),
>)
    ensures
        deep_places(places@) == sidecar_places(
            exe_dir@,
            match home {
                Some(home) => Some(home@),
                None => None,
            },
            match search_path {
                Some(path) => Some(path@),
                None => None,
            },
        ),
{
    let mut places: Vec<(String, &'static str)> = Vec::new();
    assert(deep_places(places@) =~= Seq::empty());
    push_place(&mut places, exe_dir, "");
    push_place(&mut places, exe_dir, "../lib");
    let ghost start = seq![(exe_dir@, ""@), (exe_dir@, "../lib"@)];
    assert(deep_places(places@) =~= start);
    let ghost mut at_home: Seq<Place> = Seq::empty();
    if let Some(home) = home {
        push_place(&mut places, home, ".local/lib");
        proof {
            at_home = seq![(home@, ".local/lib"@)];
        }
    }
    assert(deep_places(places@) =~= start + at_home);
    let ghost mut on_path: Seq<Place> = Seq::empty();
    if let Some(path) = search_path {
        let parts = split_chars(&chars_of(path), ':');
        let ghost split = crate::text::split_at(path@, ':');
        let ghost place = |part: Seq<char>| (part, ""@);
        let mut i: usize = 0;
        assert(split.take(0).map_values(place) =~= Seq::empty());
        while i < parts.len()
            invariant
                i <= parts@.len(),
                crate::text::deep_chars(parts@) == split,
                place == (|part: Seq<char>| (part, ""@)),
                deep_places(places@) == start + at_home + split.take(i as int).map_values(place),
            decreases parts@.len() - i,
        {
            let part = text_of(&parts[i]);
            push_place(&mut places, part.as_str(), "");
            proof {
                assert(split[i as int] == part@);
                assert(split.take(i + 1).map_values(place) =~= split.take(i as int).map_values(
                    place,
                ).push((part@, ""@)));
                assert((start + at_home + split.take(i as int).map_values(place)).push(
                    (part@, ""@),
                ) =~= start + at_home + split.take(i + 1).map_values(place));
            }
            i = i + 1;
        }
        proof {
            assert(split.take(i as int) =~= split);
            on_path = split.map_values(place);
        }
    }
    assert(deep_places(places@) =~= start + at_home + on_path);
    push_place(&mut places, "/usr/local/lib", "");
    push_place(&mut places, "/usr/lib", "");
    push_place(&mut places, "/usr/lib64", "");
    push_place(&mut places, "/lib", "");
    push_place(&mut places, "/lib64", "");
    assert(deep_places(places@) =~= start + at_home + on_path + system_places());
    places
}

/// The environment of a program: the library that is put into it, and the devices that it sees
/// where they were given.
pub open spec fn environment(sidecar: Seq<char>, device: Option<Seq<char>>) -> Seq<Place> {
    match device {
        Some(device) => seq![("LD_PRELOAD"@, sidecar), ("CUDA_VISIBLE_DEVICES"@, device)],
        None => seq![("LD_PRELOAD"@, sidecar)],
    }
}

/// The environment that is set for a program.
pub fn run_environment(sidecar: String, device: Option<String>) -> (vars: Vec<
    (&'static str, String),
>)
    ensures
        vars@.map_values(|p: (&'static str, String)| (p.0@, p.1@)) == environment(
            sidecar@,
            match device {
                Some(device) => Some(device@),
                None => None,
            },
        ),
{
    let ghost path = sidecar@;
    let mut vars: Vec<(&'static str, String)> = Vec::new();
    vars.push(("LD_PRELOAD", sidecar));
    match device {
        Some(device) => {
            let ghost shown = device@;
            vars.push(("CUDA_VISIBLE_DEVICES", device));
            assert(vars@.map_values(|p: (&'static str, String)| (p.0@, p.1@)) =~= environment(
                path,
                Some(shown),
            ));
        },
        None => {
            assert(vars@.map_values(|p: (&'static str, String)| (p.0@, p.1@)) =~= environment(
                path,
                None,
            ));
        },
    }
    vars
}

} // verus!
