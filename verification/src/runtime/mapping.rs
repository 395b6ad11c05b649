//! Devices as the machine numbers them and as a process sees them.
use vstd::prelude::*;
use crate::assoc::{assoc_get, assoc_pos, assoc_put, lemma_assoc_pos, lemma_assoc_pos_is, lemma_assoc_put_get};
use crate::ids::{GlobalDeviceId, ProcessLocalDeviceId};
use crate::text::{chars_of, push_padded, push_text, read_signed, same_text, split_chars, to_lower};

verus! {

/// Which devices a process sees, and under which numbers.
#[derive(Debug)]
pub struct DeviceOrdinalMapping {
    pub real_to_visible: Vec<(GlobalDeviceId, ProcessLocalDeviceId)>,
    pub visible_to_real: Vec<(ProcessLocalDeviceId, GlobalDeviceId)>,
}

/// The list of visible devices names one that does not exist.
#[derive(Debug, Clone, Copy, PartialEq, Eq, Structural)]
pub struct InvalidDevice;

/// The device whose identifier is `uuid`: the last one in the table.
pub open spec fn device_with_uuid(table: Seq<(Seq<char>, i32)>, uuid: Seq<char>) -> Option<i32>
    decreases table.len(),
{
    if table.len() == 0 {
        None
    } else if table.last().0 == uuid {
        Some(table.last().1)
    } else {
        device_with_uuid(table.drop_last(), uuid)
    }
}

/// Reads a table of identifiers as sequences.
pub open spec fn deep_uuids(table: Seq<(String, i32)>) -> Seq<(Seq<char>, i32)> {
    table.map_values(|p: (String, i32)| (p.0@, p.1))
}

/// The device that one part of the list of visible devices names: a number, or the identifier of
/// a device in upper or lower case.
pub open spec fn named_device(part: Seq<char>, table: Seq<(Seq<char>, i32)>) -> Option<i32> {
    match crate::text::parse_signed(part) {
        Some(n) => Some(n),
        None => if part.len() >= 4 && part.take(4) == "GPU-"@ {
            device_with_uuid(table, crate::text::lower_text(part))
        } else {
            None
        },
    }
}

/// The devices that the parts name, as long as each names one.
pub open spec fn named_devices(parts: Seq<Seq<char>>, table: Seq<(Seq<char>, i32)>) -> Option<
    Seq<i32>,
>
    decreases parts.len(),
{
    if parts.len() == 0 {
        Some(Seq::empty())
    } else {
        match (named_devices(parts.drop_last(), table), named_device(parts.last(), table)) {
            (Some(devices), Some(device)) => Some(devices.push(device)),
            _ => None,
        }
    }
}

/// The devices that a process sees, in the order in which it numbers them.
pub open spec fn visible_list(
    visible_devices: Seq<char>,
    num_dev: i32,
    table: Seq<(Seq<char>, i32)>,
) -> Option<Seq<i32>> {
    if visible_devices.len() == 0 {
        Some(Seq::new(if num_dev >= 0 { num_dev as nat } else { 0 }, |i: int| i as i32))
    } else {
        named_devices(crate::text::split_at(visible_devices, ','), table)
    }
}

/// Each device under the last number that it has in the list.
pub open spec fn numbered(devices: Seq<i32>) -> Seq<(GlobalDeviceId, ProcessLocalDeviceId)>
    decreases devices.len(),
{
    if devices.len() == 0 {
        Seq::empty()
    } else {
        assoc_put(
            numbered(devices.drop_last()),
            GlobalDeviceId(devices.last()),
            ProcessLocalDeviceId((devices.len() - 1) as i32),
        )
    }
}

/// The device behind each number.
pub open spec fn denumbered(devices: Seq<i32>) -> Seq<(ProcessLocalDeviceId, GlobalDeviceId)> {
    devices.map(|i: int, d: i32| (ProcessLocalDeviceId(i as i32), GlobalDeviceId(d)))
}

fn find_real(list: &Vec<(GlobalDeviceId, ProcessLocalDeviceId)>, device: GlobalDeviceId) -> (found: Option<
    usize,
>)
    ensures
        match found {
            Some(i) => i < list@.len() && i == assoc_pos(list@, device),
            None => assoc_pos(list@, device) == list@.len(),
        },
{
    crate::assoc::find_device(list, device)
}

fn find_visible(list: &Vec<(ProcessLocalDeviceId, GlobalDeviceId)>, visible: ProcessLocalDeviceId) -> (found:
    Option<usize>)
    ensures
        match found {
            Some(i) => i < list@.len() && i == assoc_pos(list@, visible),
            None => assoc_pos(list@, visible) == list@.len(),
        },
{
    let mut i: usize = 0;
    while i < list.len()
        invariant
            i <= list@.len(),
            forall|j: int| 0 <= j < i ==> (#[trigger] list@[j]).0 != visible,
        decreases list@.len() - i,
    {
        if list[i].0 == visible {
            proof {
                lemma_assoc_pos_is(list@, visible, i as int);
            }
            return Some(i);
        }
        i = i + 1;
    }
    proof {
        lemma_assoc_pos_is(list@, visible, i as int);
    }
    None
}

fn find_uuid(table: &Vec<(String, i32)>, uuid: &Vec<char>) -> (device: Option<i32>)
    ensures
        device == device_with_uuid(deep_uuids(table@), uuid@),
{
    let ghost deep = deep_uuids(table@);
    let mut i: usize = table.len();
    proof {
        assert(deep.take(i as int) =~= deep);
    }
    while i > 0
        invariant
            i <= table@.len(),
            deep == deep_uuids(table@),
            device_with_uuid(deep, uuid@) == device_with_uuid(deep.take(i as int), uuid@),
        decreases i,
    {
        proof {
            assert(deep.take(i as int).drop_last() =~= deep.take(i - 1));
            assert(deep.take(i as int).last() == (table@[i - 1].0@, table@[i - 1].1));
        }
        if same_text(uuid, table[i - 1].0.as_str()) {
            return Some(table[i - 1].1);
        }
        i = i - 1;
    }
    None
}

fn read_device(part: &Vec<char>, table: &Vec<(String, i32)>) -> (device: Option<i32>)
    ensures
        device == named_device(part@, deep_uuids(table@)),
{
    match read_signed(part) {
        Some(n) => Some(n),
        None => {
            let gpu: bool = part.len() >= 4 && part[0] == 'G' && part[1] == 'P' && part[2] == 'U'
                && part[3] == '-';
            proof {
                reveal_strlit("GPU-");
                if part@.len() >= 4 {
                    let head = part@.take(4);
                    assert(head[0] == part@[0] && head[1] == part@[1]);
                    assert(head[2] == part@[2] && head[3] == part@[3]);
                    if gpu {
                        assert(head =~= "GPU-"@);
                    }
                }
            }
            if gpu {
                find_uuid(table, &to_lower(part))
            } else {
                None
            }
        },
    }
}

proof fn lemma_named_devices_fault(
    parts: Seq<Seq<char>>,
    table: Seq<(Seq<char>, i32)>,
    n: int,
)
    requires
        0 <= n <= parts.len(),
        named_devices(parts.take(n), table) is None,
    ensures
        named_devices(parts, table) is None,
    decreases parts.len(),
{
    if n == parts.len() {
        assert(parts.take(n) =~= parts);
    } else {
        assert(parts.drop_last().take(n) =~= parts.take(n));
        lemma_named_devices_fault(parts.drop_last(), table, n);
    }
}

fn read_devices(parts: &Vec<Vec<char>>, table: &Vec<(String, i32)>) -> (devices: Option<Vec<i32>>)
    ensures
        match named_devices(crate::text::deep_chars(parts@), deep_uuids(table@)) {
            Some(list) => devices matches Some(d) && d@ == list,
            None => devices is None,
        },
        devices matches Some(d) ==> d@.len() == parts@.len(),
{
    let ghost deep = crate::text::deep_chars(parts@);
    let mut devices: Vec<i32> = Vec::new();
    let mut i: usize = 0;
    proof {
        assert(deep.take(0) =~= Seq::empty());
    }
    while i < parts.len()
        invariant
            i <= parts@.len(),
            devices@.len() == i,
            deep == crate::text::deep_chars(parts@),
            named_devices(deep.take(i as int), deep_uuids(table@)) == Some(devices@),
        decreases parts@.len() - i,
    {
        proof {
            assert(deep.take(i + 1).drop_last() =~= deep.take(i as int));
            assert(deep.take(i + 1).last() == parts@[i as int]@);
        }
        match read_device(&parts[i], table) {
            Some(device) => {
                devices.push(device);
            },
            None => {
                proof {
                    lemma_named_devices_fault(deep, deep_uuids(table@), i + 1);
                }
                return None;
            },
        }
        i = i + 1;
    }
    proof {
        assert(deep.take(i as int) =~= deep);
    }
    Some(devices)
}

impl DeviceOrdinalMapping {
    /// The mapping of a process that sees `devices`.
    pub open spec fn shows(self, devices: Seq<i32>) -> bool {
        &&& self.real_to_visible@ == numbered(devices)
        &&& self.visible_to_real@ == denumbered(devices)
    }

    fn number(devices: &Vec<i32>) -> (mapping: Self)
        requires
            devices@.len() <= i32::MAX,
        ensures
            mapping.shows(devices@),
    {
        let mut real_to_visible: Vec<(GlobalDeviceId, ProcessLocalDeviceId)> = Vec::new();
        let mut visible_to_real: Vec<(ProcessLocalDeviceId, GlobalDeviceId)> = Vec::new();
        let mut i: usize = 0;
        proof {
            assert(devices@.take(0) =~= Seq::empty());
            assert(denumbered(devices@.take(0)) =~= Seq::empty());
        }
        while i < devices.len()
            invariant
                i <= devices@.len(),
                devices@.len() <= i32::MAX,
                real_to_visible@ == numbered(devices@.take(i as int)),
                visible_to_real@ == denumbered(devices@.take(i as int)),
            decreases devices@.len() - i,
        {
            let device = GlobalDeviceId(devices[i]);
            let visible = ProcessLocalDeviceId(i as i32);
            let ghost before = visible_to_real@;
            proof {
                assert(devices@.take(i + 1).drop_last() =~= devices@.take(i as int));
            }
            match find_real(&real_to_visible, device) {
                Some(at) => {
                    real_to_visible.set(at, (device, visible));
                },
                None => {
                    real_to_visible.push((device, visible));
                },
            }
            visible_to_real.push((visible, device));
            proof {
                assert(visible_to_real@ =~= denumbered(devices@.take(i + 1)));
            }
            i = i + 1;
        }
        proof {
            assert(devices@.take(i as int) =~= devices@);
        }
        DeviceOrdinalMapping { real_to_visible, visible_to_real }
    }

    /// The devices that a process sees: all `num_dev` of them where it asked for none in
    /// particular, else those that it listed, by number or by identifier.
    pub fn new(visible_devices: &str, num_dev: i32, uuids: &Vec<(String, i32)>) -> (mapping: Result<
        Self,
        InvalidDevice,
    >)
        requires
            visible_devices@.len() < i32::MAX,
        ensures
            match visible_list(visible_devices@, num_dev, deep_uuids(uuids@)) {
                Some(devices) => mapping matches Ok(m) && m.shows(devices),
                None => mapping is Err,
            },
    {
        let chars = chars_of(visible_devices);
        if chars.len() == 0 {
            let mut devices: Vec<i32> = Vec::new();
            let mut i: i32 = 0;
            while i < num_dev
                invariant
                    0 <= i,
                    i <= num_dev || i == 0,
                    devices@ == Seq::new(i as nat, |k: int| k as i32),
                decreases num_dev - i,
            {
                devices.push(i);
                proof {
                    assert(devices@ =~= Seq::new((i + 1) as nat, |k: int| k as i32));
                }
                i = i + 1;
            }
            return Ok(Self::number(&devices));
        }
        let parts = split_chars(&chars, ',');
        proof {
            crate::text::lemma_split_len(visible_devices@, ',');
            assert(crate::text::deep_chars(parts@).len() == parts@.len());
        }
        match read_devices(&parts, uuids) {
            Some(devices) => Ok(Self::number(&devices)),
            None => Err(InvalidDevice),
        }
    }

    /// The number under which a process sees `device`.
    pub fn real_to_visible(&self, device: GlobalDeviceId) -> (visible: Option<ProcessLocalDeviceId>)
        ensures
            visible == assoc_get(self.real_to_visible@, device),
    {
        match find_real(&self.real_to_visible, device) {
            Some(i) => Some(self.real_to_visible[i].1),
            None => None,
        }
    }

    /// The device that a process sees under the number `visible`.
    pub fn visible_to_real(&self, visible: ProcessLocalDeviceId) -> (device: Option<GlobalDeviceId>)
        ensures
            device == assoc_get(self.visible_to_real@, visible),
    {
        match find_visible(&self.visible_to_real, visible) {
            Some(i) => Some(self.visible_to_real[i].1),
            None => None,
        }
    }

    /// The mapping with the given numbers.
    pub fn from_real_to_visible_map(map: Vec<(GlobalDeviceId, ProcessLocalDeviceId)>) -> (mapping:
        Self)
        ensures
            mapping.real_to_visible@ == map@,
            mapping.visible_to_real@ == swapped(map@),
    {
        let mut visible_to_real: Vec<(ProcessLocalDeviceId, GlobalDeviceId)> = Vec::new();
        let mut i: usize = 0;
        proof {
            assert(map@.take(0) =~= Seq::empty());
        }
        while i < map.len()
            invariant
                i <= map@.len(),
                visible_to_real@ == swapped(map@.take(i as int)),
            decreases map@.len() - i,
        {
            let (device, visible) = map[i];
            proof {
                assert(map@.take(i + 1).drop_last() =~= map@.take(i as int));
            }
            match find_visible(&visible_to_real, visible) {
                Some(at) => {
                    visible_to_real.set(at, (visible, device));
                },
                None => {
                    visible_to_real.push((visible, device));
                },
            }
            i = i + 1;
        }
        proof {
            assert(map@.take(i as int) =~= map@);
        }
        DeviceOrdinalMapping { real_to_visible: map, visible_to_real }
    }
}

/// The numbers with their devices. Where two devices have one number, the last one counts.
pub open spec fn swapped(map: Seq<(GlobalDeviceId, ProcessLocalDeviceId)>) -> Seq<
    (ProcessLocalDeviceId, GlobalDeviceId),
>
    decreases map.len(),
{
    if map.len() == 0 {
        Seq::empty()
    } else {
        assoc_put(swapped(map.drop_last()), map.last().1, map.last().0)
    }
}

/// The identifier of a device as it is compared.
pub open spec fn uuid_text(uuid: Seq<u8>) -> Seq<char>
    decreases uuid.len(),
{
    if uuid.len() == 0 {
        "gpu-"@
    } else {
        let i = uuid.len() - 1;
        let before = uuid_text(uuid.drop_last());
        let dash = if i == 4 || i == 6 || i == 8 || i == 10 {
            seq!['-']
        } else {
            Seq::empty()
        };
        before + dash + crate::text::padded(crate::text::digits(uuid.last() as nat, 16), 2)
    }
}

/// The identifier of a device as it is compared.
pub fn format_uuid(uuid: &[u8; 16]) -> (text: String)
    ensures
        text@ == uuid_text(uuid@),
{
    let mut text = String::new();
    push_text(&mut text, "gpu-");
    let mut i: usize = 0;
    proof {
        assert(uuid@.take(0) =~= Seq::empty());
        assert(text@ =~= "gpu-"@);
    }
    while i < 16
        invariant
            i <= 16,
            text@ == uuid_text(uuid@.take(i as int)),
        decreases 16 - i,
    {
        let ghost before = text@;
        proof {
            assert(uuid@.take(i + 1).drop_last() =~= uuid@.take(i as int));
        }
        if i == 4 || i == 6 || i == 8 || i == 10 {
            text.push('-');
        }
        push_padded(&mut text, uuid[i] as u64, 16, 2);
        proof {
            assert(text@ =~= uuid_text(uuid@.take(i + 1)));
        }
        i = i + 1;
    }
    proof {
        assert(uuid@.take(16) =~= uuid@);
    }
    text
}

/// The identifiers of the devices that told theirs, each with its device.
pub fn get_device_uuid_mapping(uuids: &Vec<Option<[u8; 16]>>) -> (table: Vec<(String, i32)>)
    requires
        uuids@.len() <= i32::MAX,
    ensures
        deep_uuids(table@) == uuid_table(uuids@),
{
    let mut table: Vec<(String, i32)> = Vec::new();
    let mut i: usize = 0;
    proof {
        assert(uuids@.take(0) =~= Seq::empty());
        assert(deep_uuids(table@) =~= Seq::empty());
    }
    while i < uuids.len()
        invariant
            i <= uuids@.len(),
            uuids@.len() <= i32::MAX,
            deep_uuids(table@) == uuid_table(uuids@.take(i as int)),
        decreases uuids@.len() - i,
    {
        let ghost before = table@;
        proof {
            assert(uuids@.take(i + 1).drop_last() =~= uuids@.take(i as int));
        }
        match &uuids[i] {
            Some(uuid) => {
                table.push((format_uuid(uuid), i as i32));
                proof {
                    assert(deep_uuids(table@) =~= deep_uuids(before).push(
                        (uuid_text(uuid@), i as i32),
                    ));
                }
            },
            None => {},
        }
        i = i + 1;
    }
    proof {
        assert(uuids@.take(i as int) =~= uuids@);
    }
    table
}

/// The identifiers of the devices that told theirs, each with its device.
pub open spec fn uuid_table(uuids: Seq<Option<[u8; 16]>>) -> Seq<(Seq<char>, i32)>
    decreases uuids.len(),
{
    if uuids.len() == 0 {
        Seq::empty()
    } else {
        let before = uuid_table(uuids.drop_last());
        match uuids.last() {
            Some(uuid) => before.push((uuid_text(uuid@), (uuids.len() - 1) as i32)),
            None => before,
        }
    }
}

// Laws.

proof fn lemma_numbered(devices: Seq<i32>, device: GlobalDeviceId)
    requires
        devices.len() <= i32::MAX,
    ensures
        match assoc_get(numbered(devices), device) {
            Some(v) => 0 <= v.0 < devices.len() && devices[v.0 as int] == device.0 && forall|k: int|
                v.0 < k < devices.len() ==> #[trigger] devices[k] != device.0,
            None => !devices.contains(device.0),
        },
    decreases devices.len(),
{
    if devices.len() > 0 {
        let rest = devices.drop_last();
        lemma_numbered(rest, device);
        lemma_assoc_put_get(
            numbered(rest),
            GlobalDeviceId(devices.last()),
            ProcessLocalDeviceId((devices.len() - 1) as i32),
            device,
        );
        match assoc_get(numbered(devices), device) {
            Some(v) => {
                if devices.last() != device.0 {
                    assert(rest[v.0 as int] == devices[v.0 as int]);
                    assert forall|k: int| v.0 < k < devices.len() implies #[trigger] devices[k]
                        != device.0 by {
                        if k < rest.len() {
                            assert(rest[k] == devices[k]);
                        }
                    }
                }
            },
            None => {
                assert forall|k: int| 0 <= k < devices.len() implies devices[k] != device.0 by {
                    if k < rest.len() {
                        assert(rest[k] == devices[k]);
                    }
                }
            },
        }
    }
}

proof fn lemma_denumbered(devices: Seq<i32>, visible: ProcessLocalDeviceId)
    requires
        devices.len() <= i32::MAX,
    ensures
        assoc_get(denumbered(devices), visible) == if 0 <= visible.0 < devices.len() {
            Some(GlobalDeviceId(devices[visible.0 as int]))
        } else {
            None
        },
{
    let list = denumbered(devices);
    if 0 <= visible.0 < devices.len() {
        lemma_assoc_pos_is(list, visible, visible.0 as int);
    } else {
        lemma_assoc_pos(list, visible);
        lemma_assoc_pos_is(list, visible, list.len() as int);
    }
}

/// A process sees the devices of its list under their places in it.
pub proof fn law_visible_devices_are_numbered_in_order(
    m: DeviceOrdinalMapping,
    devices: Seq<i32>,
    visible: ProcessLocalDeviceId,
)
    requires
        devices.len() <= i32::MAX,
        m.shows(devices),
    ensures
        assoc_get(m.visible_to_real@, visible) == if 0 <= visible.0 < devices.len() {
            Some(GlobalDeviceId(devices[visible.0 as int]))
        } else {
            None
        },
{
    lemma_denumbered(devices, visible);
}

/// The number of a device leads back to the device, and every device of the list has a number.
pub proof fn law_numbers_lead_back(
    m: DeviceOrdinalMapping,
    devices: Seq<i32>,
    device: GlobalDeviceId,
)
    requires
        devices.len() <= i32::MAX,
        m.shows(devices),
    ensures
        match assoc_get(m.real_to_visible@, device) {
            Some(visible) => assoc_get(m.visible_to_real@, visible) == Some(device),
            None => !devices.contains(device.0),
        },
{
    lemma_numbered(devices, device);
    if let Some(visible) = assoc_get(m.real_to_visible@, device) {
        lemma_denumbered(devices, visible);
    }
}

/// With one number for each device, the number of a device leads back to the device.
pub proof fn law_given_numbers_lead_back(
    map: Seq<(GlobalDeviceId, ProcessLocalDeviceId)>,
    i: int,
)
    requires
        0 <= i < map.len(),
        forall|a: int, b: int|
            0 <= a < b < map.len() ==> (#[trigger] map[a]).1 != (#[trigger] map[b]).1,
    ensures
        assoc_get(swapped(map), map[i].1) == Some(map[i].0),
    decreases map.len(),
{
    let rest = map.drop_last();
    lemma_assoc_put_get(swapped(rest), map.last().1, map.last().0, map[i].1);
    if i < map.len() - 1 {
        assert(map[i].1 != map[map.len() - 1].1);
        assert forall|a: int, b: int| 0 <= a < b < rest.len() implies (#[trigger] rest[a]).1 != (
        #[trigger] rest[b]).1 by {
            assert(map[a].1 != map[b].1);
        }
        law_given_numbers_lead_back(rest, i);
    }
}

/// The device with an identifier is the last one that has it.
pub proof fn law_device_by_identifier(table: Seq<(Seq<char>, i32)>, uuid: Seq<char>)
    ensures
        match device_with_uuid(table, uuid) {
            Some(d) => exists|i: int|
                0 <= i < table.len() && #[trigger] table[i] == (uuid, d) && forall|j: int|
                    i < j < table.len() ==> (#[trigger] table[j]).0 != uuid,
            None => forall|j: int| 0 <= j < table.len() ==> (#[trigger] table[j]).0 != uuid,
        },
    decreases table.len(),
{
    if table.len() > 0 {
        let rest = table.drop_last();
        assert(table[table.len() - 1] == table.last());
        if table.last().0 != uuid {
            law_device_by_identifier(rest, uuid);
            match device_with_uuid(rest, uuid) {
                Some(d) => {
                    let i = choose|i: int|
                        0 <= i < rest.len() && #[trigger] rest[i] == (uuid, d) && forall|j: int|
                            i < j < rest.len() ==> (#[trigger] rest[j]).0 != uuid;
                    assert(table[i] == (uuid, d));
                    assert forall|j: int| i < j < table.len() implies (#[trigger] table[j]).0
                        != uuid by {
                        if j < rest.len() {
                            assert(rest[j] == table[j]);
                        }
                    }
                },
                None => {
                    assert forall|j: int| 0 <= j < table.len() implies (#[trigger] table[j]).0
                        != uuid by {
                        if j < rest.len() {
                            assert(rest[j] == table[j]);
                        }
                    }
                },
            }
        } else {
            assert(table[table.len() - 1] == (uuid, table.last().1));
        }
    }
}

/// A device that told its identifier is found by it, in upper or lower case, as long as no device
/// after it has the same one.
pub proof fn law_identifiers_name_devices(
    uuids: Seq<Option<[u8; 16]>>,
    device: int,
    part: Seq<char>,
)
    requires
        uuids.len() <= i32::MAX,
        0 <= device < uuids.len(),
        uuids[device] matches Some(uuid) && crate::text::lower_text(part) == uuid_text(uuid@),
        part.len() >= 4,
        part.take(4) == "GPU-"@,
        forall|later: int|
            device < later < uuids.len() ==> (#[trigger] uuids[later] matches Some(other)
                ==> uuid_text(other@) != uuid_text((uuids[device]->0)@)),
    ensures
        named_device(part, uuid_table(uuids)) == Some(device as i32),
{
    reveal_strlit("GPU-");
    assert(part[0] == part.take(4)[0]);
    assert(part[0] == 'G');
    assert(crate::text::parse_signed(part) is None) by {
        if crate::text::parse_digits(part) is Some {
            assert(crate::text::is_digit(part[0]));
        }
    }
    lemma_uuid_table(uuids, device);
}

proof fn lemma_uuid_table(uuids: Seq<Option<[u8; 16]>>, device: int)
    requires
        uuids.len() <= i32::MAX,
        0 <= device < uuids.len(),
        uuids[device] is Some,
        forall|later: int|
            device < later < uuids.len() ==> (#[trigger] uuids[later] matches Some(other)
                ==> uuid_text(other@) != uuid_text((uuids[device]->0)@)),
    ensures
        device_with_uuid(uuid_table(uuids), uuid_text((uuids[device]->0)@)) == Some(device as i32),
    decreases uuids.len(),
{
    let rest = uuids.drop_last();
    let table = uuid_table(uuids);
    assert(uuids[uuids.len() - 1] == uuids.last());
    if device < rest.len() {
        assert(rest[device] == uuids[device]);
        assert forall|later: int| device < later < rest.len() implies (#[trigger] rest[later]
            matches Some(other) ==> uuid_text(other@) != uuid_text((rest[device]->0)@)) by {
            assert(rest[later] == uuids[later]);
        }
        lemma_uuid_table(rest, device);
    }
    if uuids.last() is Some {
        assert(table.drop_last() =~= uuid_table(rest));
    }
}

/// A device is named by its number, and a list of numbers or identifiers names its devices in
/// order. It is invalid only where some part names no device.
pub proof fn law_parts_name_devices(
    parts: Seq<Seq<char>>,
    table: Seq<(Seq<char>, i32)>,
    number: i32,
)
    ensures
        named_device(crate::text::decimal(number as int), table) == Some(number),
        match named_devices(parts, table) {
            Some(devices) => devices.len() == parts.len() && forall|i: int|
                0 <= i < parts.len() ==> named_device(#[trigger] parts[i], table) == Some(
                    devices[i],
                ),
            None => exists|i: int|
                0 <= i < parts.len() && named_device(#[trigger] parts[i], table) is None,
        },
    decreases parts.len(),
{
    let n = if number < 0 {
        -number as nat
    } else {
        number as nat
    };
    let digits = crate::text::digits(n, 10);
    crate::text::lemma_digits_read_back(n);
    assert(crate::text::is_digit(digits[0]));
    if number < 0 {
        assert((seq!['-'] + digits).drop_first() =~= digits);
    }
    if parts.len() > 0 {
        let before = parts.drop_last();
        law_parts_name_devices(before, table, number);
        assert(parts[parts.len() - 1] == parts.last());
        match named_devices(before, table) {
            Some(devices) => {
                assert forall|i: int|
                    0 <= i < parts.len() && named_devices(parts, table)
                        is Some implies named_device(#[trigger] parts[i], table) == Some(
                    (named_devices(parts, table)->0)[i],
                ) by {
                    if i < before.len() {
                        assert(before[i] == parts[i]);
                    }
                }
            },
            None => {
                let i = choose|i: int|
                    0 <= i < before.len() && named_device(#[trigger] before[i], table) is None;
                assert(parts[i] == before[i]);
            },
        }
    }
}

/// A process that asks for nothing in particular sees all devices, under the numbers of the
/// machine.
pub proof fn law_all_devices_by_default(num_dev: i32, table: Seq<(Seq<char>, i32)>, i: int)
    requires
        0 <= i < num_dev,
    ensures
        visible_list(Seq::empty(), num_dev, table) matches Some(devices) && devices.len() == num_dev
            && devices[i] == i,
{
}

} // verus!
