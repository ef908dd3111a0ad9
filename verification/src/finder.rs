use vstd::prelude::*;
use vstd::string::*;

use crate::error::BleError;
use crate::hexcode::hex_pair;
use crate::hexcode::push_hex_pair;
use crate::text::ascii_lower;
use crate::text::ascii_lower_chars;
use crate::text::chars_contain;
use crate::text::chars_eq;
use crate::text::chars_of;
use crate::text::contains_text;
use crate::text::text_eq;
use crate::text::trim_text;
use crate::text::trimmed;

verus! {

/// A Liberty device as listed to the user.
#[derive(Clone, Debug)]
pub struct LibertyDeviceInfo {
    pub device_id: String,
    pub name: String,
    pub address: String,
    pub connected: bool,
}

/// The texts and connection flag of a listed device.
pub open spec fn device_view(d: LibertyDeviceInfo) -> (Seq<char>, Seq<char>, Seq<char>, bool) {
    (d.device_id@, d.name@, d.address@, d.connected)
}

/// A discovered device together with the Bluetooth handle `P` it was found
/// through.
#[derive(Clone, Debug)]
pub struct DiscoveredDevice<P> {
    pub info: LibertyDeviceInfo,
    pub peripheral: P,
}

/// Whether a device name names a Liberty device: it contains "liberty",
/// ignoring ASCII case.
pub open spec fn is_liberty(name: Seq<char>) -> bool {
    contains_text(ascii_lower(name), "liberty"@)
}

/// Whether `name` is the name of a Liberty device.
pub fn is_liberty_name(name: &str) -> (r: bool)
    ensures
        r == is_liberty(name@),
{
    let lowered = ascii_lower_chars(name);
    let needle = chars_of("liberty");
    chars_contain(&lowered, &needle)
}

/// The name shown for a device: its local name, else its advertised name,
/// else "Bluetooth <address>".
pub fn display_name(local_name: Option<String>, advertisement_name: Option<String>, address: &str) -> (r: String)
    ensures
        r@ == (match local_name {
            Some(n) => n@,
            None => match advertisement_name {
                Some(n) => n@,
                None => "Bluetooth "@ + address@,
            },
        }),
{
    match local_name {
        Some(n) => n,
        None => match advertisement_name {
            Some(n) => n,
            None => String::from_str("Bluetooth ").concat(address),
        },
    }
}

/// A name that holds more than white space, as it is.
pub fn nonblank_name(name: String) -> (r: Option<String>)
    ensures
        r == (if trimmed(name@).len() == 0 {
            None::<String>
        } else {
            Some(name)
        }),
{
    if trim_text(name.as_str()).is_empty() {
        None
    } else {
        Some(name)
    }
}

/// Whether one of `devices` has identifier `id`.
pub open spec fn has_id<P>(devices: Seq<DiscoveredDevice<P>>, id: Seq<char>) -> bool {
    exists|i: int| 0 <= i < devices.len() && (#[trigger] devices[i]).info.device_id@ == id
}

/// Appending the devices of `source` to `target`, skipping each whose
/// identifier is already present.
pub open spec fn spec_merge<P>(target: Seq<DiscoveredDevice<P>>, source: Seq<DiscoveredDevice<P>>) -> Seq<
    DiscoveredDevice<P>,
>
    decreases source.len(),
{
    if source.len() == 0 {
        target
    } else {
        let next = if has_id(target, source[0].info.device_id@) {
            target
        } else {
            target.push(source[0])
        };
        spec_merge(next, source.drop_first())
    }
}

/// Whether no two devices share an identifier.
pub open spec fn distinct_ids<P>(devices: Seq<DiscoveredDevice<P>>) -> bool {
    forall|i: int, j: int|
        0 <= i < j < devices.len() ==> (#[trigger] devices[i]).info.device_id@ != (#[trigger] devices[j]).info.device_id@
}

fn contains_id<P>(devices: &Vec<DiscoveredDevice<P>>, id: &str) -> (r: bool)
    ensures
        r == has_id(devices@, id@),
{
    let mut i: usize = 0;
    while i < devices.len()
        invariant
            i <= devices@.len(),
            forall|j: int| 0 <= j < i ==> (#[trigger] devices@[j]).info.device_id@ != id@,
        decreases devices@.len() - i,
    {
        if text_eq(devices[i].info.device_id.as_str(), id) {
            assert(devices@[i as int].info.device_id@ == id@);
            return true;
        }
        i = i + 1;
    }
    false
}

/// Appends to `target` every device of `source` whose identifier is not yet
/// listed, in order.
pub fn merge_unique<P>(target: &mut Vec<DiscoveredDevice<P>>, source: Vec<DiscoveredDevice<P>>)
    ensures
        final(target)@ == spec_merge(old(target)@, source@),
{
    let mut source = source;
    let ghost whole = spec_merge(target@, source@);
    while source.len() > 0
        invariant
            spec_merge(target@, source@) == whole,
        decreases source@.len(),
    {
        let ghost before_target = target@;
        let ghost before_source = source@;
        let device = source.remove(0);
        assert(source@ =~= before_source.drop_first());
        if !contains_id(target, device.info.device_id.as_str()) {
            target.push(device);
        }
    }
}

/// Merging keeps the devices already listed, lists every identifier of the
/// added devices, and adds no second device with an identifier already
/// listed: merged lists of distinct identifiers stay distinct.
pub proof fn lemma_merge_unique<P>(target: Seq<DiscoveredDevice<P>>, source: Seq<DiscoveredDevice<P>>)
    ensures
        spec_merge(target, source).len() >= target.len(),
        spec_merge(target, source).take(target.len() as int) == target,
        forall|i: int| 0 <= i < source.len() ==> has_id(spec_merge(target, source), (#[trigger] source[i]).info.device_id@),
        distinct_ids(target) ==> distinct_ids(spec_merge(target, source)),
    decreases source.len(),
{
    if source.len() > 0 {
        let d = source[0];
        let next = if has_id(target, d.info.device_id@) {
            target
        } else {
            target.push(d)
        };
        lemma_merge_unique(next, source.drop_first());
        let merged = spec_merge(target, source);
        assert(merged == spec_merge(next, source.drop_first()));
        assert(merged.take(target.len() as int) =~= target) by {
            assert(next.take(target.len() as int) =~= target);
            assert(merged.take(next.len() as int) == next);
        }
        assert(has_id(merged, d.info.device_id@)) by {
            let k = if has_id(target, d.info.device_id@) {
                choose|k: int| 0 <= k < target.len() && (#[trigger] target[k]).info.device_id@ == d.info.device_id@
            } else {
                target.len() as int
            };
            assert(next[k] == merged.take(next.len() as int)[k]);
            assert(merged[k].info.device_id@ == d.info.device_id@);
        }
        assert forall|i: int| 0 <= i < source.len() implies has_id(merged, (#[trigger] source[i]).info.device_id@) by {
            if i > 0 {
                assert(source[i] == source.drop_first()[i - 1]);
            }
        }
        if distinct_ids(target) {
            if !has_id(target, d.info.device_id@) {
                assert forall|i: int, j: int|
                    0 <= i < j < next.len() implies (#[trigger] next[i]).info.device_id@ != (#[trigger] next[j]).info.device_id@ by {
                    if j == target.len() {
                        assert(target[i] == next[i]);
                    } else {
                        assert(target[i] == next[i] && target[j] == next[j]);
                    }
                }
            }
        }
    }
}

/// Merging appends only devices of `source`, in their order: each one whose
/// identifier is neither listed in `target` nor carried by an earlier
/// device of `source`. The returned sequence gives, for each appended
/// device, its position in `source`.
pub proof fn lemma_merge_appends_first_of_each_new_id<P>(
    target: Seq<DiscoveredDevice<P>>,
    source: Seq<DiscoveredDevice<P>>,
) -> (idx: Seq<int>)
    ensures
        spec_merge(target, source).len() == target.len() + idx.len(),
        forall|i: int|
            0 <= i < idx.len() ==> 0 <= #[trigger] idx[i] < source.len() && spec_merge(target, source)[target.len()
                + i] == source[idx[i]],
        forall|i: int| 0 <= i < idx.len() ==> !has_id(target, source[#[trigger] idx[i]].info.device_id@),
        forall|i: int, k: int|
            0 <= i < idx.len() && 0 <= k < #[trigger] idx[i] ==> (#[trigger] source[k]).info.device_id@
                != source[idx[i]].info.device_id@,
        forall|i: int, j: int| 0 <= i < j < idx.len() ==> #[trigger] idx[i] < #[trigger] idx[j],
    decreases source.len(),
{
    if source.len() == 0 {
        Seq::empty()
    } else {
        let d = source[0];
        let tail = source.drop_first();
        let pushed = !has_id(target, d.info.device_id@);
        let next = if pushed {
            target.push(d)
        } else {
            target
        };
        let p = lemma_merge_appends_first_of_each_new_id(next, tail);
        lemma_merge_unique(next, tail);
        let merged = spec_merge(target, source);
        assert(merged == spec_merge(next, tail));
        assert forall|k: int| 0 < k < source.len() implies source[k] == tail[k - 1] by {}
        let shifted = Seq::new(p.len(), |i: int| p[i] + 1);
        assert forall|i: int| 0 <= i < p.len() implies !has_id(target, source[#[trigger] shifted[i]].info.device_id@)
            && source[shifted[i]].info.device_id@ != d.info.device_id@ by {
            let x = source[shifted[i]].info.device_id@;
            assert(source[shifted[i]] == tail[p[i]]);
            assert(!has_id(next, x));
            if has_id(target, x) {
                let k = choose|k: int| 0 <= k < target.len() && (#[trigger] target[k]).info.device_id@ == x;
                assert(next[k] == target[k]);
            }
            if pushed {
                assert(next[target.len() as int] == d);
            } else {
                let k = choose|k: int|
                    0 <= k < target.len() && (#[trigger] target[k]).info.device_id@ == d.info.device_id@;
            }
        }
        if pushed {
            let idx = seq![0int] + shifted;
            assert(merged[target.len() as int] == merged.take(next.len() as int)[target.len() as int]);
            assert forall|i: int| 0 <= i < idx.len() implies 0 <= #[trigger] idx[i] < source.len() && merged[target.len()
                + i] == source[idx[i]] by {
                if i > 0 {
                    assert(idx[i] == shifted[i - 1]);
                    assert(source[idx[i]] == tail[p[i - 1]]);
                }
            }
            assert forall|i: int| 0 <= i < idx.len() implies !has_id(target, source[#[trigger] idx[i]].info.device_id@) by {
                if i > 0 {
                    assert(idx[i] == shifted[i - 1]);
                }
            }
            assert forall|i: int, k: int|
                0 <= i < idx.len() && 0 <= k < #[trigger] idx[i] implies (#[trigger] source[k]).info.device_id@
                != source[idx[i]].info.device_id@ by {
                assert(idx[i] == shifted[i - 1]);
                if k > 0 {
                    assert(source[k] == tail[k - 1]);
                    assert(source[idx[i]] == tail[p[i - 1]]);
                }
            }
            assert forall|i: int, j: int| 0 <= i < j < idx.len() implies #[trigger] idx[i] < #[trigger] idx[j] by {
                if i > 0 {
                    assert(idx[i] == shifted[i - 1]);
                }
                assert(idx[j] == shifted[j - 1]);
            }
            idx
        } else {
            let idx = shifted;
            assert forall|i: int| 0 <= i < idx.len() implies 0 <= #[trigger] idx[i] < source.len() && merged[target.len()
                + i] == source[idx[i]] by {
                assert(source[idx[i]] == tail[p[i]]);
            }
            assert forall|i: int, k: int|
                0 <= i < idx.len() && 0 <= k < #[trigger] idx[i] implies (#[trigger] source[k]).info.device_id@
                != source[idx[i]].info.device_id@ by {
                if k > 0 {
                    assert(source[k] == tail[k - 1]);
                    assert(source[idx[i]] == tail[p[i]]);
                }
            }
            idx
        }
    }
}

/// Byte `k` (0 = least significant) of a Bluetooth address.
pub open spec fn address_byte(address: u64, k: nat) -> u8 {
    let divisor: int = if k == 0 {
        1
    } else if k == 1 {
        0x100
    } else if k == 2 {
        0x1_0000
    } else if k == 3 {
        0x100_0000
    } else if k == 4 {
        0x1_0000_0000
    } else {
        0x100_0000_0000
    };
    ((address as int / divisor) % 256) as u8
}

/// The usual text of a 48-bit Bluetooth address: six upper-case hexadecimal
/// bytes, most significant first, separated by ':'.
pub open spec fn bt_address_text(address: u64) -> Seq<char> {
    hex_pair(address_byte(address, 5), true) + ":"@ + hex_pair(address_byte(address, 4), true) + ":"@
        + hex_pair(address_byte(address, 3), true) + ":"@ + hex_pair(address_byte(address, 2), true) + ":"@
        + hex_pair(address_byte(address, 1), true) + ":"@ + hex_pair(address_byte(address, 0), true)
}

/// Formats a Bluetooth address as "AA:BB:CC:DD:EE:FF".
pub fn bt_address_string(address: u64) -> (r: String)
    ensures
        r@ == bt_address_text(address),
{
    let mut r = String::new();
    push_hex_pair(&mut r, ((address / 0x100_0000_0000) % 256) as u8, true);
    r.append(":");
    push_hex_pair(&mut r, ((address / 0x1_0000_0000) % 256) as u8, true);
    r.append(":");
    push_hex_pair(&mut r, ((address / 0x100_0000) % 256) as u8, true);
    r.append(":");
    push_hex_pair(&mut r, ((address / 0x1_0000) % 256) as u8, true);
    r.append(":");
    push_hex_pair(&mut r, ((address / 0x100) % 256) as u8, true);
    r.append(":");
    push_hex_pair(&mut r, (address % 256) as u8, true);
    r
}

/// One entry of the system's list of paired devices: its name and, when it
/// could be read, its Bluetooth address.
#[derive(Clone, Debug)]
pub struct PairedEntry {
    pub name: String,
    pub address: Option<u64>,
}

/// The address text of a paired entry; an em dash when it is unknown.
pub open spec fn paired_address_text(address: Option<u64>) -> Seq<char> {
    match address {
        Some(a) => bt_address_text(a),
        None => "—"@,
    }
}

/// The listed device of a paired entry, identified as `<prefix><address>`.
pub open spec fn paired_view(prefix: Seq<char>, e: PairedEntry) -> (Seq<char>, Seq<char>, Seq<char>, bool) {
    (prefix + paired_address_text(e.address), e.name@, paired_address_text(e.address), false)
}

/// The classic (BR/EDR) entries that name a Liberty device, listed in order.
pub open spec fn classic_listing(entries: Seq<PairedEntry>) -> Seq<(Seq<char>, Seq<char>, Seq<char>, bool)>
    decreases entries.len(),
{
    if entries.len() == 0 {
        Seq::empty()
    } else {
        let rest = classic_listing(entries.drop_last());
        if is_liberty(entries.last().name@) {
            rest.push(paired_view("classic:"@, entries.last()))
        } else {
            rest
        }
    }
}

/// The lower-cased names of the classic entries that name a Liberty device.
pub open spec fn classic_names(entries: Seq<PairedEntry>) -> Set<Seq<char>>
    decreases entries.len(),
{
    if entries.len() == 0 {
        Set::empty()
    } else {
        let rest = classic_names(entries.drop_last());
        if is_liberty(entries.last().name@) {
            rest.insert(ascii_lower(entries.last().name@))
        } else {
            rest
        }
    }
}

/// The LE entries that name a Liberty device and whose lower-cased name is
/// not yet in `seen` (which grows as entries are listed), and the final
/// set of names.
pub open spec fn le_listing(entries: Seq<PairedEntry>, seen: Set<Seq<char>>) -> (
    Seq<(Seq<char>, Seq<char>, Seq<char>, bool)>,
    Set<Seq<char>>,
)
    decreases entries.len(),
{
    if entries.len() == 0 {
        (Seq::empty(), seen)
    } else {
        let (out, names) = le_listing(entries.drop_last(), seen);
        let e = entries.last();
        if !is_liberty(e.name@) || names.contains(ascii_lower(e.name@)) {
            (out, names)
        } else {
            (out.push(paired_view("le:"@, e)), names.insert(ascii_lower(e.name@)))
        }
    }
}

/// The paired Liberty devices: the classic entries first, then the LE
/// entries whose name is not listed yet.
pub open spec fn paired_listing(classic: Seq<PairedEntry>, le: Seq<PairedEntry>) -> Seq<
    (Seq<char>, Seq<char>, Seq<char>, bool),
> {
    classic_listing(classic) + le_listing(le, classic_names(classic)).0
}

fn address_text(address: Option<u64>) -> (r: String)
    ensures
        r@ == paired_address_text(address),
{
    match address {
        Some(a) => bt_address_string(a),
        None => String::from_str("—"),
    }
}

fn seen_contains(seen: &Vec<Vec<char>>, name: &Vec<char>) -> (r: bool)
    ensures
        r == (exists|i: int| 0 <= i < seen@.len() && (#[trigger] seen@[i])@ == name@),
{
    let mut i: usize = 0;
    while i < seen.len()
        invariant
            i <= seen@.len(),
            forall|j: int| 0 <= j < i ==> (#[trigger] seen@[j])@ != name@,
        decreases seen@.len() - i,
    {
        if chars_eq(&seen[i], name) {
            return true;
        }
        i = i + 1;
    }
    false
}

/// Whether the vector of names holds exactly the set `names`.
pub open spec fn holds_names(seen: Seq<Vec<char>>, names: Set<Seq<char>>) -> bool {
    forall|x: Seq<char>| names.contains(x) <==> exists|i: int| 0 <= i < seen.len() && (#[trigger] seen[i])@ == x
}

/// Builds the list of paired Liberty devices from the system's paired
/// classic and LE entries. Entries whose name does not contain "liberty"
/// (ignoring case) are skipped; a classic entry is identified as
/// "classic:<address>", an LE entry as "le:<address>"; an LE entry whose
/// name (ignoring ASCII case) is already listed is skipped.
pub fn paired_liberty_devices_from(classic: &Vec<PairedEntry>, le: &Vec<PairedEntry>) -> (r: Vec<LibertyDeviceInfo>)
    ensures
        r@.map_values(|d: LibertyDeviceInfo| device_view(d)) == paired_listing(classic@, le@),
{
    let mut result: Vec<LibertyDeviceInfo> = Vec::new();
    let mut seen: Vec<Vec<char>> = Vec::new();
    let mut i: usize = 0;
    while i < classic.len()
        invariant
            i <= classic@.len(),
            result@.map_values(|d: LibertyDeviceInfo| device_view(d)) == classic_listing(classic@.take(i as int)),
            holds_names(seen@, classic_names(classic@.take(i as int))),
        decreases classic@.len() - i,
    {
        let entry = &classic[i];
        let ghost before = result@;
        let ghost before_seen = seen@;
        assert(classic@.take(i + 1).drop_last() =~= classic@.take(i as int));
        assert(classic@.take(i + 1).last() == classic@[i as int]);
        if is_liberty_name(entry.name.as_str()) {
            let lowered = ascii_lower_chars(entry.name.as_str());
            seen.push(lowered);
            let address = address_text(entry.address);
            let device_id = String::from_str("classic:").concat(address.as_str());
            result.push(LibertyDeviceInfo { device_id, name: entry.name.clone(), address, connected: false });
            assert(result@.map_values(|d: LibertyDeviceInfo| device_view(d)) =~= before.map_values(
                |d: LibertyDeviceInfo| device_view(d),
            ).push(paired_view("classic:"@, classic@[i as int])));
            assert forall|x: Seq<char>|
                #[trigger] classic_names(classic@.take(i + 1)).contains(x) <==> exists|k: int|
                    0 <= k < seen@.len() && (#[trigger] seen@[k])@ == x by {
                if exists|k: int| 0 <= k < before_seen.len() && (#[trigger] before_seen[k])@ == x {
                    let k = choose|k: int| 0 <= k < before_seen.len() && (#[trigger] before_seen[k])@ == x;
                    assert(seen@[k] == before_seen[k]);
                }
                if x == ascii_lower(classic@[i as int].name@) {
                    assert(seen@[before_seen.len() as int]@ == x);
                }
            }
        }
        i = i + 1;
    }
    assert(classic@.take(classic@.len() as int) =~= classic@);
    let ghost classic_part = result@;
    let mut j: usize = 0;
    while j < le.len()
        invariant
            j <= le@.len(),
            classic_part.map_values(|d: LibertyDeviceInfo| device_view(d)) == classic_listing(classic@),
            result@.len() >= classic_part.len(),
            result@.take(classic_part.len() as int) == classic_part,
            result@.skip(classic_part.len() as int).map_values(|d: LibertyDeviceInfo| device_view(d)) == le_listing(
                le@.take(j as int),
                classic_names(classic@),
            ).0,
            holds_names(seen@, le_listing(le@.take(j as int), classic_names(classic@)).1),
        decreases le@.len() - j,
    {
        let entry = &le[j];
        let ghost before = result@;
        let ghost before_seen = seen@;
        assert(le@.take(j + 1).drop_last() =~= le@.take(j as int));
        assert(le@.take(j + 1).last() == le@[j as int]);
        if is_liberty_name(entry.name.as_str()) {
            let lowered = ascii_lower_chars(entry.name.as_str());
            if !seen_contains(&seen, &lowered) {
                seen.push(lowered);
                let address = address_text(entry.address);
                let device_id = String::from_str("le:").concat(address.as_str());
                result.push(LibertyDeviceInfo { device_id, name: entry.name.clone(), address, connected: false });
                assert(result@.take(classic_part.len() as int) =~= before.take(classic_part.len() as int));
                assert(result@.skip(classic_part.len() as int) =~= before.skip(classic_part.len() as int).push(
                    result@.last(),
                ));
                assert(result@.skip(classic_part.len() as int).map_values(|d: LibertyDeviceInfo| device_view(d))
                    =~= before.skip(classic_part.len() as int).map_values(|d: LibertyDeviceInfo| device_view(d)).push(
                    paired_view("le:"@, le@[j as int]),
                ));
                assert forall|x: Seq<char>|
                    #[trigger] le_listing(le@.take(j + 1), classic_names(classic@)).1.contains(x) <==> exists|k: int|
                        0 <= k < seen@.len() && (#[trigger] seen@[k])@ == x by {
                    if exists|k: int| 0 <= k < before_seen.len() && (#[trigger] before_seen[k])@ == x {
                        let k = choose|k: int| 0 <= k < before_seen.len() && (#[trigger] before_seen[k])@ == x;
                        assert(seen@[k] == before_seen[k]);
                    }
                    if x == ascii_lower(le@[j as int].name@) {
                        assert(seen@[before_seen.len() as int]@ == x);
                    }
                }
            }
        }
        j = j + 1;
    }
    assert(le@.take(le@.len() as int) =~= le@);
    assert(result@ =~= classic_part + result@.skip(classic_part.len() as int));
    assert(result@.map_values(|d: LibertyDeviceInfo| device_view(d)) =~= classic_part.map_values(
        |d: LibertyDeviceInfo| device_view(d),
    ) + result@.skip(classic_part.len() as int).map_values(|d: LibertyDeviceInfo| device_view(d)));
    result
}

/// Whether a device matches a lower-cased query: its identifier or address
/// equals it, or its name contains it, ignoring ASCII case.
pub open spec fn matches_query(d: LibertyDeviceInfo, query: Seq<char>) -> bool {
    ||| ascii_lower(d.device_id@) == query
    ||| contains_text(ascii_lower(d.name@), query)
    ||| ascii_lower(d.address@) == query
}

/// The devices that match a lower-cased query, in order.
pub open spec fn spec_matching<P>(devices: Seq<DiscoveredDevice<P>>, query: Seq<char>) -> Seq<DiscoveredDevice<P>>
    decreases devices.len(),
{
    if devices.len() == 0 {
        Seq::empty()
    } else {
        let rest = spec_matching(devices.drop_first(), query);
        if matches_query(devices[0].info, query) {
            seq![devices[0]] + rest
        } else {
            rest
        }
    }
}

/// The matching devices are exactly the devices whose identifier or address,
/// lower-cased, equals the lower-cased query, or whose lower-cased name
/// contains it, kept in their order. The returned sequence gives, for each
/// matching device, its position among `devices`.
pub proof fn lemma_matching_is_filter<P>(devices: Seq<DiscoveredDevice<P>>, query: Seq<char>) -> (idx: Seq<int>)
    ensures
        idx.len() == spec_matching(devices, query).len(),
        forall|i: int|
            0 <= i < idx.len() ==> 0 <= #[trigger] idx[i] < devices.len() && spec_matching(devices, query)[i]
                == devices[idx[i]],
        forall|i: int, j: int| 0 <= i < j < idx.len() ==> #[trigger] idx[i] < #[trigger] idx[j],
        forall|i: int|
            0 <= i < idx.len() ==> {
                let d = (#[trigger] spec_matching(devices, query)[i]).info;
                ||| ascii_lower(d.device_id@) == query
                ||| contains_text(ascii_lower(d.name@), query)
                ||| ascii_lower(d.address@) == query
            },
        forall|k: int|
            0 <= k < devices.len() && (ascii_lower((#[trigger] devices[k]).info.device_id@) == query
                || contains_text(ascii_lower(devices[k].info.name@), query) || ascii_lower(devices[k].info.address@)
                == query) ==> exists|i: int| 0 <= i < idx.len() && idx[i] == k,
    decreases devices.len(),
{
    if devices.len() == 0 {
        Seq::empty()
    } else {
        let tail = devices.drop_first();
        let p = lemma_matching_is_filter(tail, query);
        let shifted = Seq::new(p.len(), |i: int| p[i] + 1);
        let rest = spec_matching(tail, query);
        let m = spec_matching(devices, query);
        assert forall|k: int| 0 < k < devices.len() implies devices[k] == tail[k - 1] by {}
        if matches_query(devices[0].info, query) {
            let idx = seq![0int] + shifted;
            assert(m == seq![devices[0]] + rest);
            assert forall|i: int| 0 <= i < idx.len() implies 0 <= #[trigger] idx[i] < devices.len() && m[i]
                == devices[idx[i]] by {
                if i > 0 {
                    assert(idx[i] == p[i - 1] + 1);
                    assert(m[i] == rest[i - 1]);
                }
            }
            assert forall|i: int, j: int| 0 <= i < j < idx.len() implies #[trigger] idx[i] < #[trigger] idx[j] by {
                if i > 0 {
                    assert(idx[i] == p[i - 1] + 1);
                }
                assert(idx[j] == p[j - 1] + 1);
            }
            assert forall|i: int| 0 <= i < idx.len() implies {
                let d = (#[trigger] m[i]).info;
                ||| ascii_lower(d.device_id@) == query
                ||| contains_text(ascii_lower(d.name@), query)
                ||| ascii_lower(d.address@) == query
            } by {
                if i > 0 {
                    assert(m[i] == rest[i - 1]);
                }
            }
            assert forall|k: int|
                0 <= k < devices.len() && (ascii_lower((#[trigger] devices[k]).info.device_id@) == query
                    || contains_text(ascii_lower(devices[k].info.name@), query) || ascii_lower(
                    devices[k].info.address@,
                ) == query) implies exists|i: int| 0 <= i < idx.len() && idx[i] == k by {
                if k == 0 {
                    assert(idx[0] == 0);
                } else {
                    assert(tail[k - 1] == devices[k]);
                    let i = choose|i: int| 0 <= i < p.len() && p[i] == k - 1;
                    assert(idx[i + 1] == k);
                }
            }
            idx
        } else {
            let idx = shifted;
            assert forall|i: int| 0 <= i < idx.len() implies 0 <= #[trigger] idx[i] < devices.len() && m[i]
                == devices[idx[i]] by {
                assert(idx[i] == p[i] + 1);
            }
            assert forall|i: int, j: int| 0 <= i < j < idx.len() implies #[trigger] idx[i] < #[trigger] idx[j] by {
                assert(idx[i] == p[i] + 1);
                assert(idx[j] == p[j] + 1);
            }
            assert forall|k: int|
                0 <= k < devices.len() && (ascii_lower((#[trigger] devices[k]).info.device_id@) == query
                    || contains_text(ascii_lower(devices[k].info.name@), query) || ascii_lower(
                    devices[k].info.address@,
                ) == query) implies exists|i: int| 0 <= i < idx.len() && idx[i] == k by {
                if k == 0 {
                    assert(matches_query(devices[0].info, query));
                } else {
                    assert(tail[k - 1] == devices[k]);
                    let i = choose|i: int| 0 <= i < p.len() && p[i] == k - 1;
                    assert(idx[i] == k);
                }
            }
            idx
        }
    }
}

fn device_matches(d: &LibertyDeviceInfo, query: &Vec<char>) -> (r: bool)
    ensures
        r == matches_query(*d, query@),
{
    let id = ascii_lower_chars(d.device_id.as_str());
    if chars_eq(&id, query) {
        return true;
    }
    let name = ascii_lower_chars(d.name.as_str());
    if chars_contain(&name, query) {
        return true;
    }
    let address = ascii_lower_chars(d.address.as_str());
    chars_eq(&address, query)
}

/// The devices that match `query`, ignoring ASCII case, in order.
pub fn matching_devices<P>(devices: Vec<DiscoveredDevice<P>>, query: &str) -> (r: Vec<DiscoveredDevice<P>>)
    ensures
        r@ == spec_matching(devices@, ascii_lower(query@)),
{
    let lowered = ascii_lower_chars(query);
    let mut source = devices;
    let mut out: Vec<DiscoveredDevice<P>> = Vec::new();
    let ghost whole = spec_matching(source@, lowered@);
    while source.len() > 0
        invariant
            lowered@ == ascii_lower(query@),
            out@ + spec_matching(source@, lowered@) == whole,
        decreases source@.len(),
    {
        let ghost before_out = out@;
        let ghost before_source = source@;
        let device = source.remove(0);
        assert(source@ =~= before_source.drop_first());
        if device_matches(&device.info, &lowered) {
            out.push(device);
            assert(out@ + spec_matching(source@, lowered@) =~= before_out + (seq![device] + spec_matching(
                source@,
                lowered@,
            )));
        }
    }
    assert(out@ + spec_matching(source@, lowered@) =~= out@);
    out
}

/// Why a device could not be selected by a query.
#[derive(Clone, Copy, Debug, PartialEq, Eq, Structural)]
pub enum SelectError {
    /// No device matches.
    NoMatch,
    /// More than one device matches.
    Ambiguous,
}

/// Selects the one device that matches `query`; reports when none or more
/// than one match.
pub fn select_device<P>(devices: Vec<DiscoveredDevice<P>>, query: &str) -> (r: Result<DiscoveredDevice<P>, SelectError>)
    ensures
        ({
            let m = spec_matching(devices@, ascii_lower(query@));
            &&& m.len() == 0 ==> r == Err::<DiscoveredDevice<P>, SelectError>(SelectError::NoMatch)
            &&& m.len() == 1 ==> r == Ok::<DiscoveredDevice<P>, SelectError>(m[0])
            &&& m.len() > 1 ==> r == Err::<DiscoveredDevice<P>, SelectError>(SelectError::Ambiguous)
        }),
{
    let mut matches = matching_devices(devices, query);
    if matches.len() == 0 {
        Err(SelectError::NoMatch)
    } else if matches.len() == 1 {
        Ok(matches.remove(0))
    } else {
        Err(SelectError::Ambiguous)
    }
}

/// Resolves `query` to exactly one device; `NotFound` when none or more than
/// one device matches.
pub fn resolve_liberty_peripheral<P>(devices: Vec<DiscoveredDevice<P>>, query: &str) -> (r: Result<
    DiscoveredDevice<P>,
    BleError,
>)
    ensures
        ({
            let m = spec_matching(devices@, ascii_lower(query@));
            &&& m.len() == 1 ==> r == Ok::<DiscoveredDevice<P>, BleError>(m[0])
            &&& m.len() != 1 ==> r == Err::<DiscoveredDevice<P>, BleError>(BleError::NotFound)
        }),
{
    match select_device(devices, query) {
        Ok(d) => Ok(d),
        Err(_) => Err(BleError::NotFound),
    }
}

/// Paired listings name only Liberty devices, and no lower-cased name of
/// an LE entry is listed twice or also as a classic entry.
pub proof fn lemma_le_listing_unique(entries: Seq<PairedEntry>, seen: Set<Seq<char>>)
    ensures
        ({
            let (out, names) = le_listing(entries, seen);
            &&& forall|i: int| 0 <= i < out.len() ==> is_liberty((#[trigger] out[i]).1)
            &&& forall|i: int| 0 <= i < out.len() ==> !seen.contains(ascii_lower((#[trigger] out[i]).1))
            &&& forall|i: int| 0 <= i < out.len() ==> names.contains(ascii_lower((#[trigger] out[i]).1))
            &&& forall|i: int, j: int|
                0 <= i < j < out.len() ==> ascii_lower((#[trigger] out[i]).1) != ascii_lower((#[trigger] out[j]).1)
            &&& seen.subset_of(names)
        }),
    decreases entries.len(),
{
    if entries.len() > 0 {
        lemma_le_listing_unique(entries.drop_last(), seen);
    }
}

proof fn lemma_classic_listing_names(entries: Seq<PairedEntry>)
    ensures
        forall|i: int|
            0 <= i < classic_listing(entries).len() ==> is_liberty((#[trigger] classic_listing(entries)[i]).1)
                && classic_names(entries).contains(ascii_lower(classic_listing(entries)[i].1)),
    decreases entries.len(),
{
    if entries.len() > 0 {
        let rest = entries.drop_last();
        lemma_classic_listing_names(rest);
        let out = classic_listing(entries);
        assert forall|i: int| 0 <= i < out.len() implies is_liberty((#[trigger] out[i]).1)
            && classic_names(entries).contains(ascii_lower(out[i].1)) by {
            if i < classic_listing(rest).len() {
                assert(out[i] == classic_listing(rest)[i]);
            }
        }
    }
}

/// The paired listing names only Liberty devices, and a device whose name
/// (ignoring ASCII case) is listed from the classic entries, or from an
/// earlier LE entry, is not listed again from an LE entry.
pub proof fn lemma_paired_listing_unique(classic: Seq<PairedEntry>, le: Seq<PairedEntry>)
    ensures
        ({
            let all = paired_listing(classic, le);
            let n = classic_listing(classic).len();
            &&& forall|i: int| 0 <= i < all.len() ==> is_liberty((#[trigger] all[i]).1)
            &&& forall|i: int, j: int|
                0 <= i < j < all.len() && n <= j ==> ascii_lower((#[trigger] all[i]).1) != ascii_lower(
                    (#[trigger] all[j]).1,
                )
        }),
{
    lemma_classic_listing_names(classic);
    lemma_le_listing_unique(le, classic_names(classic));
    let all = paired_listing(classic, le);
    let c = classic_listing(classic);
    let l = le_listing(le, classic_names(classic)).0;
    assert forall|i: int| 0 <= i < all.len() implies is_liberty((#[trigger] all[i]).1) by {
        if i < c.len() {
            assert(all[i] == c[i]);
        } else {
            assert(all[i] == l[i - c.len()]);
        }
    }
    assert forall|i: int, j: int|
        0 <= i < j < all.len() && c.len() <= j implies ascii_lower((#[trigger] all[i]).1) != ascii_lower(
        (#[trigger] all[j]).1,
    ) by {
        assert(all[j] == l[j - c.len()]);
        if i < c.len() {
            assert(all[i] == c[i]);
        } else {
            assert(all[i] == l[i - c.len()]);
        }
    }
}

/// Whether the listed device `d` stands for the paired entry `e`: it carries
/// the entry's name, is not marked connected, carries the text of the entry's
/// own address (an em dash when that is unknown), and is identified as
/// `prefix` followed by that address text.
pub open spec fn lists_entry(d: (Seq<char>, Seq<char>, Seq<char>, bool), prefix: Seq<char>, e: PairedEntry) -> bool {
    &&& d.1 == e.name@
    &&& !d.3
    &&& d.0 == prefix + d.2
    &&& (e.address matches Some(a) ==> d.2 == bt_address_text(a))
    &&& (e.address is None ==> d.2 == "—"@)
}

proof fn lemma_classic_listing_sources(entries: Seq<PairedEntry>) -> (idx: Seq<int>)
    ensures
        idx.len() == classic_listing(entries).len(),
        forall|i: int|
            0 <= i < idx.len() ==> 0 <= #[trigger] idx[i] < entries.len() && is_liberty(entries[idx[i]].name@)
                && lists_entry(classic_listing(entries)[i], "classic:"@, entries[idx[i]]),
        forall|i: int, j: int| 0 <= i < j < idx.len() ==> #[trigger] idx[i] < #[trigger] idx[j],
        forall|k: int|
            0 <= k < entries.len() && is_liberty((#[trigger] entries[k]).name@) ==> exists|i: int|
                0 <= i < idx.len() && idx[i] == k,
    decreases entries.len(),
{
    if entries.len() == 0 {
        Seq::empty()
    } else {
        let rest = entries.drop_last();
        let p = lemma_classic_listing_sources(rest);
        let n = entries.len() - 1;
        assert forall|k: int| 0 <= k < n implies rest[k] == entries[k] by {}
        let out = classic_listing(entries);
        let prev = classic_listing(rest);
        if is_liberty(entries.last().name@) {
            let idx = p.push(n);
            assert forall|i: int| 0 <= i < idx.len() implies 0 <= #[trigger] idx[i] < entries.len() && is_liberty(
                entries[idx[i]].name@,
            ) && lists_entry(out[i], "classic:"@, entries[idx[i]]) by {
                if i < p.len() {
                    assert(idx[i] == p[i]);
                    assert(out[i] == prev[i]);
                    assert(entries[p[i]] == rest[p[i]]);
                }
            }
            assert forall|k: int|
                0 <= k < entries.len() && is_liberty((#[trigger] entries[k]).name@) implies exists|i: int|
                0 <= i < idx.len() && idx[i] == k by {
                if k < n {
                    assert(is_liberty(rest[k].name@));
                    let i = choose|i: int| 0 <= i < p.len() && p[i] == k;
                    assert(idx[i] == k);
                } else {
                    assert(idx[p.len() as int] == k);
                }
            }
            idx
        } else {
            assert forall|i: int| 0 <= i < p.len() implies 0 <= #[trigger] p[i] < entries.len() && is_liberty(
                entries[p[i]].name@,
            ) && lists_entry(out[i], "classic:"@, entries[p[i]]) by {
                assert(entries[p[i]] == rest[p[i]]);
            }
            assert forall|k: int|
                0 <= k < entries.len() && is_liberty((#[trigger] entries[k]).name@) implies exists|i: int|
                0 <= i < p.len() && p[i] == k by {
                assert(is_liberty(rest[k].name@));
            }
            p
        }
    }
}

/// Whether the LE entry at `k` is listed: it names a Liberty device, and
/// its lower-cased name is neither in `seen` nor that of an earlier Liberty
/// entry.
pub open spec fn is_first_new_liberty(entries: Seq<PairedEntry>, seen: Set<Seq<char>>, k: int) -> bool {
    &&& is_liberty(entries[k].name@)
    &&& !seen.contains(ascii_lower(entries[k].name@))
    &&& forall|m: int|
        0 <= m < k ==> !(is_liberty((#[trigger] entries[m]).name@) && ascii_lower(entries[m].name@) == ascii_lower(
            entries[k].name@,
        ))
}

proof fn lemma_le_names(entries: Seq<PairedEntry>, seen: Set<Seq<char>>)
    ensures
        forall|x: Seq<char>|
            #[trigger] le_listing(entries, seen).1.contains(x) <==> (seen.contains(x) || exists|m: int|
                0 <= m < entries.len() && is_liberty((#[trigger] entries[m]).name@) && ascii_lower(entries[m].name@)
                    == x),
    decreases entries.len(),
{
    if entries.len() > 0 {
        let rest = entries.drop_last();
        lemma_le_names(rest, seen);
        let n = entries.len() - 1;
        let e = entries[n];
        let names = le_listing(entries, seen).1;
        let before = le_listing(rest, seen).1;
        assert forall|x: Seq<char>| #[trigger] names.contains(x) <==> (seen.contains(x) || exists|m: int|
            0 <= m < entries.len() && is_liberty((#[trigger] entries[m]).name@) && ascii_lower(entries[m].name@)
                == x) by {
            if exists|m: int|
                0 <= m < entries.len() && is_liberty((#[trigger] entries[m]).name@) && ascii_lower(entries[m].name@)
                    == x {
                let m = choose|m: int|
                    0 <= m < entries.len() && is_liberty((#[trigger] entries[m]).name@) && ascii_lower(
                        entries[m].name@,
                    ) == x;
                if m < n {
                    assert(rest[m] == entries[m]);
                    assert(before.contains(x));
                }
            }
            if before.contains(x) && !seen.contains(x) {
                let m = choose|m: int|
                    0 <= m < rest.len() && is_liberty((#[trigger] rest[m]).name@) && ascii_lower(rest[m].name@) == x;
                assert(rest[m] == entries[m]);
            }
        }
    }
}

proof fn lemma_le_listing_sources(entries: Seq<PairedEntry>, seen: Set<Seq<char>>) -> (idx: Seq<int>)
    ensures
        idx.len() == le_listing(entries, seen).0.len(),
        forall|i: int|
            0 <= i < idx.len() ==> 0 <= #[trigger] idx[i] < entries.len() && is_first_new_liberty(entries, seen, idx[i])
                && lists_entry(le_listing(entries, seen).0[i], "le:"@, entries[idx[i]]),
        forall|i: int, j: int| 0 <= i < j < idx.len() ==> #[trigger] idx[i] < #[trigger] idx[j],
        forall|k: int|
            0 <= k < entries.len() && #[trigger] is_first_new_liberty(entries, seen, k) ==> exists|i: int|
                0 <= i < idx.len() && idx[i] == k,
    decreases entries.len(),
{
    if entries.len() == 0 {
        Seq::empty()
    } else {
        let rest = entries.drop_last();
        let p = lemma_le_listing_sources(rest, seen);
        lemma_le_names(rest, seen);
        let n = entries.len() - 1;
        assert forall|k: int| 0 <= k < n implies rest[k] == entries[k] by {}
        assert forall|k: int| 0 <= k < n implies #[trigger] is_first_new_liberty(entries, seen, k)
            == is_first_new_liberty(rest, seen, k) by {
            if is_first_new_liberty(rest, seen, k) {
                assert forall|m: int| 0 <= m < k implies !(is_liberty((#[trigger] entries[m]).name@) && ascii_lower(
                    entries[m].name@,
                ) == ascii_lower(entries[k].name@)) by {
                    assert(rest[m] == entries[m]);
                }
            }
            if is_first_new_liberty(entries, seen, k) {
                assert forall|m: int| 0 <= m < k implies !(is_liberty((#[trigger] rest[m]).name@) && ascii_lower(
                    rest[m].name@,
                ) == ascii_lower(rest[k].name@)) by {
                    assert(rest[m] == entries[m]);
                }
            }
        }
        let out = le_listing(entries, seen).0;
        let (prev, names) = le_listing(rest, seen);
        let e = entries.last();
        let listed = is_liberty(e.name@) && !names.contains(ascii_lower(e.name@));
        assert(listed == is_first_new_liberty(entries, seen, n)) by {
            if listed {
                assert forall|m: int| 0 <= m < n implies !(is_liberty((#[trigger] entries[m]).name@) && ascii_lower(
                    entries[m].name@,
                ) == ascii_lower(entries[n].name@)) by {
                    if is_liberty(entries[m].name@) && ascii_lower(entries[m].name@) == ascii_lower(entries[n].name@) {
                        assert(rest[m] == entries[m]);
                        assert(names.contains(ascii_lower(e.name@)));
                    }
                }
            }
            if is_first_new_liberty(entries, seen, n) && names.contains(ascii_lower(e.name@)) {
                let m = choose|m: int|
                    0 <= m < rest.len() && is_liberty((#[trigger] rest[m]).name@) && ascii_lower(rest[m].name@)
                        == ascii_lower(e.name@);
                assert(rest[m] == entries[m]);
            }
        }
        if !listed {
            assert forall|i: int| 0 <= i < p.len() implies 0 <= #[trigger] p[i] < entries.len() && is_first_new_liberty(
                entries,
                seen,
                p[i],
            ) && lists_entry(out[i], "le:"@, entries[p[i]]) by {
                assert(entries[p[i]] == rest[p[i]]);
            }
            assert forall|k: int|
                0 <= k < entries.len() && #[trigger] is_first_new_liberty(entries, seen, k) implies exists|i: int|
                0 <= i < p.len() && p[i] == k by {
                assert(is_first_new_liberty(rest, seen, k));
            }
            p
        } else {
            let idx = p.push(n);
            assert forall|i: int| 0 <= i < idx.len() implies 0 <= #[trigger] idx[i] < entries.len()
                && is_first_new_liberty(entries, seen, idx[i]) && lists_entry(out[i], "le:"@, entries[idx[i]]) by {
                if i < p.len() {
                    assert(idx[i] == p[i]);
                    assert(out[i] == prev[i]);
                    assert(entries[p[i]] == rest[p[i]]);
                }
            }
            assert forall|k: int|
                0 <= k < entries.len() && #[trigger] is_first_new_liberty(entries, seen, k) implies exists|i: int|
                0 <= i < idx.len() && idx[i] == k by {
                if k < n {
                    assert(is_first_new_liberty(rest, seen, k));
                    let i = choose|i: int| 0 <= i < p.len() && p[i] == k;
                    assert(idx[i] == k);
                } else {
                    assert(idx[p.len() as int] == k);
                }
            }
            idx
        }
    }
}

proof fn lemma_classic_names(entries: Seq<PairedEntry>)
    ensures
        forall|x: Seq<char>|
            #[trigger] classic_names(entries).contains(x) <==> exists|m: int|
                0 <= m < entries.len() && is_liberty((#[trigger] entries[m]).name@) && ascii_lower(entries[m].name@)
                    == x,
    decreases entries.len(),
{
    if entries.len() > 0 {
        let rest = entries.drop_last();
        lemma_classic_names(rest);
        let n = entries.len() - 1;
        assert forall|x: Seq<char>| #[trigger] classic_names(entries).contains(x) <==> exists|m: int|
            0 <= m < entries.len() && is_liberty((#[trigger] entries[m]).name@) && ascii_lower(entries[m].name@)
                == x by {
            if exists|m: int|
                0 <= m < entries.len() && is_liberty((#[trigger] entries[m]).name@) && ascii_lower(entries[m].name@)
                    == x {
                let m = choose|m: int|
                    0 <= m < entries.len() && is_liberty((#[trigger] entries[m]).name@) && ascii_lower(
                        entries[m].name@,
                    ) == x;
                if m < n {
                    assert(rest[m] == entries[m]);
                }
            }
            if classic_names(rest).contains(x) {
                let m = choose|m: int|
                    0 <= m < rest.len() && is_liberty((#[trigger] rest[m]).name@) && ascii_lower(rest[m].name@) == x;
                assert(rest[m] == entries[m]);
            }
        }
    }
}

/// Whether the LE entry at `k` is listed among the paired devices: it names
/// a Liberty device, and no Liberty entry of the classic list, nor an
/// earlier Liberty entry of the LE list, has the same name ignoring ASCII
/// case.
pub open spec fn is_new_le_entry(classic: Seq<PairedEntry>, le: Seq<PairedEntry>, k: int) -> bool {
    &&& is_liberty(le[k].name@)
    &&& forall|m: int|
        0 <= m < classic.len() ==> !(is_liberty((#[trigger] classic[m]).name@) && ascii_lower(classic[m].name@)
            == ascii_lower(le[k].name@))
    &&& forall|m: int|
        0 <= m < k ==> !(is_liberty((#[trigger] le[m]).name@) && ascii_lower(le[m].name@) == ascii_lower(
            le[k].name@,
        ))
}

/// Each listed paired device stands for an entry of its own list: the
/// classic part for classic entries and the rest for LE entries, each in
/// the order of its list, with the entry's name and the text of the entry's
/// own address ("classic:" or "le:" followed by it as its identifier).
/// Every classic entry that names a Liberty device is listed; an LE entry is
/// listed exactly when it names a Liberty device whose name, ignoring ASCII
/// case, no classic Liberty entry and no earlier LE Liberty entry has. The
/// returned sequence gives, for each listed device, the position of its
/// entry.
pub proof fn lemma_paired_listing_sources(classic: Seq<PairedEntry>, le: Seq<PairedEntry>) -> (idx: Seq<int>)
    ensures
        ({
            let all = paired_listing(classic, le);
            let n = classic_listing(classic).len();
            &&& idx.len() == all.len()
            &&& forall|i: int|
                0 <= i < n ==> 0 <= #[trigger] idx[i] < classic.len() && is_liberty(classic[idx[i]].name@)
                    && lists_entry(all[i], "classic:"@, classic[idx[i]])
            &&& forall|i: int|
                n <= i < all.len() ==> 0 <= #[trigger] idx[i] < le.len() && is_new_le_entry(classic, le, idx[i])
                    && lists_entry(all[i], "le:"@, le[idx[i]])
            &&& forall|i: int, j: int| 0 <= i < j < n ==> #[trigger] idx[i] < #[trigger] idx[j]
            &&& forall|i: int, j: int| n <= i < j < all.len() ==> #[trigger] idx[i] < #[trigger] idx[j]
            &&& forall|k: int|
                0 <= k < classic.len() && is_liberty((#[trigger] classic[k]).name@) ==> exists|i: int|
                    0 <= i < n && idx[i] == k
            &&& forall|k: int|
                0 <= k < le.len() && #[trigger] is_new_le_entry(classic, le, k) ==> exists|i: int|
                    n <= i < all.len() && idx[i] == k
        }),
{
    let c = lemma_classic_listing_sources(classic);
    let seen = classic_names(classic);
    let l = lemma_le_listing_sources(le, seen);
    lemma_classic_names(classic);
    assert forall|k: int| 0 <= k < le.len() implies #[trigger] is_new_le_entry(classic, le, k)
        == is_first_new_liberty(le, seen, k) by {
        let x = ascii_lower(le[k].name@);
        if seen.contains(x) {
            let m = choose|m: int|
                0 <= m < classic.len() && is_liberty((#[trigger] classic[m]).name@) && ascii_lower(classic[m].name@)
                    == x;
        }
    }
    let idx = c + l;
    let all = paired_listing(classic, le);
    let cl = classic_listing(classic);
    let ll = le_listing(le, seen).0;
    let n = cl.len();
    assert forall|i: int| 0 <= i < n implies 0 <= #[trigger] idx[i] < classic.len() && is_liberty(
        classic[idx[i]].name@,
    ) && lists_entry(all[i], "classic:"@, classic[idx[i]]) by {
        assert(idx[i] == c[i]);
        assert(all[i] == cl[i]);
    }
    assert forall|i: int| n <= i < all.len() implies 0 <= #[trigger] idx[i] < le.len() && is_new_le_entry(
        classic,
        le,
        idx[i],
    ) && lists_entry(all[i], "le:"@, le[idx[i]]) by {
        assert(idx[i] == l[i - n]);
        assert(all[i] == ll[i - n]);
    }
    assert forall|i: int, j: int| 0 <= i < j < n implies #[trigger] idx[i] < #[trigger] idx[j] by {
        assert(idx[i] == c[i] && idx[j] == c[j]);
    }
    assert forall|i: int, j: int| n <= i < j < all.len() implies #[trigger] idx[i] < #[trigger] idx[j] by {
        assert(idx[i] == l[i - n] && idx[j] == l[j - n]);
    }
    assert forall|k: int|
        0 <= k < classic.len() && is_liberty((#[trigger] classic[k]).name@) implies exists|i: int|
        0 <= i < n && idx[i] == k by {
        let i = choose|i: int| 0 <= i < c.len() && c[i] == k;
        assert(idx[i] == c[i]);
    }
    assert forall|k: int| 0 <= k < le.len() && #[trigger] is_new_le_entry(classic, le, k) implies exists|i: int|
        n <= i < all.len() && idx[i] == k by {
        assert(is_first_new_liberty(le, seen, k));
        let i = choose|i: int| 0 <= i < l.len() && l[i] == k;
        assert(idx[i + n] == l[i]);
    }
    idx
}

/// The devices to list: those found over Bluetooth LE when there are any;
/// `None` when there are none, in which case the paired devices are listed.
pub fn ble_device_list<P>(ble: Vec<DiscoveredDevice<P>>) -> (r: Option<Vec<LibertyDeviceInfo>>)
    ensures
        if ble@.len() == 0 {
            r is None
        } else {
            r matches Some(v) && v@ == ble@.map_values(|d: DiscoveredDevice<P>| d.info)
        },
{
    if ble.len() == 0 {
        return None;
    }
    let ghost whole = ble@.map_values(|d: DiscoveredDevice<P>| d.info);
    let mut rest = ble;
    let mut out: Vec<LibertyDeviceInfo> = Vec::new();
    while rest.len() > 0
        invariant
            out@ + rest@.map_values(|d: DiscoveredDevice<P>| d.info) == whole,
        decreases rest@.len(),
    {
        let ghost before_out = out@;
        let ghost before_rest = rest@;
        let device = rest.remove(0);
        assert(rest@ =~= before_rest.drop_first());
        out.push(device.info);
        assert(out@ + rest@.map_values(|d: DiscoveredDevice<P>| d.info) =~= before_out + before_rest.map_values(
            |d: DiscoveredDevice<P>| d.info,
        ));
    }
    assert(out@ + rest@.map_values(|d: DiscoveredDevice<P>| d.info) =~= out@);
    Some(out)
}

} // verus!
