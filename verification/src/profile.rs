use vstd::prelude::*;
use vstd::string::*;
use vstd::utf8::*;

use crate::error::BleError;
use crate::hexcode::HexError;
use crate::hexcode::hex_digit_char;
use crate::hexcode::hex_decode;
use crate::hexcode::hex_error_display;
use crate::hexcode::hex_error_text;
use crate::hexcode::hex_value;
use crate::hexcode::first_non_hex;
use crate::hexcode::is_hex_text;
use crate::hexcode::spec_hex_decode;
use crate::text::text_eq;

verus! {

/// One command of the profile: its Soundcore command code and, per option
/// name, the payload as hexadecimal text (an empty text is an empty payload).
#[derive(Clone, Debug)]
pub struct ProfileCommand {
    pub command: u16,
    pub payloads: Vec<(String, String)>,
}

/// The Liberty 5 control profile. Commands travel over Bluetooth Classic
/// RFCOMM in the Soundcore v1 frame; only bytes verified on a real device
/// are part of it. Entries are kept in insertion order; a name that occurs
/// more than once is found at its first occurrence.
#[derive(Clone, Debug)]
pub struct CommandProfile {
    pub device_name_pattern: String,
    /// The RFCOMM control service UUID, as its 128-bit value.
    pub control_service_uuid: u128,
    pub eq_presets: Vec<(String, String)>,
    pub commands: Vec<(String, ProfileCommand)>,
}

/// Which controls the profile makes available.
#[derive(Clone, Copy, Debug, PartialEq, Eq, Structural)]
pub struct FeatureAvailability {
    pub anc: bool,
    pub game_mode: bool,
    pub eq_preset: bool,
}

/// The value stored under `key`: the value of its first entry.
pub open spec fn lookup<V>(entries: Seq<(String, V)>, key: Seq<char>) -> Option<V>
    decreases entries.len(),
{
    if entries.len() == 0 {
        None
    } else if entries[0].0@ == key {
        Some(entries[0].1)
    } else {
        lookup(entries.drop_first(), key)
    }
}

/// Whether no two entries have the same name.
pub open spec fn distinct_keys<V>(entries: Seq<(String, V)>) -> bool {
    forall|i: int, j: int|
        0 <= i < j < entries.len() ==> #[trigger] entries[i].0@ != #[trigger] entries[j].0@
}

/// Whether the profile names each command, each option of a command and
/// each EQ preset at most once.
pub open spec fn keys_unique(p: CommandProfile) -> bool {
    &&& distinct_keys(p.commands@)
    &&& distinct_keys(p.eq_presets@)
    &&& forall|i: int| 0 <= i < p.commands@.len() ==> distinct_keys((#[trigger] p.commands@[i]).1.payloads@)
}

proof fn lemma_lookup_index<V>(s: Seq<(String, V)>, key: Seq<char>, i: int)
    requires
        0 <= i < s.len(),
        s[i].0@ == key,
        forall|j: int| 0 <= j < i ==> s[j].0@ != key,
    ensures
        lookup(s, key) == Some(s[i].1),
    decreases i,
{
    if i > 0 {
        lemma_lookup_index(s.drop_first(), key, i - 1);
    }
}

proof fn lemma_lookup_absent<V>(s: Seq<(String, V)>, key: Seq<char>)
    requires
        forall|j: int| 0 <= j < s.len() ==> s[j].0@ != key,
    ensures
        lookup(s, key) is None,
    decreases s.len(),
{
    if s.len() > 0 {
        lemma_lookup_absent(s.drop_first(), key);
    }
}

proof fn lemma_lookup_update<V>(s: Seq<(String, V)>, i: int, entry: (String, V), k: Seq<char>)
    requires
        0 <= i < s.len(),
        s[i].0@ == entry.0@,
    ensures
        k != entry.0@ ==> lookup(s.update(i, entry), k) == lookup(s, k),
        (k == entry.0@ && forall|j: int| 0 <= j < i ==> s[j].0@ != k) ==> lookup(s.update(i, entry), k)
            == Some(entry.1),
    decreases s.len(),
{
    let t = s.update(i, entry);
    if i == 0 {
        assert(t.drop_first() =~= s.drop_first());
    } else {
        assert(t.drop_first() =~= s.drop_first().update(i - 1, entry));
        lemma_lookup_update(s.drop_first(), i - 1, entry, k);
        if k == entry.0@ && forall|j: int| 0 <= j < i ==> s[j].0@ != k {
            assert forall|j: int| 0 <= j < i - 1 implies s.drop_first()[j].0@ != k by {
                assert(s[j + 1].0@ != k);
            }
            assert(s[0].0@ != k);
        }
    }
}

proof fn lemma_lookup_push<V>(s: Seq<(String, V)>, entry: (String, V), k: Seq<char>)
    ensures
        lookup(s.push(entry), k) == (if lookup(s, k) is Some {
            lookup(s, k)
        } else if entry.0@ == k {
            Some(entry.1)
        } else {
            None
        }),
    decreases s.len(),
{
    if s.len() > 0 {
        assert(s.push(entry).drop_first() =~= s.drop_first().push(entry));
        lemma_lookup_push(s.drop_first(), entry, k);
    } else {
        assert(s.push(entry)[0] == entry);
        assert(lookup(s.push(entry).drop_first(), k) is None);
    }
}

/// The position of the first entry named `key`.
pub fn find_entry<V>(entries: &Vec<(String, V)>, key: &str) -> (r: Option<usize>)
    ensures
        match r {
            Some(i) => {
                &&& i < entries@.len()
                &&& entries@[i as int].0@ == key@
                &&& forall|j: int| 0 <= j < i ==> entries@[j].0@ != key@
                &&& lookup(entries@, key@) == Some(entries@[i as int].1)
            },
            None => {
                &&& forall|j: int| 0 <= j < entries@.len() ==> entries@[j].0@ != key@
                &&& lookup(entries@, key@) is None
            },
        },
{
    let mut i: usize = 0;
    while i < entries.len()
        invariant
            i <= entries@.len(),
            forall|j: int| 0 <= j < i ==> entries@[j].0@ != key@,
        decreases entries@.len() - i,
    {
        if text_eq(entries[i].0.as_str(), key) {
            proof {
                lemma_lookup_index(entries@, key@, i as int);
            }
            return Some(i);
        }
        i = i + 1;
    }
    proof {
        lemma_lookup_absent(entries@, key@);
    }
    None
}

/// Stores `value` under `key`: replaces the first entry named `key`, or
/// appends a new entry.
pub fn insert_entry<V>(entries: &mut Vec<(String, V)>, key: String, value: V)
    ensures
        lookup(final(entries)@, key@) == Some(value),
        forall|k: Seq<char>| k != key@ ==> #[trigger] lookup(final(entries)@, k) == lookup(old(entries)@, k),
        distinct_keys(old(entries)@) ==> distinct_keys(final(entries)@),
        forall|i: int|
            0 <= i < final(entries)@.len() ==> (#[trigger] final(entries)@[i]).1 == value || (i < old(entries)@.len()
                && final(entries)@[i] == old(entries)@[i]),
{
    let found = find_entry(entries, key.as_str());
    let ghost key_view = key@;
    let ghost entry = (key, value);
    match found {
        Some(i) => {
            proof {
                assert forall|k: Seq<char>| k != key_view implies lookup(old(entries)@.update(i as int, entry), k)
                    == lookup(old(entries)@, k) by {
                    lemma_lookup_update(old(entries)@, i as int, entry, k);
                }
                lemma_lookup_update(old(entries)@, i as int, entry, key_view);
            }
            entries.set(i, (key, value));
            assert(entries@ == old(entries)@.update(i as int, entry));
        },
        None => {
            proof {
                assert forall|k: Seq<char>| k != key_view implies lookup(old(entries)@.push(entry), k)
                    == lookup(old(entries)@, k) by {
                    lemma_lookup_push(old(entries)@, entry, k);
                }
                lemma_lookup_push(old(entries)@, entry, key_view);
            }
            entries.push((key, value));
        },
    }
}

/// Calls `uuid::Uuid::from_u128(value).is_nil()`; the documented result: the
/// UUID is nil exactly when all its bits are zero.
#[verifier::external_body]
fn uuid_is_nil(value: u128) -> (r: bool)
    ensures
        r == (value == 0),
{
    uuid::Uuid::from_u128(value).is_nil()
}

/// Hexadecimal digit `k` (0 = most significant) of a 128-bit value.
pub open spec fn uuid_nibble(value: u128, k: int) -> u8 {
    ((value as int / vstd::arithmetic::power::pow(16, (31 - k) as nat)) % 16) as u8
}

/// The hyphenated text of a UUID: its 32 lower-case hexadecimal digits, most
/// significant first, with '-' after the 8th, 12th, 16th and 20th digit.
pub open spec fn uuid_text(value: u128) -> Seq<char> {
    let d = Seq::new(32, |k: int| hex_digit_char(uuid_nibble(value, k), false));
    d.subrange(0, 8) + "-"@ + d.subrange(8, 12) + "-"@ + d.subrange(12, 16) + "-"@ + d.subrange(16, 20) + "-"@
        + d.subrange(20, 32)
}

/// Calls `uuid::Uuid::from_u128(value).to_string()`: the hyphenated
/// lower-case form of the UUID whose big-endian bytes are those of `value`.
#[verifier::external_body]
fn uuid_to_string(value: u128) -> (s: String)
    ensures
        s@ == uuid_text(value),
{
    uuid::Uuid::from_u128(value).to_string()
}

/// The message for a command kind that the profile lacks.
pub open spec fn missing_command_message(kind: Seq<char>) -> Seq<char> {
    kind + " komutu profilde yok"@
}

/// The message for an option that the command lacks.
pub open spec fn missing_option_message(kind: Seq<char>, option: Seq<char>) -> Seq<char> {
    kind + "/"@ + option + " profilde yok"@
}

/// The message for a payload whose hexadecimal text does not decode.
pub open spec fn undecodable_message(kind: Seq<char>, option: Seq<char>, e: HexError) -> Seq<char> {
    kind + "/"@ + option + " hex çözülemedi: "@ + hex_error_display(e)
}

/// What `payload` yields: the decoded payload bytes, or the message of the
/// profile error.
pub open spec fn payload_outcome(p: CommandProfile, kind: Seq<char>, option: Seq<char>) -> Result<
    Seq<u8>,
    Seq<char>,
> {
    match lookup(p.commands@, kind) {
        None => Err(missing_command_message(kind)),
        Some(c) => match lookup(c.payloads@, option) {
            None => Err(missing_option_message(kind, option)),
            Some(text) => if text@.len() == 0 {
                Ok(Seq::empty())
            } else {
                match spec_hex_decode(encode_utf8(text@)) {
                    Ok(bytes) => Ok(bytes),
                    Err(e) => Err(undecodable_message(kind, option, e)),
                }
            },
        },
    }
}

/// The first payload of command `kind` that is neither empty nor valid
/// hexadecimal, as its validation message.
pub open spec fn payload_error(kind: Seq<char>, payloads: Seq<(String, String)>) -> Option<Seq<char>>
    decreases payloads.len(),
{
    if payloads.len() == 0 {
        None
    } else if payloads[0].1@.len() != 0 && !is_hex_text(payloads[0].1@) {
        Some(kind + "/"@ + payloads[0].0@ + " geçersiz hex: "@ + payloads[0].1@)
    } else {
        payload_error(kind, payloads.drop_first())
    }
}

/// The first command with code 0 or with an invalid payload, as its
/// validation message.
pub open spec fn command_error(commands: Seq<(String, ProfileCommand)>) -> Option<Seq<char>>
    decreases commands.len(),
{
    if commands.len() == 0 {
        None
    } else if commands[0].1.command == 0 {
        Some(commands[0].0@ + " komut kodu 0 olamaz"@)
    } else {
        match payload_error(commands[0].0@, commands[0].1.payloads@) {
            Some(m) => Some(m),
            None => command_error(commands.drop_first()),
        }
    }
}

/// Why a profile is invalid: a nil control service UUID, else the first
/// command error in order.
pub open spec fn validation_error(p: CommandProfile) -> Option<Seq<char>> {
    if p.control_service_uuid == 0 {
        Some("controlServiceUuid eksik"@)
    } else {
        command_error(p.commands@)
    }
}

/// Whether the profile offers command `kind` with at least one option.
pub open spec fn has_options(p: CommandProfile, kind: Seq<char>) -> bool {
    lookup(p.commands@, kind) matches Some(c) && c.payloads@.len() > 0
}

/// Whether `c` is a hexadecimal digit character.
pub open spec fn is_hex_char(c: char) -> bool {
    ('0' <= c && c <= '9') || ('a' <= c && c <= 'f') || ('A' <= c && c <= 'F')
}

proof fn lemma_all_hex_digits(d: Seq<u8>, k: int)
    requires
        0 <= k,
        forall|i: int| 0 <= i < d.len() ==> hex_value(#[trigger] d[i]) is Some,
    ensures
        first_non_hex(d, k) == -1,
    decreases d.len() - k,
{
    if k < d.len() {
        lemma_all_hex_digits(d, k + 1);
    }
}

/// A text of an even number of hexadecimal digit characters is valid
/// hexadecimal; its bytes are its characters.
pub proof fn lemma_ascii_hex_text(s: Seq<char>)
    requires
        s.len() % 2 == 0,
        forall|i: int| 0 <= i < s.len() ==> is_hex_char(#[trigger] s[i]),
    ensures
        is_hex_text(s),
        encode_utf8(s).len() == s.len(),
        forall|i: int| 0 <= i < s.len() ==> #[trigger] encode_utf8(s)[i] == s[i] as u8,
{
    assert(is_ascii_chars(s));
    is_ascii_chars_encode_utf8(s);
    let d = encode_utf8(s);
    assert forall|i: int| 0 <= i < d.len() implies hex_value(#[trigger] d[i]) is Some by {
        assert(d[i] == s[i] as u8);
        assert(is_hex_char(s[i]));
    }
    lemma_all_hex_digits(d, 0);
}

proof fn lemma_embedded_keys_unique(p: CommandProfile)
    requires
        is_embedded_profile(p),
    ensures
        keys_unique(p),
{
    reveal_strlit("deviceInfo");
    reveal_strlit("anc");
    reveal_strlit("gameMode");
    reveal_strlit("battery");
    reveal_strlit("On");
    reveal_strlit("Off");
    reveal_strlit("Transparency");
    assert("deviceInfo"@.len() == 10 && "anc"@.len() == 3 && "gameMode"@.len() == 8 && "battery"@.len() == 7);
    assert("On"@.len() == 2 && "Off"@.len() == 3 && "Transparency"@.len() == 12);
    let c = p.commands@;
    assert forall|i: int| 0 <= i < c.len() implies distinct_keys((#[trigger] c[i]).1.payloads@) by {
        let ps = c[i].1.payloads@;
        assert forall|a: int, b: int| 0 <= a < b < ps.len() implies #[trigger] ps[a].0@ != #[trigger] ps[b].0@ by {
            assert(ps[a].0@.len() != ps[b].0@.len());
        }
    }
    assert forall|a: int, b: int| 0 <= a < b < c.len() implies #[trigger] c[a].0@ != #[trigger] c[b].0@ by {
        assert(c[a].0@.len() != c[b].0@.len());
    }
}

proof fn lemma_embedded_profile_valid(p: CommandProfile)
    requires
        is_embedded_profile(p),
    ensures
        validation_error(p) is None,
{
    reveal_strlit("001000010001");
    reveal_strlit("011000010001");
    reveal_strlit("021000010001");
    reveal_strlit("01");
    reveal_strlit("00");
    reveal_strlit("");
    let c = p.commands@;
    lemma_ascii_hex_text(c[1].1.payloads@[0].1@);
    lemma_ascii_hex_text(c[1].1.payloads@[1].1@);
    lemma_ascii_hex_text(c[1].1.payloads@[2].1@);
    lemma_ascii_hex_text(c[2].1.payloads@[0].1@);
    lemma_ascii_hex_text(c[2].1.payloads@[1].1@);
    reveal_with_fuel(payload_error, 4);
    reveal_with_fuel(command_error, 5);
    assert(payload_error(c[0].0@, c[0].1.payloads@) is None);
    assert(payload_error(c[1].0@, c[1].1.payloads@) is None);
    assert(payload_error(c[2].0@, c[2].1.payloads@) is None);
    assert(payload_error(c[3].0@, c[3].1.payloads@) is None);
}

proof fn lemma_lookup_found<V>(s: Seq<(String, V)>, key: Seq<char>)
    requires
        lookup(s, key) is Some,
    ensures
        exists|i: int| 0 <= i < s.len() && s[i].0@ == key && #[trigger] s[i].1 == lookup(s, key).unwrap(),
    decreases s.len(),
{
    if s[0].0@ != key {
        lemma_lookup_found(s.drop_first(), key);
        let i = choose|i: int|
            0 <= i < s.drop_first().len() && s.drop_first()[i].0@ == key && #[trigger] s.drop_first()[i].1
                == lookup(s.drop_first(), key).unwrap();
        assert(s[i + 1] == s.drop_first()[i]);
    }
}

proof fn lemma_payload_error_none(kind: Seq<char>, ps: Seq<(String, String)>, j: int)
    requires
        payload_error(kind, ps) is None,
        0 <= j < ps.len(),
    ensures
        ps[j].1@.len() == 0 || is_hex_text(ps[j].1@),
    decreases j,
{
    if j > 0 {
        lemma_payload_error_none(kind, ps.drop_first(), j - 1);
    }
}

proof fn lemma_command_error_none(cmds: Seq<(String, ProfileCommand)>, i: int)
    requires
        command_error(cmds) is None,
        0 <= i < cmds.len(),
    ensures
        cmds[i].1.command != 0,
        payload_error(cmds[i].0@, cmds[i].1.payloads@) is None,
    decreases i,
{
    if i > 0 {
        lemma_command_error_none(cmds.drop_first(), i - 1);
    }
}

proof fn lemma_payload_error_some(kind: Seq<char>, ps: Seq<(String, String)>)
    requires
        forall|j: int| 0 <= j < ps.len() ==> (#[trigger] ps[j]).1@.len() == 0 || is_hex_text(ps[j].1@),
    ensures
        payload_error(kind, ps) is None,
    decreases ps.len(),
{
    if ps.len() > 0 {
        assert(ps[0].1@.len() == 0 || is_hex_text(ps[0].1@));
        let rest = ps.drop_first();
        assert forall|j: int| 0 <= j < rest.len() implies (#[trigger] rest[j]).1@.len() == 0 || is_hex_text(
            rest[j].1@,
        ) by {
            assert(rest[j] == ps[j + 1]);
        }
        lemma_payload_error_some(kind, rest);
    }
}

proof fn lemma_command_error_some(cmds: Seq<(String, ProfileCommand)>)
    requires
        forall|i: int| 0 <= i < cmds.len() ==> (#[trigger] cmds[i]).1.command != 0,
        forall|i: int, j: int|
            0 <= i < cmds.len() && 0 <= j < cmds[i].1.payloads@.len() ==> (#[trigger] cmds[i].1.payloads@[j]).1@.len()
                == 0 || is_hex_text(cmds[i].1.payloads@[j].1@),
    ensures
        command_error(cmds) is None,
    decreases cmds.len(),
{
    if cmds.len() > 0 {
        let ps = cmds[0].1.payloads@;
        assert(cmds[0].1.command != 0);
        assert forall|j: int| 0 <= j < ps.len() implies (#[trigger] ps[j]).1@.len() == 0 || is_hex_text(ps[j].1@) by {
            assert(ps[j] == cmds[0].1.payloads@[j]);
        }
        lemma_payload_error_some(cmds[0].0@, ps);
        let rest = cmds.drop_first();
        assert forall|i: int| 0 <= i < rest.len() implies (#[trigger] rest[i]).1.command != 0 by {
            assert(rest[i] == cmds[i + 1]);
        }
        assert forall|i: int, j: int|
            0 <= i < rest.len() && 0 <= j < rest[i].1.payloads@.len() implies (#[trigger] rest[i].1.payloads@[j]).1@.len()
            == 0 || is_hex_text(rest[i].1.payloads@[j].1@) by {
            assert(rest[i] == cmds[i + 1]);
            assert(cmds[i + 1].1.payloads@[j] == rest[i].1.payloads@[j]);
        }
        lemma_command_error_some(rest);
    }
}

/// A profile is accepted exactly when its control service UUID is not nil,
/// no command has code 0, and every payload text of every command is empty
/// or valid hexadecimal; a nil UUID is reported before anything else.
pub proof fn lemma_validation_accepts(p: CommandProfile)
    ensures
        validation_error(p) is None <==> {
            &&& p.control_service_uuid != 0
            &&& forall|i: int| 0 <= i < p.commands@.len() ==> (#[trigger] p.commands@[i]).1.command != 0
            &&& forall|i: int, j: int|
                0 <= i < p.commands@.len() && 0 <= j < p.commands@[i].1.payloads@.len() ==> (
                #[trigger] p.commands@[i].1.payloads@[j]).1@.len() == 0 || is_hex_text(
                    p.commands@[i].1.payloads@[j].1@,
                )
        },
        p.control_service_uuid == 0 ==> validation_error(p) == Some("controlServiceUuid eksik"@),
{
    let c = p.commands@;
    if validation_error(p) is None {
        assert forall|i: int| 0 <= i < c.len() implies (#[trigger] c[i]).1.command != 0 by {
            lemma_command_error_none(c, i);
        }
        assert forall|i: int, j: int|
            0 <= i < c.len() && 0 <= j < c[i].1.payloads@.len() implies (#[trigger] c[i].1.payloads@[j]).1@.len()
            == 0 || is_hex_text(c[i].1.payloads@[j].1@) by {
            lemma_command_error_none(c, i);
            lemma_payload_error_none(c[i].0@, c[i].1.payloads@, j);
        }
    } else if p.control_service_uuid != 0 {
        if (forall|i: int| 0 <= i < c.len() ==> (#[trigger] c[i]).1.command != 0) && (forall|i: int, j: int|
            0 <= i < c.len() && 0 <= j < c[i].1.payloads@.len() ==> (#[trigger] c[i].1.payloads@[j]).1@.len() == 0
                || is_hex_text(c[i].1.payloads@[j].1@)) {
            lemma_command_error_some(c);
        }
    }
}

/// Every option of a command of a validated profile yields its payload:
/// once `validate` accepts a profile, `payload` fails only for a command or
/// option that the profile does not list.
pub proof fn lemma_validated_payloads_decode(p: CommandProfile, kind: Seq<char>, option: Seq<char>)
    requires
        validation_error(p) is None,
    ensures
        payload_outcome(p, kind, option) is Ok <==> (lookup(p.commands@, kind) matches Some(c) && lookup(
            c.payloads@,
            option,
        ) is Some),
{
    if let Some(c) = lookup(p.commands@, kind) {
        lemma_lookup_found(p.commands@, kind);
        let i = choose|i: int|
            0 <= i < p.commands@.len() && p.commands@[i].0@ == kind && #[trigger] p.commands@[i].1 == lookup(
                p.commands@,
                kind,
            ).unwrap();
        lemma_command_error_none(p.commands@, i);
        if let Some(t) = lookup(c.payloads@, option) {
            lemma_lookup_found(c.payloads@, option);
            let j = choose|j: int|
                0 <= j < c.payloads@.len() && c.payloads@[j].0@ == option && #[trigger] c.payloads@[j].1 == lookup(
                    c.payloads@,
                    option,
                ).unwrap();
            lemma_payload_error_none(p.commands@[i].0@, c.payloads@, j);
        }
    }
}

/// A name-value entry built from two texts.
fn text_entry(name: &str, value: &str) -> (r: (String, String))
    ensures
        r.0@ == name@,
        r.1@ == value@,
{
    (String::from_str(name), String::from_str(value))
}

/// Whether `p` holds exactly the embedded Liberty 5 profile.
pub open spec fn is_embedded_profile(p: CommandProfile) -> bool {
    let c = p.commands@;
    &&& p.device_name_pattern@ == "soundcore Liberty 5"@
    &&& p.control_service_uuid == 0x0cf12d31_fac3_4553_bd80_d6832e7b3957u128
    &&& p.eq_presets@.len() == 0
    &&& c.len() == 4
    &&& c[0].0@ == "deviceInfo"@ && c[0].1.command == 0x0101
    &&& c[0].1.payloads@.len() == 1
    &&& c[0].1.payloads@[0].0@ == "request"@ && c[0].1.payloads@[0].1@ == ""@
    &&& c[1].0@ == "anc"@ && c[1].1.command == 0x8106
    &&& c[1].1.payloads@.len() == 3
    &&& c[1].1.payloads@[0].0@ == "On"@ && c[1].1.payloads@[0].1@ == "001000010001"@
    &&& c[1].1.payloads@[1].0@ == "Transparency"@ && c[1].1.payloads@[1].1@ == "011000010001"@
    &&& c[1].1.payloads@[2].0@ == "Off"@ && c[1].1.payloads@[2].1@ == "021000010001"@
    &&& c[2].0@ == "gameMode"@ && c[2].1.command == 0x8510
    &&& c[2].1.payloads@.len() == 2
    &&& c[2].1.payloads@[0].0@ == "On"@ && c[2].1.payloads@[0].1@ == "01"@
    &&& c[2].1.payloads@[1].0@ == "Off"@ && c[2].1.payloads@[1].1@ == "00"@
    &&& c[3].0@ == "battery"@ && c[3].1.command == 0x0301
    &&& c[3].1.payloads@.len() == 1
    &&& c[3].1.payloads@[0].0@ == "request"@ && c[3].1.payloads@[0].1@ == ""@
}

impl ProfileCommand {
    /// The hexadecimal payload text of option `option`.
    pub fn payload_hex(&self, option: &str) -> (r: Option<&String>)
        ensures
            match r {
                Some(text) => lookup(self.payloads@, option@) == Some(*text),
                None => lookup(self.payloads@, option@) is None,
            },
    {
        match find_entry(&self.payloads, option) {
            Some(i) => Some(&self.payloads[i].1),
            None => None,
        }
    }
}

impl CommandProfile {
    /// The embedded Liberty 5 profile, checked with `validate`.
    pub fn embedded() -> (r: Result<CommandProfile, BleError>)
        ensures
            r matches Ok(p) && is_embedded_profile(p) && keys_unique(p),
    {
        let mut device_info: Vec<(String, String)> = Vec::new();
        device_info.push(text_entry("request", ""));
        let mut anc: Vec<(String, String)> = Vec::new();
        anc.push(text_entry("On", "001000010001"));
        anc.push(text_entry("Transparency", "011000010001"));
        anc.push(text_entry("Off", "021000010001"));
        let mut game_mode: Vec<(String, String)> = Vec::new();
        game_mode.push(text_entry("On", "01"));
        game_mode.push(text_entry("Off", "00"));
        let mut battery: Vec<(String, String)> = Vec::new();
        battery.push(text_entry("request", ""));
        let mut commands: Vec<(String, ProfileCommand)> = Vec::new();
        commands.push((String::from_str("deviceInfo"), ProfileCommand { command: 0x0101, payloads: device_info }));
        commands.push((String::from_str("anc"), ProfileCommand { command: 0x8106, payloads: anc }));
        commands.push((String::from_str("gameMode"), ProfileCommand { command: 0x8510, payloads: game_mode }));
        commands.push((String::from_str("battery"), ProfileCommand { command: 0x0301, payloads: battery }));
        let profile = CommandProfile {
            device_name_pattern: String::from_str("soundcore Liberty 5"),
            control_service_uuid: 0x0cf12d31_fac3_4553_bd80_d6832e7b3957u128,
            eq_presets: Vec::new(),
            commands,
        };
        assert(is_embedded_profile(profile));
        proof {
            lemma_embedded_profile_valid(profile);
            lemma_embedded_keys_unique(profile);
        }
        match profile.validate() {
            Ok(()) => Ok(profile),
            Err(e) => Err(e),
        }
    }

    /// Checks the profile: the control service UUID is not nil, no command
    /// code is 0, and every non-empty payload is valid hexadecimal. Reports
    /// the first problem, in entry order.
    pub fn validate(&self) -> (r: Result<(), BleError>)
        ensures
            match validation_error(*self) {
                None => r is Ok,
                Some(m) => r matches Err(BleError::Profile(msg)) && msg@ == m,
            },
    {
        if uuid_is_nil(self.control_service_uuid) {
            return Err(BleError::Profile(String::from_str("controlServiceUuid eksik")));
        }
        let mut i: usize = 0;
        assert(self.commands@.skip(0) =~= self.commands@);
        while i < self.commands.len()
            invariant
                i <= self.commands@.len(),
                self.control_service_uuid != 0,
                command_error(self.commands@) == command_error(self.commands@.skip(i as int)),
            decreases self.commands@.len() - i,
        {
            let ghost rest = self.commands@.skip(i as int);
            assert(rest.drop_first() =~= self.commands@.skip(i + 1));
            let kind = &self.commands[i].0;
            let command = &self.commands[i].1;
            if command.command == 0 {
                return Err(BleError::Profile(String::from_str(kind.as_str()).concat(" komut kodu 0 olamaz")));
            }
            let mut j: usize = 0;
            assert(command.payloads@.skip(0) =~= command.payloads@);
            assert(rest[0] == self.commands@[i as int]);
            while j < command.payloads.len()
                invariant
                    i < self.commands@.len(),
                    self.control_service_uuid != 0,
                    rest == self.commands@.skip(i as int),
                    rest[0] == self.commands@[i as int],
                    command_error(self.commands@) == command_error(rest),
                    *kind == self.commands@[i as int].0,
                    *command == self.commands@[i as int].1,
                    command.command != 0,
                    j <= command.payloads@.len(),
                    payload_error(kind@, command.payloads@) == payload_error(
                        kind@,
                        command.payloads@.skip(j as int),
                    ),
                decreases command.payloads@.len() - j,
            {
                let ghost prest = command.payloads@.skip(j as int);
                assert(prest.drop_first() =~= command.payloads@.skip(j + 1));
                assert(prest[0] == command.payloads@[j as int]);
                let option = &command.payloads[j].0;
                let text = &command.payloads[j].1;
                if !text.as_str().is_empty() && hex_decode(text.as_str().as_bytes()).is_err() {
                    let message = String::from_str(kind.as_str()).concat("/").concat(option.as_str()).concat(
                        " geçersiz hex: ",
                    ).concat(text.as_str());
                    return Err(BleError::Profile(message));
                }
                j = j + 1;
            }
            assert(command.payloads@.skip(j as int).len() == 0);
            i = i + 1;
        }
        assert(self.commands@.skip(i as int).len() == 0);
        Ok(())
    }

    /// The command of kind `kind`, if the profile has it.
    pub fn command(&self, kind: &str) -> (r: Option<&ProfileCommand>)
        ensures
            match r {
                Some(c) => lookup(self.commands@, kind@) == Some(*c),
                None => lookup(self.commands@, kind@) is None,
            },
    {
        match find_entry(&self.commands, kind) {
            Some(i) => Some(&self.commands[i].1),
            None => None,
        }
    }

    /// The payload bytes of option `option` of command `kind`.
    pub fn payload(&self, kind: &str, option: &str) -> (r: Result<Vec<u8>, BleError>)
        ensures
            match payload_outcome(*self, kind@, option@) {
                Ok(bytes) => r matches Ok(v) && v@ == bytes,
                Err(m) => r matches Err(BleError::Profile(msg)) && msg@ == m,
            },
    {
        let command = match self.command(kind) {
            Some(c) => c,
            None => {
                return Err(BleError::Profile(String::from_str(kind).concat(" komutu profilde yok")));
            },
        };
        let text = match command.payload_hex(option) {
            Some(t) => t,
            None => {
                return Err(
                    BleError::Profile(String::from_str(kind).concat("/").concat(option).concat(" profilde yok")),
                );
            },
        };
        if text.as_str().is_empty() {
            return Ok(Vec::new());
        }
        match hex_decode(text.as_str().as_bytes()) {
            Ok(bytes) => Ok(bytes),
            Err(e) => {
                let detail = hex_error_text(e);
                Err(
                    BleError::Profile(
                        String::from_str(kind).concat("/").concat(option).concat(" hex çözülemedi: ").concat(
                            detail.as_str(),
                        ),
                    ),
                )
            },
        }
    }

    /// Stores `command` under `kind`, replacing an earlier command of that
    /// kind; the other kinds keep their commands.
    pub fn insert_command(&mut self, kind: String, command: ProfileCommand)
        ensures
            lookup(final(self).commands@, kind@) == Some(command),
            forall|k: Seq<char>| k != kind@ ==> #[trigger] lookup(final(self).commands@, k) == lookup(old(self).commands@, k),
            final(self).device_name_pattern == old(self).device_name_pattern,
            final(self).control_service_uuid == old(self).control_service_uuid,
            final(self).eq_presets == old(self).eq_presets,
            keys_unique(*old(self)) && distinct_keys(command.payloads@) ==> keys_unique(*final(self)),
    {
        insert_entry(&mut self.commands, kind, command);
    }

    /// The text form of the control service UUID.
    pub fn control_service_uuid_text(&self) -> (s: String)
        ensures
            s@ == uuid_text(self.control_service_uuid),
    {
        uuid_to_string(self.control_service_uuid)
    }

    /// Which controls the profile offers: ANC and Game Mode when their
    /// commands have options, EQ presets when presets are listed and the
    /// `eqPreset` command has options.
    pub fn capabilities(&self) -> (r: FeatureAvailability)
        ensures
            r.anc == has_options(*self, "anc"@),
            r.game_mode == has_options(*self, "gameMode"@),
            r.eq_preset == (self.eq_presets@.len() > 0 && has_options(*self, "eqPreset"@)),
    {
        let anc = self.has_options("anc");
        let game_mode = self.has_options("gameMode");
        let eq_preset = self.eq_presets.len() > 0 && self.has_options("eqPreset");
        FeatureAvailability { anc, game_mode, eq_preset }
    }

    fn has_options(&self, kind: &str) -> (r: bool)
        ensures
            r == has_options(*self, kind@),
    {
        match self.command(kind) {
            Some(c) => c.payloads.len() > 0,
            None => false,
        }
    }

    /// The EQ presets as (id, label) pairs.
    pub fn eq_preset_list(&self) -> (r: Vec<(String, String)>)
        ensures
            r@.len() == self.eq_presets@.len(),
            forall|i: int|
                0 <= i < r@.len() ==> (#[trigger] r@[i]).0@ == self.eq_presets@[i].0@ && r@[i].1@
                    == self.eq_presets@[i].1@,
    {
        let mut r: Vec<(String, String)> = Vec::new();
        let mut i: usize = 0;
        while i < self.eq_presets.len()
            invariant
                i <= self.eq_presets@.len(),
                r@.len() == i,
                forall|k: int|
                    0 <= k < i ==> (#[trigger] r@[k]).0@ == self.eq_presets@[k].0@ && r@[k].1@
                        == self.eq_presets@[k].1@,
            decreases self.eq_presets@.len() - i,
        {
            let id = self.eq_presets[i].0.clone();
            let label = self.eq_presets[i].1.clone();
            r.push((id, label));
            i = i + 1;
        }
        r
    }
}

} // verus!
