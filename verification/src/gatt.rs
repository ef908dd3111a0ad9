use vstd::prelude::*;
use vstd::string::*;

use crate::error::BleError;
use crate::hexcode::hex_encode;
use crate::hexcode::spec_hex_text;

verus! {

/// Characteristic property bit: readable.
pub const PROP_READ: u8 = 0x02;
/// Characteristic property bit: writable without response.
pub const PROP_WRITE_WITHOUT_RESPONSE: u8 = 0x04;
/// Characteristic property bit: writable.
pub const PROP_WRITE: u8 = 0x08;
/// Characteristic property bit: notifies.
pub const PROP_NOTIFY: u8 = 0x10;
/// Characteristic property bit: indicates.
pub const PROP_INDICATE: u8 = 0x20;

/// Whether the property bits `flags` hold all bits of `bit`.
pub open spec fn has_flag(flags: u8, bit: u8) -> bool {
    flags & bit == bit
}

/// The names of the properties that `flags` holds, in the order read,
/// write, writeWithoutResponse, notify, indicate.
pub open spec fn spec_property_names(flags: u8) -> Seq<Seq<char>> {
    let s0 = Seq::<Seq<char>>::empty();
    let s1 = if has_flag(flags, PROP_READ) { s0.push("read"@) } else { s0 };
    let s2 = if has_flag(flags, PROP_WRITE) { s1.push("write"@) } else { s1 };
    let s3 = if has_flag(flags, PROP_WRITE_WITHOUT_RESPONSE) { s2.push("writeWithoutResponse"@) } else { s2 };
    let s4 = if has_flag(flags, PROP_NOTIFY) { s3.push("notify"@) } else { s3 };
    if has_flag(flags, PROP_INDICATE) { s4.push("indicate"@) } else { s4 }
}

/// The texts of a list of names.
pub open spec fn names_view(names: Seq<&'static str>) -> Seq<Seq<char>> {
    names.map_values(|s: &'static str| s@)
}

/// The names of the properties that the property bits `flags` hold.
pub fn property_names(flags: u8) -> (names: Vec<&'static str>)
    ensures
        names_view(names@) == spec_property_names(flags),
        names_view(names@).contains("read"@) <==> flags & 0x02 == 0x02,
        names_view(names@).contains("write"@) <==> flags & 0x08 == 0x08,
        names_view(names@).contains("writeWithoutResponse"@) <==> flags & 0x04 == 0x04,
        names_view(names@).contains("notify"@) <==> flags & 0x10 == 0x10,
        names_view(names@).contains("indicate"@) <==> flags & 0x20 == 0x20,
        forall|i: int, j: int|
            0 <= i < j < names@.len() ==> property_rank((#[trigger] names@[i])@) < property_rank(
                (#[trigger] names@[j])@,
            ),
{
    proof {
        lemma_property_names_follow_bits(flags);
        lemma_property_names_in_order(flags);
    }
    let mut names: Vec<&'static str> = Vec::new();
    let ghost s0 = Seq::<Seq<char>>::empty();
    assert(names_view(names@) =~= s0);
    if flags & PROP_READ == PROP_READ {
        names.push("read");
    }
    let ghost s1 = if has_flag(flags, PROP_READ) { s0.push("read"@) } else { s0 };
    assert(names_view(names@) =~= s1);
    if flags & PROP_WRITE == PROP_WRITE {
        names.push("write");
    }
    let ghost s2 = if has_flag(flags, PROP_WRITE) { s1.push("write"@) } else { s1 };
    assert(names_view(names@) =~= s2);
    if flags & PROP_WRITE_WITHOUT_RESPONSE == PROP_WRITE_WITHOUT_RESPONSE {
        names.push("writeWithoutResponse");
    }
    let ghost s3 = if has_flag(flags, PROP_WRITE_WITHOUT_RESPONSE) { s2.push("writeWithoutResponse"@) } else { s2 };
    assert(names_view(names@) =~= s3);
    if flags & PROP_NOTIFY == PROP_NOTIFY {
        names.push("notify");
    }
    let ghost s4 = if has_flag(flags, PROP_NOTIFY) { s3.push("notify"@) } else { s3 };
    assert(names_view(names@) =~= s4);
    if flags & PROP_INDICATE == PROP_INDICATE {
        names.push("indicate");
    }
    assert(names_view(names@) =~= spec_property_names(flags));
    assert forall|i: int, j: int| 0 <= i < j < names@.len() implies property_rank((#[trigger] names@[i])@)
        < property_rank((#[trigger] names@[j])@) by {
        assert(names_view(names@)[i] == names@[i]@);
        assert(names_view(names@)[j] == names@[j]@);
    }
    names
}

proof fn lemma_push_contains(s: Seq<Seq<char>>, a: Seq<char>, b: Seq<char>)
    ensures
        s.push(a).contains(b) <==> (s.contains(b) || a == b),
{
    if a == b {
        assert(s.push(a)[s.len() as int] == a);
    }
    if s.contains(b) {
        let i = choose|i: int| 0 <= i < s.len() && s[i] == b;
        assert(s.push(a)[i] == s[i]);
    }
    if s.push(a).contains(b) {
        let i = choose|i: int| 0 <= i < s.push(a).len() && s.push(a)[i] == b;
        if i < s.len() {
            assert(s[i] == b);
        }
    }
}

/// Each property name is listed exactly when its bit is set, whatever the
/// other bits: "read" for 0x02, "write" for 0x08, "writeWithoutResponse"
/// for 0x04, "notify" for 0x10 and "indicate" for 0x20; no name is listed
/// twice and nothing else is listed.
pub proof fn lemma_property_names_follow_bits(flags: u8)
    ensures
        ({
            let names = spec_property_names(flags);
            &&& names.contains("read"@) <==> flags & 0x02 == 0x02
            &&& names.contains("write"@) <==> flags & 0x08 == 0x08
            &&& names.contains("writeWithoutResponse"@) <==> flags & 0x04 == 0x04
            &&& names.contains("notify"@) <==> flags & 0x10 == 0x10
            &&& names.contains("indicate"@) <==> flags & 0x20 == 0x20
            &&& forall|i: int| 0 <= i < names.len() ==> {
                let n = #[trigger] names[i];
                n == "read"@ || n == "write"@ || n == "writeWithoutResponse"@ || n == "notify"@ || n == "indicate"@
            }
            &&& forall|i: int, j: int| 0 <= i < j < names.len() ==> #[trigger] names[i] != #[trigger] names[j]
        }),
{
    reveal_strlit("read");
    reveal_strlit("write");
    reveal_strlit("writeWithoutResponse");
    reveal_strlit("notify");
    reveal_strlit("indicate");
    let r: Seq<char> = "read"@;
    let w: Seq<char> = "write"@;
    let x: Seq<char> = "writeWithoutResponse"@;
    let n: Seq<char> = "notify"@;
    let d: Seq<char> = "indicate"@;
    assert(r.len() == 4 && w.len() == 5 && x.len() == 20 && n.len() == 6 && d.len() == 8);
    assert(n != d && r != w && r != x && r != n && r != d && w != x && w != n && w != d && x != n && x != d);
    let s0 = Seq::<Seq<char>>::empty();
    let s1 = if has_flag(flags, PROP_READ) { s0.push(r) } else { s0 };
    let s2 = if has_flag(flags, PROP_WRITE) { s1.push(w) } else { s1 };
    let s3 = if has_flag(flags, PROP_WRITE_WITHOUT_RESPONSE) { s2.push(x) } else { s2 };
    let s4 = if has_flag(flags, PROP_NOTIFY) { s3.push(n) } else { s3 };
    let s5 = if has_flag(flags, PROP_INDICATE) { s4.push(d) } else { s4 };
    assert(spec_property_names(flags) == s5);
    assert(!s0.contains(r) && !s0.contains(w) && !s0.contains(x) && !s0.contains(n) && !s0.contains(d));
    lemma_push_contains(s0, r, r); lemma_push_contains(s0, r, w); lemma_push_contains(s0, r, x);
    lemma_push_contains(s0, r, n); lemma_push_contains(s0, r, d);
    lemma_push_contains(s1, w, r); lemma_push_contains(s1, w, w); lemma_push_contains(s1, w, x);
    lemma_push_contains(s1, w, n); lemma_push_contains(s1, w, d);
    lemma_push_contains(s2, x, r); lemma_push_contains(s2, x, w); lemma_push_contains(s2, x, x);
    lemma_push_contains(s2, x, n); lemma_push_contains(s2, x, d);
    lemma_push_contains(s3, n, r); lemma_push_contains(s3, n, w); lemma_push_contains(s3, n, x);
    lemma_push_contains(s3, n, n); lemma_push_contains(s3, n, d);
    lemma_push_contains(s4, d, r); lemma_push_contains(s4, d, w); lemma_push_contains(s4, d, x);
    lemma_push_contains(s4, d, n); lemma_push_contains(s4, d, d);
    assert(s1.contains(r) <==> has_flag(flags, PROP_READ));
    assert(!s1.contains(w) && !s1.contains(x) && !s1.contains(n) && !s1.contains(d));
    assert(s2.contains(r) <==> s1.contains(r));
    assert(s2.contains(w) <==> has_flag(flags, PROP_WRITE));
    assert(!s2.contains(x) && !s2.contains(n) && !s2.contains(d));
    assert(s3.contains(r) <==> s1.contains(r));
    assert(s3.contains(w) <==> s2.contains(w));
    assert(s3.contains(x) <==> has_flag(flags, PROP_WRITE_WITHOUT_RESPONSE));
    assert(!s3.contains(n) && !s3.contains(d));
    assert(s4.contains(r) <==> s1.contains(r));
    assert(s4.contains(w) <==> s2.contains(w));
    assert(s4.contains(x) <==> s3.contains(x));
    assert(s4.contains(n) <==> has_flag(flags, PROP_NOTIFY));
    assert(!s4.contains(d));
    assert(s5.contains(r) <==> s1.contains(r));
    assert(s5.contains(w) <==> s2.contains(w));
    assert(s5.contains(x) <==> s3.contains(x));
    assert(s5.contains(n) <==> s4.contains(n));
    assert(s5.contains(d) <==> has_flag(flags, PROP_INDICATE));
}

/// The place of a property name in the order of listing: read, write,
/// writeWithoutResponse, notify, indicate.
pub open spec fn property_rank(name: Seq<char>) -> int {
    if name == "read"@ {
        0
    } else if name == "write"@ {
        1
    } else if name == "writeWithoutResponse"@ {
        2
    } else if name == "notify"@ {
        3
    } else {
        4
    }
}

proof fn lemma_push_ranked(s: Seq<Seq<char>>, name: Seq<char>, k: int)
    requires
        forall|i: int, j: int| 0 <= i < j < s.len() ==> property_rank(#[trigger] s[i]) < property_rank(#[trigger] s[j]),
        forall|i: int| 0 <= i < s.len() ==> property_rank(#[trigger] s[i]) < k,
        property_rank(name) == k,
    ensures
        ({
            let t = s.push(name);
            &&& forall|i: int, j: int|
                0 <= i < j < t.len() ==> property_rank(#[trigger] t[i]) < property_rank(#[trigger] t[j])
            &&& forall|i: int| 0 <= i < t.len() ==> property_rank(#[trigger] t[i]) <= k
        }),
{
    let t = s.push(name);
    assert forall|i: int, j: int| 0 <= i < j < t.len() implies property_rank(#[trigger] t[i]) < property_rank(
        #[trigger] t[j],
    ) by {
        assert(t[i] == s[i]);
        if j < s.len() {
            assert(t[j] == s[j]);
        }
    }
    assert forall|i: int| 0 <= i < t.len() implies property_rank(#[trigger] t[i]) <= k by {
        if i < s.len() {
            assert(t[i] == s[i]);
        }
    }
}

/// The property names are listed in the order read, write,
/// writeWithoutResponse, notify, indicate, whichever of them are present.
pub proof fn lemma_property_names_in_order(flags: u8)
    ensures
        forall|i: int, j: int|
            0 <= i < j < spec_property_names(flags).len() ==> property_rank(
                #[trigger] spec_property_names(flags)[i],
            ) < property_rank(#[trigger] spec_property_names(flags)[j]),
{
    reveal_strlit("read");
    reveal_strlit("write");
    reveal_strlit("writeWithoutResponse");
    reveal_strlit("notify");
    reveal_strlit("indicate");
    let r: Seq<char> = "read"@;
    let w: Seq<char> = "write"@;
    let x: Seq<char> = "writeWithoutResponse"@;
    let n: Seq<char> = "notify"@;
    let d: Seq<char> = "indicate"@;
    assert(r.len() == 4 && w.len() == 5 && x.len() == 20 && n.len() == 6 && d.len() == 8);
    assert(property_rank(r) == 0 && property_rank(w) == 1 && property_rank(x) == 2 && property_rank(n) == 3
        && property_rank(d) == 4);
    let s0 = Seq::<Seq<char>>::empty();
    let s1 = if has_flag(flags, PROP_READ) { s0.push(r) } else { s0 };
    let s2 = if has_flag(flags, PROP_WRITE) { s1.push(w) } else { s1 };
    let s3 = if has_flag(flags, PROP_WRITE_WITHOUT_RESPONSE) { s2.push(x) } else { s2 };
    let s4 = if has_flag(flags, PROP_NOTIFY) { s3.push(n) } else { s3 };
    let s5 = if has_flag(flags, PROP_INDICATE) { s4.push(d) } else { s4 };
    assert(spec_property_names(flags) == s5);
    if has_flag(flags, PROP_READ) {
        lemma_push_ranked(s0, r, 0);
    }
    if has_flag(flags, PROP_WRITE) {
        lemma_push_ranked(s1, w, 1);
    }
    if has_flag(flags, PROP_WRITE_WITHOUT_RESPONSE) {
        lemma_push_ranked(s2, x, 2);
    }
    if has_flag(flags, PROP_NOTIFY) {
        lemma_push_ranked(s3, n, 3);
    }
    if has_flag(flags, PROP_INDICATE) {
        lemma_push_ranked(s4, d, 4);
    }
}

/// Whether a characteristic with property bits `flags` can be read.
pub fn is_readable(flags: u8) -> (r: bool)
    ensures
        r == has_flag(flags, PROP_READ),
{
    flags & PROP_READ == PROP_READ
}

/// Whether a characteristic with property bits `flags` can notify or
/// indicate, which a subscription needs.
pub fn supports_notifications(flags: u8) -> (r: bool)
    ensures
        r == (flags & (PROP_NOTIFY | PROP_INDICATE) != 0),
{
    flags & (PROP_NOTIFY | PROP_INDICATE) != 0
}

/// What was learned of one characteristic while enumerating a GATT server.
#[derive(Clone, Debug)]
pub struct CharacteristicSnapshot {
    pub service_uuid: u128,
    pub characteristic_uuid: u128,
    pub properties: Vec<&'static str>,
    pub value_hex: Option<String>,
    pub error: Option<String>,
}

/// The snapshot of a characteristic from its identity, its property bits
/// and the outcome of reading it (`None` when it was not read): the value
/// as lower-case hexadecimal text, or the read error.
pub fn characteristic_snapshot(
    service_uuid: u128,
    characteristic_uuid: u128,
    flags: u8,
    read: Option<Result<Vec<u8>, String>>,
) -> (r: CharacteristicSnapshot)
    ensures
        r.service_uuid == service_uuid,
        r.characteristic_uuid == characteristic_uuid,
        names_view(r.properties@) == spec_property_names(flags),
        match read {
            None => r.value_hex is None && r.error is None,
            Some(Ok(value)) => r.value_hex matches Some(h) && h@ == spec_hex_text(value@, false) && r.error is None,
            Some(Err(e)) => r.value_hex is None && r.error == Some(e),
        },
{
    let properties = property_names(flags);
    let (value_hex, error) = match read {
        None => (None, None),
        Some(Ok(value)) => (Some(hex_encode(value.as_slice())), None),
        Some(Err(e)) => (None, Some(e)),
    };
    CharacteristicSnapshot { service_uuid, characteristic_uuid, properties, value_hex, error }
}

/// The position of the first characteristic of service `service_uuid` with
/// UUID `characteristic_uuid` among `(service, characteristic)` pairs;
/// `NotFound` if there is none.
pub fn find_characteristic(keys: &Vec<(u128, u128)>, service_uuid: u128, characteristic_uuid: u128) -> (r: Result<
    usize,
    BleError,
>)
    ensures
        match r {
            Ok(i) => i < keys@.len() && keys@[i as int] == (service_uuid, characteristic_uuid) && forall|j: int|
                0 <= j < i ==> keys@[j] != (service_uuid, characteristic_uuid),
            Err(e) => e == BleError::NotFound && forall|j: int|
                0 <= j < keys@.len() ==> keys@[j] != (service_uuid, characteristic_uuid),
        },
{
    let mut i: usize = 0;
    while i < keys.len()
        invariant
            i <= keys@.len(),
            forall|j: int| 0 <= j < i ==> keys@[j] != (service_uuid, characteristic_uuid),
        decreases keys@.len() - i,
    {
        if keys[i].0 == service_uuid && keys[i].1 == characteristic_uuid {
            return Ok(i);
        }
        i = i + 1;
    }
    Err(BleError::NotFound)
}

} // verus!
