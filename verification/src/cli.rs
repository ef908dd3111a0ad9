use vstd::prelude::*;
use vstd::string::*;
use vstd::utf8::*;

use crate::finder::LibertyDeviceInfo;
use crate::hexcode::hex_decode;
use crate::hexcode::hex_error_display;
use crate::hexcode::hex_error_text;
use crate::hexcode::push_hex_pair;
use crate::hexcode::hex_digit_char;
use crate::hexcode::hex_digit_str;
use crate::hexcode::is_lower_hex_digit;
use crate::hexcode::lemma_hex_text_decodes;
use crate::hexcode::HexError;
use crate::hexcode::spec_hex_decode;
use crate::hexcode::spec_hex_text;
use crate::text::ascii_lower;
use crate::text::eq_ignore_ascii_case;
use crate::text::trim_text;
use crate::text::trimmed;

verus! {

/// The decimal digits of `n`, without leading zeros.
pub open spec fn decimal_text(n: nat) -> Seq<char>
    decreases n,
{
    if n < 10 {
        seq![((48 + n) as u32) as char]
    } else {
        decimal_text(n / 10) + seq![((48 + n % 10) as u32) as char]
    }
}

/// Appends the decimal digits of `n` to `out`.
fn push_decimal(out: &mut String, n: usize)
    ensures
        final(out)@ == old(out)@ + decimal_text(n as nat),
    decreases n,
{
    if n >= 10 {
        push_decimal(out, n / 10);
    }
    let digit = (n % 10) as u8;
    out.append(hex_digit_str(digit, false));
    assert(old(out)@ + decimal_text(n as nat) =~= old(out)@ + (if n >= 10 {
        decimal_text((n / 10) as nat)
    } else {
        Seq::empty()
    }) + seq![hex_digit_char(digit, false)]);
}

/// The decimal text of `n`, as `Display` for integers prints it.
fn usize_text(n: usize) -> (s: String)
    ensures
        s@ == decimal_text(n as nat),
{
    let mut s = String::new();
    push_decimal(&mut s, n);
    s
}

/// Lower-case hexadecimal text of `bytes`, two digits per byte; decoding
/// it gives the bytes back.
pub fn hex(bytes: &[u8]) -> (r: String)
    ensures
        r@ == spec_hex_text(bytes@, false),
        r@.len() == 2 * bytes@.len(),
        forall|i: int| 0 <= i < r@.len() ==> is_lower_hex_digit(#[trigger] r@[i]),
        spec_hex_decode(encode_utf8(r@)) == Ok::<Seq<u8>, HexError>(bytes@),
{
    proof {
        lemma_hex_text_decodes(bytes@);
    }
    let mut r = String::new();
    let mut i: usize = 0;
    while i < bytes.len()
        invariant
            i <= bytes@.len(),
            r@ == spec_hex_text(bytes@.take(i as int), false),
        decreases bytes@.len() - i,
    {
        assert(bytes@.take(i + 1).drop_last() =~= bytes@.take(i as int));
        push_hex_pair(&mut r, bytes[i], false);
        i = i + 1;
    }
    assert(bytes@.take(bytes@.len() as int) =~= bytes@);
    r
}

/// What `parse_u16_hex` yields for a text: the little-endian value of two
/// hexadecimal bytes, or the message of why the text is refused.
pub open spec fn u16_hex_outcome(value: Seq<char>) -> Result<u16, Seq<char>> {
    match spec_hex_decode(encode_utf8(value)) {
        Err(e) => Err("geçersiz hex: "@ + hex_error_display(e)),
        Ok(bytes) => if bytes.len() == 2 {
            Ok((bytes[0] + 256 * bytes[1]) as u16)
        } else {
            Err("komut kodu 2 bayt olmalı, "@ + decimal_text(bytes.len()) + " verildi"@)
        },
    }
}

/// A command code written as its two bytes in wire order (low byte first),
/// in hexadecimal, parses back to that code.
pub proof fn lemma_wire_order_code_parses_back(code: u16)
    ensures
        u16_hex_outcome(spec_hex_text(seq![(code % 256) as u8, (code / 256) as u8], false)) == Ok::<
            u16,
            Seq<char>,
        >(code),
{
    let b = seq![(code % 256) as u8, (code / 256) as u8];
    lemma_hex_text_decodes(b);
    assert(b[0] + 256 * b[1] == code);
}

/// Parses a command code given as two hexadecimal bytes in wire order
/// (little-endian), such as "0681" for 0x8106.
pub fn parse_u16_hex(value: &str) -> (r: Result<u16, String>)
    ensures
        match u16_hex_outcome(value@) {
            Ok(code) => r == Ok::<u16, String>(code),
            Err(m) => r matches Err(s) && s@ == m,
        },
{
    let bytes = match hex_decode(value.as_bytes()) {
        Ok(b) => b,
        Err(e) => {
            let detail = hex_error_text(e);
            return Err(String::from_str("geçersiz hex: ").concat(detail.as_str()));
        },
    };
    if bytes.len() != 2 {
        let count = usize_text(bytes.len());
        return Err(String::from_str("komut kodu 2 bayt olmalı, ").concat(count.as_str()).concat(" verildi"));
    }
    Ok(bytes[0] as u16 + (bytes[1] as u16) * 256)
}

/// Parses the payload of a raw command, given as hexadecimal text.
pub fn parse_payload_hex(value: &str) -> (r: Result<Vec<u8>, String>)
    ensures
        match spec_hex_decode(encode_utf8(value@)) {
            Ok(bytes) => r matches Ok(v) && v@ == bytes,
            Err(e) => r matches Err(s) && s@ == "payload geçersiz hex: "@ + hex_error_display(e),
        },
{
    match hex_decode(value.as_bytes()) {
        Ok(bytes) => Ok(bytes),
        Err(e) => {
            let detail = hex_error_text(e);
            Err(String::from_str("payload geçersiz hex: ").concat(detail.as_str()))
        },
    }
}

/// Whether the answer to the confirmation prompt accepts: "e" or "E",
/// surrounded by any white space.
pub fn is_confirmation(input: &str) -> (r: bool)
    ensures
        r == (ascii_lower(trimmed(input@)) == ascii_lower("e"@)),
{
    eq_ignore_ascii_case(trim_text(input), "e")
}

/// Accepts a listed device and does nothing with it.
pub fn unused(_device: &LibertyDeviceInfo) {
}

} // verus!
