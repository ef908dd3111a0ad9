use vstd::prelude::*;
use vstd::string::*;
use vstd::utf8::*;

verus! {

/// Why a text is not valid hexadecimal; the same cases as `hex::FromHexError`.
#[derive(Clone, Copy, Debug, PartialEq, Eq, Structural)]
pub enum HexError {
    /// An invalid character `c` was found at byte position `index`.
    InvalidHexCharacter { c: char, index: usize },
    /// The text has an odd number of bytes.
    OddLength,
    /// The text does not fit a container of fixed size.
    InvalidStringLength,
}

/// The value of one hexadecimal digit byte (`0-9`, `a-f`, `A-F`).
pub open spec fn hex_value(b: u8) -> Option<u8> {
    if 48 <= b && b <= 57 {
        Some((b - 48) as u8)
    } else if 97 <= b && b <= 102 {
        Some((b - 87) as u8)
    } else if 65 <= b && b <= 70 {
        Some((b - 55) as u8)
    } else {
        None
    }
}

/// The first position at or after `i` that holds no hexadecimal digit, or -1.
pub open spec fn first_non_hex(d: Seq<u8>, i: int) -> int
    decreases d.len() - i,
{
    if i < 0 || i >= d.len() {
        -1
    } else if hex_value(d[i]) is None {
        i
    } else {
        first_non_hex(d, i + 1)
    }
}

/// Decoding of hexadecimal text bytes, two digits per byte, high digit first.
/// An odd length is refused first; otherwise the first byte that is not a
/// digit is reported with its position.
pub open spec fn spec_hex_decode(d: Seq<u8>) -> Result<Seq<u8>, HexError> {
    if d.len() % 2 != 0 {
        Err(HexError::OddLength)
    } else if first_non_hex(d, 0) >= 0 {
        let i = first_non_hex(d, 0);
        Err(HexError::InvalidHexCharacter { c: d[i] as char, index: i as usize })
    } else {
        Ok(
            Seq::new(
                d.len() / 2,
                |k: int| (16 * hex_value(d[2 * k]).unwrap() + hex_value(d[2 * k + 1]).unwrap()) as u8,
            ),
        )
    }
}

/// Whether a text decodes as hexadecimal: what `hex::decode` accepts.
pub open spec fn is_hex_text(s: Seq<char>) -> bool {
    spec_hex_decode(encode_utf8(s)) is Ok
}

/// Calls `hex::decode`. The contract states the whole behaviour of that
/// function as read in its source: odd length first, then the first byte that
/// is no hexadecimal digit, else the decoded bytes.
#[verifier::external_body]
pub(crate) fn hex_decode(data: &[u8]) -> (r: Result<Vec<u8>, HexError>)
    ensures
        match spec_hex_decode(data@) {
            Ok(bytes) => r matches Ok(v) && v@ == bytes,
            Err(e) => r == Err::<Vec<u8>, HexError>(e),
        },
{
    match hex::decode(data) {
        Ok(v) => Ok(v),
        Err(hex::FromHexError::InvalidHexCharacter { c, index }) => Err(HexError::InvalidHexCharacter { c, index }),
        Err(hex::FromHexError::OddLength) => Err(HexError::OddLength),
        Err(hex::FromHexError::InvalidStringLength) => Err(HexError::InvalidStringLength),
    }
}

/// The text that `hex::FromHexError` displays for an error.
pub uninterp spec fn hex_error_display(e: HexError) -> Seq<char>;

/// Calls the `Display` of `hex::FromHexError`. The contract names the text;
/// for the two variants without fields it also states the fixed text of
/// that `Display`. The text for an invalid character (which quotes the
/// character in Rust's debug form) is not spelled out.
#[verifier::external_body]
pub(crate) fn hex_error_text(e: HexError) -> (s: String)
    ensures
        s@ == hex_error_display(e),
        e is OddLength ==> s@ == "Odd number of digits"@,
        e is InvalidStringLength ==> s@ == "Invalid string length"@,
{
    let outside = match e {
        HexError::InvalidHexCharacter { c, index } => hex::FromHexError::InvalidHexCharacter { c, index },
        HexError::OddLength => hex::FromHexError::OddLength,
        HexError::InvalidStringLength => hex::FromHexError::InvalidStringLength,
    };
    outside.to_string()
}

/// The character of hexadecimal digit `n`, lower or upper case.
pub open spec fn hex_digit_char(n: u8, upper: bool) -> char {
    if n < 10 {
        ((48 + n) as u32) as char
    } else if upper {
        ((55 + n) as u32) as char
    } else {
        ((87 + n) as u32) as char
    }
}

/// The two hexadecimal digits of a byte, high digit first.
pub open spec fn hex_pair(b: u8, upper: bool) -> Seq<char> {
    seq![hex_digit_char(b / 16, upper), hex_digit_char(b % 16, upper)]
}

/// The hexadecimal text of a byte sequence, two digits per byte.
pub open spec fn spec_hex_text(s: Seq<u8>, upper: bool) -> Seq<char>
    decreases s.len(),
{
    if s.len() == 0 {
        Seq::empty()
    } else {
        spec_hex_text(s.drop_last(), upper) + hex_pair(s.last(), upper)
    }
}

/// Calls `hex::encode`: lower-case hexadecimal text, two digits per byte.
#[verifier::external_body]
pub(crate) fn hex_encode(data: &[u8]) -> (s: String)
    ensures
        s@ == spec_hex_text(data@, false),
{
    hex::encode(data)
}

/// The one-character text of hexadecimal digit `n`.
pub fn hex_digit_str(n: u8, upper: bool) -> (r: &'static str)
    requires
        n < 16,
    ensures
        r@ == seq![hex_digit_char(n, upper)],
{
    match n {
        0 => {
            proof {
                reveal_strlit("0");
            }
            "0"
        },
        1 => {
            proof {
                reveal_strlit("1");
            }
            "1"
        },
        2 => {
            proof {
                reveal_strlit("2");
            }
            "2"
        },
        3 => {
            proof {
                reveal_strlit("3");
            }
            "3"
        },
        4 => {
            proof {
                reveal_strlit("4");
            }
            "4"
        },
        5 => {
            proof {
                reveal_strlit("5");
            }
            "5"
        },
        6 => {
            proof {
                reveal_strlit("6");
            }
            "6"
        },
        7 => {
            proof {
                reveal_strlit("7");
            }
            "7"
        },
        8 => {
            proof {
                reveal_strlit("8");
            }
            "8"
        },
        9 => {
            proof {
                reveal_strlit("9");
            }
            "9"
        },
        10 => if upper {
            proof {
                reveal_strlit("A");
            }
            "A"
        } else {
            proof {
                reveal_strlit("a");
            }
            "a"
        },
        11 => if upper {
            proof {
                reveal_strlit("B");
            }
            "B"
        } else {
            proof {
                reveal_strlit("b");
            }
            "b"
        },
        12 => if upper {
            proof {
                reveal_strlit("C");
            }
            "C"
        } else {
            proof {
                reveal_strlit("c");
            }
            "c"
        },
        13 => if upper {
            proof {
                reveal_strlit("D");
            }
            "D"
        } else {
            proof {
                reveal_strlit("d");
            }
            "d"
        },
        14 => if upper {
            proof {
                reveal_strlit("E");
            }
            "E"
        } else {
            proof {
                reveal_strlit("e");
            }
            "e"
        },
        15 => if upper {
            proof {
                reveal_strlit("F");
            }
            "F"
        } else {
            proof {
                reveal_strlit("f");
            }
            "f"
        },
        _ => {
            proof {
                reveal_strlit("f");
            }
            "f"
        },
    }
}

/// Appends the two hexadecimal digits of `b` to `out`.
pub fn push_hex_pair(out: &mut String, b: u8, upper: bool)
    ensures
        final(out)@ == old(out)@ + hex_pair(b, upper),
{
    out.append(hex_digit_str(b / 16, upper));
    out.append(hex_digit_str(b % 16, upper));
}

/// Whether `c` is a lower-case hexadecimal digit: `0-9` or `a-f`.
pub open spec fn is_lower_hex_digit(c: char) -> bool {
    ('0' <= c && c <= '9') || ('a' <= c && c <= 'f')
}

proof fn lemma_digit_value(n: u8)
    requires
        n < 16,
    ensures
        is_lower_hex_digit(hex_digit_char(n, false)),
        hex_value(hex_digit_char(n, false) as u8) == Some(n),
{
}

proof fn lemma_hex_text_shape(b: Seq<u8>)
    ensures
        spec_hex_text(b, false).len() == 2 * b.len(),
        forall|k: int|
            0 <= k < b.len() ==> spec_hex_text(b, false)[2 * k] == hex_digit_char(#[trigger] b[k] / 16, false)
                && spec_hex_text(b, false)[2 * k + 1] == hex_digit_char(b[k] % 16, false),
    decreases b.len(),
{
    if b.len() > 0 {
        let rest = b.drop_last();
        lemma_hex_text_shape(rest);
        assert forall|k: int| 0 <= k < b.len() implies spec_hex_text(b, false)[2 * k] == hex_digit_char(
            #[trigger] b[k] / 16,
            false,
        ) && spec_hex_text(b, false)[2 * k + 1] == hex_digit_char(b[k] % 16, false) by {
            if k < rest.len() {
                assert(b[k] == rest[k]);
            }
        }
    }
}

proof fn lemma_no_bad_digit(d: Seq<u8>, k: int)
    requires
        0 <= k,
        forall|i: int| 0 <= i < d.len() ==> hex_value(#[trigger] d[i]) is Some,
    ensures
        first_non_hex(d, k) == -1,
    decreases d.len() - k,
{
    if k < d.len() {
        lemma_no_bad_digit(d, k + 1);
    }
}

/// The hexadecimal text of a byte sequence has two lower-case hexadecimal
/// digits per byte, and decoding it gives the bytes back.
pub proof fn lemma_hex_text_decodes(b: Seq<u8>)
    ensures
        spec_hex_text(b, false).len() == 2 * b.len(),
        forall|i: int| 0 <= i < spec_hex_text(b, false).len() ==> is_lower_hex_digit(#[trigger] spec_hex_text(b, false)[i]),
        spec_hex_decode(encode_utf8(spec_hex_text(b, false))) == Ok::<Seq<u8>, HexError>(b),
{
    let t = spec_hex_text(b, false);
    lemma_hex_text_shape(b);
    assert forall|i: int| 0 <= i < t.len() implies is_lower_hex_digit(#[trigger] t[i]) by {
        let k = i / 2;
        if i % 2 == 0 {
            assert(i == 2 * k);
            lemma_digit_value(b[k] / 16);
        } else {
            assert(i == 2 * k + 1);
            lemma_digit_value(b[k] % 16);
        }
    }
    assert(is_ascii_chars(t));
    is_ascii_chars_encode_utf8(t);
    let d = encode_utf8(t);
    assert forall|i: int| 0 <= i < d.len() implies hex_value(#[trigger] d[i]) is Some by {
        assert(d[i] == t[i] as u8);
        let k = i / 2;
        if i % 2 == 0 {
            assert(i == 2 * k);
            lemma_digit_value(b[k] / 16);
        } else {
            assert(i == 2 * k + 1);
            lemma_digit_value(b[k] % 16);
        }
    }
    lemma_no_bad_digit(d, 0);
    let decoded = Seq::new(
        d.len() / 2,
        |k: int| (16 * hex_value(d[2 * k]).unwrap() + hex_value(d[2 * k + 1]).unwrap()) as u8,
    );
    assert forall|k: int| 0 <= k < b.len() implies decoded[k] == b[k] by {
        assert(d[2 * k] == t[2 * k] as u8);
        assert(d[2 * k + 1] == t[2 * k + 1] as u8);
        lemma_digit_value(b[k] / 16);
        lemma_digit_value(b[k] % 16);
    }
    assert(decoded =~= b);
}

} // verus!
