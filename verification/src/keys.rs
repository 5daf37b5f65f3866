//! ADNL addresses: 32 bytes, written as 64 hexadecimal digits.

use vstd::prelude::*;
use vstd::string::*;
use vstd::utf8::*;

verus! {

/// Whether a character is a hexadecimal digit, in either case.
pub open spec fn is_hex_digit(c: char) -> bool {
    '0' <= c <= '9' || 'a' <= c <= 'f' || 'A' <= c <= 'F'
}

/// The value of a hexadecimal digit.
pub open spec fn hex_value(c: char) -> int {
    if 'a' <= c <= 'f' {
        c as int - 87
    } else if 'A' <= c <= 'F' {
        c as int - 55
    } else {
        c as int - 48
    }
}

/// Whether a text is an even number of hexadecimal digits.
pub open spec fn is_hex_text(s: Seq<char>) -> bool {
    s.len() % 2 == 0 && forall|i: int| 0 <= i < s.len() ==> is_hex_digit(#[trigger] s[i])
}

/// The bytes that pairs of hexadecimal digits stand for.
pub open spec fn hex_bytes(s: Seq<char>) -> Seq<u8> {
    Seq::new(
        s.len() / 2,
        |i: int| (16 * hex_value(s[2 * i]) + hex_value(s[2 * i + 1])) as u8,
    )
}

/// Whether a text is the hexadecimal form of 32 bytes.
pub open spec fn is_hex_key(s: Seq<char>) -> bool {
    s.len() == 64 && forall|i: int| 0 <= i < s.len() ==> is_hex_digit(#[trigger] s[i])
}

/// The outside error of a hexadecimal text that could not be read.
#[verifier::external_type_specification]
#[verifier::external_body]
pub struct ExFromHexError(hex::FromHexError);

/// Calls `hex::decode`: it succeeds on an even number of hexadecimal digits in
/// either case, and on nothing else, with one byte for each pair of digits, the
/// high half first.
#[verifier::external_body]
fn decode_hex(data: &str) -> (r: Result<Vec<u8>, hex::FromHexError>)
    ensures
        r is Ok <==> is_hex_text(data@),
        r matches Ok(bytes) ==> bytes@ == hex_bytes(data@),
{
    hex::decode(data)
}

/// Whether `value` is 64 hexadecimal digits.
pub fn is_hex_32(value: &str) -> (r: bool)
    ensures
        r == is_hex_key(value@),
{
    if !value.is_ascii() {
        proof {
            if is_hex_key(value@) {
                assert(is_ascii_chars(value@));
            }
        }
        return false;
    }
    proof {
        is_ascii_chars_encode_utf8(value@);
    }
    let bytes: &[u8] = value.as_bytes();
    if bytes.len() != 64 {
        return false;
    }
    let mut i: usize = 0;
    while i < 64
        invariant
            i <= 64,
            bytes@.len() == 64,
            value@.len() == 64,
            is_ascii_chars(value@),
            forall|j: int| 0 <= j < 64 ==> #[trigger] value@[j] as u8 == bytes@[j],
            forall|j: int| 0 <= j < i ==> is_hex_digit(#[trigger] value@[j]),
        decreases 64 - i,
    {
        let b: u8 = bytes[i];
        assert(value@[i as int] as u8 == b);
        let hexadecimal: bool = (48 <= b && b <= 57) || (97 <= b && b <= 102) || (65 <= b && b
            <= 70);
        if !hexadecimal {
            return false;
        }
        i = i + 1;
    }
    true
}

/// Why a text is not an ADNL address.
#[derive(Clone, Copy, PartialEq, Eq, Structural, Debug)]
pub enum AdnlKeyError {
    InvalidHex,
    WrongLength,
}

impl AdnlKeyError {
    pub open spec fn text(self) -> Seq<char> {
        match self {
            AdnlKeyError::InvalidHex => "invalid adnl hex"@,
            AdnlKeyError::WrongLength => "adnl key must be 32 bytes"@,
        }
    }

    /// The message of the error.
    pub fn message(&self) -> (r: String)
        ensures
            r@ == self.text(),
    {
        match self {
            AdnlKeyError::InvalidHex => "invalid adnl hex".to_owned(),
            AdnlKeyError::WrongLength => "adnl key must be 32 bytes".to_owned(),
        }
    }
}

/// The 32 bytes that an address text stands for.
pub open spec fn adnl_key_of(adnl_addr: Seq<char>) -> Result<Seq<u8>, AdnlKeyError> {
    if !is_hex_text(adnl_addr) {
        Err(AdnlKeyError::InvalidHex)
    } else if adnl_addr.len() != 64 {
        Err(AdnlKeyError::WrongLength)
    } else {
        Ok(hex_bytes(adnl_addr))
    }
}

/// Reads an ADNL address.
pub fn adnl_key(adnl_addr: &str) -> (r: Result<Vec<u8>, AdnlKeyError>)
    ensures
        adnl_key_of(adnl_addr@) == (match r {
            Ok(key) => Ok(key@),
            Err(error) => Err(error),
        }),
{
    match decode_hex(adnl_addr) {
        Err(_) => Err(AdnlKeyError::InvalidHex),
        Ok(key) => if key.len() != 32 {
            Err(AdnlKeyError::WrongLength)
        } else {
            Ok(key)
        },
    }
}

/// The addresses that pass the check for 64 hexadecimal digits are those that can
/// be read, and each is read as 32 bytes.
pub proof fn law_checked_address_is_readable(adnl_addr: Seq<char>)
    ensures
        is_hex_key(adnl_addr) <==> adnl_key_of(adnl_addr) is Ok,
        adnl_key_of(adnl_addr) matches Ok(key) ==> key.len() == 32,
{
}

/// Whether a character writes a number below sixteen, in either case.
pub open spec fn writes_nibble(c: char, value: int) -> bool {
    if value < 10 {
        c as int == 48 + value
    } else {
        c as int == 87 + value || c as int == 55 + value
    }
}

/// The hexadecimal text of any 32 bytes, in upper, lower or mixed case, is an address, and
/// is read as those bytes.
pub proof fn law_key_is_read_from_its_hex(key: Seq<u8>, text: Seq<char>)
    requires
        key.len() == 32,
        text.len() == 64,
        forall|i: int|
            0 <= i < 32 ==> writes_nibble(text[2 * i], (#[trigger] key[i]) as int / 16)
                && writes_nibble(text[2 * i + 1], key[i] as int % 16),
    ensures
        is_hex_key(text),
        adnl_key_of(text) == Ok::<Seq<u8>, AdnlKeyError>(key),
{
    assert forall|i: int| 0 <= i < text.len() implies is_hex_digit(#[trigger] text[i]) by {
        let b = key[i / 2];
        assert(i == 2 * (i / 2) || i == 2 * (i / 2) + 1);
    }
    assert forall|i: int| 0 <= i < 32 implies hex_bytes(text)[i] == key[i] by {
        let b = key[i];
    }
    assert(hex_bytes(text) =~= key);
}

/// A text with an odd number of characters or with another character than a hexadecimal
/// digit is no hex, and hex of another length than 64 digits has the wrong length; neither
/// is an address.
pub proof fn law_other_addresses_are_refused(text: Seq<char>)
    ensures
        text.len() % 2 == 1 || (exists|i: int|
            0 <= i < text.len() && !('0' <= #[trigger] text[i] <= '9') && !('a' <= text[i] <= 'f')
                && !('A' <= text[i] <= 'F')) ==> {
            &&& !is_hex_key(text)
            &&& adnl_key_of(text) == Err::<Seq<u8>, AdnlKeyError>(AdnlKeyError::InvalidHex)
        },
        text.len() % 2 == 0 && text.len() != 64 && (forall|i: int|
            0 <= i < text.len() ==> '0' <= #[trigger] text[i] <= '9' || 'a' <= text[i] <= 'f' || 'A'
                <= text[i] <= 'F') ==> {
            &&& !is_hex_key(text)
            &&& adnl_key_of(text) == Err::<Seq<u8>, AdnlKeyError>(AdnlKeyError::WrongLength)
        },
        AdnlKeyError::InvalidHex.text() == "invalid adnl hex"@,
        AdnlKeyError::WrongLength.text() == "adnl key must be 32 bytes"@,
{
    if exists|i: int|
        0 <= i < text.len() && !('0' <= #[trigger] text[i] <= '9') && !('a' <= text[i] <= 'f')
            && !('A' <= text[i] <= 'F') {
        let i = choose|i: int|
            0 <= i < text.len() && !('0' <= #[trigger] text[i] <= '9') && !('a' <= text[i] <= 'f')
                && !('A' <= text[i] <= 'F');
        assert(!is_hex_digit(text[i]));
    }
}

} // verus!
