//! Enclave measurements and their spelling in hexadecimal.

use crate::text::{decimal_text, lower, lowered};
use hex::FromHexError;
use vstd::prelude::*;
use vstd::utf8::*;

verus! {

/// The three measurements that an enclave's attestation is held to.
#[derive(Debug)]
pub struct Pcrs {
    pub pcr0: Vec<u8>,
    pub pcr1: Vec<u8>,
    pub pcr2: Vec<u8>,
}

/// Measurements as sequences of bytes.
#[verifier::ext_equal]
pub struct PcrsView {
    pub pcr0: Seq<u8>,
    pub pcr1: Seq<u8>,
    pub pcr2: Seq<u8>,
}

impl View for Pcrs {
    type V = PcrsView;

    open spec fn view(&self) -> PcrsView {
        PcrsView { pcr0: self.pcr0@, pcr1: self.pcr1@, pcr2: self.pcr2@ }
    }
}

impl Clone for Pcrs {
    fn clone(&self) -> (r: Pcrs)
        ensures
            r@ == self@,
            r.pcr0@ == self.pcr0@,
            r.pcr1@ == self.pcr1@,
            r.pcr2@ == self.pcr2@,
    {
        let r = Pcrs { pcr0: self.pcr0.clone(), pcr1: self.pcr1.clone(), pcr2: self.pcr2.clone() };
        assert(r@ =~= self@);
        assert(r.pcr0@ =~= self.pcr0@);
        assert(r.pcr1@ =~= self.pcr1@);
        assert(r.pcr2@ =~= self.pcr2@);
        r
    }
}

/// Why a text is no hexadecimal spelling of bytes.
#[derive(Clone, Copy, Debug, PartialEq, Eq, Structural)]
pub enum HexError {
    /// A byte of the text that is no hexadecimal digit, and its position.
    InvalidHexCharacter { c: char, index: usize },
    /// The text has an odd number of bytes.
    OddLength,
    /// The text does not fit a container of fixed size.
    InvalidStringLength,
}

/// The value of a hexadecimal digit, in either case.
pub open spec fn hex_value(b: u8) -> Option<u8> {
    if 48 <= b <= 57 {
        Some((b - 48) as u8)
    } else if 97 <= b <= 102 {
        Some((b - 87) as u8)
    } else if 65 <= b <= 70 {
        Some((b - 55) as u8)
    } else {
        None
    }
}

/// The position of the first byte that is no hexadecimal digit, or the length where all are.
pub open spec fn first_non_hex(s: Seq<u8>) -> int
    decreases s.len(),
{
    if s.len() == 0 || hex_value(s[0]) is None {
        0
    } else {
        1 + first_non_hex(s.skip(1))
    }
}

/// The bytes that a text spells, two digits each, given as its UTF-8 bytes.
pub open spec fn hex_decoded(s: Seq<u8>) -> Result<Seq<u8>, HexError> {
    let bad = first_non_hex(s);
    if s.len() % 2 != 0 {
        Err(HexError::OddLength)
    } else if bad < s.len() {
        Err(HexError::InvalidHexCharacter { c: s[bad] as char, index: bad as usize })
    } else {
        Ok(
            Seq::new(
                s.len() / 2,
                |i: int| (hex_value(s[2 * i])->0 * 16 + hex_value(s[2 * i + 1])->0) as u8,
            ),
        )
    }
}

/// The hexadecimal digit of a value below sixteen, as a small letter above nine.
pub open spec fn hex_digit(v: int) -> char {
    if v < 10 {
        (48 + v) as char
    } else {
        (87 + v) as char
    }
}

/// Bytes as hexadecimal text, two digits each.
pub open spec fn hex_text(bytes: Seq<u8>) -> Seq<char> {
    Seq::new(
        2 * bytes.len(),
        |i: int| hex_digit(if i % 2 == 0 {
            bytes[i / 2] as int / 16
        } else {
            bytes[i / 2] as int % 16
        }),
    )
}

/// Decodes hexadecimal text.
///
/// Calls `hex::decode`. Claims that it gives one byte for each two digits, in either case, and
/// otherwise fails on an odd number of bytes before it fails on the first byte that is no
/// digit.
#[verifier::external_body]
pub(crate) fn decode_hex(text: &str) -> (r: Result<Vec<u8>, HexError>)
    ensures
        match hex_decoded(encode_utf8(text@)) {
            Ok(bytes) => r is Ok && r->Ok_0@ == bytes,
            Err(e) => r is Err && r->Err_0 == e,
        },
{
    hex::decode(text).map_err(
        |e| match e {
            FromHexError::InvalidHexCharacter { c, index } => {
                HexError::InvalidHexCharacter { c, index }
            },
            FromHexError::OddLength => HexError::OddLength,
            FromHexError::InvalidStringLength => HexError::InvalidStringLength,
        },
    )
}

/// Spells bytes in hexadecimal.
///
/// Calls `hex::encode`. Claims that each byte becomes two digits, the high one first, with
/// small letters.
#[verifier::external_body]
pub(crate) fn encode_hex(bytes: &[u8]) -> (r: String)
    ensures
        r@ == hex_text(bytes@),
{
    hex::encode(bytes)
}

/// A character in single quotes, as Rust's `Debug` prints it.
pub uninterp spec fn quoted(c: char) -> Seq<char>;

impl HexError {
    /// The text of the error.
    pub open spec fn text(&self) -> Seq<char> {
        match *self {
            HexError::InvalidHexCharacter { c, index } => "Invalid character "@ + quoted(c)
                + " at position "@ + decimal_text(index as nat),
            HexError::OddLength => "Odd number of digits"@,
            HexError::InvalidStringLength => "Invalid string length"@,
        }
    }

    /// The text of the error.
    pub fn message(&self) -> (r: String)
        ensures
            r@ == self.text(),
            *self is OddLength ==> r@ == "Odd number of digits"@,
            *self is InvalidStringLength ==> r@ == "Invalid string length"@,
            *self matches HexError::InvalidHexCharacter { c, index } ==> r@
                == "Invalid character "@ + quoted(c) + " at position "@ + decimal_text(
                index as nat,
            ),
    {
        describe_hex_error(*self)
    }
}

/// The text of a decoding error.
///
/// Calls `to_string` of `hex::FromHexError`. Claims what its `Display` prints: which character
/// was found where, or a fixed text. How the character is quoted is `Debug` of `char`, which
/// is only named here.
#[verifier::external_body]
fn describe_hex_error(e: HexError) -> (r: String)
    ensures
        r@ == match e {
            HexError::InvalidHexCharacter { c, index } => "Invalid character "@ + quoted(c)
                + " at position "@ + decimal_text(index as nat),
            HexError::OddLength => "Odd number of digits"@,
            HexError::InvalidStringLength => "Invalid string length"@,
        },
{
    let e = match e {
        HexError::InvalidHexCharacter { c, index } => {
            FromHexError::InvalidHexCharacter { c, index }
        },
        HexError::OddLength => FromHexError::OddLength,
        HexError::InvalidStringLength => FromHexError::InvalidStringLength,
    };
    e.to_string()
}

/// Three texts decoded as measurements; the first one that fails decides the error.
pub open spec fn pcrs_decoded(
    pcr0: Seq<char>,
    pcr1: Seq<char>,
    pcr2: Seq<char>,
) -> Result<PcrsView, HexError> {
    match hex_decoded(encode_utf8(pcr0)) {
        Err(e) => Err(e),
        Ok(pcr0) => match hex_decoded(encode_utf8(pcr1)) {
            Err(e) => Err(e),
            Ok(pcr1) => match hex_decoded(encode_utf8(pcr2)) {
                Err(e) => Err(e),
                Ok(pcr2) => Ok(PcrsView { pcr0, pcr1, pcr2 }),
            },
        },
    }
}

proof fn lemma_all_hex(s: Seq<u8>)
    requires
        forall|i: int| 0 <= i < s.len() ==> hex_value(#[trigger] s[i]) is Some,
    ensures
        first_non_hex(s) == s.len(),
    decreases s.len(),
{
    if s.len() > 0 {
        assert(hex_value(s[0]) is Some);
        lemma_all_hex(s.skip(1));
    }
}

proof fn lemma_first_non_hex(s: Seq<u8>)
    ensures
        0 <= first_non_hex(s) <= s.len(),
        forall|i: int| 0 <= i < first_non_hex(s) ==> hex_value(#[trigger] s[i]) is Some,
    decreases s.len(),
{
    if s.len() > 0 && hex_value(s[0]) is Some {
        lemma_first_non_hex(s.skip(1));
        assert forall|i: int| 0 <= i < first_non_hex(s) implies hex_value(
            #[trigger] s[i],
        ) is Some by {
            if i > 0 {
                assert(s.skip(1)[i - 1] == s[i]);
            }
        }
    }
}

/// Bytes that were spelled in hexadecimal decode to themselves.
pub proof fn law_hex_round_trip(bytes: Seq<u8>)
    ensures
        hex_decoded(encode_utf8(hex_text(bytes))) == Ok::<Seq<u8>, HexError>(bytes),
{
    let text = hex_text(bytes);
    assert forall|i: int| 0 <= i < text.len() implies 48 <= #[trigger] text[i] as u32 <= 102 by {
        assert(0 <= bytes[i / 2] as int / 16 < 16);
    }
    assert(is_ascii_chars(text));
    is_ascii_chars_encode_utf8(text);
    let s = encode_utf8(text);
    assert forall|i: int| 0 <= i < s.len() implies hex_value(#[trigger] s[i]) == Some(
        (if i % 2 == 0 {
            bytes[i / 2] as int / 16
        } else {
            bytes[i / 2] as int % 16
        }) as u8,
    ) by {
        assert(s[i] == text[i] as u8);
    }
    lemma_all_hex(s);
    assert forall|i: int| 0 <= i < bytes.len() implies bytes[i] == (hex_value(s[2 * i])->0 * 16
        + hex_value(s[2 * i + 1])->0) as u8 by {
        let b = bytes[i] as int;
        assert(b == (b / 16) * 16 + b % 16);
        assert(2 * i / 2 == i && (2 * i + 1) / 2 == i);
    }
    assert(hex_decoded(s)->Ok_0 =~= bytes);
}

/// Spelling decoded bytes gives the text they came from, with small letters.
pub proof fn law_hex_spelling_is_canonical(text: Seq<char>)
    requires
        hex_decoded(encode_utf8(text)) is Ok,
    ensures
        hex_text(hex_decoded(encode_utf8(text))->Ok_0) == lowered(text),
{
    let s = encode_utf8(text);
    lemma_first_non_hex(s);
    lemma_hex_text_is_ascii(text);
    is_ascii_chars_encode_utf8(text);
    let bytes = hex_decoded(s)->Ok_0;
    assert forall|i: int| 0 <= i < s.len() implies hex_text(bytes)[i] == #[trigger] lower(
        text[i],
    ) by {
        assert(s[i] == text[i] as u8);
        assert(hex_value(s[i]) is Some);
        let k = i / 2;
        assert(hex_value(s[2 * k]) is Some);
        assert(hex_value(s[2 * k + 1]) is Some);
        let hi = hex_value(s[2 * k])->0 as int;
        let lo = hex_value(s[2 * k + 1])->0 as int;
        assert(bytes[k] == hi * 16 + lo);
        assert(i == 2 * k || i == 2 * k + 1);
    }
    assert(hex_text(bytes) =~= lowered(text));
}

proof fn lemma_small_char_is_ascii(c: char)
    requires
        c as u32 <= 0x7f,
    ensures
        '\0' <= c <= '\u{7f}',
{
}

proof fn lemma_hex_text_is_ascii(text: Seq<char>)
    requires
        forall|i: int|
            0 <= i < encode_utf8(text).len() ==> hex_value(#[trigger] encode_utf8(text)[i]) is Some,
    ensures
        is_ascii_chars(text),
    decreases text.len(),
{
    if text.len() > 0 {
        let c = text[0] as u32;
        let rest = encode_utf8(text.drop_first());
        let all = encode_utf8(text);
        char_is_scalar(text[0]);
        assert(hex_value(all[0]) is Some);
        assert(has_width_2_encoding(c) ==> leading_byte_width_2(c) >= 128) by (bit_vector);
        assert(has_width_3_encoding(c) ==> leading_byte_width_3(c) >= 128) by (bit_vector);
        assert(has_width_4_encoding(c) ==> leading_byte_width_4(c) >= 128) by (bit_vector);
        assert(has_width_1_encoding(c));
        lemma_small_char_is_ascii(text[0]);
        assert(all =~= seq![leading_byte_width_1(c)] + rest);
        assert forall|i: int| 0 <= i < rest.len() implies hex_value(#[trigger] rest[i]) is Some by {
            assert(all[i + 1] == rest[i]);
        }
        lemma_hex_text_is_ascii(text.drop_first());
        assert forall|i: int| 0 <= i < text.len() implies '\0' <= #[trigger] text[i]
            <= '\u{7f}' by {
            if i > 0 {
                assert(text.drop_first()[i - 1] == text[i]);
            }
        }
    }
}

/// Measurements keep their names.
pub proof fn law_measurements_keep_their_names(pcrs: Pcrs)
    ensures
        pcrs@.pcr0 == pcrs.pcr0@,
        pcrs@.pcr1 == pcrs.pcr1@,
        pcrs@.pcr2 == pcrs.pcr2@,
{
}

/// Each byte is spelled with two of the sixteen digits, the high one first.
pub proof fn law_hex_digits(bytes: Seq<u8>, i: int)
    requires
        0 <= i < bytes.len(),
    ensures
        hex_text(bytes).len() == 2 * bytes.len(),
        hex_text(bytes)[2 * i] == "0123456789abcdef"@[bytes[i] as int / 16],
        hex_text(bytes)[2 * i + 1] == "0123456789abcdef"@[bytes[i] as int % 16],
{
    reveal_strlit("0123456789abcdef");
    let b = bytes[i] as int;
    assert(0 <= b / 16 < 16 && 0 <= b % 16 < 16);
    assert(2 * i / 2 == i && (2 * i + 1) / 2 == i);
}

/// Three texts give measurements exactly where each of them is hexadecimal, and then each gives
/// the one at its own place. Otherwise the error is that of the first text that is not.
pub proof fn law_measurements_are_decoded_by_place(
    pcr0: Seq<char>,
    pcr1: Seq<char>,
    pcr2: Seq<char>,
)
    ensures
        ({
            let a = hex_decoded(encode_utf8(pcr0));
            let b = hex_decoded(encode_utf8(pcr1));
            let c = hex_decoded(encode_utf8(pcr2));
            let all = pcrs_decoded(pcr0, pcr1, pcr2);
            &&& all is Ok <==> a is Ok && b is Ok && c is Ok
            &&& all is Ok ==> a->Ok_0 == all->Ok_0.pcr0 && b->Ok_0 == all->Ok_0.pcr1 && c->Ok_0
                == all->Ok_0.pcr2
            &&& a is Err ==> all->Err_0 == a->Err_0
            &&& a is Ok && b is Err ==> all->Err_0 == b->Err_0
            &&& a is Ok && b is Ok && c is Err ==> all->Err_0 == c->Err_0
        }),
{
}

} // verus!
