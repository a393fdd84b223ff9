//! Enclave ids: 128-bit numbers, written as UUIDs.

use crate::measurement::hex_digit;
use crate::text::lowered;
use vstd::prelude::*;
use vstd::string::*;

verus! {

/// The id of an enclave.
#[derive(Clone, Copy, Debug, PartialEq, Eq, Structural)]
pub struct EnclaveId {
    pub bits: u128,
}

/// The value of a hexadecimal digit, in either case.
pub open spec fn nibble(c: char) -> Option<int> {
    if '0' <= c <= '9' {
        Some(c as int - 48)
    } else if 'a' <= c <= 'f' {
        Some(c as int - 87)
    } else if 'A' <= c <= 'F' {
        Some(c as int - 55)
    } else {
        None
    }
}

/// The number that hexadecimal digits spell, the most significant one first; none where a
/// character is no digit.
pub open spec fn hex_number(s: Seq<char>) -> Option<int>
    decreases s.len(),
{
    if s.len() == 0 {
        Some(0)
    } else {
        match (hex_number(s.drop_last()), nibble(s.last())) {
            (Some(high), Some(low)) => Some(16 * high + low),
            _ => None,
        }
    }
}

/// The 32 characters that stand in groups of 8, 4, 4, 4 and 12 with hyphens between them.
pub open spec fn ungrouped(s: Seq<char>) -> Option<Seq<char>> {
    if s.len() == 36 && s[8] == '-' && s[13] == '-' && s[18] == '-' && s[23] == '-' {
        Some(
            s.subrange(0, 8) + s.subrange(9, 13) + s.subrange(14, 18) + s.subrange(19, 23)
                + s.subrange(24, 36),
        )
    } else {
        None
    }
}

/// The 32 characters that a text has for the digits of an id: the whole text, or its groups,
/// which may stand in braces or behind `urn:uuid:` in any case.
pub open spec fn id_digits(s: Seq<char>) -> Option<Seq<char>> {
    if s.len() == 32 {
        Some(s)
    } else if s.len() == 36 {
        ungrouped(s)
    } else if s.len() == 38 && s[0] == '{' && s[37] == '}' {
        ungrouped(s.subrange(1, 37))
    } else if s.len() == 45 && lowered(s.subrange(0, 9)) == "urn:uuid:"@ {
        ungrouped(s.subrange(9, 45))
    } else {
        None
    }
}

/// The number that a text spells as a UUID.
pub open spec fn uuid_number(s: Seq<char>) -> Option<int> {
    match id_digits(s) {
        Some(digits) => hex_number(digits),
        None => None,
    }
}

/// The id that a text spells.
pub open spec fn id_of(s: Seq<char>) -> Option<EnclaveId> {
    match uuid_number(s) {
        Some(n) => Some(EnclaveId { bits: n as u128 }),
        None => None,
    }
}

/// The last `width` hexadecimal digits of a number, with small letters.
pub open spec fn hex_digits_of(n: int, width: nat) -> Seq<char>
    decreases width,
{
    if width == 0 {
        Seq::empty()
    } else {
        hex_digits_of(n / 16, (width - 1) as nat).push(hex_digit(n % 16))
    }
}

/// Digits in groups of 8, 4, 4, 4 and 12 with hyphens between them.
pub open spec fn grouped(digits: Seq<char>) -> Seq<char> {
    digits.subrange(0, 8) + seq!['-'] + digits.subrange(8, 12) + seq!['-'] + digits.subrange(12, 16)
        + seq!['-'] + digits.subrange(16, 20) + seq!['-'] + digits.subrange(20, 32)
}

/// The text of an id.
pub open spec fn id_text(id: EnclaveId) -> Seq<char> {
    grouped(hex_digits_of(id.bits as int, 32))
}

/// Parses a UUID.
///
/// Calls `uuid::Uuid::parse_str`. Claims that it takes 32 hexadecimal digits, alone or in
/// hyphenated groups, the groups also in braces or behind `urn:uuid:`, gives the number they
/// spell, and refuses any other text.
#[verifier::external_body]
fn parse_uuid(text: &str) -> (r: Option<u128>)
    ensures
        r is Some <==> uuid_number(text@) is Some,
        r is Some ==> r->0 == uuid_number(text@)->0,
{
    uuid::Uuid::parse_str(text).ok().map(|id| id.as_u128())
}

/// Writes a UUID.
///
/// Calls `to_string` of `uuid::Uuid`. Claims that it gives the 32 hexadecimal digits of the
/// number in hyphenated groups, with small letters.
#[verifier::external_body]
fn write_uuid(bits: u128) -> (r: String)
    ensures
        r@ == grouped(hex_digits_of(bits as int, 32)),
{
    uuid::Uuid::from_u128(bits).to_string()
}

impl EnclaveId {
    /// The id that a text spells, if it spells one.
    pub fn parse(text: &str) -> (r: Option<EnclaveId>)
        ensures
            r == id_of(text@),
            r is Some <==> uuid_number(text@) is Some,
            r matches Some(id) ==> id.bits == uuid_number(text@)->0,
    {
        match parse_uuid(text) {
            Some(bits) => Some(EnclaveId { bits }),
            None => None,
        }
    }

    /// The text of the id.
    pub fn text(&self) -> (r: String)
        ensures
            r@ == id_text(*self),
            r@ == grouped(hex_digits_of(self.bits as int, 32)),
    {
        write_uuid(self.bits)
    }
}

/// Sixteen to the power of `n`.
spec fn pow16(n: nat) -> int
    decreases n,
{
    if n == 0 {
        1
    } else {
        16 * pow16((n - 1) as nat)
    }
}

proof fn lemma_digits_spell_number(n: int, width: nat)
    requires
        0 <= n < pow16(width),
    ensures
        hex_digits_of(n, width).len() == width,
        hex_number(hex_digits_of(n, width)) == Some(n),
    decreases width,
{
    if width > 0 {
        lemma_digits_spell_number(n / 16, (width - 1) as nat);
        let digits = hex_digits_of(n, width);
        assert(digits.drop_last() =~= hex_digits_of(n / 16, (width - 1) as nat));
        assert(nibble(hex_digit(n % 16)) == Some(n % 16));
    }
}

proof fn lemma_digits_are_nibbles(n: int, width: nat, i: int)
    requires
        0 <= i < width,
    ensures
        hex_digits_of(n, width).len() == width,
        nibble(hex_digits_of(n, width)[i]) is Some,
    decreases width,
{
    lemma_digits_len(n, width);
    if i == width - 1 {
        assert(nibble(hex_digit(n % 16)) == Some(n % 16));
    } else {
        lemma_digits_are_nibbles(n / 16, (width - 1) as nat, i);
    }
}

proof fn lemma_digits_len(n: int, width: nat)
    ensures
        hex_digits_of(n, width).len() == width,
    decreases width,
{
    if width > 0 {
        lemma_digits_len(n / 16, (width - 1) as nat);
    }
}

/// The text of an id spells that id.
pub proof fn law_id_text_round_trip(id: EnclaveId)
    ensures
        id_of(id_text(id)) == Some(id),
{
    let n = id.bits as int;
    assert(n < pow16(32)) by {
        reveal_with_fuel(pow16, 33);
    }
    lemma_digits_spell_number(n, 32);
    let digits = hex_digits_of(n, 32);
    assert(ungrouped(grouped(digits))->0 =~= digits);
}

/// The text of an id holds no `.` and no `:`.
pub proof fn lemma_id_text_is_label(id: EnclaveId)
    ensures
        id_text(id).len() == 36,
        forall|i: int|
            0 <= i < 36 ==> (#[trigger] id_text(id)[i] == '-' || nibble(id_text(id)[i]) is Some),
{
    let n = id.bits as int;
    lemma_digits_len(n, 32);
    let digits = hex_digits_of(n, 32);
    let text = id_text(id);
    assert forall|i: int| 0 <= i < 36 implies (#[trigger] text[i] == '-' || nibble(
        text[i],
    ) is Some) by {
        let k = if i < 8 {
            i
        } else if i < 13 {
            i - 1
        } else if i < 18 {
            i - 2
        } else if i < 23 {
            i - 3
        } else {
            i - 4
        };
        if i != 8 && i != 13 && i != 18 && i != 23 {
            lemma_digits_are_nibbles(n, 32, k);
            assert(text[i] == digits[k]);
        }
    }
}

proof fn lemma_number_fits(s: Seq<char>)
    ensures
        hex_number(s) matches Some(n) ==> 0 <= n < pow16(s.len()),
    decreases s.len(),
{
    if s.len() > 0 {
        lemma_number_fits(s.drop_last());
    }
}

/// An id is spelled by 32 hexadecimal digits in any of four forms, and is the number that they
/// spell: the digits alone, in groups, and the groups in braces or behind `urn:uuid:`.
pub proof fn law_id_spellings(digits: Seq<char>)
    requires
        digits.len() == 32,
    ensures
        id_of(digits) is Some <==> hex_number(digits) is Some,
        id_of(digits) matches Some(id) ==> id.bits == hex_number(digits)->0,
        id_of(grouped(digits)) == id_of(digits),
        id_of(seq!['{'] + grouped(digits) + seq!['}']) == id_of(digits),
        id_of("urn:uuid:"@ + grouped(digits)) == id_of(digits),
{
    let groups = grouped(digits);
    lemma_number_fits(digits);
    assert(pow16(32) == 0x1_0000_0000_0000_0000_0000_0000_0000_0000) by {
        reveal_with_fuel(pow16, 33);
    }
    assert(ungrouped(groups)->0 =~= digits);
    let braced = seq!['{'] + groups + seq!['}'];
    assert(braced.subrange(1, 37) =~= groups);
    reveal_strlit("urn:uuid:");
    let urn = "urn:uuid:"@ + groups;
    assert(urn.subrange(0, 9) =~= "urn:uuid:"@);
    assert(lowered("urn:uuid:"@) =~= "urn:uuid:"@);
    assert(urn.subrange(9, 45) =~= groups);
}

/// A text of any other length spells no id, nor does one with another character than a
/// hexadecimal digit among the 32.
pub proof fn law_other_texts_spell_no_id(s: Seq<char>, i: int)
    ensures
        s.len() != 32 && s.len() != 36 && s.len() != 38 && s.len() != 45 ==> id_of(s) is None,
        s.len() == 32 && 0 <= i < 32 && nibble(s[i]) is None ==> id_of(s) is None,
        s.len() == 36 && !(s[8] == '-' && s[13] == '-' && s[18] == '-' && s[23] == '-') ==> id_of(
            s,
        ) is None,
        s.len() == 38 && !(s[0] == '{' && s[37] == '}') ==> id_of(s) is None,
{
    if s.len() == 32 && 0 <= i < 32 && nibble(s[i]) is None {
        lemma_number_needs_digits(s, i);
    }
}

proof fn lemma_number_needs_digits(s: Seq<char>, i: int)
    requires
        0 <= i < s.len(),
        nibble(s[i]) is None,
    ensures
        hex_number(s) is None,
    decreases s.len(),
{
    if i < s.len() - 1 {
        lemma_number_needs_digits(s.drop_last(), i);
    }
}

/// A hexadecimal number is positional: each further digit counts the earlier ones sixteenfold.
pub proof fn law_hex_number_is_positional(s: Seq<char>, c: char)
    ensures
        hex_number(Seq::empty()) == Some(0int),
        hex_number(s) is Some && '0' <= c <= '9' ==> hex_number(s.push(c)) == Some(
            16 * hex_number(s)->0 + (c as int - '0' as int),
        ),
        hex_number(s) is Some && 'a' <= c <= 'f' ==> hex_number(s.push(c)) == Some(
            16 * hex_number(s)->0 + (c as int - 'a' as int) + 10,
        ),
        hex_number(s) is Some && 'A' <= c <= 'F' ==> hex_number(s.push(c)) == Some(
            16 * hex_number(s)->0 + (c as int - 'A' as int) + 10,
        ),
{
    assert(s.push(c).drop_last() =~= s);
}

proof fn lemma_digits_are_small(n: int, width: nat, i: int)
    requires
        0 <= i < width,
    ensures
        hex_digits_of(n, width).len() == width,
        '0' <= hex_digits_of(n, width)[i] <= '9' || 'a' <= hex_digits_of(n, width)[i] <= 'f',
    decreases width,
{
    lemma_digits_len(n, width);
    if i == width - 1 {
        assert(0 <= n % 16 < 16);
    } else {
        lemma_digits_are_small(n / 16, (width - 1) as nat, i);
    }
}

/// The text of an id has 36 characters: hyphens at four places, and digits or small letters at
/// all others.
pub proof fn law_id_text_form(id: EnclaveId, i: int)
    requires
        0 <= i < 36,
    ensures
        id_text(id).len() == 36,
        i == 8 || i == 13 || i == 18 || i == 23 ==> id_text(id)[i] == '-',
        i != 8 && i != 13 && i != 18 && i != 23 ==> {
            ||| '0' <= id_text(id)[i] <= '9'
            ||| 'a' <= id_text(id)[i] <= 'f'
        },
{
    let n = id.bits as int;
    lemma_digits_len(n, 32);
    let digits = hex_digits_of(n, 32);
    let k = if i < 8 {
        i
    } else if i < 13 {
        i - 1
    } else if i < 18 {
        i - 2
    } else if i < 23 {
        i - 3
    } else {
        i - 4
    };
    if i != 8 && i != 13 && i != 18 && i != 23 {
        lemma_digits_are_small(n, 32, k);
        assert(id_text(id)[i] == digits[k]);
    }
}

} // verus!
