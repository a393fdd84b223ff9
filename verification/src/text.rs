//! Character-level helpers: decimal rendering and parsing, white space, and cutting a text at a
//! separator.

use vstd::prelude::*;
use vstd::string::*;

verus! {

/// The decimal digit of a value below ten.
pub open spec fn digit_char(d: nat) -> char {
    if d == 0 {
        '0'
    } else if d == 1 {
        '1'
    } else if d == 2 {
        '2'
    } else if d == 3 {
        '3'
    } else if d == 4 {
        '4'
    } else if d == 5 {
        '5'
    } else if d == 6 {
        '6'
    } else if d == 7 {
        '7'
    } else if d == 8 {
        '8'
    } else {
        '9'
    }
}

/// A number in decimal, without sign or leading zeros.
pub open spec fn decimal_text(n: nat) -> Seq<char>
    decreases n,
{
    if n < 10 {
        seq![digit_char(n)]
    } else {
        decimal_text(n / 10).push(digit_char(n % 10))
    }
}

fn digit_str(d: u64) -> (s: &'static str)
    requires
        d < 10,
    ensures
        s@ == seq![digit_char(d as nat)],
{
    proof {
        reveal_strlit("0");
        reveal_strlit("1");
        reveal_strlit("2");
        reveal_strlit("3");
        reveal_strlit("4");
        reveal_strlit("5");
        reveal_strlit("6");
        reveal_strlit("7");
        reveal_strlit("8");
        reveal_strlit("9");
    }
    if d == 0 {
        "0"
    } else if d == 1 {
        "1"
    } else if d == 2 {
        "2"
    } else if d == 3 {
        "3"
    } else if d == 4 {
        "4"
    } else if d == 5 {
        "5"
    } else if d == 6 {
        "6"
    } else if d == 7 {
        "7"
    } else if d == 8 {
        "8"
    } else {
        "9"
    }
}

/// Renders a number in decimal.
pub fn decimal(n: u64) -> (s: String)
    ensures
        s@ == decimal_text(n as nat),
    decreases n,
{
    if n < 10 {
        let mut s = String::new();
        s.append(digit_str(n));
        s
    } else {
        let mut s = decimal(n / 10);
        s.append(digit_str(n % 10));
        s
    }
}

/// Whether `c` has the Unicode `White_Space` property.
pub open spec fn is_white_space(c: char) -> bool {
    let v = c as u32;
    ||| 0x09 <= v <= 0x0d
    ||| v == 0x20
    ||| v == 0x85
    ||| v == 0xa0
    ||| v == 0x1680
    ||| 0x2000 <= v <= 0x200a
    ||| v == 0x2028
    ||| v == 0x2029
    ||| v == 0x202f
    ||| v == 0x205f
    ||| v == 0x3000
}

fn white_space(c: char) -> (b: bool)
    ensures
        b == is_white_space(c),
{
    let v: u32 = c as u32;
    (0x09 <= v && v <= 0x0d) || v == 0x20 || v == 0x85 || v == 0xa0 || v == 0x1680 || (0x2000 <= v
        && v <= 0x200a) || v == 0x2028 || v == 0x2029 || v == 0x202f || v == 0x205f || v == 0x3000
}

/// `s` without its leading white space.
pub open spec fn trimmed_start(s: Seq<char>) -> Seq<char>
    decreases s.len(),
{
    if s.len() > 0 && is_white_space(s[0]) {
        trimmed_start(s.skip(1))
    } else {
        s
    }
}

/// `s` without its trailing white space.
pub open spec fn trimmed_end(s: Seq<char>) -> Seq<char>
    decreases s.len(),
{
    if s.len() > 0 && is_white_space(s.last()) {
        trimmed_end(s.drop_last())
    } else {
        s
    }
}

/// `s` without leading and trailing white space.
pub open spec fn trimmed(s: Seq<char>) -> Seq<char> {
    trimmed_end(trimmed_start(s))
}

/// The value of an ASCII decimal digit.
pub open spec fn digit_value(c: char) -> Option<nat> {
    if '0' <= c <= '9' {
        Some((c as u32 - '0' as u32) as nat)
    } else {
        None
    }
}

pub open spec fn all_digits(s: Seq<char>) -> bool {
    forall|i: int| 0 <= i < s.len() ==> (#[trigger] digit_value(s[i])) is Some
}

/// The number that a run of decimal digits denotes.
pub open spec fn digits_value(s: Seq<char>) -> nat
    decreases s.len(),
{
    if s.len() == 0 {
        0
    } else {
        digits_value(s.drop_last()) * 10 + digit_value(s.last())->0
    }
}

/// `s` without one leading plus sign.
pub open spec fn unsigned_digits(s: Seq<char>) -> Seq<char> {
    if s.len() > 0 && s[0] == '+' {
        s.skip(1)
    } else {
        s
    }
}

/// The machine-sized number that `s` spells: an optional plus sign and at least one decimal
/// digit, with nothing else around them.
pub open spec fn parsed_usize(s: Seq<char>) -> Option<nat> {
    let digits = unsigned_digits(s);
    if digits.len() > 0 && all_digits(digits) && digits_value(digits) <= usize::MAX {
        Some(digits_value(digits))
    } else {
        None
    }
}

proof fn lemma_digits_value_monotone(s: Seq<char>, i: int)
    requires
        0 <= i <= s.len(),
    ensures
        digits_value(s.take(i)) <= digits_value(s),
    decreases s.len() - i,
{
    if i == s.len() {
        assert(s.take(i) =~= s);
    } else {
        lemma_digits_value_monotone(s, i + 1);
        assert(s.take(i + 1).drop_last() =~= s.take(i));
    }
}

/// Parses `chars[from..to]` as a machine-sized number.
pub fn parse_usize(chars: &Vec<char>, from: usize, to: usize) -> (r: Option<usize>)
    requires
        from <= to <= chars.len(),
    ensures
        r is Some <==> parsed_usize(chars@.subrange(from as int, to as int)) is Some,
        r is Some ==> r->0 == parsed_usize(chars@.subrange(from as int, to as int))->0,
{
    let ghost s = chars@.subrange(from as int, to as int);
    let mut start: usize = from;
    if from < to && chars[from] == '+' {
        start = from + 1;
    }
    let ghost digits = chars@.subrange(start as int, to as int);
    assert(digits =~= unsigned_digits(s));
    if start == to {
        return None;
    }
    let mut value: usize = 0;
    let mut i: usize = start;
    assert(digits.take(0) =~= Seq::<char>::empty());
    while i < to
        invariant
            start <= i <= to <= chars.len(),
            s == chars@.subrange(from as int, to as int),
            digits == chars@.subrange(start as int, to as int),
            digits == unsigned_digits(s),
            value == digits_value(digits.take(i - start)),
            forall|k: int| 0 <= k < i - start ==> (#[trigger] digit_value(digits[k])) is Some,
        decreases to - i,
    {
        let c = chars[i];
        assert(c == digits[i - start]);
        if !('0' <= c && c <= '9') {
            assert(digit_value(digits[i - start]) is None);
            return None;
        }
        let d: usize = (c as u32 - '0' as u32) as usize;
        assert(digits.take(i - start + 1).drop_last() =~= digits.take(i - start));
        assert(digits_value(digits.take(i - start + 1)) == value * 10 + d);
        if value > usize::MAX / 10 || (value == usize::MAX / 10 && d > usize::MAX % 10) {
            proof {
                lemma_digits_value_monotone(digits, i - start + 1);
            }
            return None;
        }
        value = value * 10 + d;
        i = i + 1;
    }
    assert(digits.take(to - start) =~= digits);
    Some(value)
}

/// Trimming the start stops at the first character that is no white space.
pub proof fn lemma_trimmed_start_at(s: Seq<char>, i: int)
    requires
        0 <= i <= s.len(),
        forall|k: int| 0 <= k < i ==> is_white_space(#[trigger] s[k]),
        i == s.len() || !is_white_space(s[i]),
    ensures
        trimmed_start(s) == s.skip(i),
    decreases i,
{
    if i == 0 {
        assert(s.skip(0) =~= s);
    } else {
        assert(is_white_space(s[0]));
        lemma_trimmed_start_at(s.skip(1), i - 1);
        assert(s.skip(1).skip(i - 1) =~= s.skip(i));
    }
}

/// Trimming the end stops behind the last character that is no white space.
pub proof fn lemma_trimmed_end_at(s: Seq<char>, j: int)
    requires
        0 <= j <= s.len(),
        forall|k: int| j <= k < s.len() ==> is_white_space(#[trigger] s[k]),
        j == 0 || !is_white_space(s[j - 1]),
    ensures
        trimmed_end(s) == s.take(j),
    decreases s.len() - j,
{
    if j == s.len() {
        assert(s.take(j) =~= s);
    } else {
        lemma_trimmed_end_at(s.drop_last(), j);
        assert(s.drop_last().take(j) =~= s.take(j));
    }
}

/// The bounds of `chars[from..to]` without its leading and trailing white space.
pub fn trim_bounds(chars: &Vec<char>, from: usize, to: usize) -> (r: (usize, usize))
    requires
        from <= to <= chars.len(),
    ensures
        from <= r.0 <= r.1 <= to,
        chars@.subrange(r.0 as int, r.1 as int) == trimmed(
            chars@.subrange(from as int, to as int),
        ),
{
    let ghost s = chars@.subrange(from as int, to as int);
    let mut lo: usize = from;
    while lo < to && white_space(chars[lo])
        invariant
            from <= lo <= to <= chars.len(),
            s == chars@.subrange(from as int, to as int),
            forall|k: int| 0 <= k < lo - from ==> is_white_space(#[trigger] s[k]),
        decreases to - lo,
    {
        assert(s[lo - from] == chars@[lo as int]);
        lo = lo + 1;
    }
    let ghost t = chars@.subrange(lo as int, to as int);
    proof {
        assert(lo < to ==> s[lo - from] == chars@[lo as int]);
        lemma_trimmed_start_at(s, lo - from);
        assert(s.skip(lo - from) =~= t);
    }
    let mut hi: usize = to;
    while hi > lo && white_space(chars[hi - 1])
        invariant
            from <= lo <= hi <= to <= chars.len(),
            t == chars@.subrange(lo as int, to as int),
            forall|k: int| hi - lo <= k < t.len() ==> is_white_space(#[trigger] t[k]),
        decreases hi,
    {
        assert(t[hi - 1 - lo] == chars@[hi - 1]);
        hi = hi - 1;
    }
    proof {
        assert(hi > lo ==> t[hi - lo - 1] == chars@[hi - 1]);
        lemma_trimmed_end_at(t, hi - lo);
        assert(t.take(hi - lo) =~= chars@.subrange(lo as int, hi as int));
    }
    (lo, hi)
}

/// The position of the first `sep` in `s`, or its length where there is none.
pub open spec fn index_or_len(s: Seq<char>, sep: char) -> int
    decreases s.len(),
{
    if s.len() == 0 || s[0] == sep {
        0
    } else {
        1 + index_or_len(s.skip(1), sep)
    }
}

/// The part of `s` before its first `sep`; all of it where there is none.
pub open spec fn before(s: Seq<char>, sep: char) -> Seq<char> {
    s.take(index_or_len(s, sep))
}

/// A position with no separator before it, and one there or the end, is the one that
/// `index_or_len` gives.
pub proof fn lemma_index_or_len_at(s: Seq<char>, sep: char, i: int)
    requires
        0 <= i <= s.len(),
        forall|k: int| 0 <= k < i ==> #[trigger] s[k] != sep,
        i == s.len() || s[i] == sep,
    ensures
        index_or_len(s, sep) == i,
    decreases i,
{
    if i > 0 {
        assert(s[0] != sep);
        lemma_index_or_len_at(s.skip(1), sep, i - 1);
    }
}

/// `index_or_len` gives the first separator.
pub proof fn lemma_index_or_len_is_first(s: Seq<char>, sep: char)
    ensures
        0 <= index_or_len(s, sep) <= s.len(),
        forall|k: int| 0 <= k < index_or_len(s, sep) ==> #[trigger] s[k] != sep,
        index_or_len(s, sep) < s.len() ==> s[index_or_len(s, sep)] == sep,
    decreases s.len(),
{
    if s.len() != 0 && s[0] != sep {
        lemma_index_or_len_is_first(s.skip(1), sep);
        assert forall|k: int| 0 <= k < index_or_len(s, sep) implies #[trigger] s[k] != sep by {
            if k > 0 {
                assert(s.skip(1)[k - 1] == s[k]);
            }
        }
    }
}

/// The characters of a text.
pub fn chars_of(text: &str) -> (chars: Vec<char>)
    ensures
        chars@ == text@,
{
    let mut chars: Vec<char> = Vec::new();
    for c in it: text.chars()
        invariant
            chars@ == text@.take(it.index()),
            it.seq() == text@,
    {
        chars.push(c);
        assert(text@.take(it.index() + 1) =~= text@.take(it.index()).push(c));
    }
    assert(text@.take(text@.len() as int) =~= text@);
    chars
}

/// The part of a text before its first `sep`; all of it where there is none.
pub fn prefix_before<'a>(text: &'a str, sep: char) -> (r: &'a str)
    ensures
        r@ == before(text@, sep),
{
    let chars = chars_of(text);
    let mut i: usize = 0;
    while i < chars.len() && chars[i] != sep
        invariant
            i <= chars.len(),
            chars@ == text@,
            forall|k: int| 0 <= k < i ==> #[trigger] text@[k] != sep,
        decreases chars.len() - i,
    {
        i = i + 1;
    }
    proof {
        lemma_index_or_len_at(text@, sep, i as int);
    }
    text.substring_char(0, i)
}

/// Whether two texts are the same.
pub fn same_text(a: &str, b: &str) -> (r: bool)
    ensures
        r == (a@ == b@),
{
    let x = chars_of(a);
    let y = chars_of(b);
    if x.len() != y.len() {
        return false;
    }
    let mut i: usize = 0;
    while i < x.len()
        invariant
            i <= x.len(),
            x.len() == y.len(),
            x@ == a@,
            y@ == b@,
            forall|k: int| 0 <= k < i ==> #[trigger] x@[k] == y@[k],
        decreases x.len() - i,
    {
        if x[i] != y[i] {
            return false;
        }
        i = i + 1;
    }
    assert(x@ =~= y@);
    true
}

/// An ASCII capital letter as a small one; any other character as it is.
pub open spec fn lower(c: char) -> char {
    if 'A' <= c <= 'Z' {
        (c as u32 + 32) as char
    } else {
        c
    }
}

/// A text with its ASCII capital letters made small.
pub open spec fn lowered(s: Seq<char>) -> Seq<char> {
    s.map_values(|c: char| lower(c))
}

/// The decimal text of a number is its digits, the most significant one first: one character for
/// a number below ten, else the text of its tenth with the last digit behind it.
pub proof fn law_decimal_is_positional(n: nat)
    ensures
        n < 10 ==> decimal_text(n) == seq![(48 + n) as char],
        n >= 10 ==> decimal_text(n) == decimal_text(n / 10).push((48 + n % 10) as char),
{
}

/// White space is what Unicode calls so.
pub proof fn law_white_space(c: char)
    ensures
        is_white_space(c) <==> (c == ' ' || c == '\t' || c == '\n' || c == '\r' || c == '\u{b}' || c
            == '\u{c}' || c == '\u{85}' || c == '\u{a0}' || c == '\u{1680}' || ('\u{2000}' <= c
            <= '\u{200a}') || c == '\u{2028}' || c == '\u{2029}' || c == '\u{202f}' || c
            == '\u{205f}' || c == '\u{3000}'),
{
}

proof fn lemma_trimmed_start_splits(s: Seq<char>) -> (i: int)
    ensures
        0 <= i <= s.len(),
        trimmed_start(s) == s.skip(i),
        forall|k: int| 0 <= k < i ==> is_white_space(#[trigger] s[k]),
        i < s.len() ==> !is_white_space(s[i]),
    decreases s.len(),
{
    if s.len() > 0 && is_white_space(s[0]) {
        let j = lemma_trimmed_start_splits(s.skip(1));
        assert(s.skip(1).skip(j) =~= s.skip(j + 1));
        assert forall|k: int| 0 <= k < j + 1 implies is_white_space(#[trigger] s[k]) by {
            if k > 0 {
                assert(s.skip(1)[k - 1] == s[k]);
            }
        }
        j + 1
    } else {
        assert(s.skip(0) =~= s);
        0
    }
}

proof fn lemma_trimmed_end_splits(s: Seq<char>) -> (j: int)
    ensures
        0 <= j <= s.len(),
        trimmed_end(s) == s.take(j),
        forall|k: int| j <= k < s.len() ==> is_white_space(#[trigger] s[k]),
        j > 0 ==> !is_white_space(s[j - 1]),
    decreases s.len(),
{
    if s.len() > 0 && is_white_space(s.last()) {
        let j = lemma_trimmed_end_splits(s.drop_last());
        assert(s.drop_last().take(j) =~= s.take(j));
        assert forall|k: int| j <= k < s.len() implies is_white_space(#[trigger] s[k]) by {
            if k < s.len() - 1 {
                assert(s.drop_last()[k] == s[k]);
            }
        }
        if j > 0 {
            assert(s.drop_last()[j - 1] == s[j - 1]);
        }
        j
    } else {
        assert(s.take(s.len() as int) =~= s);
        s.len() as int
    }
}

/// Trimming takes off white space and nothing else: what is left is a stretch of the text with
/// only white space around it, and neither starts nor ends with white space.
pub proof fn law_trimming_takes_white_space(s: Seq<char>)
    ensures
        exists|i: int, j: int|
            0 <= i <= j <= s.len() && trimmed(s) == #[trigger] s.subrange(i, j) && (forall|k: int|
                0 <= k < s.len() && !(i <= k < j) ==> is_white_space(#[trigger] s[k])),
        trimmed(s).len() > 0 ==> !is_white_space(trimmed(s)[0]) && !is_white_space(
            trimmed(s).last(),
        ),
{
    let i = lemma_trimmed_start_splits(s);
    let t = s.skip(i);
    let n = lemma_trimmed_end_splits(t);
    let j = i + n;
    assert(t.take(n) =~= s.subrange(i, j));
    assert forall|k: int| 0 <= k < s.len() && !(i <= k < j) implies is_white_space(
        #[trigger] s[k],
    ) by {
        if k >= j {
            assert(t[k - i] == s[k]);
        }
    }
    if n > 0 {
        assert(t[0] == s[i]);
        assert(trimmed(s)[0] == t[0] && trimmed(s).last() == t[n - 1]);
    }
}

/// A number is read digit by digit. One digit, with or without a plus sign before it, is its
/// value; a digit behind a number gives ten times the number and the digit, as long as that fits
/// into a machine word; a digit behind anything else that is no number gives none. A text that
/// does not end with a digit is no number.
pub proof fn law_number_is_read_by_digits(s: Seq<char>, d: char)
    ensures
        '0' <= d <= '9' ==> parsed_usize(seq![d]) == Some((d as int - 48) as nat),
        '0' <= d <= '9' ==> parsed_usize(seq!['+', d]) == Some((d as int - 48) as nat),
        '0' <= d <= '9' ==> (parsed_usize(s) matches Some(p) ==> parsed_usize(s.push(d)) == if 10
            * p + (d as int - 48) <= usize::MAX {
            Some((10 * p + (d as int - 48)) as nat)
        } else {
            None
        }),
        '0' <= d <= '9' && parsed_usize(s) is None && s.len() > 0 && s != seq!['+']
            ==> parsed_usize(s.push(d)) is None,
        !('0' <= d <= '9') ==> parsed_usize(s.push(d)) is None,
        parsed_usize(Seq::empty()) is None,
{
    let one = seq![d];
    let signed = seq!['+', d];
    let longer = s.push(d);
    assert(signed.skip(1) =~= one);
    assert(one.drop_last() =~= Seq::<char>::empty());
    assert(digits_value(Seq::<char>::empty()) == 0);
    if '0' <= d <= '9' {
        assert(all_digits(one));
        assert(digits_value(one) == d as int - 48);
    }
    let digits = unsigned_digits(s);
    let more = unsigned_digits(longer);
    if s.len() > 0 {
        assert(longer[0] == s[0]);
        assert(more =~= digits.push(d));
        assert(more.drop_last() =~= digits);
        assert(more.last() == d);
        if '0' <= d <= '9' {
            assert(all_digits(more) <==> all_digits(digits)) by {
                if all_digits(more) {
                    assert forall|i: int| 0 <= i < digits.len() implies (#[trigger] digit_value(
                        digits[i],
                    )) is Some by {
                        assert(digit_value(more[i]) is Some);
                    }
                }
            }
            if s[0] == '+' && s.len() == 1 {
                assert(s =~= seq!['+']);
            }
        } else {
            assert(digit_value(more[digits.len() as int]) is None);
        }
    } else {
        assert(longer =~= one);
        if !('0' <= d <= '9') && d != '+' {
            assert(digit_value(one[0]) is None);
        }
    }
}

/// A letter is made small exactly where it is an ASCII capital.
pub proof fn law_lower_case(c: char)
    ensures
        'A' <= c <= 'Z' ==> lower(c) as int == c as int + 32,
        !('A' <= c <= 'Z') ==> lower(c) == c,
{
}

/// The part before a separator ends where the separator first stands, or with the text.
pub proof fn law_before_separator(front: Seq<char>, rest: Seq<char>, sep: char)
    requires
        forall|i: int| 0 <= i < front.len() ==> #[trigger] front[i] != sep,
        rest.len() == 0 || rest[0] == sep,
    ensures
        before(front + rest, sep) == front,
{
    let s = front + rest;
    let n = front.len() as int;
    assert forall|k: int| 0 <= k < n implies #[trigger] s[k] != sep by {
        assert(s[k] == front[k]);
    }
    lemma_index_or_len_at(s, sep, n);
    assert(s.take(n) =~= front);
}

} // verus!
