//! The HTTP side of the responder: takes the complete HTTP/1.1 requests out of an accumulating
//! buffer, one after the other, and answers each with its own body.

use crate::text::{
    all_digits, before, chars_of, decimal, decimal_text, digit_value, digits_value,
    law_before_separator, lemma_index_or_len_at, lemma_index_or_len_is_first,
    lemma_trimmed_end_at, lemma_trimmed_start_at, parse_usize, parsed_usize, trim_bounds, trimmed,
};
use vstd::prelude::*;
use vstd::string::*;
use vstd::utf8::*;

verus! {

/// Whether the four bytes that end a request head start at `i`.
pub open spec fn terminator_at(buf: Seq<u8>, i: int) -> bool {
    &&& 0 <= i
    &&& i + 4 <= buf.len()
    &&& buf[i] == 13
    &&& buf[i + 1] == 10
    &&& buf[i + 2] == 13
    &&& buf[i + 3] == 10
}

/// The end of the first request head in `buf` that ends at or after `from + 4`.
pub open spec fn head_end_from(buf: Seq<u8>, from: int) -> Option<nat>
    decreases buf.len() - from,
{
    if from + 4 > buf.len() {
        None
    } else if terminator_at(buf, from) {
        Some((from + 4) as nat)
    } else {
        head_end_from(buf, from + 1)
    }
}

/// The length of the request head in `buf`, its terminator counted in.
pub open spec fn head_end(buf: Seq<u8>) -> Option<nat> {
    head_end_from(buf, 0)
}

/// Finds the end of the request head: the position after the first `\r\n\r\n`.
pub fn find_double_crlf(buf: &[u8]) -> (r: Option<usize>)
    ensures
        r is Some <==> head_end(buf@) is Some,
        r is Some ==> r->0 == head_end(buf@)->0,
        r matches Some(end) ==> {
            &&& 4 <= end <= buf@.len()
            &&& buf@.subrange(end - 4, end as int) == seq![13u8, 10u8, 13u8, 10u8]
        },
        r is None ==> forall|k: int|
            0 <= k && k + 4 <= buf@.len() ==> #[trigger] buf@.subrange(k, k + 4) != seq![
                13u8,
                10u8,
                13u8,
                10u8,
            ],
{
    let mut i: usize = 0;
    while i < buf.len() && buf.len() - i >= 4
        invariant
            i <= buf.len(),
            head_end(buf@) == head_end_from(buf@, i as int),
        decreases buf.len() - i,
    {
        if buf[i] == 13 && buf[i + 1] == 10 && buf[i + 2] == 13 && buf[i + 3] == 10 {
            assert(buf@.subrange(i as int, i + 4) =~= seq![13u8, 10u8, 13u8, 10u8]);
            return Some(i + 4);
        }
        i = i + 1;
    }
    proof {
        law_head_ends_at_first_blank_line(buf@);
    }
    None
}

/// `head_end_from` points behind the first terminator at or after `from`, or there is none.
pub proof fn lemma_head_end_from_is_first(buf: Seq<u8>, from: int)
    requires
        0 <= from,
    ensures
        head_end_from(buf, from) is Some ==> {
            let i = head_end_from(buf, from)->0 - 4;
            &&& from <= i
            &&& terminator_at(buf, i)
            &&& forall|k: int| from <= k < i ==> !#[trigger] terminator_at(buf, k)
        },
        head_end_from(buf, from) is None ==> forall|k: int|
            from <= k ==> !#[trigger] terminator_at(buf, k),
    decreases buf.len() - from,
{
    if from + 4 <= buf.len() && !terminator_at(buf, from) {
        lemma_head_end_from_is_first(buf, from + 1);
    }
}

/// Whether a line break stands at `i`.
pub open spec fn line_break_at(s: Seq<char>, i: int) -> bool {
    0 <= i && i + 2 <= s.len() && s[i] == '\r' && s[i + 1] == '\n'
}

/// The position of the first line break in `s`, or its length where there is none.
pub open spec fn line_end(s: Seq<char>) -> int
    decreases s.len(),
{
    if s.len() == 0 || line_break_at(s, 0) {
        0
    } else {
        1 + line_end(s.skip(1))
    }
}

proof fn lemma_line_end_at(s: Seq<char>, i: int)
    requires
        0 <= i <= s.len(),
        forall|k: int| 0 <= k < i ==> !#[trigger] line_break_at(s, k),
        i == s.len() || line_break_at(s, i),
    ensures
        line_end(s) == i,
    decreases i,
{
    if i > 0 {
        assert(!line_break_at(s, 0));
        assert forall|k: int| 0 <= k < i - 1 implies !#[trigger] line_break_at(s.skip(1), k) by {
            assert(!line_break_at(s, k + 1));
        }
        lemma_line_end_at(s.skip(1), i - 1);
    }
}

proof fn lemma_line_end_bounds(s: Seq<char>)
    ensures
        0 <= line_end(s) <= s.len(),
        line_end(s) < s.len() ==> line_break_at(s, line_end(s)),
    decreases s.len(),
{
    if s.len() != 0 && !line_break_at(s, 0) {
        lemma_line_end_bounds(s.skip(1));
    }
}

/// The lines of `s`, cut at each line break.
pub open spec fn lines_of(s: Seq<char>) -> Seq<Seq<char>>
    decreases s.len(),
{
    let end = line_end(s);
    if 0 <= end && end + 2 <= s.len() {
        seq![s.take(end)] + lines_of(s.skip(end + 2))
    } else {
        seq![s]
    }
}

/// What follows `prefix` in `line`, where the line starts with it.
pub open spec fn stripped(line: Seq<char>, prefix: Seq<char>) -> Option<Seq<char>> {
    if prefix.len() <= line.len() && line.take(prefix.len() as int) == prefix {
        Some(line.skip(prefix.len() as int))
    } else {
        None
    }
}

/// The value of a `Content-Length` line: the header's name in either of two spellings, then a
/// number. A value that is no number counts as zero. Of any other line, none.
pub open spec fn line_length(line: Seq<char>) -> Option<nat> {
    let rest = match stripped(line, "Content-Length:"@) {
        Some(rest) => Some(rest),
        None => stripped(line, "content-length:"@),
    };
    match rest {
        Some(rest) => Some(
            match parsed_usize(trimmed(rest)) {
                Some(n) => n,
                None => 0,
            },
        ),
        None => None,
    }
}

/// The body length that header lines declare: the last `Content-Length` line counts; without
/// one the body is empty.
pub open spec fn declared_length(lines: Seq<Seq<char>>) -> nat
    decreases lines.len(),
{
    if lines.len() == 0 {
        0
    } else {
        match line_length(lines.last()) {
            Some(n) => n,
            None => declared_length(lines.drop_last()),
        }
    }
}

/// The head of the answer to a request with that method and a body of that length.
pub open spec fn response_head(method: Seq<char>, body_len: nat) -> Seq<char> {
    "HTTP/1.1 200 OK\r\nContent-Length: "@ + decimal_text(body_len)
        + "\r\nContent-Type: text/plain\r\nHello-Method: "@ + method
        + "\r\nConnection: close\r\n\r\n"@
}

/// The method of a request: its first line up to the first blank.
pub open spec fn request_method(head: Seq<char>) -> Seq<char> {
    before(lines_of(head)[0], ' ')
}

/// The body length of a request: what the lines after the first declare.
pub open spec fn request_body_length(head: Seq<char>) -> nat {
    declared_length(lines_of(head).skip(1))
}

/// The answer to a request at the front of a buffer, and how many bytes the request takes.
#[verifier::ext_equal]
pub struct Answer {
    pub response: Seq<u8>,
    pub used: nat,
}

/// What a buffer holds at its front once a request is complete.
pub open spec fn synthesized(accum: Seq<u8>) -> Option<Answer> {
    match head_end(accum) {
        None => None,
        Some(end) => {
            let head_bytes = accum.take(end as int);
            if !valid_utf8(head_bytes) {
                None
            } else {
                let head = decode_utf8(head_bytes);
                let length = request_body_length(head);
                if accum.len() < end + length {
                    None
                } else {
                    let body = accum.subrange(end as int, (end + length) as int);
                    Some(
                        Answer {
                            response: encode_utf8(response_head(request_method(head), length))
                                + body,
                            used: end + length,
                        },
                    )
                }
            }
        },
    }
}

/// Decodes bytes as UTF-8.
///
/// Calls `std::str::from_utf8`. Claims that it succeeds exactly on valid UTF-8, and that the
/// text it gives is the one that the bytes encode.
#[verifier::external_body]
fn utf8_text(bytes: &[u8]) -> (r: Option<&str>)
    ensures
        r is Some <==> valid_utf8(bytes@),
        r is Some ==> r->0@ == decode_utf8(bytes@),
{
    std::str::from_utf8(bytes).ok()
}

/// The end of the line that starts at `from`.
fn find_line_end(chars: &Vec<char>, from: usize) -> (r: usize)
    requires
        from <= chars.len(),
    ensures
        from <= r <= chars.len(),
        r - from == line_end(chars@.skip(from as int)),
{
    let ghost s = chars@.skip(from as int);
    let mut i: usize = from;
    while i < chars.len() && !(chars.len() - i >= 2 && chars[i] == '\r' && chars[i + 1] == '\n')
        invariant
            from <= i <= chars.len(),
            s == chars@.skip(from as int),
            forall|k: int| 0 <= k < i - from ==> !#[trigger] line_break_at(s, k),
        decreases chars.len() - i,
    {
        i = i + 1;
    }
    proof {
        lemma_line_end_at(s, i - from);
    }
    i
}

/// Where the text after `prefix` starts in `chars[from..to]`, if that range starts with it.
fn strip_prefix(chars: &Vec<char>, from: usize, to: usize, prefix: &str) -> (r: Option<usize>)
    requires
        from <= to <= chars.len(),
    ensures
        r is Some <==> stripped(chars@.subrange(from as int, to as int), prefix@) is Some,
        r is Some ==> from <= r->0 <= to && chars@.subrange(r->0 as int, to as int) == stripped(
            chars@.subrange(from as int, to as int),
            prefix@,
        )->0,
{
    let ghost s = chars@.subrange(from as int, to as int);
    let p = chars_of(prefix);
    if p.len() > to - from {
        return None;
    }
    let mut i: usize = 0;
    while i < p.len()
        invariant
            i <= p.len() <= to - from,
            from <= to <= chars.len(),
            p@ == prefix@,
            s == chars@.subrange(from as int, to as int),
            s.take(i as int) =~= p@.take(i as int),
        decreases p.len() - i,
    {
        if chars[from + i] != p[i] {
            assert(s.take(p.len() as int)[i as int] != p@[i as int]);
            return None;
        }
        i = i + 1;
    }
    assert(p@.take(p.len() as int) =~= p@);
    assert(s.skip(p.len() as int) =~= chars@.subrange(from + p.len(), to as int));
    Some(from + p.len())
}

/// The body length that one header line declares.
fn content_length_of_line(chars: &Vec<char>, from: usize, to: usize) -> (r: Option<usize>)
    requires
        from <= to <= chars.len(),
    ensures
        r is Some <==> line_length(chars@.subrange(from as int, to as int)) is Some,
        r is Some ==> r->0 == line_length(chars@.subrange(from as int, to as int))->0,
{
    let rest: Option<usize> = match strip_prefix(chars, from, to, "Content-Length:") {
        Some(rest) => Some(rest),
        None => strip_prefix(chars, from, to, "content-length:"),
    };
    match rest {
        None => None,
        Some(start) => {
            let (lo, hi) = trim_bounds(chars, start, to);
            match parse_usize(chars, lo, hi) {
                Some(n) => Some(n),
                None => Some(0),
            }
        },
    }
}

proof fn lemma_lines_step(s: Seq<char>)
    ensures
        lines_of(s).len() >= 1,
        lines_of(s)[0] == s.take(line_end(s)),
        0 <= line_end(s) <= s.len(),
        line_end(s) < s.len() ==> line_end(s) + 2 <= s.len() && lines_of(s).skip(1) == lines_of(
            s.skip(line_end(s) + 2),
        ),
        line_end(s) == s.len() ==> lines_of(s).len() == 1,
    decreases s.len(),
{
    lemma_line_end_bounds(s);
    if line_end(s) < s.len() {
        assert(lines_of(s).skip(1) =~= lines_of(s.skip(line_end(s) + 2)));
    } else {
        assert(s.take(line_end(s)) =~= s);
    }
}

/// The length of the method and the length of the body of a request with that head.
fn parse_head(chars: &Vec<char>) -> (r: (usize, usize))
    ensures
        r.0 <= chars.len(),
        chars@.take(r.0 as int) == request_method(chars@),
        r.1 == request_body_length(chars@),
{
    let ghost lines = lines_of(chars@);
    proof {
        assert(chars@.skip(0) =~= chars@);
        lemma_lines_step(chars@);
    }
    let first_end = find_line_end(chars, 0);
    let mut method_len: usize = 0;
    while method_len < first_end && chars[method_len] != ' '
        invariant
            method_len <= first_end <= chars.len(),
            lines.len() >= 1,
            lines[0] == chars@.take(first_end as int),
            forall|k: int| 0 <= k < method_len ==> #[trigger] lines[0][k] != ' ',
        decreases first_end - method_len,
    {
        method_len = method_len + 1;
    }
    proof {
        lemma_index_or_len_at(lines[0], ' ', method_len as int);
        assert(lines[0].take(method_len as int) =~= chars@.take(method_len as int));
    }
    let mut length: usize = 0;
    let mut end: usize = first_end;
    let ghost mut seen: int = 1;
    assert(lines.subrange(1, 1) =~= Seq::<Seq<char>>::empty());
    while end < chars.len()
        invariant
            end <= chars.len(),
            lines == lines_of(chars@),
            1 <= seen <= lines.len(),
            end < chars.len() ==> end + 2 <= chars.len() && lines.skip(seen) == lines_of(
                chars@.skip(end + 2),
            ),
            end == chars.len() ==> seen == lines.len(),
            length == declared_length(lines.subrange(1, seen)),
        decreases chars.len() - end,
    {
        let start = end + 2;
        let ghost rest = chars@.skip(start as int);
        proof {
            lemma_lines_step(rest);
            assert(lines.skip(seen)[0] == lines[seen]);
            assert(lines.skip(seen).len() == lines.len() - seen);
            assert(lines.skip(seen).skip(1) =~= lines.skip(seen + 1));
        }
        end = find_line_end(chars, start);
        proof {
            assert(rest.take(end - start) =~= chars@.subrange(start as int, end as int));
            if end < chars.len() {
                assert(rest.skip(end - start + 2) =~= chars@.skip(end + 2));
            }
            let upto = lines.subrange(1, seen + 1);
            assert(upto.last() == lines[seen]);
            assert(upto.drop_last() =~= lines.subrange(1, seen));
        }
        if let Some(n) = content_length_of_line(chars, start, end) {
            length = n;
        }
        proof {
            seen = seen + 1;
        }
    }
    assert(lines.subrange(1, seen) =~= lines.skip(1));
    (method_len, length)
}

/// Takes a complete HTTP/1.1 request off the front of an accumulating buffer.
///
/// A request is complete once its head has ended and the body bytes that a `Content-Length`
/// line declares have arrived. The answer repeats the body and names the method. Until then,
/// and where the head is not UTF-8, the buffer stays as it is.
pub fn try_synthesize_http(accum: &mut Vec<u8>) -> (r: Option<Vec<u8>>)
    ensures
        match synthesized(old(accum)@) {
            None => r is None && final(accum)@ == old(accum)@,
            Some(answer) => {
                &&& r is Some
                &&& r->0@ == answer.response
                &&& answer.used <= old(accum)@.len()
                &&& final(accum)@ == old(accum)@.skip(answer.used as int)
            },
        },
        r is None ==> final(accum)@ == old(accum)@,
        r matches Some(response) ==> {
            let end = head_end(old(accum)@)->0 as int;
            let used = old(accum)@.len() - final(accum)@.len();
            &&& head_end(old(accum)@) is Some
            &&& end <= used
            &&& final(accum)@ == old(accum)@.skip(used)
            &&& response@.len() >= used - end
            &&& response@.skip(response@.len() - (used - end)) == old(accum)@.subrange(end, used)
        },
{
    let end: usize = match find_double_crlf(accum.as_slice()) {
        Some(end) => end,
        None => {
            return None;
        },
    };
    proof {
        lemma_head_end_from_is_first(accum@, 0);
    }
    let head_bytes = vstd::slice::slice_subrange(accum.as_slice(), 0, end);
    assert(head_bytes@ =~= accum@.take(end as int));
    let head = match utf8_text(head_bytes) {
        Some(head) => head,
        None => {
            return None;
        },
    };
    let chars = chars_of(head);
    let (method_len, length) = parse_head(&chars);
    if accum.len() - end < length {
        return None;
    }
    let mut text = String::new();
    text.append("HTTP/1.1 200 OK\r\nContent-Length: ");
    text.append(decimal(length as u64).as_str());
    text.append("\r\nContent-Type: text/plain\r\nHello-Method: ");
    text.append(head.substring_char(0, method_len));
    text.append("\r\nConnection: close\r\n\r\n");
    let mut out: Vec<u8> = Vec::new();
    out.extend_from_slice(text.as_str().as_bytes());
    out.extend_from_slice(vstd::slice::slice_subrange(accum.as_slice(), end, end + length));
    let rest = accum.split_off(end + length);
    *accum = rest;
    proof {
        assert(head@.subrange(0, method_len as int) =~= chars@.take(method_len as int));
        assert(text@ =~= response_head(request_method(chars@), length as nat));
        let answer = synthesized(old(accum)@)->0;
        assert(out@ =~= answer.response);
        assert(accum@ =~= old(accum)@.skip(answer.used as int));
        assert(out@.skip(out@.len() - length) =~= old(accum)@.subrange(end as int, end + length));
    }
    Some(out)
}

/// More bytes behind a complete request change nothing about it: the same answer is given and
/// the same bytes are taken, so how a request was cut into chunks does not matter.
pub proof fn law_complete_request_is_stable(accum: Seq<u8>, more: Seq<u8>)
    requires
        synthesized(accum) is Some,
    ensures
        synthesized(accum + more) == synthesized(accum),
        synthesized(accum)->0.used <= accum.len(),
        (accum + more).skip(synthesized(accum)->0.used as int) == accum.skip(
            synthesized(accum)->0.used as int,
        ) + more,
{
    lemma_head_end_from_is_first(accum, 0);
    lemma_head_end_from_is_first(accum + more, 0);
    let all = accum + more;
    let i = head_end(accum)->0 - 4;
    assert(terminator_at(all, i));
    let j = head_end(all)->0 - 4;
    if j < i {
        assert(terminator_at(accum, j));
    }
    let end = head_end(accum)->0 as int;
    let used = synthesized(accum)->0.used as int;
    assert(all.take(end) =~= accum.take(end));
    assert(all.subrange(end, used) =~= accum.subrange(end, used));
    assert(all.skip(used) =~= accum.skip(used) + more);
}

/// Each answered request takes at least its head off the buffer, so a buffer holds only
/// finitely many.
pub proof fn law_answered_request_shrinks_buffer(accum: Seq<u8>)
    requires
        synthesized(accum) is Some,
    ensures
        4 <= synthesized(accum)->0.used <= accum.len(),
{
    lemma_head_end_from_is_first(accum, 0);
}

/// The answers to the complete requests at the front of a buffer, in order.
pub open spec fn answers_of(accum: Seq<u8>) -> Seq<Seq<u8>>
    decreases accum.len(),
{
    match synthesized(accum) {
        None => Seq::empty(),
        Some(answer) => {
            proof {
                law_answered_request_shrinks_buffer(accum);
            }
            seq![answer.response] + answers_of(accum.skip(answer.used as int))
        },
    }
}

/// What is left of a buffer once its complete requests are taken off the front.
pub open spec fn unanswered(accum: Seq<u8>) -> Seq<u8>
    decreases accum.len(),
{
    match synthesized(accum) {
        None => accum,
        Some(answer) => {
            proof {
                law_answered_request_shrinks_buffer(accum);
            }
            unanswered(accum.skip(answer.used as int))
        },
    }
}

/// Several byte strings as sequences.
pub open spec fn byte_strings(s: Seq<Vec<u8>>) -> Seq<Seq<u8>> {
    s.map_values(|bytes: Vec<u8>| bytes@)
}

/// Takes every complete request off the front of an accumulating buffer, and answers each.
pub fn answer_requests(accum: &mut Vec<u8>) -> (r: Vec<Vec<u8>>)
    ensures
        byte_strings(r@) == answers_of(old(accum)@),
        final(accum)@ == unanswered(old(accum)@),
        r@.len() == answers_of(old(accum)@).len(),
        forall|i: int| 0 <= i < r@.len() ==> (#[trigger] r@[i])@ == answers_of(old(accum)@)[i],
{
    let mut r: Vec<Vec<u8>> = Vec::new();
    assert(byte_strings(r@) =~= Seq::empty());
    assert(byte_strings(r@) + answers_of(accum@) =~= answers_of(accum@));
    loop
        invariant
            byte_strings(r@) + answers_of(accum@) == answers_of(old(accum)@),
            unanswered(accum@) == unanswered(old(accum)@),
        ensures
            synthesized(accum@) is None,
        decreases accum@.len(),
    {
        let ghost before = accum@;
        let ghost done = r@;
        match try_synthesize_http(accum) {
            Some(response) => {
                proof {
                    law_answered_request_shrinks_buffer(before);
                }
                r.push(response);
                proof {
                    assert(byte_strings(r@) =~= byte_strings(done).push(response@));
                    assert(byte_strings(r@) + answers_of(accum@) =~= byte_strings(done)
                        + answers_of(before));
                }
            },
            None => {
                break;
            },
        }
    }
    assert(byte_strings(r@) + answers_of(accum@) =~= byte_strings(r@));
    assert forall|i: int| 0 <= i < r@.len() implies (#[trigger] r@[i])@ == answers_of(
        old(accum)@,
    )[i] by {
        assert(byte_strings(r@)[i] == r@[i]@);
    }
    r
}

/// Once its complete requests are answered, a buffer holds no complete request.
pub proof fn law_no_complete_request_is_left(accum: Seq<u8>)
    ensures
        synthesized(unanswered(accum)) is None,
        answers_of(unanswered(accum)) == Seq::<Seq<u8>>::empty(),
        unanswered(accum).len() <= accum.len(),
    decreases accum.len(),
{
    if let Some(answer) = synthesized(accum) {
        law_answered_request_shrinks_buffer(accum);
        law_no_complete_request_is_left(accum.skip(answer.used as int));
    }
}

/// How a byte stream is cut does not matter: answering what has come so far, and then the rest
/// behind what was left, gives the same answers and leaves the same bytes as answering all of it
/// at once.
pub proof fn law_answers_join(first: Seq<u8>, second: Seq<u8>)
    ensures
        answers_of(first + second) == answers_of(first) + answers_of(unanswered(first) + second),
        unanswered(first + second) == unanswered(unanswered(first) + second),
    decreases first.len(),
{
    match synthesized(first) {
        None => {
            assert(answers_of(first) + answers_of(first + second) =~= answers_of(first + second));
        },
        Some(answer) => {
            law_answered_request_shrinks_buffer(first);
            law_complete_request_is_stable(first, second);
            let rest = first.skip(answer.used as int);
            law_answers_join(rest, second);
            assert(answers_of(first + second) =~= answers_of(first) + answers_of(
                unanswered(first) + second,
            ));
        },
    }
}

/// Whether a line holds no line break.
spec fn unbroken(line: Seq<char>) -> bool {
    forall|k: int| !#[trigger] line_break_at(line, k)
}

proof fn lemma_line_is_unbroken(s: Seq<char>)
    ensures
        unbroken(s.take(line_end(s))),
    decreases s.len(),
{
    lemma_line_end_bounds(s);
    if s.len() != 0 && !line_break_at(s, 0) {
        lemma_line_is_unbroken(s.skip(1));
        lemma_line_end_bounds(s.skip(1));
        let line = s.take(line_end(s));
        let rest = s.skip(1).take(line_end(s.skip(1)));
        assert forall|k: int| !#[trigger] line_break_at(line, k) by {
            if line_break_at(line, k) {
                if k == 0 {
                    assert(line_break_at(s, 0));
                } else {
                    assert(rest[k - 1] == line[k] && rest[k] == line[k + 1]);
                    assert(line_break_at(rest, k - 1));
                }
            }
        }
    }
}

proof fn lemma_method_is_unbroken(head: Seq<char>)
    ensures
        unbroken(request_method(head)),
{
    lemma_lines_step(head);
    lemma_line_is_unbroken(head);
    let line = lines_of(head)[0];
    lemma_index_or_len_is_first(line, ' ');
    let method = request_method(head);
    assert forall|k: int| !#[trigger] line_break_at(method, k) by {
        if line_break_at(method, k) {
            assert(line[k] == method[k] && line[k + 1] == method[k + 1]);
            assert(line_break_at(line, k));
        }
    }
}

/// A line, a line break and the rest.
spec fn with_line(line: Seq<char>, rest: Seq<char>) -> Seq<char> {
    line + seq!['\r', '\n'] + rest
}

proof fn lemma_first_line(line: Seq<char>, rest: Seq<char>)
    requires
        unbroken(line),
    ensures
        lines_of(with_line(line, rest)) == seq![line] + lines_of(rest),
{
    let s = with_line(line, rest);
    assert forall|k: int| 0 <= k < line.len() implies !#[trigger] line_break_at(s, k) by {
        if line_break_at(s, k) && k + 1 < line.len() {
            assert(line_break_at(line, k));
        }
    }
    assert(line_break_at(s, line.len() as int));
    lemma_line_end_at(s, line.len() as int);
    assert(s.take(line.len() as int) =~= line);
    assert(s.skip(line.len() as int + 2) =~= rest);
}

/// Where a blank line starts behind a line: at once, or within the rest.
proof fn lemma_blank_line_is_later(line: Seq<char>, rest: Seq<char>, j: int)
    requires
        unbroken(line),
        line_break_at(with_line(line, rest), j),
        line_break_at(with_line(line, rest), j + 2),
    ensures
        j == line.len() ==> line_break_at(rest, 0),
        j != line.len() ==> j >= line.len() + 2 && line_break_at(rest, j - line.len() - 2)
            && line_break_at(rest, j - line.len()),
{
    let s = with_line(line, rest);
    if j < line.len() {
        if j + 1 < line.len() {
            assert(line_break_at(line, j));
        }
    } else if j > line.len() {
        assert(s[j] == rest[j - line.len() - 2]);
    }
}

proof fn lemma_decimal_digits(n: nat)
    ensures
        decimal_text(n).len() > 0,
        all_digits(decimal_text(n)),
        digits_value(decimal_text(n)) == n,
    decreases n,
{
    let text = decimal_text(n);
    if n >= 10 {
        let front = decimal_text(n / 10);
        lemma_decimal_digits(n / 10);
        assert(text.drop_last() =~= front);
        assert forall|i: int| 0 <= i < text.len() implies (#[trigger] digit_value(
            text[i],
        )) is Some by {
            if i < front.len() {
                assert(text[i] == front[i]);
                assert(digit_value(front[i]) is Some);
            }
        }
    } else {
        assert(text.drop_last() =~= Seq::<char>::empty());
        assert(digits_value(Seq::<char>::empty()) == 0);
    }
}

proof fn lemma_length_fits(lines: Seq<Seq<char>>)
    ensures
        declared_length(lines) <= usize::MAX,
    decreases lines.len(),
{
    if lines.len() > 0 {
        lemma_length_fits(lines.drop_last());
    }
}

proof fn lemma_length_line(n: nat)
    requires
        n <= usize::MAX,
    ensures
        line_length("Content-Length: "@ + decimal_text(n)) == Some(n),
        unbroken("Content-Length: "@ + decimal_text(n)),
{
    reveal_strlit("Content-Length: ");
    reveal_strlit("Content-Length:");
    let digits = decimal_text(n);
    let line = "Content-Length: "@ + digits;
    lemma_decimal_digits(n);
    assert(line.take(15) =~= "Content-Length:"@);
    let rest = line.skip(15);
    assert(digit_value(digits[0]) is Some);
    assert(digit_value(digits.last()) is Some);
    assert(rest.skip(1) =~= digits);
    assert(rest[0] == ' ' && rest[1] == digits[0]);
    lemma_trimmed_start_at(rest, 1);
    lemma_trimmed_end_at(digits, digits.len() as int);
    assert(digits.take(digits.len() as int) =~= digits);
    assert forall|k: int| !#[trigger] line_break_at(line, k) by {
        if 16 <= k < line.len() {
            assert(line[k] == digits[k - 16]);
            assert(digit_value(digits[k - 16]) is Some);
        }
    }
}

/// The lines of an answer's head.
spec fn answer_lines(method: Seq<char>, body_len: nat) -> Seq<Seq<char>> {
    seq![
        "HTTP/1.1 200 OK"@,
        "Content-Length: "@ + decimal_text(body_len),
        "Content-Type: text/plain"@,
        "Hello-Method: "@ + method,
        "Connection: close"@,
        Seq::empty(),
        Seq::empty(),
    ]
}

/// Lines from one on, each with its line break, but for the last.
spec fn text_from(lines: Seq<Seq<char>>, i: int) -> Seq<char>
    decreases lines.len() - i,
{
    if i + 1 >= lines.len() {
        lines[i]
    } else {
        with_line(lines[i], text_from(lines, i + 1))
    }
}

proof fn lemma_head_is_lines(method: Seq<char>, n: nat)
    ensures
        response_head(method, n) == text_from(answer_lines(method, n), 0),
{
    reveal_strlit("HTTP/1.1 200 OK\r\nContent-Length: ");
    reveal_strlit("\r\nContent-Type: text/plain\r\nHello-Method: ");
    reveal_strlit("\r\nConnection: close\r\n\r\n");
    reveal_strlit("HTTP/1.1 200 OK");
    reveal_strlit("Content-Length: ");
    reveal_strlit("Content-Type: text/plain");
    reveal_strlit("Hello-Method: ");
    reveal_strlit("Connection: close");
    reveal_with_fuel(text_from, 8);
    let l = answer_lines(method, n);
    let digits = decimal_text(n);
    assert("HTTP/1.1 200 OK\r\nContent-Length: "@ =~= with_line(l[0], "Content-Length: "@));
    assert("\r\nContent-Type: text/plain\r\nHello-Method: "@ =~= seq!['\r', '\n'] + with_line(
        l[2],
        "Hello-Method: "@,
    ));
    assert("\r\nConnection: close\r\n\r\n"@ =~= seq!['\r', '\n'] + text_from(l, 4));
    assert(response_head(method, n) =~= text_from(l, 0));
}

proof fn lemma_answer_lines_are_unbroken(method: Seq<char>, n: nat)
    requires
        unbroken(method),
        n <= usize::MAX,
    ensures
        forall|i: int| 0 <= i < 7 ==> unbroken(#[trigger] answer_lines(method, n)[i]),
{
    reveal_strlit("HTTP/1.1 200 OK");
    reveal_strlit("Content-Type: text/plain");
    reveal_strlit("Hello-Method: ");
    reveal_strlit("Connection: close");
    lemma_length_line(n);
    let line = "Hello-Method: "@ + method;
    assert forall|k: int| !#[trigger] line_break_at(line, k) by {
        if line_break_at(line, k) && k >= 14 {
            assert(line_break_at(method, k - 14));
        }
    }
}

proof fn lemma_other_lines_declare_nothing(method: Seq<char>)
    ensures
        line_length("Content-Type: text/plain"@) is None,
        line_length("Hello-Method: "@ + method) is None,
        line_length("Connection: close"@) is None,
        line_length(Seq::empty()) is None,
{
    reveal_strlit("Content-Length:");
    reveal_strlit("content-length:");
    reveal_strlit("Content-Type: text/plain");
    reveal_strlit("Hello-Method: ");
    reveal_strlit("Connection: close");
    let upper = "Content-Length:"@;
    let lower = "content-length:"@;
    assert(upper[8] == 'L' && upper[0] == 'C' && upper[3] == 't');
    assert(lower[0] == 'c');
    let kind = "Content-Type: text/plain"@;
    assert(kind.take(15)[8] == 'T' && kind.take(15)[0] == 'C');
    let hello = "Hello-Method: "@ + method;
    if hello.len() >= 15 {
        assert(hello.take(15)[0] == 'H');
    }
    let close = "Connection: close"@;
    assert(close.take(15)[3] == 'n' && close.take(15)[0] == 'C');
}

/// The head of an answer declares the length it was made for.
proof fn lemma_head_declares_length(method: Seq<char>, n: nat)
    requires
        unbroken(method),
        n <= usize::MAX,
    ensures
        request_body_length(response_head(method, n)) == n,
{
    let l = answer_lines(method, n);
    lemma_head_is_lines(method, n);
    lemma_answer_lines_are_unbroken(method, n);
    reveal_with_fuel(text_from, 8);
    assert(unbroken(l[0]) && unbroken(l[1]) && unbroken(l[2]) && unbroken(l[3]) && unbroken(l[4])
        && unbroken(l[5]));
    lemma_first_line(l[0], text_from(l, 1));
    lemma_first_line(l[1], text_from(l, 2));
    lemma_first_line(l[2], text_from(l, 3));
    lemma_first_line(l[3], text_from(l, 4));
    lemma_first_line(l[4], text_from(l, 5));
    lemma_first_line(l[5], text_from(l, 6));
    lemma_lines_step(Seq::empty());
    assert(lines_of(text_from(l, 6)) =~= seq![l[6]]);
    let lines = lines_of(response_head(method, n));
    assert(lines =~= l);
    let fields = lines.skip(1);
    lemma_other_lines_declare_nothing(method);
    lemma_length_line(n);
    let f5 = fields.drop_last();
    let f4 = f5.drop_last();
    let f3 = f4.drop_last();
    let f2 = f3.drop_last();
    let f1 = f2.drop_last();
    assert(fields.last() == l[6] && f5.last() == l[5] && f4.last() == l[4] && f3.last() == l[3]
        && f2.last() == l[2] && f1.last() == l[1]);
    assert(declared_length(f1) == n);
    assert(declared_length(f2) == n);
    assert(declared_length(f3) == n);
    assert(declared_length(f4) == n);
    assert(declared_length(f5) == n);
}

/// The head of an answer holds no blank line but the one that ends it.
proof fn lemma_head_ends_with_blank_line(method: Seq<char>, n: nat, j: int)
    requires
        unbroken(method),
        n <= usize::MAX,
        line_break_at(response_head(method, n), j),
        line_break_at(response_head(method, n), j + 2),
    ensures
        j == response_head(method, n).len() - 4,
{
    let l = answer_lines(method, n);
    lemma_head_is_lines(method, n);
    lemma_answer_lines_are_unbroken(method, n);
    reveal_with_fuel(text_from, 8);
    reveal_strlit("HTTP/1.1 200 OK");
    reveal_strlit("Content-Length: ");
    reveal_strlit("Content-Type: text/plain");
    reveal_strlit("Hello-Method: ");
    reveal_strlit("Connection: close");
    assert(unbroken(l[0]) && unbroken(l[1]) && unbroken(l[2]) && unbroken(l[3]) && unbroken(l[4])
        && unbroken(l[5]));
    assert(text_from(l, 1)[0] == 'C' && text_from(l, 2)[0] == 'C' && text_from(l, 3)[0] == 'H'
        && text_from(l, 4)[0] == 'C');
    lemma_blank_line_is_later(l[0], text_from(l, 1), j);
    let j1 = j - l[0].len() - 2;
    lemma_blank_line_is_later(l[1], text_from(l, 2), j1);
    let j2 = j1 - l[1].len() - 2;
    lemma_blank_line_is_later(l[2], text_from(l, 3), j2);
    let j3 = j2 - l[2].len() - 2;
    lemma_blank_line_is_later(l[3], text_from(l, 4), j3);
    let j4 = j3 - l[3].len() - 2;
    if j4 != l[4].len() {
        lemma_blank_line_is_later(l[4], text_from(l, 5), j4);
    }
}

/// A byte below 128 at the front of an encoding is the first character.
proof fn lemma_ascii_byte_is_char(s: Seq<char>)
    requires
        encode_utf8(s).len() > 0,
        encode_utf8(s)[0] < 128,
    ensures
        s.len() > 0,
        s[0] as u32 == encode_utf8(s)[0],
        encode_utf8(s).skip(1) == encode_utf8(s.drop_first()),
{
    let c = s[0] as u32;
    char_is_scalar(s[0]);
    let rest = encode_utf8(s.drop_first());
    assert(has_width_2_encoding(c) ==> leading_byte_width_2(c) >= 128) by (bit_vector);
    assert(has_width_3_encoding(c) ==> leading_byte_width_3(c) >= 128) by (bit_vector);
    assert(has_width_4_encoding(c) ==> leading_byte_width_4(c) >= 128) by (bit_vector);
    assert(has_width_1_encoding(c) ==> leading_byte_width_1(c) == c) by (bit_vector);
    assert(has_width_1_encoding(c));
    assert(encode_utf8(s) =~= seq![leading_byte_width_1(c)] + rest);
    assert(encode_utf8(s).skip(1) =~= rest);
}

/// The bytes of a character that is not ASCII are all above 127.
proof fn lemma_wide_bytes(c: u32, i: int)
    requires
        is_scalar(c),
        !has_width_1_encoding(c),
        0 <= i < encode_scalar(c).len(),
    ensures
        encode_scalar(c)[i] >= 128,
{
    assert(has_width_2_encoding(c) ==> leading_byte_width_2(c) >= 128) by (bit_vector);
    assert(has_width_3_encoding(c) ==> leading_byte_width_3(c) >= 128) by (bit_vector);
    assert(has_width_4_encoding(c) ==> leading_byte_width_4(c) >= 128) by (bit_vector);
    assert(last_continuation_byte(c) >= 128) by (bit_vector);
    assert(second_last_continuation_byte(c) >= 128) by (bit_vector);
    assert(third_last_continuation_byte(c) >= 128) by (bit_vector);
}

/// The text position of a terminator in the bytes of a text.
proof fn lemma_terminator_in_text(s: Seq<char>, i: int) -> (j: int)
    requires
        terminator_at(encode_utf8(s), i),
    ensures
        line_break_at(s, j),
        line_break_at(s, j + 2),
        encode_utf8(s.skip(j)).len() == encode_utf8(s).len() - i,
    decreases s.len(),
{
    let e = encode_utf8(s);
    if i == 0 {
        let s1 = s.drop_first();
        let s2 = s1.drop_first();
        let s3 = s2.drop_first();
        lemma_ascii_byte_is_char(s);
        assert(encode_utf8(s1)[0] == e[1]);
        lemma_ascii_byte_is_char(s1);
        assert(encode_utf8(s2)[0] == e[2]);
        lemma_ascii_byte_is_char(s2);
        assert(encode_utf8(s3)[0] == e[3]);
        lemma_ascii_byte_is_char(s3);
        assert(s1[0] == s[1] && s2[0] == s[2] && s3[0] == s[3]);
        lemma_line_break_chars(s[0], s[1]);
        lemma_line_break_chars(s[2], s[3]);
        assert(s.skip(0) =~= s);
        0
    } else {
        let c = s[0] as u32;
        let first = encode_scalar(c);
        let rest = encode_utf8(s.drop_first());
        char_is_scalar(s[0]);
        assert(e =~= first + rest);
        if i < first.len() {
            lemma_wide_bytes(c, i);
        }
        assert(terminator_at(rest, i - first.len()));
        let k = lemma_terminator_in_text(s.drop_first(), i - first.len());
        assert(s.drop_first().skip(k) =~= s.skip(k + 1));
        k + 1
    }
}

proof fn lemma_line_break_chars(a: char, b: char)
    requires
        a as u32 == 13,
        b as u32 == 10,
    ensures
        a == '\r',
        b == '\n',
{
}

/// An answer is one self-delimiting response, whatever the request's method and body hold: its
/// first blank line ends its head, and the length that the head declares is that of all the
/// bytes behind it. So a client that reads it takes it whole and nothing else.
pub proof fn law_answer_is_self_delimiting(accum: Seq<u8>)
    requires
        synthesized(accum) is Some,
    ensures
        ({
            let response = synthesized(accum)->0.response;
            let end = head_end(response);
            &&& end is Some
            &&& end->0 <= response.len()
            &&& valid_utf8(response.take(end->0 as int))
            &&& end->0 + request_body_length(decode_utf8(response.take(end->0 as int)))
                == response.len()
        }),
{
    lemma_head_end_from_is_first(accum, 0);
    let head_bytes = accum.take(head_end(accum)->0 as int);
    let head = decode_utf8(head_bytes);
    let method = request_method(head);
    let n = request_body_length(head);
    lemma_method_is_unbroken(head);
    lemma_length_fits(lines_of(head).skip(1));

    let text = response_head(method, n);
    let bytes = encode_utf8(text);
    let response = synthesized(accum)->0.response;
    assert(response.len() == bytes.len() + n);
    encode_utf8_valid_utf8(text);
    encode_utf8_decode_utf8(text);
    lemma_head_declares_length(method, n);

    reveal_strlit("\r\nConnection: close\r\n\r\n");
    let m = text.len();
    let last = text.skip(m - 4);
    assert(last =~= seq!['\r', '\n', '\r', '\n']);
    assert(is_ascii_chars(last));
    is_ascii_chars_encode_utf8(last);
    lemma_encode_joins(text.take(m - 4), last);
    assert(text.take(m - 4) + last =~= text);
    let t = bytes.len() - 4;
    assert(encode_utf8(last)[0] == 13 && encode_utf8(last)[1] == 10 && encode_utf8(last)[2] == 13
        && encode_utf8(last)[3] == 10);
    assert(terminator_at(response, t));
    lemma_head_end_from_is_first(response, 0);
    let i = head_end(response)->0 - 4;
    if i < t {
        assert(terminator_at(bytes, i));
        let j = lemma_terminator_in_text(text, i);
        lemma_head_ends_with_blank_line(method, n, j);
        assert(text.skip(j) =~= last);
    }
    assert(response.take(bytes.len() as int) =~= bytes);
}

proof fn lemma_encode_joins(a: Seq<char>, b: Seq<char>)
    ensures
        encode_utf8(a + b) == encode_utf8(a) + encode_utf8(b),
    decreases a.len(),
{
    if a.len() == 0 {
        assert(a + b =~= b);
        assert(encode_utf8(a) + encode_utf8(b) =~= encode_utf8(b));
    } else {
        lemma_encode_joins(a.drop_first(), b);
        assert((a + b).drop_first() =~= a.drop_first() + b);
        let first = encode_scalar(a[0] as u32);
        assert(first + (encode_utf8(a.drop_first()) + encode_utf8(b)) =~= (first + encode_utf8(
            a.drop_first(),
        )) + encode_utf8(b));
    }
}

/// A head ends behind the first `\r\n\r\n` of the buffer, and nowhere else.
pub proof fn law_head_ends_at_first_blank_line(buf: Seq<u8>)
    ensures
        head_end(buf) matches Some(end) ==> {
            &&& 4 <= end <= buf.len()
            &&& buf.subrange(end - 4, end as int) == seq![13u8, 10u8, 13u8, 10u8]
            &&& forall|k: int|
                0 <= k < end - 4 ==> #[trigger] buf.subrange(k, k + 4) != seq![
                    13u8,
                    10u8,
                    13u8,
                    10u8,
                ]
        },
        head_end(buf) is None ==> forall|k: int|
            0 <= k && k + 4 <= buf.len() ==> #[trigger] buf.subrange(k, k + 4) != seq![
                13u8,
                10u8,
                13u8,
                10u8,
            ],
{
    lemma_head_end_from_is_first(buf, 0);
    assert forall|k: int|
        0 <= k && k + 4 <= buf.len() && !terminator_at(buf, k) implies #[trigger] buf.subrange(
        k,
        k + 4,
    ) != seq![13u8, 10u8, 13u8, 10u8] by {
        let four = buf.subrange(k, k + 4);
        assert(four[0] == buf[k] && four[1] == buf[k + 1] && four[2] == buf[k + 2] && four[3]
            == buf[k + 3]);
        if four == seq![13u8, 10u8, 13u8, 10u8] {
            assert(four[0] == 13 && four[1] == 10 && four[2] == 13 && four[3] == 10);
        }
    }
    if head_end(buf) is Some {
        let i = head_end(buf)->0 - 4;
        assert(terminator_at(buf, i));
        assert(buf.subrange(i, i + 4) =~= seq![13u8, 10u8, 13u8, 10u8]);
    }
}

/// A request waits until its head has ended, and for ever where the head is not UTF-8.
pub proof fn law_unreadable_request_waits(accum: Seq<u8>, k: int)
    ensures
        (forall|i: int|
            0 <= i && i + 4 <= accum.len() ==> #[trigger] accum.subrange(i, i + 4) != seq![
                13u8,
                10u8,
                13u8,
                10u8,
            ]) ==> synthesized(accum) is None,
        0 <= k && k + 4 <= accum.len() && accum.subrange(k, k + 4) == seq![13u8, 10u8, 13u8, 10u8]
            && (forall|i: int|
            0 <= i < k ==> #[trigger] accum.subrange(i, i + 4) != seq![13u8, 10u8, 13u8, 10u8])
            && !valid_utf8(accum.take(k + 4)) ==> synthesized(accum) is None,
{
    law_head_ends_at_first_blank_line(accum);
    if head_end(accum) is Some {
        let i = head_end(accum)->0 - 4;
        assert(accum.subrange(i, i + 4) == seq![13u8, 10u8, 13u8, 10u8]);
        if 0 <= k && k + 4 <= accum.len() && accum.subrange(k, k + 4) == seq![
            13u8,
            10u8,
            13u8,
            10u8,
        ] && (forall|i: int|
            0 <= i < k ==> #[trigger] accum.subrange(i, i + 4) != seq![13u8, 10u8, 13u8, 10u8]) {
            assert(k == i);
        }
    }
}

/// A text that a blank line ends, and that holds no other, is a whole head, whatever follows it.
proof fn lemma_unique_blank_line(text: Seq<char>, more: Seq<u8>)
    requires
        text.len() >= 4,
        text.skip(text.len() - 4) == seq!['\r', '\n', '\r', '\n'],
        forall|j: int|
            #[trigger] line_break_at(text, j) && line_break_at(text, j + 2) ==> j == text.len() - 4,
    ensures
        head_end(encode_utf8(text) + more) == Some(encode_utf8(text).len()),
{
    let bytes = encode_utf8(text);
    let all = bytes + more;
    let m = text.len();
    let last = text.skip(m - 4);
    assert(is_ascii_chars(last));
    is_ascii_chars_encode_utf8(last);
    lemma_encode_joins(text.take(m - 4), last);
    assert(text.take(m - 4) + last =~= text);
    let t = bytes.len() - 4;
    assert(encode_utf8(last)[0] == 13 && encode_utf8(last)[1] == 10 && encode_utf8(last)[2] == 13
        && encode_utf8(last)[3] == 10);
    assert(terminator_at(all, t));
    lemma_head_end_from_is_first(all, 0);
    let i = head_end(all)->0 - 4;
    if i < t {
        assert(terminator_at(bytes, i));
        let j = lemma_terminator_in_text(text, i);
        assert(text.skip(j) =~= last);
    }
}

/// The answer repeats the request's body: behind the answer's head stand exactly the bytes that
/// stood between the request's head and its end, each as it came.
pub proof fn law_answer_repeats_body(accum: Seq<u8>)
    requires
        synthesized(accum) is Some,
    ensures
        ({
            let answer = synthesized(accum)->0;
            &&& head_end(accum) is Some
            &&& head_end(answer.response) is Some
            &&& head_end(accum)->0 <= answer.used <= accum.len()
            &&& head_end(answer.response)->0 <= answer.response.len()
            &&& answer.response.skip(head_end(answer.response)->0 as int) == accum.subrange(
                head_end(accum)->0 as int,
                answer.used as int,
            )
        }),
{
    lemma_head_end_from_is_first(accum, 0);
    let head_bytes = accum.take(head_end(accum)->0 as int);
    let head = decode_utf8(head_bytes);
    let method = request_method(head);
    let n = request_body_length(head);
    lemma_method_is_unbroken(head);
    lemma_length_fits(lines_of(head).skip(1));
    let text = response_head(method, n);
    reveal_strlit("\r\nConnection: close\r\n\r\n");
    assert(text.skip(text.len() - 4) =~= seq!['\r', '\n', '\r', '\n']);
    assert forall|j: int|
        #[trigger] line_break_at(text, j) && line_break_at(text, j + 2) implies j == text.len()
        - 4 by {
        lemma_head_ends_with_blank_line(method, n, j);
    }
    let answer = synthesized(accum)->0;
    let body = accum.subrange(head_end(accum)->0 as int, answer.used as int);
    lemma_unique_blank_line(text, body);
    assert(answer.response.skip(encode_utf8(text).len() as int) =~= body);
}

/// Lines, each with a line break behind it.
pub open spec fn crlf_lines(lines: Seq<Seq<char>>) -> Seq<char>
    decreases lines.len(),
{
    if lines.len() == 0 {
        Seq::empty()
    } else {
        lines[0] + seq!['\r', '\n'] + crlf_lines(lines.skip(1))
    }
}

/// Whether no line break stands in a line.
pub open spec fn is_line(line: Seq<char>) -> bool {
    forall|k: int|
        0 <= k && k + 2 <= line.len() ==> #[trigger] line.subrange(k, k + 2) != seq!['\r', '\n']
}

/// Whether lines can be the lines of a head: none holds a line break, and none but the first is
/// empty.
pub open spec fn are_head_lines(lines: Seq<Seq<char>>) -> bool {
    &&& lines.len() > 0
    &&& forall|i: int| 0 <= i < lines.len() ==> is_line(#[trigger] lines[i])
    &&& forall|i: int| 0 < i < lines.len() ==> (#[trigger] lines[i]).len() > 0
}

proof fn lemma_line_is_whole(line: Seq<char>)
    requires
        is_line(line),
    ensures
        unbroken(line),
{
    assert forall|k: int| !#[trigger] line_break_at(line, k) by {
        if line_break_at(line, k) {
            assert(line.subrange(k, k + 2) =~= seq!['\r', '\n']);
        }
    }
}

proof fn lemma_head_splits(lines: Seq<Seq<char>>)
    requires
        forall|i: int| 0 <= i < lines.len() ==> is_line(#[trigger] lines[i]),
    ensures
        lines_of(crlf_lines(lines) + seq!['\r', '\n']) == lines + seq![
            Seq::<char>::empty(),
            Seq::empty(),
        ],
    decreases lines.len(),
{
    let tail = seq!['\r', '\n'];
    let none = Seq::<char>::empty();
    if lines.len() == 0 {
        assert(crlf_lines(lines) + tail =~= with_line(none, none));
        lemma_first_line(none, none);
        lemma_lines_step(none);
        assert(lines_of(none) =~= seq![none]);
        assert(seq![none] + seq![none] =~= lines + seq![none, none]);
    } else {
        let rest = lines.skip(1);
        assert forall|i: int| 0 <= i < rest.len() implies is_line(#[trigger] rest[i]) by {
            assert(rest[i] == lines[i + 1]);
        }
        lemma_head_splits(rest);
        lemma_line_is_whole(lines[0]);
        assert(crlf_lines(lines) + tail =~= with_line(lines[0], crlf_lines(rest) + tail));
        lemma_first_line(lines[0], crlf_lines(rest) + tail);
        assert(seq![lines[0]] + (rest + seq![none, none]) =~= lines + seq![none, none]);
    }
}

proof fn lemma_only_blank_line(lines: Seq<Seq<char>>, j: int)
    requires
        are_head_lines(lines),
        line_break_at(crlf_lines(lines) + seq!['\r', '\n'], j),
        line_break_at(crlf_lines(lines) + seq!['\r', '\n'], j + 2),
    ensures
        j == crlf_lines(lines).len() - 2,
    decreases lines.len(),
{
    let tail = seq!['\r', '\n'];
    let first = lines[0];
    let rest = lines.skip(1);
    let behind = crlf_lines(rest) + tail;
    assert(is_line(lines[0]));
    lemma_line_is_whole(first);
    assert(crlf_lines(lines) + tail =~= with_line(first, behind));
    lemma_blank_line_is_later(first, behind, j);
    if rest.len() == 0 {
        assert(behind =~= tail);
    } else {
        assert(rest[0] == lines[1] && is_line(lines[1]) && lines[1].len() > 0);
        lemma_line_is_whole(rest[0]);
        assert(behind =~= with_line(rest[0], crlf_lines(rest.skip(1)) + tail));
        if j == first.len() {
            if rest[0].len() > 1 {
                assert(line_break_at(rest[0], 0));
            }
        }
        assert(are_head_lines(rest)) by {
            assert forall|i: int| 0 <= i < rest.len() implies is_line(#[trigger] rest[i]) by {
                assert(rest[i] == lines[i + 1]);
            }
            assert forall|i: int| 0 < i < rest.len() implies (#[trigger] rest[i]).len() > 0 by {
                assert(rest[i] == lines[i + 1]);
            }
        }
        lemma_only_blank_line(rest, j - first.len() - 2);
    }
}

proof fn lemma_crlf_lines_end(lines: Seq<Seq<char>>)
    requires
        lines.len() > 0,
    ensures
        crlf_lines(lines).len() >= 2,
        crlf_lines(lines).skip(crlf_lines(lines).len() - 2) == seq!['\r', '\n'],
    decreases lines.len(),
{
    let text = crlf_lines(lines);
    let rest = lines.skip(1);
    if rest.len() > 0 {
        lemma_crlf_lines_end(rest);
        let behind = crlf_lines(rest);
        assert(text.skip(text.len() - 2) =~= behind.skip(behind.len() - 2));
    } else {
        assert(crlf_lines(rest) =~= Seq::<char>::empty());
        assert(text.skip(text.len() - 2) =~= seq!['\r', '\n']);
    }
}

proof fn lemma_last_length_counts(lines: Seq<Seq<char>>, k: int, n: nat)
    requires
        0 <= k < lines.len(),
        line_length(lines[k]) == Some(n),
        forall|i: int| k < i < lines.len() ==> line_length(#[trigger] lines[i]) is None,
    ensures
        declared_length(lines) == n,
    decreases lines.len(),
{
    if k < lines.len() - 1 {
        let front = lines.drop_last();
        assert forall|i: int| k < i < front.len() implies line_length(
            #[trigger] front[i],
        ) is None by {
            assert(front[i] == lines[i]);
        }
        lemma_last_length_counts(front, k, n);
        assert(line_length(lines[lines.len() - 1]) is None);
    }
}

proof fn lemma_no_length_is_zero(lines: Seq<Seq<char>>)
    requires
        forall|i: int| 0 <= i < lines.len() ==> line_length(#[trigger] lines[i]) is None,
    ensures
        declared_length(lines) == 0,
    decreases lines.len(),
{
    if lines.len() > 0 {
        let front = lines.drop_last();
        assert forall|i: int| 0 <= i < front.len() implies line_length(
            #[trigger] front[i],
        ) is None by {
            assert(front[i] == lines[i]);
        }
        lemma_no_length_is_zero(front);
        assert(line_length(lines[lines.len() - 1]) is None);
    }
}

proof fn lemma_request_of_lines(lines: Seq<Seq<char>>, bytes: Seq<u8>, n: nat)
    requires
        are_head_lines(lines),
        declared_length(
            lines.skip(1) + seq![Seq::<char>::empty(), Seq::empty()],
        ) == n,
    ensures
        synthesized(encode_utf8(crlf_lines(lines) + seq!['\r', '\n']) + bytes) == if bytes.len()
            < n {
            None::<Answer>
        } else {
            Some(
                Answer {
                    response: encode_utf8(response_head(before(lines[0], ' '), n)) + bytes.take(
                        n as int,
                    ),
                    used: encode_utf8(crlf_lines(lines) + seq!['\r', '\n']).len() + n,
                },
            )
        },
{
    let text = crlf_lines(lines) + seq!['\r', '\n'];
    let head = encode_utf8(text);
    let all = head + bytes;
    lemma_head_splits(lines);
    lemma_crlf_lines_end(lines);
    let m = crlf_lines(lines).len();
    assert(text.skip(text.len() - 4) =~= seq!['\r', '\n', '\r', '\n']) by {
        let l = crlf_lines(lines).skip(m - 2);
        assert(l[0] == crlf_lines(lines)[m - 2] && l[1] == crlf_lines(lines)[m - 1]);
    }
    assert forall|j: int|
        #[trigger] line_break_at(text, j) && line_break_at(text, j + 2) implies j == text.len()
        - 4 by {
        lemma_only_blank_line(lines, j);
    }
    lemma_unique_blank_line(text, bytes);
    encode_utf8_valid_utf8(text);
    encode_utf8_decode_utf8(text);
    assert(all.take(head.len() as int) =~= head);
    let none = Seq::<char>::empty();
    assert((lines + seq![none, none]).skip(1) =~= lines.skip(1) + seq![none, none]);
    if bytes.len() >= n {
        assert(all.subrange(head.len() as int, (head.len() + n) as int) =~= bytes.take(n as int));
    }
}

/// The head of the answer, word for word.
pub proof fn law_answer_head(method: Seq<char>, n: nat)
    ensures
        response_head(method, n) == "HTTP/1.1 200 OK\r\n"@ + "Content-Length: "@ + decimal_text(n)
            + "\r\n"@ + "Content-Type: text/plain\r\n"@ + "Hello-Method: "@ + method + "\r\n"@
            + "Connection: close\r\n"@ + "\r\n"@,
{
    reveal_strlit("HTTP/1.1 200 OK\r\nContent-Length: ");
    reveal_strlit("\r\nContent-Type: text/plain\r\nHello-Method: ");
    reveal_strlit("\r\nConnection: close\r\n\r\n");
    reveal_strlit("HTTP/1.1 200 OK\r\n");
    reveal_strlit("Content-Length: ");
    reveal_strlit("\r\n");
    reveal_strlit("Content-Type: text/plain\r\n");
    reveal_strlit("Hello-Method: ");
    reveal_strlit("Connection: close\r\n");
    assert("HTTP/1.1 200 OK\r\nContent-Length: "@ =~= "HTTP/1.1 200 OK\r\n"@
        + "Content-Length: "@);
    assert("\r\nContent-Type: text/plain\r\nHello-Method: "@ =~= "\r\n"@
        + "Content-Type: text/plain\r\n"@ + "Hello-Method: "@);
    assert("\r\nConnection: close\r\n\r\n"@ =~= "\r\n"@ + "Connection: close\r\n"@ + "\r\n"@);
    assert(response_head(method, n) =~= "HTTP/1.1 200 OK\r\n"@ + "Content-Length: "@ + decimal_text(
        n,
    ) + "\r\n"@ + "Content-Type: text/plain\r\n"@ + "Hello-Method: "@ + method + "\r\n"@
        + "Connection: close\r\n"@ + "\r\n"@);
}

/// Whether a line starts with the name of the length field, in either spelling.
pub open spec fn names_length(line: Seq<char>) -> bool {
    "Content-Length:"@.is_prefix_of(line) || "content-length:"@.is_prefix_of(line)
}

proof fn lemma_length_of_line(line: Seq<char>, value: Seq<char>)
    ensures
        line_length("Content-Length:"@ + value) == Some(
            match parsed_usize(trimmed(value)) {
                Some(n) => n,
                None => 0,
            },
        ),
        line_length("content-length:"@ + value) == Some(
            match parsed_usize(trimmed(value)) {
                Some(n) => n,
                None => 0,
            },
        ),
        !names_length(line) ==> line_length(line) is None,
{
    reveal_strlit("Content-Length:");
    reveal_strlit("content-length:");
    let upper = "Content-Length:"@ + value;
    let lower = "content-length:"@ + value;
    assert(upper.take(15) =~= "Content-Length:"@);
    assert(upper.skip(15) =~= value);
    assert(lower.take(15) =~= "content-length:"@);
    assert(lower.skip(15) =~= value);
    assert(lower.take(15)[0] == 'c' && "Content-Length:"@[0] == 'C');
}

/// A request is answered by its bytes alone. Its first line up to the first blank is the method;
/// the last line that names the length declares it, a value that is no number as zero. Once that
/// many bytes stand behind the blank line, the answer is a head with the length and the method,
/// and then those bytes; the request takes its head and those bytes. Until then nothing is
/// answered.
pub proof fn law_request_is_answered(
    method: Seq<char>,
    target: Seq<char>,
    earlier: Seq<Seq<char>>,
    capital: bool,
    value: Seq<char>,
    later: Seq<Seq<char>>,
    bytes: Seq<u8>,
)
    requires
        forall|i: int| 0 <= i < method.len() ==> #[trigger] method[i] != ' ',
        target.len() == 0 || target[0] == ' ',
        is_line(method + target),
        forall|i: int| 0 <= i < earlier.len() ==> is_line(#[trigger] earlier[i]),
        forall|i: int| 0 <= i < earlier.len() ==> (#[trigger] earlier[i]).len() > 0,
        is_line(value),
        forall|i: int| 0 <= i < later.len() ==> is_line(#[trigger] later[i]),
        forall|i: int| 0 <= i < later.len() ==> (#[trigger] later[i]).len() > 0,
        forall|i: int| 0 <= i < later.len() ==> !names_length(#[trigger] later[i]),
    ensures
        ({
            let name = if capital {
                "Content-Length:"@
            } else {
                "content-length:"@
            };
            let head = encode_utf8(
                crlf_lines(seq![method + target] + earlier + seq![name + value] + later) + seq![
                    '\r',
                    '\n',
                ],
            );
            let n = match parsed_usize(trimmed(value)) {
                Some(n) => n,
                None => 0,
            };
            &&& bytes.len() < n ==> synthesized(head + bytes) is None
            &&& bytes.len() >= n ==> synthesized(head + bytes) == Some(
                Answer {
                    response: encode_utf8(
                        "HTTP/1.1 200 OK\r\n"@ + "Content-Length: "@ + decimal_text(n) + "\r\n"@
                            + "Content-Type: text/plain\r\n"@ + "Hello-Method: "@ + method
                            + "\r\n"@ + "Connection: close\r\n"@ + "\r\n"@,
                    ) + bytes.take(n as int),
                    used: head.len() + n,
                },
            )
        }),
{
    let name = if capital {
        "Content-Length:"@
    } else {
        "content-length:"@
    };
    let n = match parsed_usize(trimmed(value)) {
        Some(n) => n,
        None => 0,
    };
    reveal_strlit("Content-Length:");
    reveal_strlit("content-length:");
    let none = Seq::<char>::empty();
    let lines = seq![method + target] + earlier + seq![name + value] + later;
    let k = 1 + earlier.len();
    assert(is_line(name + value)) by {
        let line = name + value;
        assert forall|i: int| 0 <= i && i + 2 <= line.len() implies #[trigger] line.subrange(
            i,
            i + 2,
        ) != seq!['\r', '\n'] by {
            let two = line.subrange(i, i + 2);
            assert(two[0] == line[i] && two[1] == line[i + 1]);
            if two == seq!['\r', '\n'] {
                assert(two[0] == '\r');
                assert(i >= 15);
                assert(value.subrange(i - 15, i - 15 + 2) =~= two);
            }
        }
    }
    assert(are_head_lines(lines)) by {
        assert forall|i: int| 0 <= i < lines.len() implies is_line(#[trigger] lines[i]) && (i > 0
            ==> lines[i].len() > 0) by {
            if 0 < i < k {
                assert(lines[i] == earlier[i - 1]);
            } else if i > k {
                assert(lines[i] == later[i - k - 1]);
            }
        }
    }
    let fields = lines.skip(1) + seq![none, none];
    lemma_length_of_line(none, value);
    assert(fields[k - 1] == name + value);
    assert forall|i: int| k - 1 < i < fields.len() implies line_length(
        #[trigger] fields[i],
    ) is None by {
        if i < lines.len() - 1 {
            assert(fields[i] == later[i - k]);
            lemma_length_of_line(fields[i], value);
        } else {
            assert(!names_length(none));
            lemma_length_of_line(none, value);
        }
    }
    lemma_last_length_counts(fields, k - 1, n);
    lemma_request_of_lines(lines, bytes, n);
    law_answer_head(method, n);
    law_before_separator(method, target, ' ');
}

/// A request that declares no length has no body: it is answered once its head has ended.
pub proof fn law_request_without_length_is_answered(
    method: Seq<char>,
    target: Seq<char>,
    fields: Seq<Seq<char>>,
    bytes: Seq<u8>,
)
    requires
        forall|i: int| 0 <= i < method.len() ==> #[trigger] method[i] != ' ',
        target.len() == 0 || target[0] == ' ',
        is_line(method + target),
        forall|i: int| 0 <= i < fields.len() ==> is_line(#[trigger] fields[i]),
        forall|i: int| 0 <= i < fields.len() ==> (#[trigger] fields[i]).len() > 0,
        forall|i: int| 0 <= i < fields.len() ==> !names_length(#[trigger] fields[i]),
    ensures
        ({
            let head = encode_utf8(
                crlf_lines(seq![method + target] + fields) + seq!['\r', '\n'],
            );
            synthesized(head + bytes) == Some(
                Answer {
                    response: encode_utf8(
                        "HTTP/1.1 200 OK\r\n"@ + "Content-Length: "@ + decimal_text(0) + "\r\n"@
                            + "Content-Type: text/plain\r\n"@ + "Hello-Method: "@ + method
                            + "\r\n"@ + "Connection: close\r\n"@ + "\r\n"@,
                    ),
                    used: head.len(),
                },
            )
        }),
{
    reveal_strlit("Content-Length:");
    reveal_strlit("content-length:");
    let none = Seq::<char>::empty();
    let lines = seq![method + target] + fields;
    assert(are_head_lines(lines)) by {
        assert forall|i: int| 0 <= i < lines.len() implies is_line(#[trigger] lines[i]) && (i > 0
            ==> lines[i].len() > 0) by {
            if i > 0 {
                assert(lines[i] == fields[i - 1]);
            }
        }
    }
    let all = lines.skip(1) + seq![none, none];
    assert forall|i: int| 0 <= i < all.len() implies line_length(#[trigger] all[i]) is None by {
        if i < fields.len() {
            assert(all[i] == fields[i]);
        }
        lemma_length_of_line(all[i], none);
    }
    lemma_no_length_is_zero(all);
    lemma_request_of_lines(lines, bytes, 0);
    law_answer_head(method, 0);
    law_before_separator(method, target, ' ');
    let head = encode_utf8(response_head(method, 0));
    assert(head + bytes.take(0) =~= head);
}

/// Requests that stand one behind the other are answered one after the other, in order; what
/// follows the last complete one is left.
pub proof fn law_requests_are_answered_in_turn(accum: Seq<u8>)
    ensures
        synthesized(accum) is None ==> answers_of(accum).len() == 0 && unanswered(accum) == accum,
        synthesized(accum) matches Some(answer) ==> {
            let rest = accum.skip(answer.used as int);
            &&& answers_of(accum).len() == answers_of(rest).len() + 1
            &&& answers_of(accum)[0] == answer.response
            &&& answers_of(accum).skip(1) == answers_of(rest)
            &&& unanswered(accum) == unanswered(rest)
        },
{
    if let Some(answer) = synthesized(accum) {
        law_answered_request_shrinks_buffer(accum);
        let rest = accum.skip(answer.used as int);
        assert(answers_of(accum).skip(1) =~= answers_of(rest));
    }
}

/// Byte strings are listed as they are.
pub proof fn law_byte_strings_are_faithful(s: Seq<Vec<u8>>)
    ensures
        byte_strings(s).len() == s.len(),
        forall|i: int| 0 <= i < s.len() ==> #[trigger] byte_strings(s)[i] == s[i]@,
{
}

} // verus!
