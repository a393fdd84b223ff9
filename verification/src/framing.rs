//! Frames on the wire: a four-byte big-endian length, then that many bytes.

use vstd::prelude::*;

verus! {

/// The number that four bytes spell, the most significant one first.
pub open spec fn be32(s: Seq<u8>) -> nat
    recommends
        s.len() >= 4,
{
    (s[0] * 0x100_0000 + s[1] * 0x1_0000 + s[2] * 0x100 + s[3]) as nat
}

/// The four bytes of a number below 2^32, the most significant one first.
pub open spec fn be32_bytes(n: nat) -> Seq<u8>
    recommends
        n <= u32::MAX,
{
    seq![
        (n / 0x100_0000) as u8,
        (n / 0x1_0000 % 0x100) as u8,
        (n / 0x100 % 0x100) as u8,
        (n % 0x100) as u8,
    ]
}

/// `payload` as it goes over the wire.
pub open spec fn framed(payload: Seq<u8>) -> Seq<u8> {
    be32_bytes(payload.len()) + payload
}

/// Several payloads, one frame after the other.
pub open spec fn framed_all(payloads: Seq<Seq<u8>>) -> Seq<u8>
    decreases payloads.len(),
{
    if payloads.len() == 0 {
        Seq::empty()
    } else {
        framed(payloads[0]) + framed_all(payloads.skip(1))
    }
}

/// Whether `buf` starts with a complete frame.
pub open spec fn has_frame(buf: Seq<u8>) -> bool {
    4 <= buf.len() && 4 + be32(buf) <= buf.len()
}

/// The payload of the frame that `buf` starts with.
pub open spec fn first_payload(buf: Seq<u8>) -> Seq<u8>
    recommends
        has_frame(buf),
{
    buf.subrange(4, 4 + be32(buf) as int)
}

/// What follows the frame that `buf` starts with.
pub open spec fn after_frame(buf: Seq<u8>) -> Seq<u8>
    recommends
        has_frame(buf),
{
    buf.skip(4 + be32(buf) as int)
}

/// The payloads of the complete frames at the front of `buf`.
pub open spec fn payloads_of(buf: Seq<u8>) -> Seq<Seq<u8>>
    decreases buf.len(),
{
    if has_frame(buf) {
        seq![first_payload(buf)] + payloads_of(after_frame(buf))
    } else {
        Seq::empty()
    }
}

/// The payload of the frame that a buffer starts with, once it is complete. The buffer keeps
/// the frame.
pub fn peek_frame(buf: &Vec<u8>) -> (r: Option<Vec<u8>>)
    ensures
        r is Some <==> has_frame(buf@),
        r is Some ==> r->0@ == first_payload(buf@),
{
    if buf.len() < 4 {
        return None;
    }
    let length: u32 = (buf[0] as u32) * 0x100_0000 + (buf[1] as u32) * 0x1_0000 + (buf[2] as u32)
        * 0x100 + (buf[3] as u32);
    let n: usize = length as usize;
    if buf.len() - 4 < n {
        return None;
    }
    let payload = vstd::slice::slice_subrange(buf.as_slice(), 4, 4 + n);
    Some(vstd::slice::slice_to_vec(payload))
}

/// Takes a frame of that payload length off the front of a buffer.
pub fn drop_frame(buf: &mut Vec<u8>, payload_len: usize)
    requires
        has_frame(old(buf)@),
        payload_len == first_payload(old(buf)@).len(),
    ensures
        final(buf)@ == after_frame(old(buf)@),
{
    assert(4 + payload_len <= buf.len());
    let rest = buf.split_off(4 + payload_len);
    *buf = rest;
}

/// Puts a payload into a frame.
pub fn encode_frame(payload: &[u8]) -> (r: Vec<u8>)
    requires
        payload.len() <= u32::MAX,
    ensures
        r@ == framed(payload@),
        r@.len() == 4 + payload@.len(),
        r@.skip(4) == payload@,
        r@[0] * 0x100_0000 + r@[1] * 0x1_0000 + r@[2] * 0x100 + r@[3] == payload@.len(),
{
    let n: u32 = payload.len() as u32;
    let mut out: Vec<u8> = Vec::new();
    out.push((n / 0x100_0000) as u8);
    out.push((n / 0x1_0000 % 0x100) as u8);
    out.push((n / 0x100 % 0x100) as u8);
    out.push((n % 0x100) as u8);
    out.extend_from_slice(payload);
    assert(out@ =~= framed(payload@));
    proof {
        law_frame_layout(payload@);
    }
    out
}

/// A frame at the front of a buffer is read back as it was written, whatever follows it.
pub proof fn law_frame_round_trip(payload: Seq<u8>, rest: Seq<u8>)
    requires
        payload.len() <= u32::MAX,
    ensures
        has_frame(framed(payload) + rest),
        first_payload(framed(payload) + rest) == payload,
        after_frame(framed(payload) + rest) == rest,
{
    let n = payload.len();
    let buf = framed(payload) + rest;
    assert(be32(buf) == n);
    assert(first_payload(buf) =~= payload);
    assert(after_frame(buf) =~= rest);
}

/// More bytes behind a complete frame do not change it.
pub proof fn law_complete_frame_is_stable(buf: Seq<u8>, more: Seq<u8>)
    requires
        has_frame(buf),
    ensures
        has_frame(buf + more),
        first_payload(buf + more) == first_payload(buf),
        after_frame(buf + more) == after_frame(buf) + more,
{
    assert(be32(buf + more) == be32(buf));
    assert(first_payload(buf + more) =~= first_payload(buf));
    assert(after_frame(buf + more) =~= after_frame(buf) + more);
}

proof fn lemma_append_assoc(a: Seq<u8>, b: Seq<u8>, c: Seq<u8>)
    ensures
        (a + b) + c == a + (b + c),
{
    assert((a + b) + c =~= a + (b + c));
}

proof fn lemma_payloads_step(buf: Seq<u8>)
    requires
        has_frame(buf),
    ensures
        payloads_of(buf) == seq![first_payload(buf)] + payloads_of(after_frame(buf)),
{
}

/// Frames written one after the other are read back in order, with the start of a further one
/// left alone.
pub proof fn law_frames_round_trip(payloads: Seq<Seq<u8>>, rest: Seq<u8>)
    requires
        forall|i: int| 0 <= i < payloads.len() ==> (#[trigger] payloads[i]).len() <= u32::MAX,
        !has_frame(rest),
    ensures
        payloads_of(framed_all(payloads) + rest) == payloads,
    decreases payloads.len(),
{
    if payloads.len() == 0 {
        assert(framed_all(payloads) + rest =~= rest);
    } else {
        let tail = framed_all(payloads.skip(1)) + rest;
        let buf = framed_all(payloads) + rest;
        lemma_append_assoc(framed(payloads[0]), framed_all(payloads.skip(1)), rest);
        law_frame_round_trip(payloads[0], tail);
        assert forall|i: int| 0 <= i < payloads.skip(1).len() implies (#[trigger] payloads.skip(
            1,
        )[i]).len() <= u32::MAX by {
            assert(payloads.skip(1)[i] == payloads[i + 1]);
        }
        law_frames_round_trip(payloads.skip(1), rest);
        lemma_payloads_step(buf);
        assert(seq![payloads[0]] + payloads.skip(1) =~= payloads);
    }
}

/// A frame is the length of its payload in four bytes, the most significant one first, and then
/// the payload.
pub proof fn law_frame_layout(payload: Seq<u8>)
    requires
        payload.len() <= u32::MAX,
    ensures
        framed(payload).len() == 4 + payload.len(),
        framed(payload).skip(4) == payload,
        framed(payload)[0] * 0x100_0000 + framed(payload)[1] * 0x1_0000 + framed(payload)[2] * 0x100
            + framed(payload)[3] == payload.len(),
{
    assert(framed(payload).skip(4) =~= payload);
}

/// A buffer starts with a complete frame exactly where the four length bytes are there and as
/// many bytes as they count follow; those are the payload, and what follows them is the rest.
pub proof fn law_frame_is_read_by_its_length(buf: Seq<u8>)
    ensures
        ({
            let n = buf[0] * 0x100_0000 + buf[1] * 0x1_0000 + buf[2] * 0x100 + buf[3];
            &&& has_frame(buf) <==> buf.len() >= 4 && buf.len() >= 4 + n
            &&& has_frame(buf) ==> first_payload(buf) == buf.subrange(4, 4 + n) && after_frame(buf)
                == buf.skip(4 + n)
        }),
{
}

} // verus!
