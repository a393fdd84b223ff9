//! The Noise channel: the two states of `enclavia_protocol` and the calls that the responder
//! makes on them.

use enclavia_protocol::{NoiseHandshake, NoiseTransport};
use vstd::prelude::*;

verus! {

/// The handshake state of `enclavia_protocol`.
#[verifier::external_type_specification]
#[verifier::external_body]
pub struct ExNoiseHandshake(NoiseHandshake);

/// The transport state of `enclavia_protocol`.
#[verifier::external_type_specification]
#[verifier::external_body]
pub struct ExNoiseTransport(NoiseTransport);

/// The longest message of the Noise protocol.
pub const NOISE_MAX_PAYLOAD: usize = 65535;

/// The bytes that encryption adds to a message.
pub const TAG_LEN: usize = 16;

/// The bytes of a public key.
pub const KEY_LEN: usize = 32;

/// What a responder's handshake has taken from its peer and sent to it so far.
pub struct Transcript {
    pub received: Option<Seq<u8>>,
    pub sent: Option<Seq<u8>>,
}

/// What a transport holds: for each direction the cipher's key and the number of messages that
/// have gone through it.
pub struct NoiseSession {
    pub receive_key: Seq<u8>,
    pub receive_count: nat,
    pub send_key: Seq<u8>,
    pub send_count: nat,
}

/// The transcript that a handshake state holds.
pub uninterp spec fn handshake_transcript(handshake: NoiseHandshake) -> Transcript;

/// The handshake hash of `Noise_NN_25519_ChaChaPoly_BLAKE2s` over the message of the initiator
/// and that of the responder.
pub uninterp spec fn transcript_hash(received: Seq<u8>, sent: Seq<u8>) -> Seq<u8>;

/// The session that a finished handshake leads to: the keys that its Diffie-Hellman exchange
/// gave, with no message sent or received under them.
pub uninterp spec fn handshake_session(handshake: NoiseHandshake) -> NoiseSession;

/// The session that a transport state holds.
pub uninterp spec fn noise_session(transport: NoiseTransport) -> NoiseSession;

/// ChaCha20-Poly1305 encryption under a key and a message counter.
pub uninterp spec fn sealed(key: Seq<u8>, count: nat, payload: Seq<u8>) -> Seq<u8>;

/// ChaCha20-Poly1305 decryption under a key and a message counter; none where the message does
/// not authenticate.
pub uninterp spec fn opened(key: Seq<u8>, count: nat, message: Seq<u8>) -> Option<Seq<u8>>;

/// Starts a handshake as the responder.
///
/// Calls `enclavia_protocol::NoiseHandshake::responder`. Claims that it succeeds, and that
/// nothing has been received or sent yet.
#[verifier::external_body]
pub(crate) fn new_responder() -> (r: Result<NoiseHandshake, String>)
    ensures
        r is Ok,
        handshake_transcript(r->Ok_0) == (Transcript { received: None, sent: None }),
{
    NoiseHandshake::responder().map_err(|e| e.to_string())
}

/// Takes the initiator's message.
///
/// Calls `enclavia_protocol::NoiseHandshake::read_message`. Claims, of a fresh handshake, that
/// it succeeds exactly on a message that holds a public key, keeps to the Noise limit and
/// leaves a payload that fits into `payload`. The payload is what follows the public key, in
/// the clear. Nothing is claimed of the error's text.
#[verifier::external_body]
pub(crate) fn read_handshake(
    handshake: &mut NoiseHandshake,
    message: &[u8],
    payload: &mut Vec<u8>,
) -> (r: Result<usize, String>)
    requires
        handshake_transcript(*old(handshake)) == (Transcript { received: None, sent: None }),
    ensures
        final(payload)@.len() == old(payload)@.len(),
        r is Ok <==> KEY_LEN <= message@.len() <= NOISE_MAX_PAYLOAD && message@.len() <= KEY_LEN
            + old(payload)@.len(),
        r is Ok ==> r->Ok_0 + KEY_LEN == message@.len(),
        r is Ok ==> final(payload)@.take(r->Ok_0 as int) == message@.skip(KEY_LEN as int),
        r is Ok ==> handshake_transcript(*final(handshake)) == (Transcript {
            received: Some(message@),
            sent: None,
        }),
{
    handshake.read_message(message, payload).map_err(|e| e.to_string())
}

/// Writes the responder's message.
///
/// Calls `enclavia_protocol::NoiseHandshake::write_message`. Claims, once the initiator's
/// message has been taken, that it succeeds exactly where public key, payload and tag keep to
/// the Noise limit and fit into `message`. The public key is drawn at random, so nothing is
/// claimed of the bytes but their number and that the transcript records them.
#[verifier::external_body]
pub(crate) fn write_handshake(
    handshake: &mut NoiseHandshake,
    payload: &[u8],
    message: &mut Vec<u8>,
) -> (r: Result<usize, String>)
    requires
        handshake_transcript(*old(handshake)).received is Some,
        handshake_transcript(*old(handshake)).sent is None,
    ensures
        final(message)@.len() == old(message)@.len(),
        r is Ok <==> KEY_LEN + payload@.len() + TAG_LEN <= NOISE_MAX_PAYLOAD && KEY_LEN
            + payload@.len() + TAG_LEN <= old(message)@.len(),
        r is Ok ==> r->Ok_0 == KEY_LEN + payload@.len() + TAG_LEN,
        r is Ok ==> handshake_transcript(*final(handshake)) == (Transcript {
            received: handshake_transcript(*old(handshake)).received,
            sent: Some(final(message)@.take(r->Ok_0 as int)),
        }),
{
    handshake.write_message(payload, message).map_err(|e| e.to_string())
}

/// The handshake hash of a finished handshake.
///
/// Calls `enclavia_protocol::NoiseHandshake::get_handshake_hash`. Claims that the hash is a
/// function of the two messages alone, of 32 bytes.
#[verifier::external_body]
pub(crate) fn hash_of_handshake(handshake: &NoiseHandshake) -> (r: Vec<u8>)
    requires
        handshake_transcript(*handshake).received is Some,
        handshake_transcript(*handshake).sent is Some,
    ensures
        r@ == transcript_hash(
            handshake_transcript(*handshake).received->0,
            handshake_transcript(*handshake).sent->0,
        ),
        r@.len() == 32,
{
    handshake.get_handshake_hash().to_vec()
}

/// Turns a finished handshake into a transport.
///
/// Calls `enclavia_protocol::NoiseHandshake::into_transport_mode`. Claims that it succeeds, that
/// the session is the one that this handshake leads to, and that no message has gone through
/// it yet. What the keys are is left unsaid: the exchange had a random key.
#[verifier::external_body]
pub(crate) fn into_transport(handshake: NoiseHandshake) -> (r: Result<NoiseTransport, String>)
    requires
        handshake_transcript(handshake).received is Some,
        handshake_transcript(handshake).sent is Some,
    ensures
        r is Ok,
        noise_session(r->Ok_0) == handshake_session(handshake),
        noise_session(r->Ok_0).receive_count == 0,
        noise_session(r->Ok_0).send_count == 0,
{
    handshake.into_transport_mode().map_err(|e| e.to_string())
}

/// The session after one more message was received.
pub open spec fn after_receive(s: NoiseSession) -> NoiseSession {
    NoiseSession { receive_count: s.receive_count + 1, ..s }
}

/// The session after one more message was sent.
pub open spec fn after_send(s: NoiseSession) -> NoiseSession {
    NoiseSession { send_count: s.send_count + 1, ..s }
}

/// The payload of the next message that a session receives, where it takes it.
pub open spec fn received_payload(s: NoiseSession, message: Seq<u8>) -> Option<Seq<u8>> {
    if TAG_LEN <= message.len() <= NOISE_MAX_PAYLOAD && s.receive_count < u64::MAX {
        opened(s.receive_key, s.receive_count, message)
    } else {
        None
    }
}

/// The next message that a session sends for a payload, where it can.
pub open spec fn sent_message(s: NoiseSession, payload: Seq<u8>) -> Option<Seq<u8>> {
    if payload.len() + TAG_LEN <= NOISE_MAX_PAYLOAD && s.send_count < u64::MAX {
        Some(sealed(s.send_key, s.send_count, payload))
    } else {
        None
    }
}

/// Decrypts the next message of the peer into `payload`.
///
/// Calls `enclavia_protocol::NoiseTransport::read_message`. Claims that the outcome is a
/// function of the receiving key, the receiving counter and the message: a message that is
/// taken counts, one that is refused does not. Nothing is claimed of the error's text, nor of
/// `payload` beyond the decrypted bytes.
#[verifier::external_body]
pub(crate) fn read_transport(
    transport: &mut NoiseTransport,
    message: &[u8],
    payload: &mut Vec<u8>,
) -> (r: Result<usize, String>)
    requires
        message@.len() <= old(payload)@.len() + TAG_LEN || message@.len() > NOISE_MAX_PAYLOAD,
    ensures
        final(payload)@.len() == old(payload)@.len(),
        r is Ok <==> received_payload(noise_session(*old(transport)), message@) is Some,
        r is Ok ==> r->Ok_0 + TAG_LEN == message@.len(),
        r is Ok ==> Some(final(payload)@.take(r->Ok_0 as int)) == received_payload(
            noise_session(*old(transport)),
            message@,
        ),
        r is Ok ==> noise_session(*final(transport)) == after_receive(
            noise_session(*old(transport)),
        ),
        r is Err ==> noise_session(*final(transport)) == noise_session(*old(transport)),
{
    transport.read_message(message, payload).map_err(|e| e.to_string())
}

/// Encrypts the next message to the peer into `message`.
///
/// Calls `enclavia_protocol::NoiseTransport::write_message`. Claims that the outcome is a
/// function of the sending key, the sending counter and the payload, that the message is the
/// payload's length and a tag long, and that decryption under the same key and counter gives
/// the payload back. Nothing is claimed of the error's text.
#[verifier::external_body]
pub(crate) fn write_transport(
    transport: &mut NoiseTransport,
    payload: &[u8],
    message: &mut Vec<u8>,
) -> (r: Result<usize, String>)
    requires
        old(message)@.len() >= NOISE_MAX_PAYLOAD,
    ensures
        final(message)@.len() == old(message)@.len(),
        r is Ok <==> sent_message(noise_session(*old(transport)), payload@) is Some,
        r is Ok ==> r->Ok_0 == payload@.len() + TAG_LEN,
        r is Ok ==> final(message)@.take(r->Ok_0 as int) == sealed(
            noise_session(*old(transport)).send_key,
            noise_session(*old(transport)).send_count,
            payload@,
        ),
        r is Ok ==> opened(
            noise_session(*old(transport)).send_key,
            noise_session(*old(transport)).send_count,
            final(message)@.take(r->Ok_0 as int),
        ) == Some(payload@),
        r is Ok ==> noise_session(*final(transport)) == after_send(
            noise_session(*old(transport)),
        ),
        r is Err ==> noise_session(*final(transport)) == noise_session(*old(transport)),
{
    transport.write_message(payload, message).map_err(|e| e.to_string())
}

/// The limits of a session: a ciphertext has a tag of 16 bytes and at most 65535 bytes in all, and
/// a counter is used once. Receiving and sending each move their own counter by one, and nothing
/// else.
pub proof fn law_session_limits(s: NoiseSession, bytes: Seq<u8>)
    ensures
        received_payload(s, bytes) == if 16 <= bytes.len() <= 65535 && s.receive_count < u64::MAX {
            opened(s.receive_key, s.receive_count, bytes)
        } else {
            None
        },
        sent_message(s, bytes) is Some <==> bytes.len() <= 65519 && s.send_count < u64::MAX,
        sent_message(s, bytes) matches Some(message) ==> message == sealed(
            s.send_key,
            s.send_count,
            bytes,
        ),
        after_receive(s).receive_count == s.receive_count + 1,
        after_receive(s).send_count == s.send_count,
        after_receive(s).receive_key == s.receive_key,
        after_receive(s).send_key == s.send_key,
        after_send(s).send_count == s.send_count + 1,
        after_send(s).receive_count == s.receive_count,
        after_send(s).receive_key == s.receive_key,
        after_send(s).send_key == s.send_key,
{
}

} // verus!
