//! In-process responder: speaks Noise NN, CBOR and the stream envelope, and echoes.
//!
//! `OpenStream` opens a stream; every following `StreamData` for it comes back as a `StreamData`
//! with the same bytes, or, in HTTP mode, with an answer to each complete request.
//!
//! The responder does no I/O. Its caller hands it what the socket delivered and sends what it
//! is told to send.

use crate::framing::{
    after_frame, drop_frame, encode_frame, first_payload, framed, framed_all, has_frame,
    law_complete_frame_is_stable, law_frame_round_trip, peek_frame,
};
use crate::http_echo::{
    answer_requests, answers_of, byte_strings, law_answers_join, law_no_complete_request_is_left,
    synthesized, unanswered,
};
use crate::message::{
    attestation_document, cbor_client_message, cbor_server_message, decode_client_message,
    encode_server_message, fake_attestation, ClientMessage, ClientMessageView, ServerMessage,
    ServerMessageView,
};
use crate::noise::{
    after_receive, after_send, handshake_session, handshake_transcript, hash_of_handshake,
    into_transport, new_responder, noise_session, opened, read_handshake, read_transport,
    received_payload, sealed, sent_message, transcript_hash, write_handshake, write_transport,
    NoiseSession, Transcript, KEY_LEN, NOISE_MAX_PAYLOAD, TAG_LEN,
};
use crate::text::same_text;
use enclavia_protocol::{NoiseHandshake, NoiseTransport};
use vstd::prelude::*;
use vstd::string::*;

verus! {

/// The seed of the measurements in the responder's attestation document.
pub const PCR_SEED: u8 = 0x42;

/// What the responder does with the bytes of a stream.
#[derive(Clone, Copy, Debug, PartialEq, Eq, Structural)]
pub enum ResponderMode {
    /// Sends them back as they are.
    Echo,
    /// Answers each HTTP request among them.
    HttpEcho,
}

impl ResponderMode {
    /// The mode with that name; HTTP for any name but `echo`.
    pub fn from_name(name: &str) -> (r: ResponderMode)
        ensures
            r == if name@ == "echo"@ {
                ResponderMode::Echo
            } else {
                ResponderMode::HttpEcho
            },
    {
        if same_text(name, "echo") {
            ResponderMode::Echo
        } else {
            ResponderMode::HttpEcho
        }
    }
}

/// Why a connection ended early. Each variant carries the text of the error behind it.
#[derive(Debug)]
pub enum ResponderError {
    /// The Noise handshake failed.
    Handshake(String),
    /// A frame could not be decrypted.
    Open(String),
    /// A decrypted frame is no client message.
    Decode(String),
    /// A reply could not be encoded.
    Encode(String),
    /// A reply could not be encrypted.
    Seal(String),
}

impl ResponderError {
    /// The text of the error.
    pub open spec fn text(&self) -> Seq<char> {
        match *self {
            ResponderError::Handshake(text) => text@,
            ResponderError::Open(text) => text@,
            ResponderError::Decode(text) => text@,
            ResponderError::Encode(text) => text@,
            ResponderError::Seal(text) => text@,
        }
    }

    /// The text of the error.
    pub fn message(&self) -> (r: &str)
        ensures
            r@ == self.text(),
            *self matches ResponderError::Handshake(text) ==> r@ == text@,
            *self matches ResponderError::Open(text) ==> r@ == text@,
            *self matches ResponderError::Decode(text) ==> r@ == text@,
            *self matches ResponderError::Encode(text) ==> r@ == text@,
            *self matches ResponderError::Seal(text) ==> r@ == text@,
    {
        match self {
            ResponderError::Handshake(text) => text.as_str(),
            ResponderError::Open(text) => text.as_str(),
            ResponderError::Decode(text) => text.as_str(),
            ResponderError::Encode(text) => text.as_str(),
            ResponderError::Seal(text) => text.as_str(),
        }
    }
}

/// The decrypted side of a connection: which stream is open and what has arrived on it.
#[derive(Debug)]
pub struct Conversation {
    pub mode: ResponderMode,
    pub handshake_hash: Vec<u8>,
    pub open_id: Option<u64>,
    pub http_accum: Vec<u8>,
}

/// A conversation with byte strings as sequences.
#[verifier::ext_equal]
pub struct ConversationView {
    pub mode: ResponderMode,
    pub handshake_hash: Seq<u8>,
    pub open_id: Option<u64>,
    pub http_accum: Seq<u8>,
}

impl View for Conversation {
    type V = ConversationView;

    open spec fn view(&self) -> ConversationView {
        ConversationView {
            mode: self.mode,
            handshake_hash: self.handshake_hash@,
            open_id: self.open_id,
            http_accum: self.http_accum@,
        }
    }
}

/// What a client message is answered with, in order, and whether the connection ends then.
#[derive(Debug)]
pub struct Reply {
    pub messages: Vec<ServerMessage>,
    pub close: bool,
}

/// What a client message does to a conversation.
#[verifier::ext_equal]
pub struct Exchange {
    pub next: ConversationView,
    pub replies: Seq<ServerMessageView>,
    pub close: bool,
}

/// The 32 zero bytes that stand for the control nonce.
pub open spec fn zero_nonce() -> Seq<u8> {
    Seq::new(32, |i: int| 0u8)
}

/// Chunks of bytes that a client sends on a stream.
pub open spec fn sent_on(id: u64, payloads: Seq<Seq<u8>>) -> Seq<ClientMessageView> {
    payloads.map_values(|payload: Seq<u8>| ClientMessageView::StreamData { id, payload })
}

/// Chunks of bytes that the responder sends on a stream.
pub open spec fn received_on(id: u64, payloads: Seq<Seq<u8>>) -> Seq<ServerMessageView> {
    payloads.map_values(|payload: Seq<u8>| ServerMessageView::StreamData { id, payload })
}

/// What a client message does to a conversation.
pub open spec fn exchanged(c: ConversationView, message: ClientMessageView) -> Exchange {
    let silent = Exchange { next: c, replies: Seq::empty(), close: false };
    match message {
        ClientMessageView::RequestAttestation => Exchange {
            replies: seq![
                ServerMessageView::Attestation {
                    data: attestation_document(PCR_SEED, c.handshake_hash),
                    control_nonce: zero_nonce(),
                },
            ],
            ..silent
        },
        ClientMessageView::OpenStream { id, .. } => Exchange {
            next: ConversationView { open_id: Some(id), ..c },
            ..silent
        },
        ClientMessageView::StreamData { id, payload } => if c.open_id != Some(id) {
            silent
        } else {
            match c.mode {
                ResponderMode::Echo => Exchange {
                    replies: seq![ServerMessageView::StreamData { id, payload }],
                    ..silent
                },
                ResponderMode::HttpEcho => Exchange {
                    next: ConversationView { http_accum: unanswered(c.http_accum + payload), ..c },
                    replies: received_on(id, answers_of(c.http_accum + payload)),
                    close: false,
                },
            }
        },
        ClientMessageView::StreamClose { id, .. } => Exchange {
            replies: seq![ServerMessageView::StreamClose { id }],
            close: true,
            ..silent
        },
        _ => silent,
    }
}

/// Server messages as views.
pub open spec fn message_views(messages: Seq<ServerMessage>) -> Seq<ServerMessageView> {
    messages.map_values(|m: ServerMessage| m@)
}

/// A reply of one message.
fn reply_with(message: ServerMessage, close: bool) -> (r: Reply)
    ensures
        message_views(r.messages@) == seq![message@],
        r.messages@ == seq![message],
        r.close == close,
{
    let mut messages: Vec<ServerMessage> = Vec::new();
    messages.push(message);
    assert(message_views(messages@) =~= seq![message@]);
    Reply { messages, close }
}

/// No reply.
fn no_reply() -> (r: Reply)
    ensures
        message_views(r.messages@) == Seq::<ServerMessageView>::empty(),
        r.messages@.len() == 0,
        !r.close,
{
    let messages: Vec<ServerMessage> = Vec::new();
    assert(message_views(messages@) =~= Seq::<ServerMessageView>::empty());
    Reply { messages, close: false }
}

/// One message with stream data for each of several byte strings, in order.
fn stream_data(id: u64, payloads: Vec<Vec<u8>>) -> (r: Vec<ServerMessage>)
    ensures
        message_views(r@) == received_on(id, byte_strings(payloads@)),
{
    let ghost all = byte_strings(payloads@);
    let mut r: Vec<ServerMessage> = Vec::new();
    let mut i: usize = 0;
    assert(message_views(r@) =~= received_on(id, all.take(0)));
    while i < payloads.len()
        invariant
            i <= payloads.len(),
            all == byte_strings(payloads@),
            message_views(r@) == received_on(id, all.take(i as int)),
        decreases payloads.len() - i,
    {
        let ghost before = r@;
        let payload = payloads[i].clone();
        assert(payload@ =~= payloads@[i as int]@);
        r.push(ServerMessage::StreamData { id, payload });
        assert(message_views(r@) =~= message_views(before).push(
            ServerMessageView::StreamData { id, payload: all[i as int] },
        ));
        assert(received_on(id, all.take(i + 1)) =~= received_on(id, all.take(i as int)).push(
            ServerMessageView::StreamData { id, payload: all[i as int] },
        ));
        i = i + 1;
    }
    assert(all.take(payloads.len() as int) =~= all);
    r
}

impl Conversation {
    /// A conversation in which no stream is open yet.
    pub fn new(mode: ResponderMode, handshake_hash: Vec<u8>) -> (r: Conversation)
        ensures
            r@ == (ConversationView {
                mode,
                handshake_hash: handshake_hash@,
                open_id: None,
                http_accum: Seq::empty(),
            }),
            r.mode == mode,
            r.handshake_hash == handshake_hash,
            r.open_id is None,
            r.http_accum@.len() == 0,
    {
        Conversation { mode, handshake_hash, open_id: None, http_accum: Vec::new() }
    }

    /// Takes a client message and says what to answer.
    ///
    /// An attestation request is answered with a document bound to the handshake. `OpenStream`
    /// makes its stream the open one. Stream data for another stream is dropped; for the open
    /// one it is echoed, or every request that is now complete is answered, in order.
    /// `StreamClose` is acknowledged and ends the connection. Every other message is ignored.
    pub fn handle(&mut self, message: ClientMessage) -> (r: Reply)
        ensures
            final(self)@ == exchanged(old(self)@, message@).next,
            message_views(r.messages@) == exchanged(old(self)@, message@).replies,
            r.close == exchanged(old(self)@, message@).close,
            r.close <==> message is StreamClose,
            final(self).mode == old(self).mode,
            final(self).handshake_hash@ == old(self).handshake_hash@,
            message matches ClientMessage::OpenStream { id, .. } ==> final(self).open_id == Some(
                id,
            ),
            message !is OpenStream ==> final(self).open_id == old(self).open_id,
            message !is StreamData ==> final(self).http_accum@ == old(self).http_accum@,
            message is Data || message is Control || message is GetControlNonce
                || message is OpenStream ==> r.messages@.len() == 0,
            message is RequestAttestation ==> {
                &&& r.messages@.len() == 1
                &&& r.messages@[0] matches ServerMessage::Attestation { data, control_nonce }
                    && data@ == attestation_document(0x42u8, old(self).handshake_hash@) && (forall|
                    i: int,
                |
                    0 <= i < 32 ==> #[trigger] control_nonce@[i] == 0u8)
            },
            message matches ClientMessage::StreamClose { id, .. } ==> {
                &&& r.messages@.len() == 1
                &&& r.messages@[0] == ServerMessage::StreamClose { id }
            },
            message matches ClientMessage::StreamData { id, payload } ==> {
                &&& old(self).open_id != Some(id) ==> {
                    &&& r.messages@.len() == 0
                    &&& final(self).http_accum@ == old(self).http_accum@
                }
                &&& old(self).open_id == Some(id) && old(self).mode == ResponderMode::Echo ==> {
                    &&& r.messages@.len() == 1
                    &&& r.messages@[0] == ServerMessage::StreamData { id, payload }
                    &&& final(self).http_accum@ == old(self).http_accum@
                }
                &&& old(self).open_id == Some(id) && old(self).mode == ResponderMode::HttpEcho ==> {
                    let all = old(self).http_accum@ + payload@;
                    &&& final(self).http_accum@ == unanswered(all)
                    &&& r.messages@.len() == answers_of(all).len()
                    &&& forall|i: int|
                        0 <= i < r.messages@.len() ==> (#[trigger] r.messages@[i])@ == (
                        ServerMessageView::StreamData { id, payload: answers_of(all)[i] })
                }
            },
    {
        match message {
            ClientMessage::RequestAttestation => {
                let data = fake_attestation(PCR_SEED, self.handshake_hash.as_slice());
                let control_nonce: [u8; 32] = [0u8; 32];
                assert(control_nonce@ =~= zero_nonce());
                reply_with(ServerMessage::Attestation { data, control_nonce }, false)
            },
            ClientMessage::OpenStream { id, payload } => {
                self.open_id = Some(id);
                no_reply()
            },
            ClientMessage::StreamData { id, payload } => {
                let open = match self.open_id {
                    Some(open_id) => open_id == id,
                    None => false,
                };
                if !open {
                    return no_reply();
                }
                match self.mode {
                    ResponderMode::Echo => reply_with(
                        ServerMessage::StreamData { id, payload },
                        false,
                    ),
                    ResponderMode::HttpEcho => {
                        self.http_accum.extend_from_slice(payload.as_slice());
                        assert(self.http_accum@ =~= old(self).http_accum@ + payload@);
                        let answers = answer_requests(&mut self.http_accum);
                        let messages = stream_data(id, answers);
                        proof {
                            let views = message_views(messages@);
                            assert(views.len() == messages@.len());
                            assert forall|i: int| 0 <= i < messages@.len() implies (
                            #[trigger] messages@[i])@ == (ServerMessageView::StreamData {
                                id,
                                payload: answers_of(old(self).http_accum@ + payload@)[i],
                            }) by {
                                assert(views[i] == messages@[i]@);
                            }
                        }
                        Reply { messages, close: false }
                    },
                }
            },
            ClientMessage::StreamClose { id, both } => reply_with(
                ServerMessage::StreamClose { id },
                true,
            ),
            _ => no_reply(),
        }
    }
}

/// What a socket delivered.
#[derive(Debug)]
pub enum SocketEvent {
    /// A binary message.
    Binary(Vec<u8>),
    /// A close message, or the end of the stream.
    Closed,
    /// Any other message.
    Other,
}

/// What to do with a socket event before the handshake.
#[derive(Debug)]
pub enum Opening {
    /// Start the handshake with these bytes.
    Begin(Vec<u8>),
    /// Give up: the peer is gone.
    Abort,
    /// Wait for the next event.
    Wait,
}

/// Says what to do with a socket event before the handshake: the first binary message opens
/// it, and a close before that gives up.
pub fn opening_of(event: SocketEvent) -> (r: Opening)
    ensures
        match event {
            SocketEvent::Binary(bytes) => r == Opening::Begin(bytes),
            SocketEvent::Closed => r is Abort,
            SocketEvent::Other => r is Wait,
        },
{
    match event {
        SocketEvent::Binary(bytes) => Opening::Begin(bytes),
        SocketEvent::Closed => Opening::Abort,
        SocketEvent::Other => Opening::Wait,
    }
}

/// A connection after its handshake.
pub struct Responder {
    pub conversation: Conversation,
    pub transport: NoiseTransport,
    pub accum: Vec<u8>,
}

/// A connection with byte strings as sequences and the transport as its session.
#[verifier::ext_equal]
pub struct ResponderView {
    pub conversation: ConversationView,
    pub session: NoiseSession,
    pub accum: Seq<u8>,
}

impl View for Responder {
    type V = ResponderView;

    open spec fn view(&self) -> ResponderView {
        ResponderView {
            conversation: self.conversation@,
            session: noise_session(self.transport),
            accum: self.accum@,
        }
    }
}

/// How a step ended.
#[derive(Debug)]
pub enum StepEnd {
    /// There is no complete frame: wait for more bytes.
    NeedInput,
    /// A frame was handled: take the next step.
    Continue,
    /// The connection is to be closed.
    Close,
    /// The connection failed.
    Failed(ResponderError),
}

/// What the caller has to do: send these frames, one message each, in order, and go on as the
/// end says.
#[derive(Debug)]
pub struct Step {
    pub frames: Vec<Vec<u8>>,
    pub end: StepEnd,
}

/// How a step ended, with a failure as the place where it occurred.
#[verifier::ext_equal]
pub enum EndView {
    NeedInput,
    Continue,
    Close,
    OpenFailed,
    DecodeFailed,
    EncodeFailed,
    SealFailed,
}

/// What a step does to a connection.
#[verifier::ext_equal]
pub struct Stepped {
    pub next: ResponderView,
    pub frames: Seq<Seq<u8>>,
    pub end: EndView,
}

/// What sending messages does to a session: the frames that go out before the first failure.
#[verifier::ext_equal]
pub struct Delivered {
    pub session: NoiseSession,
    pub frames: Seq<Seq<u8>>,
    pub failure: Option<EndView>,
}

/// Sending server messages in order: each encoded, encrypted, framed. A failure ends it.
pub open spec fn delivered(session: NoiseSession, messages: Seq<ServerMessageView>) -> Delivered
    decreases messages.len(),
{
    if messages.len() == 0 {
        Delivered { session, frames: Seq::empty(), failure: None }
    } else {
        let before = delivered(session, messages.drop_last());
        if before.failure is Some {
            before
        } else {
            match cbor_server_message(messages.last()) {
                None => Delivered { failure: Some(EndView::EncodeFailed), ..before },
                Some(cbor) => match sent_message(before.session, cbor) {
                    None => Delivered { failure: Some(EndView::SealFailed), ..before },
                    Some(ciphertext) => Delivered {
                        session: after_send(before.session),
                        frames: before.frames.push(framed(ciphertext)),
                        failure: None,
                    },
                },
            }
        }
    }
}

/// Handling the next frame of a connection, where one is complete: decrypted, decoded,
/// answered.
pub open spec fn stepped(v: ResponderView) -> Stepped {
    let quiet = Stepped { next: v, frames: Seq::empty(), end: EndView::NeedInput };
    if !has_frame(v.accum) {
        quiet
    } else {
        match received_payload(v.session, first_payload(v.accum)) {
            None => Stepped { end: EndView::OpenFailed, ..quiet },
            Some(plain) => {
                let taken = ResponderView {
                    session: after_receive(v.session),
                    accum: after_frame(v.accum),
                    ..v
                };
                match cbor_client_message(plain) {
                    None => Stepped { next: taken, end: EndView::DecodeFailed, ..quiet },
                    Some(message) => {
                        let exchange = exchanged(v.conversation, message);
                        let out = delivered(taken.session, exchange.replies);
                        Stepped {
                            next: ResponderView {
                                conversation: exchange.next,
                                session: out.session,
                                ..taken
                            },
                            frames: out.frames,
                            end: match out.failure {
                                Some(failure) => failure,
                                None => if exchange.close {
                                    EndView::Close
                                } else {
                                    EndView::Continue
                                },
                            },
                        }
                    },
                }
            },
        }
    }
}

impl StepEnd {
    /// The end without the text of a failure; none for a failed handshake, which no step has.
    pub open spec fn place(&self) -> Option<EndView> {
        match *self {
            StepEnd::NeedInput => Some(EndView::NeedInput),
            StepEnd::Continue => Some(EndView::Continue),
            StepEnd::Close => Some(EndView::Close),
            StepEnd::Failed(e) => e.place(),
        }
    }
}

impl ResponderError {
    /// Where in a step the failure occurred.
    pub open spec fn place(&self) -> Option<EndView> {
        match *self {
            ResponderError::Open(_) => Some(EndView::OpenFailed),
            ResponderError::Decode(_) => Some(EndView::DecodeFailed),
            ResponderError::Encode(_) => Some(EndView::EncodeFailed),
            ResponderError::Seal(_) => Some(EndView::SealFailed),
            ResponderError::Handshake(_) => None,
        }
    }
}

/// Whether `frame` is one whole frame that the peer of a session decrypts to the encoding of
/// `message`, as the message with that counter. It is as long as the encoding, a tag and the
/// frame's length field, and keeps to the Noise limit.
pub open spec fn frame_opens_to(
    key: Seq<u8>,
    count: nat,
    frame: Seq<u8>,
    message: ServerMessageView,
) -> bool {
    &&& has_frame(frame)
    &&& after_frame(frame) == Seq::<u8>::empty()
    &&& cbor_server_message(message) is Some
    &&& opened(key, count, first_payload(frame)) == Some(cbor_server_message(message)->0)
    &&& frame.len() == 4 + cbor_server_message(message)->0.len() + TAG_LEN
    &&& frame.len() <= 4 + NOISE_MAX_PAYLOAD
}

/// Whether each frame carries the message at its place, under the counters from `count` on.
pub open spec fn frames_open_to(
    key: Seq<u8>,
    count: nat,
    frames: Seq<Seq<u8>>,
    messages: Seq<ServerMessageView>,
) -> bool {
    &&& frames.len() <= messages.len()
    &&& forall|i: int|
        0 <= i < frames.len() ==> frame_opens_to(
            key,
            (count + i) as nat,
            #[trigger] frames[i],
            messages[i],
        )
}

/// The messages that the next frame of a connection is answered with.
pub open spec fn answers_to(v: ResponderView) -> Seq<ServerMessageView> {
    match received_payload(v.session, first_payload(v.accum)) {
        None => Seq::empty(),
        Some(plain) => match cbor_client_message(plain) {
            None => Seq::empty(),
            Some(message) => exchanged(v.conversation, message).replies,
        },
    }
}

impl Responder {
    /// Runs the handshake with the initiator's message. Gives the connection and the message
    /// to answer with.
    ///
    /// It succeeds exactly on a message that holds a public key and keeps to the Noise limit.
    /// The conversation is bound to the hash of both messages, and the session is the one that
    /// the handshake with these two messages leads to.
    pub fn accept(mode: ResponderMode, first: &[u8]) -> (r: Result<
        (Responder, Vec<u8>),
        ResponderError,
    >)
        ensures
            r is Ok <==> KEY_LEN <= first@.len() <= NOISE_MAX_PAYLOAD,
            r is Ok <==> 32 <= first@.len() <= 65535,
            r matches Ok((responder, answer)) ==> {
                &&& answer@.len() == 48
                &&& responder.conversation.mode == mode
                &&& responder.conversation.open_id is None
                &&& responder.conversation.http_accum@.len() == 0
                &&& responder.conversation.handshake_hash@ == transcript_hash(first@, answer@)
                &&& responder.accum@.len() == 0
            },
            r is Err ==> r->Err_0 is Handshake,
            r matches Ok((responder, answer)) ==> {
                &&& answer@.len() == KEY_LEN + TAG_LEN
                &&& responder@.conversation == (ConversationView {
                    mode,
                    handshake_hash: transcript_hash(first@, answer@),
                    open_id: None,
                    http_accum: Seq::empty(),
                })
                &&& responder@.conversation.handshake_hash.len() == 32
                &&& exists|handshake: NoiseHandshake|
                    handshake_transcript(handshake) == (Transcript {
                        received: Some(first@),
                        sent: Some(answer@),
                    }) && responder@.session == #[trigger] handshake_session(handshake)
                &&& responder@.session.receive_count == 0
                &&& responder@.session.send_count == 0
                &&& responder@.accum == Seq::<u8>::empty()
            },
    {
        let mut handshake = match new_responder() {
            Ok(handshake) => handshake,
            Err(text) => {
                return Err(ResponderError::Handshake(text));
            },
        };
        let mut buf: Vec<u8> = vec![0u8; NOISE_MAX_PAYLOAD];
        match read_handshake(&mut handshake, first, &mut buf) {
            Ok(_) => {},
            Err(text) => {
                return Err(ResponderError::Handshake(text));
            },
        }
        let empty: Vec<u8> = Vec::new();
        let len: usize = match write_handshake(&mut handshake, empty.as_slice(), &mut buf) {
            Ok(len) => len,
            Err(text) => {
                return Err(ResponderError::Handshake(text));
            },
        };
        buf.truncate(len);
        let handshake_hash = hash_of_handshake(&handshake);
        let transport = match into_transport(handshake) {
            Ok(transport) => transport,
            Err(text) => {
                return Err(ResponderError::Handshake(text));
            },
        };
        let conversation = Conversation::new(mode, handshake_hash);
        Ok((Responder { conversation, transport, accum: Vec::new() }, buf))
    }

    /// Takes what the socket delivered. Says whether the connection goes on: it ends when the
    /// peer has closed it.
    pub fn on_event(&mut self, event: SocketEvent) -> (goes_on: bool)
        ensures
            match event {
                SocketEvent::Binary(bytes) => goes_on && final(self)@ == (ResponderView {
                    accum: old(self)@.accum + bytes@,
                    ..old(self)@
                }),
                SocketEvent::Closed => !goes_on && final(self)@ == old(self)@,
                SocketEvent::Other => goes_on && final(self)@ == old(self)@,
            },
            goes_on <==> event !is Closed,
            event matches SocketEvent::Binary(bytes) ==> final(self).accum@ == old(self).accum@
                + bytes@,
            event !is Binary ==> final(self).accum@ == old(self).accum@,
            final(self).conversation == old(self).conversation,
            final(self).transport == old(self).transport,
    {
        match event {
            SocketEvent::Binary(bytes) => {
                self.accum.extend_from_slice(bytes.as_slice());
                assert(self.accum@ =~= old(self).accum@ + bytes@);
                true
            },
            SocketEvent::Closed => false,
            SocketEvent::Other => true,
        }
    }

    /// Encodes, encrypts and frames server messages, in order, up to the first that fails.
    fn deliver(&mut self, messages: Vec<ServerMessage>) -> (r: (
        Vec<Vec<u8>>,
        Option<ResponderError>,
    ))
        ensures
            ({
                let out = delivered(old(self)@.session, message_views(messages@));
                &&& final(self)@ == (ResponderView { session: out.session, ..old(self)@ })
                &&& byte_strings(r.0@) == out.frames
                &&& r.1 is Some <==> out.failure is Some
                &&& r.1 is Some ==> r.1->0.place() == out.failure
            }),
            frames_open_to(
                old(self)@.session.send_key,
                old(self)@.session.send_count,
                byte_strings(r.0@),
                message_views(messages@),
            ),
    {
        let ghost all = message_views(messages@);
        let ghost session = self@.session;
        let mut frames: Vec<Vec<u8>> = Vec::new();
        let mut i: usize = 0;
        assert(all.take(0) =~= Seq::empty());
        assert(byte_strings(frames@) =~= Seq::empty());
        while i < messages.len()
            invariant
                i <= messages.len(),
                all == message_views(messages@),
                session == old(self)@.session,
                delivered(session, all.take(i as int)).failure is None,
                self@ == (ResponderView {
                    session: delivered(session, all.take(i as int)).session,
                    ..old(self)@
                }),
                self@.session.send_key == session.send_key,
                self@.session.send_count == session.send_count + i,
                byte_strings(frames@) == delivered(session, all.take(i as int)).frames,
                frames.len() == i,
                frames_open_to(session.send_key, session.send_count, byte_strings(frames@), all),
            decreases messages.len() - i,
        {
            let ghost upto = all.take(i + 1);
            proof {
                assert(upto.drop_last() =~= all.take(i as int));
                assert(upto.last() == messages@[i as int]@);
                if delivered(session, upto).failure is Some {
                    lemma_delivered_stops(session, all, i + 1);
                }
            }
            let cbor = match encode_server_message(&messages[i]) {
                Ok(cbor) => cbor,
                Err(text) => {
                    return (frames, Some(ResponderError::Encode(text)));
                },
            };
            let mut buf: Vec<u8> = vec![0u8; NOISE_MAX_PAYLOAD];
            let n: usize = match write_transport(&mut self.transport, cbor.as_slice(), &mut buf) {
                Ok(n) => n,
                Err(text) => {
                    return (frames, Some(ResponderError::Seal(text)));
                },
            };
            buf.truncate(n);
            let frame = encode_frame(buf.as_slice());
            let ghost before = frames@;
            frames.push(frame);
            proof {
                law_frame_round_trip(buf@, Seq::empty());
                assert(framed(buf@) + Seq::<u8>::empty() =~= framed(buf@));
                assert(byte_strings(frames@) =~= byte_strings(before).push(framed(buf@)));
            }
            i = i + 1;
        }
        assert(all.take(messages.len() as int) =~= all);
        (frames, None)
    }

    /// Handles the next frame, once it is complete.
    ///
    /// The frame is decrypted and decoded; its message is answered as `Conversation::handle`
    /// says, with one frame for each answer. A failure ends the connection, after the frames
    /// before it are sent.
    pub fn step(&mut self) -> (r: Step)
        ensures
            final(self)@ == stepped(old(self)@).next,
            byte_strings(r.frames@) == stepped(old(self)@).frames,
            r.end.place() == Some(stepped(old(self)@).end),
            frames_open_to(
                old(self)@.session.send_key,
                old(self)@.session.send_count,
                byte_strings(r.frames@),
                answers_to(old(self)@),
            ),
            r.end is NeedInput <==> !has_frame(old(self).accum@),
            r.end is NeedInput ==> final(self)@ == old(self)@ && r.frames@.len() == 0,
            r.end matches StepEnd::Failed(e) ==> !(e is Handshake),
            r.end matches StepEnd::Failed(ResponderError::Open(_)) ==> final(self)@ == old(self)@
                && r.frames@.len() == 0,
            !(r.end is NeedInput) && !(r.end matches StepEnd::Failed(ResponderError::Open(_)))
                ==> final(self).accum@ == after_frame(old(self).accum@),
            r.end matches StepEnd::Failed(ResponderError::Decode(_)) ==> final(self)@.conversation
                == old(self)@.conversation && r.frames@.len() == 0,
            r.end is Continue || r.end is Close ==> r.frames@.len() == answers_to(old(self)@).len(),
    {
        proof {
            law_step_outcomes(self@);
        }
        let none: Vec<Vec<u8>> = Vec::new();
        assert(byte_strings(none@) =~= Seq::empty());
        let frame = match peek_frame(&self.accum) {
            Some(frame) => frame,
            None => {
                return Step { frames: none, end: StepEnd::NeedInput };
            },
        };
        let mut plain: Vec<u8> = vec![0u8; NOISE_MAX_PAYLOAD];
        let n: usize = match read_transport(&mut self.transport, frame.as_slice(), &mut plain) {
            Ok(n) => n,
            Err(text) => {
                return Step { frames: none, end: StepEnd::Failed(ResponderError::Open(text)) };
            },
        };
        drop_frame(&mut self.accum, frame.len());
        plain.truncate(n);
        let message = match decode_client_message(plain.as_slice()) {
            Ok(message) => message,
            Err(text) => {
                return Step { frames: none, end: StepEnd::Failed(ResponderError::Decode(text)) };
            },
        };
        let reply = self.conversation.handle(message);
        let (frames, failure) = self.deliver(reply.messages);
        let end = match failure {
            Some(e) => StepEnd::Failed(e),
            None => if reply.close {
                StepEnd::Close
            } else {
                StepEnd::Continue
            },
        };
        Step { frames, end }
    }
}

/// Once one message fails, nothing that follows it is sent.
proof fn lemma_delivered_stops(session: NoiseSession, messages: Seq<ServerMessageView>, k: int)
    requires
        0 <= k <= messages.len(),
        delivered(session, messages.take(k)).failure is Some,
    ensures
        delivered(session, messages) == delivered(session, messages.take(k)),
    decreases messages.len(),
{
    if k == messages.len() {
        assert(messages.take(k) =~= messages);
    } else {
        assert(messages.drop_last().take(k) =~= messages.take(k));
        lemma_delivered_stops(session, messages.drop_last(), k);
    }
}

/// What a run of client messages does to a conversation: where it leads, and the replies in
/// order.
#[verifier::ext_equal]
pub struct Conversed {
    pub next: ConversationView,
    pub replies: Seq<ServerMessageView>,
}

/// What a run of client messages does to a conversation.
pub open spec fn conversed(c: ConversationView, messages: Seq<ClientMessageView>) -> Conversed
    decreases messages.len(),
{
    if messages.len() == 0 {
        Conversed { next: c, replies: Seq::empty() }
    } else {
        let before = conversed(c, messages.drop_last());
        let exchange = exchanged(before.next, messages.last());
        Conversed { next: exchange.next, replies: before.replies + exchange.replies }
    }
}

/// Several byte strings as one.
pub open spec fn joined(chunks: Seq<Seq<u8>>) -> Seq<u8>
    decreases chunks.len(),
{
    if chunks.len() == 0 {
        Seq::empty()
    } else {
        joined(chunks.drop_last()) + chunks.last()
    }
}

proof fn lemma_sent_on_step(id: u64, payloads: Seq<Seq<u8>>)
    requires
        payloads.len() > 0,
    ensures
        sent_on(id, payloads).len() == payloads.len(),
        sent_on(id, payloads).drop_last() == sent_on(id, payloads.drop_last()),
        sent_on(id, payloads).last() == (ClientMessageView::StreamData {
            id,
            payload: payloads.last(),
        }),
{
    assert(sent_on(id, payloads).drop_last() =~= sent_on(id, payloads.drop_last()));
}

/// In echo mode everything that is sent on the open stream comes back on it, chunk by chunk,
/// byte for byte and in order, and nothing else does.
pub proof fn law_open_stream_echoes(c: ConversationView, id: u64, payloads: Seq<Seq<u8>>)
    requires
        c.mode == ResponderMode::Echo,
        c.open_id == Some(id),
    ensures
        conversed(c, sent_on(id, payloads)) == (Conversed {
            next: c,
            replies: received_on(id, payloads),
        }),
    decreases payloads.len(),
{
    if payloads.len() == 0 {
        assert(received_on(id, payloads) =~= Seq::<ServerMessageView>::empty());
    } else {
        lemma_sent_on_step(id, payloads);
        law_open_stream_echoes(c, id, payloads.drop_last());
        assert(received_on(id, payloads) =~= received_on(id, payloads.drop_last()) + seq![
            ServerMessageView::StreamData { id, payload: payloads.last() },
        ]);
    }
}

/// `OpenStream` makes its stream the open one, whatever came before, and is not answered.
pub proof fn law_open_stream_opens(c: ConversationView, id: u64, payload: Seq<u8>)
    ensures
        exchanged(c, ClientMessageView::OpenStream { id, payload }) == (Exchange {
            next: ConversationView { open_id: Some(id), ..c },
            replies: Seq::empty(),
            close: false,
        }),
{
}

/// Bytes for a stream that is not the open one are dropped without a trace, however many chunks
/// of them come.
pub proof fn law_unopened_stream_is_silent(c: ConversationView, id: u64, payloads: Seq<Seq<u8>>)
    requires
        c.open_id != Some(id),
    ensures
        conversed(c, sent_on(id, payloads)) == (Conversed { next: c, replies: Seq::empty() }),
    decreases payloads.len(),
{
    if payloads.len() > 0 {
        lemma_sent_on_step(id, payloads);
        law_unopened_stream_is_silent(c, id, payloads.drop_last());
        assert(conversed(c, sent_on(id, payloads)).replies =~= Seq::<ServerMessageView>::empty());
    }
}

/// At every point of a conversation an attestation request is answered with a document that is
/// bound to the hash of the handshake the conversation began with, and it changes nothing.
pub proof fn law_attestation_is_bound_to_handshake(
    c: ConversationView,
    messages: Seq<ClientMessageView>,
)
    ensures
        conversed(c, messages).next.handshake_hash == c.handshake_hash,
        conversed(c, messages).next.mode == c.mode,
        exchanged(conversed(c, messages).next, ClientMessageView::RequestAttestation) == (
        Exchange {
            next: conversed(c, messages).next,
            replies: seq![
                ServerMessageView::Attestation {
                    data: attestation_document(PCR_SEED, c.handshake_hash),
                    control_nonce: zero_nonce(),
                },
            ],
            close: false,
        }),
    decreases messages.len(),
{
    if messages.len() > 0 {
        law_attestation_is_bound_to_handshake(c, messages.drop_last());
    }
}

/// In HTTP mode every complete request on the open stream is answered, in order, and it does not
/// matter how the bytes are cut into chunks: the answers are those to all the bytes at once,
/// and what is left is what they leave.
pub proof fn law_http_stream_is_answered(c: ConversationView, id: u64, payloads: Seq<Seq<u8>>)
    requires
        c.mode == ResponderMode::HttpEcho,
        c.open_id == Some(id),
        synthesized(c.http_accum) is None,
    ensures
        conversed(c, sent_on(id, payloads)) == (Conversed {
            next: ConversationView { http_accum: unanswered(c.http_accum + joined(payloads)), ..c },
            replies: received_on(id, answers_of(c.http_accum + joined(payloads))),
        }),
    decreases payloads.len(),
{
    if payloads.len() == 0 {
        assert(c.http_accum + joined(payloads) =~= c.http_accum);
        assert(received_on(id, answers_of(c.http_accum)) =~= Seq::<ServerMessageView>::empty());
    } else {
        lemma_sent_on_step(id, payloads);
        law_http_stream_is_answered(c, id, payloads.drop_last());
        let first = c.http_accum + joined(payloads.drop_last());
        let last = payloads.last();
        law_answers_join(first, last);
        assert(first + last =~= c.http_accum + joined(payloads));
        assert(received_on(id, answers_of(first + last)) =~= received_on(id, answers_of(first))
            + received_on(id, answers_of(unanswered(first) + last)));
    }
}

/// No complete request is left waiting: where none waited before, none does after any run of
/// messages, and after bytes for the open stream none does in any case.
pub proof fn law_no_request_waits(c: ConversationView, messages: Seq<ClientMessageView>)
    ensures
        synthesized(c.http_accum) is None ==> synthesized(
            conversed(c, messages).next.http_accum,
        ) is None,
        forall|id: u64, payload: Seq<u8>|
            c.mode == ResponderMode::HttpEcho && c.open_id == Some(id) ==> synthesized(
                (#[trigger] exchanged(
                    c,
                    ClientMessageView::StreamData { id, payload },
                )).next.http_accum,
            ) is None,
    decreases messages.len(),
{
    assert forall|id: u64, payload: Seq<u8>|
        c.mode == ResponderMode::HttpEcho && c.open_id == Some(id) implies synthesized(
        (#[trigger] exchanged(c, ClientMessageView::StreamData { id, payload })).next.http_accum,
    ) is None by {
        law_no_complete_request_is_left(c.http_accum + payload);
    }
    if messages.len() > 0 {
        let before = conversed(c, messages.drop_last()).next;
        law_no_request_waits(c, messages.drop_last());
        if let ClientMessageView::StreamData { id, payload } = messages.last() {
            law_no_complete_request_is_left(before.http_accum + payload);
        }
    }
}

/// Two runs of messages, one after the other, do what both do as one run.
proof fn lemma_conversed_joins(
    c: ConversationView,
    first: Seq<ClientMessageView>,
    second: Seq<ClientMessageView>,
)
    ensures
        conversed(c, first + second).next == conversed(conversed(c, first).next, second).next,
        conversed(c, first + second).replies == conversed(c, first).replies + conversed(
            conversed(c, first).next,
            second,
        ).replies,
    decreases second.len(),
{
    if second.len() == 0 {
        assert(first + second =~= first);
        assert(conversed(c, first).replies + Seq::<ServerMessageView>::empty() =~= conversed(
            c,
            first,
        ).replies);
    } else {
        lemma_conversed_joins(c, first, second.drop_last());
        assert((first + second).drop_last() =~= first + second.drop_last());
        assert((first + second).last() == second.last());
        let middle = conversed(c, first).next;
        let before = conversed(middle, second.drop_last());
        let exchange = exchanged(before.next, second.last());
        assert(conversed(c, first).replies + before.replies + exchange.replies =~= conversed(
            c,
            first,
        ).replies + (before.replies + exchange.replies));
    }
}

/// The sending counter moves by the frames sent; the rest of a session stays. Without a failure
/// every message is sent.
proof fn lemma_delivered_shape(session: NoiseSession, messages: Seq<ServerMessageView>)
    ensures
        ({
            let out = delivered(session, messages);
            &&& out.session == (NoiseSession {
                send_count: session.send_count + out.frames.len(),
                ..session
            })
            &&& out.frames.len() <= messages.len()
            &&& out.failure is None ==> out.frames.len() == messages.len()
        }),
    decreases messages.len(),
{
    if messages.len() > 0 {
        lemma_delivered_shape(session, messages.drop_last());
    }
}

/// What is sent depends on the sending side of a session alone.
proof fn lemma_delivered_by_sender(
    a: NoiseSession,
    b: NoiseSession,
    messages: Seq<ServerMessageView>,
)
    requires
        a.send_key == b.send_key,
        a.send_count == b.send_count,
    ensures
        delivered(a, messages).frames == delivered(b, messages).frames,
        delivered(a, messages).failure == delivered(b, messages).failure,
    decreases messages.len(),
{
    lemma_delivered_shape(a, messages);
    lemma_delivered_shape(b, messages);
    if messages.len() > 0 {
        lemma_delivered_by_sender(a, b, messages.drop_last());
        lemma_delivered_shape(a, messages.drop_last());
        lemma_delivered_shape(b, messages.drop_last());
    }
}

/// Messages sent in two goes are sent as in one.
proof fn lemma_delivered_joins(
    session: NoiseSession,
    first: Seq<ServerMessageView>,
    second: Seq<ServerMessageView>,
)
    ensures
        delivered(session, first).failure is Some ==> delivered(session, first + second)
            == delivered(session, first),
        delivered(session, first).failure is None ==> {
            let out = delivered(session, first);
            let more = delivered(out.session, second);
            delivered(session, first + second) == (Delivered {
                session: more.session,
                frames: out.frames + more.frames,
                failure: more.failure,
            })
        },
    decreases second.len(),
{
    let out = delivered(session, first);
    if second.len() == 0 {
        assert(first + second =~= first);
        assert(out.frames + Seq::<Seq<u8>>::empty() =~= out.frames);
    } else {
        lemma_delivered_joins(session, first, second.drop_last());
        assert((first + second).drop_last() =~= first + second.drop_last());
        assert((first + second).last() == second.last());
        if out.failure is None {
            let before = delivered(out.session, second.drop_last());
            let whole = delivered(session, first + second);
            let more = delivered(out.session, second);
            assert(whole.frames =~= out.frames + more.frames);
        }
    }
}

/// What steps do to a connection until they cannot go on.
#[verifier::ext_equal]
pub struct Drained {
    pub next: ResponderView,
    pub frames: Seq<Seq<u8>>,
    pub end: EndView,
}

/// Taking steps until one does not say to continue.
pub open spec fn drained(v: ResponderView) -> Drained
    decreases v.accum.len(),
{
    let step = stepped(v);
    if step.end is Continue {
        let rest = drained(step.next);
        Drained { frames: step.frames + rest.frames, ..rest }
    } else {
        Drained { next: step.next, frames: step.frames, end: step.end }
    }
}

/// The counters of both ciphers move with the frames: a step counts one received message
/// exactly where it decrypted a frame, and one sent message for each frame it sends. The keys
/// never change. So no counter value is used twice.
pub proof fn law_step_counts_messages(v: ResponderView)
    ensures
        ({
            let Stepped { next, frames, end } = stepped(v);
            &&& next.session.receive_key == v.session.receive_key
            &&& next.session.send_key == v.session.send_key
            &&& next.session.send_count == v.session.send_count + frames.len()
            &&& next.session.receive_count == v.session.receive_count + (if end is NeedInput
                || end is OpenFailed {
                0int
            } else {
                1int
            })
        }),
{
    lemma_delivered_shape(after_receive(v.session), answers_to(v));
    lemma_delivered_place(after_receive(v.session), answers_to(v));
}

proof fn lemma_delivered_place(session: NoiseSession, messages: Seq<ServerMessageView>)
    ensures
        delivered(session, messages).failure is None || delivered(session, messages).failure
            == Some(EndView::EncodeFailed) || delivered(session, messages).failure == Some(
            EndView::SealFailed,
        ),
    decreases messages.len(),
{
    if messages.len() > 0 {
        lemma_delivered_place(session, messages.drop_last());
    }
}

/// A step that handled a frame took it off the buffer, so a buffer holds finitely many steps;
/// one that found no complete frame, or could not decrypt it, left everything as it was.
pub proof fn law_step_consumes_frame(v: ResponderView)
    ensures
        ({
            let Stepped { next, frames, end } = stepped(v);
            if end is NeedInput || end is OpenFailed {
                next == v && frames.len() == 0
            } else {
                &&& has_frame(v.accum)
                &&& next.accum == after_frame(v.accum)
                &&& next.accum.len() + 4 <= v.accum.len()
            }
        }),
{
    lemma_delivered_place(after_receive(v.session), answers_to(v));
}

proof fn lemma_step_ignores_later_bytes(v: ResponderView, more: Seq<u8>)
    requires
        stepped(v).end !is NeedInput,
    ensures
        stepped(ResponderView { accum: v.accum + more, ..v }) == (Stepped {
            next: ResponderView { accum: stepped(v).next.accum + more, ..stepped(v).next },
            ..stepped(v)
        }),
{
    law_step_consumes_frame(v);
    if has_frame(v.accum) {
        law_complete_frame_is_stable(v.accum, more);
    }
}

/// Steps on what has come so far, and then on the rest behind what was left, do what steps on
/// all the bytes do. Bytes behind the end of a connection change nothing about it.
proof fn lemma_drains_join(v: ResponderView, more: Seq<u8>)
    ensures
        ({
            let first = drained(v);
            let whole = drained(ResponderView { accum: v.accum + more, ..v });
            if first.end is NeedInput {
                let second = drained(
                    ResponderView { accum: first.next.accum + more, ..first.next },
                );
                whole == (Drained { frames: first.frames + second.frames, ..second })
            } else {
                whole.frames == first.frames && whole.end == first.end
            }
        }),
    decreases v.accum.len(),
{
    let step = stepped(v);
    let long = ResponderView { accum: v.accum + more, ..v };
    if step.end is NeedInput {
        law_step_consumes_frame(v);
        assert(Seq::<Seq<u8>>::empty() + drained(long).frames =~= drained(long).frames);
        assert(step.frames =~= Seq::<Seq<u8>>::empty());
    } else {
        lemma_step_ignores_later_bytes(v, more);
        if step.end is Continue {
            law_step_consumes_frame(v);
            lemma_drains_join(step.next, more);
            let first = drained(v);
            if first.end is NeedInput {
                let second = drained(
                    ResponderView { accum: first.next.accum + more, ..first.next },
                );
                assert(step.frames + (drained(step.next).frames + second.frames) =~= first.frames
                    + second.frames);
            }
        }
    }
}

/// What a run of socket messages does to a connection: each is taken, and steps follow until
/// they need input. Nothing is taken once the connection has ended.
pub open spec fn fed(v: ResponderView, chunks: Seq<Seq<u8>>) -> Drained
    decreases chunks.len(),
{
    if chunks.len() == 0 {
        Drained { next: v, frames: Seq::empty(), end: EndView::NeedInput }
    } else {
        let before = fed(v, chunks.drop_last());
        if before.end is NeedInput {
            let more = drained(
                ResponderView { accum: before.next.accum + chunks.last(), ..before.next },
            );
            Drained { frames: before.frames + more.frames, ..more }
        } else {
            before
        }
    }
}

/// How the wire bytes are cut into socket messages does not matter: the same frames are sent,
/// in the same order, and the connection ends in the same way, or goes on in the same state,
/// as if all the bytes had come at once.
pub proof fn law_socket_messages_join(v: ResponderView, chunks: Seq<Seq<u8>>)
    requires
        !has_frame(v.accum),
    ensures
        ({
            let whole = drained(ResponderView { accum: v.accum + joined(chunks), ..v });
            &&& fed(v, chunks).frames == whole.frames
            &&& fed(v, chunks).end == whole.end
            &&& whole.end is NeedInput ==> fed(v, chunks).next == whole.next
        }),
    decreases chunks.len(),
{
    if chunks.len() == 0 {
        assert(v.accum + joined(chunks) =~= v.accum);
    } else {
        law_socket_messages_join(v, chunks.drop_last());
        let first = ResponderView { accum: v.accum + joined(chunks.drop_last()), ..v };
        lemma_drains_join(first, chunks.last());
        assert(first.accum + chunks.last() =~= v.accum + joined(chunks));
    }
}

/// Whether each ciphertext decrypts, under the next receiving counters of a session, to the
/// encoding of the message at its place.
pub open spec fn carries(
    session: NoiseSession,
    ciphertexts: Seq<Seq<u8>>,
    messages: Seq<ClientMessageView>,
) -> bool {
    &&& ciphertexts.len() == messages.len()
    &&& session.receive_count + messages.len() <= u64::MAX
    &&& forall|i: int|
        0 <= i < messages.len() ==> {
            let plain = opened(
                session.receive_key,
                (session.receive_count + i) as nat,
                #[trigger] ciphertexts[i],
            );
            &&& TAG_LEN <= ciphertexts[i].len() <= NOISE_MAX_PAYLOAD
            &&& plain is Some
            &&& cbor_client_message(plain->0) == Some(messages[i])
        }
}

/// On the wire a connection does what its conversation says: frames that carry a run of
/// messages, one after the other, are answered with the frames of the conversation's replies,
/// in order; both counters move by the number of frames, and the start of a further frame is
/// kept. This holds where every reply can be sent and no message closes the stream.
pub proof fn law_wire_follows_conversation(
    v: ResponderView,
    ciphertexts: Seq<Seq<u8>>,
    messages: Seq<ClientMessageView>,
    rest: Seq<u8>,
)
    requires
        carries(v.session, ciphertexts, messages),
        forall|i: int| 0 <= i < messages.len() ==> !(#[trigger] messages[i] is StreamClose),
        v.accum == framed_all(ciphertexts) + rest,
        !has_frame(rest),
        delivered(v.session, conversed(v.conversation, messages).replies).failure is None,
    ensures
        ({
            let talk = conversed(v.conversation, messages);
            drained(v) == (Drained {
                next: ResponderView {
                    conversation: talk.next,
                    session: NoiseSession {
                        receive_count: v.session.receive_count + messages.len(),
                        send_count: v.session.send_count + talk.replies.len(),
                        ..v.session
                    },
                    accum: rest,
                },
                frames: delivered(v.session, talk.replies).frames,
                end: EndView::NeedInput,
            })
        }),
    decreases messages.len(),
{
    if messages.len() == 0 {
        assert(framed_all(ciphertexts) + rest =~= rest);
    } else {
        let tail = framed_all(ciphertexts.skip(1)) + rest;
        assert(v.accum =~= framed(ciphertexts[0]) + tail);
        law_frame_round_trip(ciphertexts[0], tail);
        let later = messages.skip(1);
        let first = seq![messages[0]];
        assert(first + later =~= messages);
        assert(first.drop_last() =~= Seq::<ClientMessageView>::empty());
        let exchange = exchanged(v.conversation, messages[0]);
        assert(conversed(v.conversation, first) == (Conversed {
            next: exchange.next,
            replies: exchange.replies,
        })) by {
            reveal_with_fuel(conversed, 2);
            assert(Seq::<ServerMessageView>::empty() + exchange.replies =~= exchange.replies);
        }
        lemma_conversed_joins(v.conversation, first, later);
        let replies = conversed(exchange.next, later).replies;
        assert(!(messages[0] is StreamClose));

        lemma_delivered_joins(v.session, exchange.replies, replies);
        lemma_delivered_by_sender(v.session, after_receive(v.session), exchange.replies);
        lemma_delivered_shape(v.session, exchange.replies);
        lemma_delivered_shape(after_receive(v.session), exchange.replies);
        let step = stepped(v);
        let opening = ciphertexts[0];
        assert(first_payload(v.accum) == opening);
        assert((v.session.receive_count + 0) as nat == v.session.receive_count);
        assert(received_payload(v.session, opening) == opened(
            v.session.receive_key,
            v.session.receive_count,
            opening,
        ));
        assert(!exchange.close);
        assert(step.end is Continue);
        lemma_delivered_by_sender(
            delivered(v.session, exchange.replies).session,
            step.next.session,
            replies,
        );
        assert forall|i: int| 0 <= i < later.len() implies {
            let plain = opened(
                step.next.session.receive_key,
                (step.next.session.receive_count + i) as nat,
                #[trigger] ciphertexts.skip(1)[i],
            );
            &&& TAG_LEN <= ciphertexts.skip(1)[i].len() <= NOISE_MAX_PAYLOAD
            &&& plain is Some
            &&& cbor_client_message(plain->0) == Some(later[i])
        } by {
            assert(ciphertexts.skip(1)[i] == ciphertexts[i + 1]);
        }
        assert forall|i: int| 0 <= i < later.len() implies !(#[trigger] later[i] is StreamClose) by {
            assert(later[i] == messages[i + 1]);
        }
        law_wire_follows_conversation(step.next, ciphertexts.skip(1), later, rest);
    }
}

/// The frames that carry chunks back on a stream, under the next sending counters of a session.
pub open spec fn echo_frames(session: NoiseSession, id: u64, payloads: Seq<Seq<u8>>) -> Seq<
    Seq<u8>,
> {
    Seq::new(
        payloads.len(),
        |i: int|
            framed(
                sealed(
                    session.send_key,
                    (session.send_count + i) as nat,
                    cbor_server_message(
                        ServerMessageView::StreamData { id, payload: payloads[i] },
                    )->0,
                ),
            ),
    )
}

/// Whether chunks can be sent on a stream, one message each.
pub open spec fn can_send(session: NoiseSession, id: u64, payloads: Seq<Seq<u8>>) -> bool {
    &&& session.send_count + payloads.len() <= u64::MAX
    &&& forall|i: int|
        0 <= i < payloads.len() ==> {
            let cbor = cbor_server_message(
                ServerMessageView::StreamData { id, payload: #[trigger] payloads[i] },
            );
            cbor is Some && cbor->0.len() + TAG_LEN <= NOISE_MAX_PAYLOAD
        }
}

proof fn lemma_echo_is_delivered(session: NoiseSession, id: u64, payloads: Seq<Seq<u8>>)
    requires
        can_send(session, id, payloads),
    ensures
        delivered(session, received_on(id, payloads)).failure is None,
        delivered(session, received_on(id, payloads)).frames == echo_frames(session, id, payloads),
    decreases payloads.len(),
{
    let messages = received_on(id, payloads);
    lemma_delivered_shape(session, messages);
    if payloads.len() == 0 {
        assert(echo_frames(session, id, payloads) =~= Seq::<Seq<u8>>::empty());
    } else {
        let front = payloads.drop_last();
        assert forall|i: int| 0 <= i < front.len() implies {
            let cbor = cbor_server_message(
                ServerMessageView::StreamData { id, payload: #[trigger] front[i] },
            );
            cbor is Some && cbor->0.len() + TAG_LEN <= NOISE_MAX_PAYLOAD
        } by {
            assert(front[i] == payloads[i]);
        }
        lemma_echo_is_delivered(session, id, front);
        lemma_delivered_shape(session, received_on(id, front));
        assert(messages.drop_last() =~= received_on(id, front));
        let last = payloads[payloads.len() - 1];
        assert(messages.last() == ServerMessageView::StreamData { id, payload: last });
        assert(echo_frames(session, id, payloads) =~= echo_frames(session, id, front).push(
            echo_frames(session, id, payloads)[payloads.len() - 1],
        ));
    }
}

/// On the wire, in echo mode: frames that arrive one after the other, each with a chunk for the
/// open stream, are answered one by one, in order, each with a frame that holds the same chunk
/// for the same stream, under the next counter. The conversation does not change.
pub proof fn law_frames_are_echoed_in_order(
    v: ResponderView,
    id: u64,
    ciphertexts: Seq<Seq<u8>>,
    payloads: Seq<Seq<u8>>,
    rest: Seq<u8>,
)
    requires
        v.conversation.mode == ResponderMode::Echo,
        v.conversation.open_id == Some(id),
        carries(v.session, ciphertexts, sent_on(id, payloads)),
        can_send(v.session, id, payloads),
        v.accum == framed_all(ciphertexts) + rest,
        !has_frame(rest),
    ensures
        drained(v) == (Drained {
            next: ResponderView {
                conversation: v.conversation,
                session: NoiseSession {
                    receive_count: v.session.receive_count + payloads.len(),
                    send_count: v.session.send_count + payloads.len(),
                    ..v.session
                },
                accum: rest,
            },
            frames: echo_frames(v.session, id, payloads),
            end: EndView::NeedInput,
        }),
{
    law_open_stream_echoes(v.conversation, id, payloads);
    lemma_echo_is_delivered(v.session, id, payloads);
    law_wire_follows_conversation(v, ciphertexts, sent_on(id, payloads), rest);
}

/// Every `StreamClose` is acknowledged and ends the connection, whatever stream it names, whether
/// it closes one half or both, and whatever came before; the conversation stays as it is.
pub proof fn law_every_close_is_acknowledged(c: ConversationView, id: u64, both: bool)
    ensures
        exchanged(c, ClientMessageView::StreamClose { id, both }) == (Exchange {
            next: c,
            replies: seq![ServerMessageView::StreamClose { id }],
            close: true,
        }),
{
}

/// Nothing but a `StreamClose` ends the connection.
pub proof fn law_only_close_ends(c: ConversationView, message: ClientMessageView)
    ensures
        exchanged(c, message).close <==> message is StreamClose,
{
}

/// An attestation request is answered with the document for the seed 0x42 and the hash of the
/// handshake, and with a nonce of 32 zero bytes.
pub proof fn law_attestation_values(c: ConversationView)
    ensures
        ({
            let exchange = exchanged(c, ClientMessageView::RequestAttestation);
            &&& exchange.next == c
            &&& exchange.replies.len() == 1
            &&& exchange.replies[0] matches ServerMessageView::Attestation { data, control_nonce }
                && data == attestation_document(0x42u8, c.handshake_hash) && control_nonce.len()
                == 32 && (forall|i: int| 0 <= i < 32 ==> #[trigger] control_nonce[i] == 0u8)
        }),
{
}

/// One-shot requests, management commands and nonce requests are not answered and change nothing.
pub proof fn law_other_messages_are_ignored(
    c: ConversationView,
    id: u64,
    payload: Seq<u8>,
    signature: Seq<u8>,
)
    ensures
        exchanged(c, ClientMessageView::Data { id, payload }) == (Exchange {
            next: c,
            replies: Seq::empty(),
            close: false,
        }),
        exchanged(c, ClientMessageView::Control { payload, signature }) == (Exchange {
            next: c,
            replies: Seq::empty(),
            close: false,
        }),
        exchanged(c, ClientMessageView::GetControlNonce) == (Exchange {
            next: c,
            replies: Seq::empty(),
            close: false,
        }),
{
}

/// Bytes for the open stream come back on it: as they are in echo mode; in HTTP mode as one chunk
/// for the answer to each request that is now complete, in order, and what is left is kept.
pub proof fn law_stream_data_is_answered(c: ConversationView, id: u64, payload: Seq<u8>)
    requires
        c.open_id == Some(id),
    ensures
        ({
            let exchange = exchanged(c, ClientMessageView::StreamData { id, payload });
            let all = c.http_accum + payload;
            &&& !exchange.close
            &&& exchange.next.open_id == Some(id)
            &&& exchange.next.mode == c.mode
            &&& exchange.next.handshake_hash == c.handshake_hash
            &&& c.mode == ResponderMode::Echo ==> {
                &&& exchange.next.http_accum == c.http_accum
                &&& exchange.replies.len() == 1
                &&& exchange.replies[0] == ServerMessageView::StreamData { id, payload }
            }
            &&& c.mode == ResponderMode::HttpEcho ==> {
                &&& exchange.next.http_accum == unanswered(all)
                &&& exchange.replies.len() == answers_of(all).len()
                &&& forall|i: int|
                    0 <= i < answers_of(all).len() ==> #[trigger] exchange.replies[i] == (
                    ServerMessageView::StreamData { id, payload: answers_of(all)[i] })
            }
        }),
{
}

/// The views of messages hold their parts, each under its own name.
pub proof fn law_message_views_keep_parts(
    client: ClientMessage,
    server: ServerMessage,
    messages: Seq<ServerMessage>,
)
    ensures
        client@ is RequestAttestation <==> client is RequestAttestation,
        client@ is GetControlNonce <==> client is GetControlNonce,
        client matches ClientMessage::Data { id, payload } ==> client@
            == (ClientMessageView::Data { id, payload: payload@ }),
        client matches ClientMessage::Control { payload, signature } ==> client@
            == (ClientMessageView::Control { payload: payload@, signature: signature@ }),
        client matches ClientMessage::OpenStream { id, payload } ==> client@
            == (ClientMessageView::OpenStream { id, payload: payload@ }),
        client matches ClientMessage::StreamData { id, payload } ==> client@
            == (ClientMessageView::StreamData { id, payload: payload@ }),
        client matches ClientMessage::StreamClose { id, both } ==> client@
            == (ClientMessageView::StreamClose { id, both }),
        server matches ServerMessage::Attestation { data, control_nonce } ==> server@
            == (ServerMessageView::Attestation { data: data@, control_nonce: control_nonce@ }),
        server matches ServerMessage::StreamData { id, payload } ==> server@
            == (ServerMessageView::StreamData { id, payload: payload@ }),
        server matches ServerMessage::StreamClose { id } ==> server@
            == (ServerMessageView::StreamClose { id }),
        message_views(messages).len() == messages.len(),
        forall|i: int|
            0 <= i < messages.len() ==> #[trigger] message_views(messages)[i] == messages[i]@,
{
}

/// The views of a conversation and of a connection hold their fields, each under its own name.
pub proof fn law_connection_views_keep_fields(c: Conversation, responder: Responder)
    ensures
        c@.mode == c.mode,
        c@.handshake_hash == c.handshake_hash@,
        c@.open_id == c.open_id,
        c@.http_accum == c.http_accum@,
        responder@.conversation == responder.conversation@,
        responder@.session == noise_session(responder.transport),
        responder@.accum == responder.accum@,
{
}

/// Chunks on a stream are listed as they are, in order.
pub proof fn law_chunks_are_faithful(id: u64, payloads: Seq<Seq<u8>>)
    ensures
        sent_on(id, payloads).len() == payloads.len(),
        forall|i: int|
            0 <= i < payloads.len() ==> #[trigger] sent_on(id, payloads)[i] == (
            ClientMessageView::StreamData { id, payload: payloads[i] }),
        received_on(id, payloads).len() == payloads.len(),
        forall|i: int|
            0 <= i < payloads.len() ==> #[trigger] received_on(id, payloads)[i] == (
            ServerMessageView::StreamData { id, payload: payloads[i] }),
{
}

/// The text of a failure, and where it occurred.
pub proof fn law_failures_are_told_apart(text: String)
    ensures
        ResponderError::Handshake(text).text() == text@,
        ResponderError::Open(text).text() == text@,
        ResponderError::Decode(text).text() == text@,
        ResponderError::Encode(text).text() == text@,
        ResponderError::Seal(text).text() == text@,
        StepEnd::Failed(ResponderError::Handshake(text)).place() is None,
        StepEnd::Failed(ResponderError::Open(text)).place() == Some(EndView::OpenFailed),
        StepEnd::Failed(ResponderError::Decode(text)).place() == Some(EndView::DecodeFailed),
        StepEnd::Failed(ResponderError::Encode(text)).place() == Some(EndView::EncodeFailed),
        StepEnd::Failed(ResponderError::Seal(text)).place() == Some(EndView::SealFailed),
        StepEnd::NeedInput.place() == Some(EndView::NeedInput),
        StepEnd::Continue.place() == Some(EndView::Continue),
        StepEnd::Close.place() == Some(EndView::Close),
{
}

/// Whether a message can be sent as the one with that counter: it has an encoding, which keeps to
/// the Noise limit, and the counter is not used up.
pub open spec fn is_sendable(count: nat, message: ServerMessageView) -> bool {
    cbor_server_message(message) matches Some(cbor) && cbor.len() + 16 <= 65535 && count < u64::MAX
}

/// Messages go out one frame each, in order, encrypted under the next counters, up to the first
/// that cannot be sent; it is told whether that one has no encoding or cannot be encrypted.
pub proof fn law_messages_are_sent_in_order(
    session: NoiseSession,
    messages: Seq<ServerMessageView>,
)
    ensures
        ({
            let out = delivered(session, messages);
            let n = out.frames.len();
            &&& n <= messages.len()
            &&& out.session == (NoiseSession { send_count: session.send_count + n, ..session })
            &&& forall|i: int|
                0 <= i < n ==> is_sendable((session.send_count + i) as nat, #[trigger] messages[i])
            &&& forall|i: int|
                0 <= i < n ==> #[trigger] out.frames[i] == framed(
                    sealed(
                        session.send_key,
                        (session.send_count + i) as nat,
                        cbor_server_message(messages[i])->0,
                    ),
                )
            &&& out.failure is None <==> n == messages.len()
            &&& n < messages.len() ==> {
                &&& !is_sendable((session.send_count + n) as nat, messages[n as int])
                &&& cbor_server_message(messages[n as int]) is None ==> out.failure == Some(
                    EndView::EncodeFailed,
                )
                &&& cbor_server_message(messages[n as int]) is Some ==> out.failure == Some(
                    EndView::SealFailed,
                )
            }
        }),
    decreases messages.len(),
{
    if messages.len() > 0 {
        let front = messages.drop_last();
        law_messages_are_sent_in_order(session, front);
        let before = delivered(session, front);
        let out = delivered(session, messages);
        let k = messages.len() - 1;
        assert forall|i: int| 0 <= i < out.frames.len() implies is_sendable(
            (session.send_count + i) as nat,
            #[trigger] messages[i],
        ) by {
            if i < k {
                assert(front[i] == messages[i]);
            }
        }
        assert forall|i: int| 0 <= i < out.frames.len() implies #[trigger] out.frames[i] == framed(
            sealed(
                session.send_key,
                (session.send_count + i) as nat,
                cbor_server_message(messages[i])->0,
            ),
        ) by {
            if i < before.frames.len() {
                assert(out.frames[i] == before.frames[i]);
                assert(front[i] == messages[i]);
            }
        }
        if before.failure is Some {
            let n = before.frames.len() as int;
            assert(front[n] == messages[n]);
        }
    }
}

/// How a step ends is decided by the bytes: without a complete frame it waits; a frame that does
/// not decrypt, or that cannot, fails and stays; one that decrypts is taken, and fails where it
/// holds no message; else the conversation goes on as the message says, its replies go out up to
/// the first that cannot be sent, and where all went out the connection closes exactly where the
/// message closes it.
pub proof fn law_step_outcomes(v: ResponderView)
    ensures
        ({
            let Stepped { next, frames, end } = stepped(v);
            let frame = first_payload(v.accum);
            let plain = opened(v.session.receive_key, v.session.receive_count, frame);
            let readable = 16 <= frame.len() <= 65535 && v.session.receive_count < u64::MAX
                && plain is Some;
            let message = cbor_client_message(plain->0);
            &&& !has_frame(v.accum) <==> end is NeedInput
            &&& end is NeedInput ==> next == v && frames.len() == 0
            &&& has_frame(v.accum) && !readable <==> end is OpenFailed
            &&& end is OpenFailed ==> next == v && frames.len() == 0
            &&& has_frame(v.accum) && readable ==> {
                &&& next.accum == after_frame(v.accum)
                &&& next.session.receive_count == v.session.receive_count + 1
                &&& next.session.receive_key == v.session.receive_key
                &&& next.session.send_key == v.session.send_key
                &&& next.session.send_count == v.session.send_count + frames.len()
                &&& message is None <==> end is DecodeFailed
                &&& message is None ==> next.conversation == v.conversation && frames.len() == 0
                &&& message is Some ==> {
                    let exchange = exchanged(v.conversation, message->0);
                    let out = delivered(v.session, exchange.replies);
                    &&& next.conversation == exchange.next
                    &&& frames == out.frames
                    &&& frames.len() == exchange.replies.len() ==> (if exchange.close {
                        end is Close
                    } else {
                        end is Continue
                    })
                    &&& frames.len() != exchange.replies.len() ==> Some(end) == out.failure && (
                    end is EncodeFailed || end is SealFailed)
                }
            }
        }),
{
    let frame = first_payload(v.accum);
    if let Some(plain) = received_payload(v.session, frame) {
        if let Some(message) = cbor_client_message(plain) {
            let replies = exchanged(v.conversation, message).replies;
            lemma_delivered_by_sender(v.session, after_receive(v.session), replies);
            lemma_delivered_shape(after_receive(v.session), replies);
            lemma_delivered_place(after_receive(v.session), replies);
            law_messages_are_sent_in_order(v.session, replies);
            law_messages_are_sent_in_order(after_receive(v.session), replies);
        }
    }
}

/// On the wire, a frame that carries a `StreamClose`, for one half or both, is answered with one
/// frame that carries the acknowledgement for the same stream, and the connection is to be closed
/// then; no later frame is looked at.
pub proof fn law_close_frame_ends_connection(
    v: ResponderView,
    ciphertext: Seq<u8>,
    id: u64,
    both: bool,
    rest: Seq<u8>,
)
    requires
        16 <= ciphertext.len() <= 65535,
        v.session.receive_count < u64::MAX,
        opened(v.session.receive_key, v.session.receive_count, ciphertext) is Some,
        cbor_client_message(
            opened(v.session.receive_key, v.session.receive_count, ciphertext)->0,
        ) == Some(ClientMessageView::StreamClose { id, both }),
        v.accum == framed(ciphertext) + rest,
        is_sendable(v.session.send_count, ServerMessageView::StreamClose { id }),
    ensures
        stepped(v).end is Close,
        stepped(v).frames == seq![
            framed(
                sealed(
                    v.session.send_key,
                    v.session.send_count,
                    cbor_server_message(ServerMessageView::StreamClose { id })->0,
                ),
            ),
        ],
        stepped(v).next.conversation == v.conversation,
        stepped(v).next.accum == rest,
        drained(v).end is Close,
        drained(v).frames == stepped(v).frames,
{
    law_frame_round_trip(ciphertext, rest);
    law_every_close_is_acknowledged(v.conversation, id, both);
    law_step_outcomes(v);
    let reply = ServerMessageView::StreamClose { id };
    law_messages_are_sent_in_order(v.session, seq![reply]);
    let out = delivered(v.session, seq![reply]);
    if out.frames.len() == 0 {
        assert(seq![reply][0] == reply);
        assert(is_sendable((v.session.send_count + 0) as nat, reply));
    }
    assert((v.session.send_count + 0) as nat == v.session.send_count);
    assert(seq![reply][0] == reply);
    assert(out.frames =~= seq![
        framed(
            sealed(
                v.session.send_key,
                v.session.send_count,
                cbor_server_message(reply)->0,
            ),
        ),
    ]);
}

} // verus!
