//! The messages inside the Noise channel and their CBOR encoding.

use enclavia_protocol::attestation::test_utils::FakeAttestation;
use enclavia_protocol::ClientMessage as WireClientMessage;
use enclavia_protocol::ServerMessage as WireServerMessage;
use enclavia_protocol::StreamHalf as WireStreamHalf;
use vstd::prelude::*;

verus! {

/// A message from the client.
#[derive(Debug)]
pub enum ClientMessage {
    /// Asks for an attestation document.
    RequestAttestation,
    /// A one-shot request.
    Data { id: u64, payload: Vec<u8> },
    /// A signed management command.
    Control { payload: Vec<u8>, signature: Vec<u8> },
    /// Asks for the current control nonce.
    GetControlNonce,
    /// Opens a byte stream.
    OpenStream { id: u64, payload: Vec<u8> },
    /// Bytes for an open stream.
    StreamData { id: u64, payload: Vec<u8> },
    /// Closes the writing half of a stream, or both halves.
    StreamClose { id: u64, both: bool },
}

/// A client message with byte strings as sequences.
pub enum ClientMessageView {
    RequestAttestation,
    Data { id: u64, payload: Seq<u8> },
    Control { payload: Seq<u8>, signature: Seq<u8> },
    GetControlNonce,
    OpenStream { id: u64, payload: Seq<u8> },
    StreamData { id: u64, payload: Seq<u8> },
    StreamClose { id: u64, both: bool },
}

impl View for ClientMessage {
    type V = ClientMessageView;

    open spec fn view(&self) -> ClientMessageView {
        match *self {
            ClientMessage::RequestAttestation => ClientMessageView::RequestAttestation,
            ClientMessage::Data { id, payload } => ClientMessageView::Data {
                id,
                payload: payload@,
            },
            ClientMessage::Control { payload, signature } => ClientMessageView::Control {
                payload: payload@,
                signature: signature@,
            },
            ClientMessage::GetControlNonce => ClientMessageView::GetControlNonce,
            ClientMessage::OpenStream { id, payload } => ClientMessageView::OpenStream {
                id,
                payload: payload@,
            },
            ClientMessage::StreamData { id, payload } => ClientMessageView::StreamData {
                id,
                payload: payload@,
            },
            ClientMessage::StreamClose { id, both } => ClientMessageView::StreamClose { id, both },
        }
    }
}

/// A message that the responder sends.
#[derive(Debug)]
pub enum ServerMessage {
    /// An attestation document and the current control nonce.
    Attestation { data: Vec<u8>, control_nonce: [u8; 32] },
    /// Bytes out of an open stream.
    StreamData { id: u64, payload: Vec<u8> },
    /// The stream is closed.
    StreamClose { id: u64 },
}

/// A server message with byte strings as sequences.
pub enum ServerMessageView {
    Attestation { data: Seq<u8>, control_nonce: Seq<u8> },
    StreamData { id: u64, payload: Seq<u8> },
    StreamClose { id: u64 },
}

impl View for ServerMessage {
    type V = ServerMessageView;

    open spec fn view(&self) -> ServerMessageView {
        match *self {
            ServerMessage::Attestation { data, control_nonce } => ServerMessageView::Attestation {
                data: data@,
                control_nonce: control_nonce@,
            },
            ServerMessage::StreamData { id, payload } => ServerMessageView::StreamData {
                id,
                payload: payload@,
            },
            ServerMessage::StreamClose { id } => ServerMessageView::StreamClose { id },
        }
    }
}

/// The client message that CBOR bytes encode; none where they encode no such message.
pub uninterp spec fn cbor_client_message(bytes: Seq<u8>) -> Option<ClientMessageView>;

/// The CBOR encoding of a server message; none where it has none.
pub uninterp spec fn cbor_server_message(message: ServerMessageView) -> Option<Seq<u8>>;

/// The synthetic attestation document with measurements from a seed, bound to a handshake hash.
pub uninterp spec fn attestation_document(seed: u8, handshake_hash: Seq<u8>) -> Seq<u8>;

/// Decodes a client message.
///
/// Calls `ciborium::from_reader` for `enclavia_protocol::ClientMessage`. Claims that the
/// outcome is a function of the bytes. Nothing is claimed of the error's text.
#[verifier::external_body]
pub(crate) fn decode_client_message(bytes: &[u8]) -> (r: Result<ClientMessage, String>)
    ensures
        r is Ok <==> cbor_client_message(bytes@) is Some,
        r is Ok ==> r->Ok_0@ == cbor_client_message(bytes@)->0,
{
    let wire: WireClientMessage = ciborium::from_reader(bytes).map_err(|e| format!("{e}"))?;
    Ok(match wire {
        WireClientMessage::RequestAttestation => ClientMessage::RequestAttestation,
        WireClientMessage::Data { id, payload } => ClientMessage::Data { id, payload },
        WireClientMessage::Control { payload, signature } => {
            ClientMessage::Control { payload, signature }
        },
        WireClientMessage::GetControlNonce => ClientMessage::GetControlNonce,
        WireClientMessage::OpenStream { id, payload } => ClientMessage::OpenStream { id, payload },
        WireClientMessage::StreamData { id, payload } => ClientMessage::StreamData { id, payload },
        WireClientMessage::StreamClose { id, half } => {
            ClientMessage::StreamClose { id, both: half == WireStreamHalf::Both }
        },
    })
}

/// Encodes a server message.
///
/// Calls `ciborium::into_writer` for `enclavia_protocol::ServerMessage`. Claims that the
/// outcome is a function of the message. Nothing is claimed of the error's text.
#[verifier::external_body]
pub(crate) fn encode_server_message(message: &ServerMessage) -> (r: Result<Vec<u8>, String>)
    ensures
        r is Ok <==> cbor_server_message(message@) is Some,
        r is Ok ==> r->Ok_0@ == cbor_server_message(message@)->0,
{
    let wire = match message {
        ServerMessage::Attestation { data, control_nonce } => {
            WireServerMessage::Attestation { data: data.clone(), control_nonce: *control_nonce }
        },
        ServerMessage::StreamData { id, payload } => {
            WireServerMessage::StreamData { id: *id, payload: payload.clone() }
        },
        ServerMessage::StreamClose { id } => WireServerMessage::StreamClose { id: *id },
    };
    let mut bytes = Vec::new();
    ciborium::into_writer(&wire, &mut bytes).map_err(|e| e.to_string())?;
    Ok(bytes)
}

/// The attestation document of the responder.
///
/// Calls `FakeAttestation::encode` of `enclavia_protocol` on what `FakeAttestation::with_seed`
/// builds. Claims that the document is a function of the seed and the handshake hash.
#[verifier::external_body]
pub(crate) fn fake_attestation(seed: u8, handshake_hash: &[u8]) -> (r: Vec<u8>)
    ensures
        r@ == attestation_document(seed, handshake_hash@),
{
    FakeAttestation::with_seed(seed, handshake_hash.to_vec()).encode()
}

} // verus!
