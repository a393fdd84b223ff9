use enclavia_protocol::attestation::test_utils::FakeAttestation;
use enclavia_protocol::{
    ClientMessage, NoiseHandshake, NoiseTransport, ServerMessage, StreamHalf,
};
use pingora_enclavia::test_responder::{
    opening_of, Opening, Responder, ResponderError, ResponderMode, SocketEvent, Step, StepEnd,
    PCR_SEED,
};

/// The other end of a connection.
struct Peer {
    transport: NoiseTransport,
    handshake_hash: Vec<u8>,
}

impl Peer {
    fn connect(mode: ResponderMode) -> (Peer, Responder) {
        let mut handshake = NoiseHandshake::initiator().unwrap();
        let mut buf = vec![0u8; 65535];
        let len = handshake.write_message(&[], &mut buf).unwrap();
        let (responder, answer) = Responder::accept(mode, &buf[..len]).unwrap();
        assert_eq!(answer.len(), 48);
        handshake.read_message(&answer, &mut buf).unwrap();
        let handshake_hash = handshake.get_handshake_hash().to_vec();
        (Peer { transport: handshake.into_transport_mode().unwrap(), handshake_hash }, responder)
    }

    fn seal(&mut self, plain: &[u8]) -> Vec<u8> {
        let mut buf = vec![0u8; 65535];
        let n = self.transport.write_message(plain, &mut buf).unwrap();
        let mut frame = (n as u32).to_be_bytes().to_vec();
        frame.extend_from_slice(&buf[..n]);
        frame
    }

    fn frame(&mut self, message: &ClientMessage) -> Vec<u8> {
        let mut cbor = Vec::new();
        ciborium::into_writer(message, &mut cbor).unwrap();
        self.seal(&cbor)
    }

    fn open(&mut self, frame: &[u8]) -> ServerMessage {
        let len = u32::from_be_bytes(frame[..4].try_into().unwrap()) as usize;
        assert_eq!(frame.len(), 4 + len);
        let mut buf = vec![0u8; 65535];
        let n = self.transport.read_message(&frame[4..], &mut buf).unwrap();
        ciborium::from_reader(&buf[..n]).unwrap()
    }

    fn open_data(&mut self, frame: &[u8]) -> (u64, Vec<u8>) {
        match self.open(frame) {
            ServerMessage::StreamData { id, payload } => (id, payload),
            _ => panic!("stream data"),
        }
    }
}

fn feed(responder: &mut Responder, bytes: Vec<u8>) {
    assert!(responder.on_event(SocketEvent::Binary(bytes)));
}

/// The one frame of a step that goes on.
fn sent(step: Step) -> Vec<u8> {
    assert!(matches!(step.end, StepEnd::Continue));
    assert_eq!(step.frames.len(), 1);
    step.frames[0].clone()
}

fn is_quiet(step: Step) -> bool {
    step.frames.is_empty() && matches!(step.end, StepEnd::Continue)
}

fn needs_input(step: Step) -> bool {
    step.frames.is_empty() && matches!(step.end, StepEnd::NeedInput)
}

fn failure(step: Step) -> ResponderError {
    match step.end {
        StepEnd::Failed(e) => e,
        StepEnd::NeedInput | StepEnd::Continue | StepEnd::Close => panic!("a failure"),
    }
}

fn data(id: u64, payload: &[u8]) -> ClientMessage {
    ClientMessage::StreamData { id, payload: payload.to_vec() }
}

fn open_stream(id: u64) -> ClientMessage {
    ClientMessage::OpenStream { id, payload: Vec::new() }
}

#[test]
fn an_opened_stream_echoes() {
    let (mut peer, mut responder) = Peer::connect(ResponderMode::Echo);
    feed(&mut responder, peer.frame(&open_stream(1)));
    assert!(is_quiet(responder.step()));
    assert!(needs_input(responder.step()));
    for chunk in [&b"hello world"[..], &b""[..], &[0, 255, 13, 10][..]] {
        feed(&mut responder, peer.frame(&data(1, chunk)));
        let frame = sent(responder.step());
        assert_eq!(peer.open_data(&frame), (1, chunk.to_vec()));
        assert!(needs_input(responder.step()));
    }
}

#[test]
fn data_for_another_stream_is_dropped() {
    let (mut peer, mut responder) = Peer::connect(ResponderMode::Echo);
    feed(&mut responder, peer.frame(&data(1, b"early")));
    assert!(is_quiet(responder.step()));
    feed(&mut responder, peer.frame(&open_stream(2)));
    assert!(is_quiet(responder.step()));
    feed(&mut responder, peer.frame(&data(1, b"wrong")));
    assert!(is_quiet(responder.step()));
    feed(&mut responder, peer.frame(&data(2, b"right")));
    let frame = sent(responder.step());
    assert_eq!(peer.open_data(&frame), (2, b"right".to_vec()));
}

#[test]
fn attestation_is_bound_to_the_handshake() {
    let (mut peer, mut responder) = Peer::connect(ResponderMode::HttpEcho);
    for _ in 0..2 {
        feed(&mut responder, peer.frame(&ClientMessage::RequestAttestation));
        let frame = sent(responder.step());
        match peer.open(&frame) {
            ServerMessage::Attestation { data, control_nonce } => {
                let hash = peer.handshake_hash.clone();
                assert_eq!(PCR_SEED, 0x42);
                assert_eq!(data, FakeAttestation::with_seed(0x42, hash).encode());
                assert_eq!(control_nonce, [0u8; 32]);
            }
            _ => panic!("an attestation"),
        }
        feed(&mut responder, peer.frame(&open_stream(9)));
        assert!(is_quiet(responder.step()));
    }
}

#[test]
fn a_close_is_acknowledged_and_ends_the_connection() {
    let (mut peer, mut responder) = Peer::connect(ResponderMode::Echo);
    feed(
        &mut responder,
        peer.frame(&ClientMessage::StreamClose { id: 5, half: StreamHalf::Both }),
    );
    let step = responder.step();
    assert!(matches!(step.end, StepEnd::Close));
    assert_eq!(step.frames.len(), 1);
    assert!(matches!(peer.open(&step.frames[0]), ServerMessage::StreamClose { id: 5 }));
}

#[test]
fn other_messages_are_ignored() {
    let (mut peer, mut responder) = Peer::connect(ResponderMode::Echo);
    let others = [
        ClientMessage::Data { id: 1, payload: vec![1] },
        ClientMessage::GetControlNonce,
        ClientMessage::Control { payload: vec![2], signature: vec![3] },
    ];
    for message in &others {
        feed(&mut responder, peer.frame(message));
        assert!(is_quiet(responder.step()));
    }
}

#[test]
fn requests_are_answered_however_they_are_cut() {
    let (mut peer, mut responder) = Peer::connect(ResponderMode::HttpEcho);
    feed(&mut responder, peer.frame(&open_stream(1)));
    assert!(is_quiet(responder.step()));
    feed(&mut responder, peer.frame(&data(1, b"POST / HTTP/1.1\r\nContent-Le")));
    assert!(is_quiet(responder.step()));
    feed(&mut responder, peer.frame(&data(1, b"ngth: 2\r\n\r\nhiGET")));
    let frame = sent(responder.step());
    let expected: &[u8] = b"HTTP/1.1 200 OK\r\nContent-Length: 2\r\nContent-Type: text/plain\r\n\
        Hello-Method: POST\r\nConnection: close\r\n\r\nhi";
    assert_eq!(peer.open_data(&frame), (1, expected.to_vec()));
    assert_eq!(responder.conversation.http_accum, b"GET".to_vec());
}

fn http_answer(method: &str, body: &str) -> Vec<u8> {
    format!(
        "HTTP/1.1 200 OK\r\nContent-Length: {}\r\nContent-Type: text/plain\r\nHello-Method: {}\r\nConnection: close\r\n\r\n{}",
        body.len(),
        method,
        body
    )
    .into_bytes()
}

#[test]
fn every_complete_request_of_a_chunk_is_answered() {
    let (mut peer, mut responder) = Peer::connect(ResponderMode::HttpEcho);
    feed(&mut responder, peer.frame(&open_stream(1)));
    assert!(is_quiet(responder.step()));
    let chunk = b"GET /a HTTP/1.1\r\n\r\nGET /b HTTP/1.1\r\n\r\nPOST / H\r\nContent-Length: 2\r\n\r\nhiPUT";
    feed(&mut responder, peer.frame(&data(1, chunk)));
    let step = responder.step();
    assert!(matches!(step.end, StepEnd::Continue));
    let replies: Vec<(u64, Vec<u8>)> = step.frames.iter().map(|f| peer.open_data(f)).collect();
    assert_eq!(
        replies,
        vec![
            (1, http_answer("GET", "")),
            (1, http_answer("GET", "")),
            (1, http_answer("POST", "hi")),
        ]
    );
    assert_eq!(responder.conversation.http_accum, b"PUT".to_vec());
    assert!(needs_input(responder.step()));
}

#[test]
fn answers_before_one_that_is_too_long_are_sent() {
    let (mut peer, mut responder) = Peer::connect(ResponderMode::HttpEcho);
    feed(&mut responder, peer.frame(&open_stream(1)));
    assert!(is_quiet(responder.step()));
    let mut start = b"POST / H\r\nContent-Length: 40000\r\n\r\n".to_vec();
    start.extend_from_slice(&[200u8; 20000]);
    let mut bytes = b"GET / H\r\n\r\n".to_vec();
    bytes.extend_from_slice(&start);
    feed(&mut responder, peer.frame(&data(1, &bytes)));
    let frame = sent(responder.step());
    assert_eq!(peer.open_data(&frame), (1, http_answer("GET", "")));

    let mut rest = vec![200u8; 20000];
    rest.extend_from_slice(b"GET / H\r\n\r\n");
    feed(&mut responder, peer.frame(&data(1, &rest)));
    let step = responder.step();
    assert!(step.frames.is_empty());
    assert!(matches!(step.end, StepEnd::Failed(ResponderError::Seal(_))));
}

#[test]
fn frames_keep_to_the_noise_limit() {
    let (mut peer, mut responder) = Peer::connect(ResponderMode::Echo);
    feed(&mut responder, peer.frame(&open_stream(1)));
    assert!(is_quiet(responder.step()));
    let payload = vec![1u8; 60000];
    feed(&mut responder, peer.frame(&data(1, &payload)));
    let frame = sent(responder.step());
    assert!(frame.len() <= 4 + 65535);
    assert_eq!(peer.open_data(&frame), (1, payload));
}

#[test]
fn frames_are_handled_however_the_socket_cuts_them() {
    let (mut peer, mut responder) = Peer::connect(ResponderMode::Echo);
    let mut wire = peer.frame(&open_stream(1));
    wire.extend_from_slice(&peer.frame(&data(1, b"a")));
    wire.extend_from_slice(&peer.frame(&data(1, b"b")));
    let mut replies = Vec::new();
    for byte in wire {
        feed(&mut responder, vec![byte]);
        loop {
            let step = responder.step();
            for frame in &step.frames {
                replies.push(peer.open_data(frame));
            }
            if matches!(step.end, StepEnd::NeedInput) {
                break;
            }
            assert!(matches!(step.end, StepEnd::Continue));
        }
    }
    assert_eq!(replies, vec![(1, b"a".to_vec()), (1, b"b".to_vec())]);
}

#[test]
fn a_frame_that_does_not_authenticate_is_an_error() {
    let (mut peer, mut responder) = Peer::connect(ResponderMode::Echo);
    let mut frame = peer.frame(&open_stream(1));
    let last = frame.len() - 1;
    frame[last] ^= 1;
    feed(&mut responder, frame.clone());
    let e = failure(responder.step());
    assert!(matches!(e, ResponderError::Open(_)));
    assert!(!e.message().is_empty());
    assert_eq!(responder.accum, frame);
    feed(&mut responder, vec![0]);
    assert!(matches!(failure(responder.step()), ResponderError::Open(_)));
}

#[test]
fn frames_too_short_or_too_long_are_errors() {
    let (_, mut responder) = Peer::connect(ResponderMode::Echo);
    feed(&mut responder, vec![0, 0, 0, 3, 1, 2, 3]);
    assert!(matches!(failure(responder.step()), ResponderError::Open(_)));
    let (_, mut responder) = Peer::connect(ResponderMode::Echo);
    feed(&mut responder, vec![0, 1, 0, 0]);
    feed(&mut responder, vec![0u8; 0x1_0000]);
    assert!(matches!(failure(responder.step()), ResponderError::Open(_)));
}

#[test]
fn a_frame_that_is_no_message_is_an_error() {
    let (mut peer, mut responder) = Peer::connect(ResponderMode::Echo);
    let frame = peer.seal(b"\xff not cbor");
    feed(&mut responder, frame);
    assert!(matches!(failure(responder.step()), ResponderError::Decode(_)));
    assert!(responder.accum.is_empty());
}

#[test]
fn a_reply_that_is_too_long_is_an_error() {
    let (mut peer, mut responder) = Peer::connect(ResponderMode::HttpEcho);
    feed(&mut responder, peer.frame(&open_stream(1)));
    assert!(is_quiet(responder.step()));
    feed(&mut responder, peer.frame(&data(1, b"POST / H\r\nContent-Length: 60000\r\n\r\n")));
    assert!(is_quiet(responder.step()));
    let chunk = vec![200u8; 30000];
    feed(&mut responder, peer.frame(&data(1, &chunk)));
    assert!(is_quiet(responder.step()));
    feed(&mut responder, peer.frame(&data(1, &chunk)));
    assert!(matches!(failure(responder.step()), ResponderError::Seal(_)));
}

#[test]
fn a_handshake_needs_a_key_and_keeps_to_the_limit() {
    for (len, ok) in [(0, false), (31, false), (32, true), (65535, true), (65536, false)] {
        let first = vec![9u8; len];
        match Responder::accept(ResponderMode::Echo, &first) {
            Ok((responder, answer)) => {
                assert!(ok);
                assert_eq!(answer.len(), 48);
                assert_eq!(responder.conversation.handshake_hash.len(), 32);
                assert_eq!(responder.conversation.open_id, None);
                assert!(responder.accum.is_empty());
            }
            Err(e) => {
                assert!(!ok);
                assert!(matches!(e, ResponderError::Handshake(_)));
            }
        }
    }
}

#[test]
fn the_first_binary_message_opens_the_handshake() {
    match opening_of(SocketEvent::Binary(vec![1, 2])) {
        Opening::Begin(bytes) => assert_eq!(bytes, vec![1, 2]),
        Opening::Abort | Opening::Wait => panic!("it begins"),
    }
    assert!(matches!(opening_of(SocketEvent::Other), Opening::Wait));
    assert!(matches!(opening_of(SocketEvent::Closed), Opening::Abort));
}

#[test]
fn a_closed_socket_ends_the_connection() {
    let (_, mut responder) = Peer::connect(ResponderMode::Echo);
    assert!(responder.on_event(SocketEvent::Other));
    assert!(responder.accum.is_empty());
    assert!(!responder.on_event(SocketEvent::Closed));
}

#[test]
fn any_mode_but_echo_is_http() {
    assert_eq!(ResponderMode::from_name("echo"), ResponderMode::Echo);
    assert_eq!(ResponderMode::from_name("http"), ResponderMode::HttpEcho);
    assert_eq!(ResponderMode::from_name("Echo"), ResponderMode::HttpEcho);
    assert_eq!(ResponderMode::from_name(""), ResponderMode::HttpEcho);
}
