use enclavia_protocol::attestation::test_utils::FakeAttestation;
use enclavia_protocol::attestation::{verify_against, Pcrs};
use enclavia_protocol::{
    ClientMessage, NoiseHandshake, NoiseTransport, ServerMessage, StreamHalf,
};
use futures_util::{SinkExt, StreamExt};
use pingora_enclavia::test_responder::{
    opening_of, Opening, Responder, ResponderMode, SocketEvent, StepEnd,
};
use pingora_enclavia::tunnel::{DialError, DialErrorKind, TunnelError};
use tokio::io::DuplexStream;
use tokio_tungstenite::tungstenite::Message;
use tokio_tungstenite::{accept_async, client_async, WebSocketStream};

async fn next_event(ws: &mut WebSocketStream<DuplexStream>) -> SocketEvent {
    match ws.next().await {
        Some(Ok(Message::Binary(bytes))) => SocketEvent::Binary(bytes.into()),
        Some(Ok(Message::Close(_))) | None => SocketEvent::Closed,
        Some(Ok(_)) => SocketEvent::Other,
        Some(Err(e)) => panic!("{e}"),
    }
}

async fn respond(socket: DuplexStream) {
    let mut ws = accept_async(socket).await.unwrap();
    let first = loop {
        match opening_of(next_event(&mut ws).await) {
            Opening::Begin(bytes) => break bytes,
            Opening::Abort => return,
            Opening::Wait => {}
        }
    };
    let (mut responder, answer) = Responder::accept(ResponderMode::Echo, &first).unwrap();
    ws.send(Message::Binary(answer.into())).await.unwrap();
    loop {
        let step = responder.step();
        for frame in step.frames {
            ws.send(Message::Binary(frame.into())).await.unwrap();
        }
        match step.end {
            StepEnd::Continue => {}
            StepEnd::Failed(e) => panic!("{}", e.message()),
            StepEnd::Close => {
                let _ = ws.close(None).await;
                return;
            }
            StepEnd::NeedInput => {
                if !responder.on_event(next_event(&mut ws).await) {
                    return;
                }
            }
        }
    }
}

#[test]
fn tunnel_error_is_send_sync() {
    fn assert_send_sync<T: Send + Sync>() {}
    assert_send_sync::<TunnelError>();
}

/// The client's end of a tunnel.
struct Client {
    ws: WebSocketStream<DuplexStream>,
    transport: NoiseTransport,
}

impl Client {
    async fn receive(ws: &mut WebSocketStream<DuplexStream>) -> Vec<u8> {
        match next_event(ws).await {
            SocketEvent::Binary(bytes) => bytes,
            SocketEvent::Closed | SocketEvent::Other => panic!("a binary message"),
        }
    }

    async fn connect(socket: DuplexStream) -> (Client, Vec<u8>) {
        let (mut ws, _) = client_async("ws://localhost/", socket).await.unwrap();
        let mut handshake = NoiseHandshake::initiator().unwrap();
        let mut buf = vec![0u8; 65535];
        let len = handshake.write_message(&[], &mut buf).unwrap();
        ws.send(Message::Binary(buf[..len].to_vec().into())).await.unwrap();
        let answer = Client::receive(&mut ws).await;
        handshake.read_message(&answer, &mut buf).unwrap();
        let hash = handshake.get_handshake_hash().to_vec();
        (Client { ws, transport: handshake.into_transport_mode().unwrap() }, hash)
    }

    async fn send(&mut self, message: &ClientMessage) {
        let mut cbor = Vec::new();
        ciborium::into_writer(message, &mut cbor).unwrap();
        let mut buf = vec![0u8; 65535];
        let n = self.transport.write_message(&cbor, &mut buf).unwrap();
        let mut frame = (n as u32).to_be_bytes().to_vec();
        frame.extend_from_slice(&buf[..n]);
        self.ws.send(Message::Binary(frame.into())).await.unwrap();
    }

    async fn next(&mut self) -> ServerMessage {
        let frame = Client::receive(&mut self.ws).await;
        let mut buf = vec![0u8; 65535];
        let n = self.transport.read_message(&frame[4..], &mut buf).unwrap();
        ciborium::from_reader(&buf[..n]).unwrap()
    }
}

#[test]
fn echo_through_tunnel() {
    let runtime = tokio::runtime::Runtime::new().unwrap();
    runtime.block_on(async {
        let (near, far) = tokio::io::duplex(65536);

        let pcrs_seed = FakeAttestation::with_seed(0x42, vec![0u8; 32]);
        let expected = Pcrs {
            pcr0: pcrs_seed.pcr0.clone(),
            pcr1: pcrs_seed.pcr1.clone(),
            pcr2: pcrs_seed.pcr2.clone(),
        };

        let served = tokio::spawn(respond(far));

        let (mut client, hash) = Client::connect(near).await;
        client.send(&ClientMessage::RequestAttestation).await;
        match client.next().await {
            ServerMessage::Attestation { data, .. } => {
                verify_against(&data, &hash, &expected, true).expect("connect")
            }
            _ => panic!("an attestation"),
        }
        client.send(&ClientMessage::OpenStream { id: 1, payload: Vec::new() }).await;

        let payload = b"hello world".to_vec();
        client.send(&ClientMessage::StreamData { id: 1, payload }).await;
        match client.next().await {
            ServerMessage::StreamData { id, payload } => {
                assert_eq!(id, 1);
                assert_eq!(&payload[..], b"hello world");
            }
            _ => panic!("stream data"),
        }

        client.send(&ClientMessage::StreamClose { id: 1, half: StreamHalf::Both }).await;
        assert!(matches!(client.next().await, ServerMessage::StreamClose { id: 1 }));
        served.await.unwrap();
    });
}

#[test]
fn a_tunnel_error_names_the_sdk() {
    assert_eq!(TunnelError::Sdk("pcr mismatch".to_string()).message(), "enclavia sdk: pcr mismatch");
}

#[test]
fn a_timeout_is_told_apart() {
    assert_eq!(DialError::TimedOut.kind(), DialErrorKind::ConnectTimedout);
    assert_eq!(DialError::TimedOut.context(), "attested tunnel handshake timed out");
    let failed = DialError::Tunnel(TunnelError::Sdk("refused".to_string()));
    assert_eq!(failed.kind(), DialErrorKind::ConnectError);
    assert_eq!(failed.context(), "attested tunnel handshake");
}
