use protohackers::frames::{
    Decision, EncodeFailed, Error, Heartbeat, IAmCamera, IAmDispatcher, Message, MessageCodec,
    Plate, Ticket, WantHeartbeat, put_str,
};
use protohackers::transport::FrameTransport;

fn encode_one(message: &Message) -> Vec<u8> {
    let codec = MessageCodec;
    let mut out = Vec::new();
    codec.encode(message, &mut out).expect("encode message");
    out
}

fn cases() -> Vec<(Message, Vec<u8>)> {
    vec![
        (
            Message::Error(Error { message: b"aab".to_vec() }),
            vec![0x10, 0x03, 0x61, 0x61, 0x62],
        ),
        (
            Message::Plate(Plate { plate: b"aab".to_vec(), timestamp: 100 }),
            vec![0x20, 0x03, 0x61, 0x61, 0x62, 0x00, 0x00, 0x00, 0x64],
        ),
        (
            Message::Ticket(Ticket {
                plate: b"aab".to_vec(),
                road: 10,
                mile1: 20,
                timestamp1: 30,
                mile2: 40,
                timestamp2: 50,
                speed: 60,
            }),
            vec![
                0x21, 0x03, 0x61, 0x61, 0x62, 0x00, 0x0A, 0x00, 0x14, 0x00, 0x00, 0x00, 0x1E,
                0x00, 0x28, 0x00, 0x00, 0x00, 0x32, 0x00, 0x3C,
            ],
        ),
        (
            Message::WantHeartbeat(WantHeartbeat { interval: 256 }),
            vec![0x40, 0x00, 0x00, 0x01, 0x00],
        ),
        (Message::Heartbeat(Heartbeat), vec![0x41]),
        (
            Message::IAmCamera(IAmCamera { road: 10, mile: 20, limit: 30 }),
            vec![0x80, 0x00, 0x0A, 0x00, 0x14, 0x00, 0x1E],
        ),
        (
            Message::IAmDispatcher(IAmDispatcher { num_roads: 3, roads: vec![10, 20, 30] }),
            vec![0x81, 0x03, 0x00, 0x0A, 0x00, 0x14, 0x00, 0x1E],
        ),
    ]
}

#[test]
fn encode_all_variants() {
    for (message, expected) in cases() {
        assert_eq!(encode_one(&message), expected);
    }
}

#[test]
fn encode_stream_concatenates() {
    let codec = MessageCodec;
    let mut dest = Vec::new();
    codec
        .encode(&Message::Plate(Plate { plate: b"abc".to_vec(), timestamp: 10 }), &mut dest)
        .expect("encode message");
    codec
        .encode(&Message::WantHeartbeat(WantHeartbeat { interval: 12 }), &mut dest)
        .expect("encode message");
    assert_eq!(
        dest,
        vec![0x20, 0x03, 0x61, 0x62, 0x63, 0x00, 0x00, 0x00, 0x0A, 0x40, 0x00, 0x00, 0x00, 0x0C]
    );
}

#[test]
fn decode_all_variants() {
    let codec = MessageCodec;
    for (message, bytes) in cases() {
        match codec.decode(&bytes) {
            Decision::Complete(decoded, consumed) => {
                assert_eq!(decoded, message);
                assert_eq!(consumed, bytes.len());
            }
            other => panic!("expected a complete frame, got {:?}", other),
        }
    }
}

#[test]
fn decode_incomplete_needs_more() {
    let codec = MessageCodec;
    for (_, bytes) in cases() {
        for cut in 0..bytes.len() {
            let partial = bytes[..cut].to_vec();
            assert_eq!(codec.decode(&partial), Decision::NeedMore);
        }
    }
}

#[test]
fn round_trip_every_variant() {
    let codec = MessageCodec;
    for (message, _) in cases() {
        let bytes = encode_one(&message);
        match codec.decode(&bytes) {
            Decision::Complete(decoded, consumed) => {
                assert_eq!(decoded, message);
                assert_eq!(consumed, bytes.len());
            }
            other => panic!("expected a complete frame, got {:?}", other),
        }
    }
}

#[test]
fn test_put_str() {
    let mut data = Vec::new();
    put_str(&mut data, &b"abc".to_vec()).expect("put_str works");
    assert_eq!(data, vec![0x03, 0x61, 0x62, 0x63]);
}

#[test]
fn put_str_refuses_long_string() {
    let mut data = Vec::new();
    let long = vec![0x61u8; 256];
    assert_eq!(put_str(&mut data, &long), Err(EncodeFailed));
    assert!(data.is_empty());
}

#[test]
fn encode_refuses_dispatcher_count_mismatch() {
    let codec = MessageCodec;
    let mut out = Vec::new();
    let bad = Message::IAmDispatcher(IAmDispatcher { num_roads: 2, roads: vec![10, 20, 30] });
    assert_eq!(codec.encode(&bad, &mut out), Err(EncodeFailed));
    assert!(out.is_empty());
}

#[test]
fn partial_ticket_completes_on_last_bytes() {
    let codec = MessageCodec;
    let bytes = vec![
        0x21, 0x03, 0x61, 0x61, 0x62, 0x00, 0x0A, 0x00, 0x14, 0x00, 0x00, 0x00, 0x1E, 0x00,
        0x28, 0x00, 0x00, 0x00, 0x32,
    ];
    let mut buffer = Vec::new();
    for b in &bytes {
        buffer.push(*b);
        assert_eq!(codec.decode(&buffer), Decision::NeedMore);
    }
    buffer.push(0x00);
    assert_eq!(codec.decode(&buffer), Decision::NeedMore);
    buffer.push(0x3C);
    match codec.decode(&buffer) {
        Decision::Complete(Message::Ticket(ticket), consumed) => {
            assert_eq!(ticket.plate, b"aab".to_vec());
            assert_eq!(ticket.road, 10);
            assert_eq!(ticket.mile1, 20);
            assert_eq!(ticket.timestamp1, 30);
            assert_eq!(ticket.mile2, 40);
            assert_eq!(ticket.timestamp2, 50);
            assert_eq!(ticket.speed, 60);
            assert_eq!(consumed, 21);
        }
        other => panic!("expected a ticket, got {:?}", other),
    }
}

#[test]
fn dispatcher_consumes_exactly_its_bytes() {
    let codec = MessageCodec;
    let bytes = vec![0x81, 0x03, 0x00, 0x0A, 0x00, 0x14, 0x00, 0x1E];
    match codec.decode(&bytes) {
        Decision::Complete(Message::IAmDispatcher(d), consumed) => {
            assert_eq!(d.num_roads, 3);
            assert_eq!(d.roads, vec![10, 20, 30]);
            assert_eq!(consumed, 8);
        }
        other => panic!("expected a dispatcher, got {:?}", other),
    }
}

#[test]
fn unknown_tag_is_protocol_error() {
    let codec = MessageCodec;
    let bytes = vec![0xFF, 0x01, 0x02];
    assert_eq!(codec.decode(&bytes), Decision::ProtocolError);
}

#[test]
fn transport_reassembles_fragmented_frames() {
    let mut transport = FrameTransport::new();
    let heart = vec![0x41u8];
    let camera = vec![0x80, 0x00, 0x0A, 0x00, 0x14, 0x00, 0x1E];
    let mut stream = Vec::new();
    stream.extend_from_slice(&heart);
    stream.extend_from_slice(&camera);
    stream.extend_from_slice(&heart);
    for chunk in stream.chunks(2) {
        transport.feed(&chunk.to_vec());
    }
    let (frames, ok) = transport.drain_frames();
    assert!(ok);
    assert_eq!(frames.len(), 3);
    assert_eq!(frames[0], Message::Heartbeat(Heartbeat));
    assert_eq!(frames[1], Message::IAmCamera(IAmCamera { road: 10, mile: 20, limit: 30 }));
    assert_eq!(frames[2], Message::Heartbeat(Heartbeat));
}

#[test]
fn transport_stops_at_bad_tag() {
    let mut transport = FrameTransport::new();
    transport.feed(&vec![0x41, 0xFF, 0x00]);
    let (frames, ok) = transport.drain_frames();
    assert!(!ok);
    assert_eq!(frames, vec![Message::Heartbeat(Heartbeat)]);
}
