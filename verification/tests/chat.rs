use protohackers::connection::Connection;
use protohackers::linecodec::{LineCodec, LineDecision, LineError};
use protohackers::room::{Room, RoomEvent};
use protohackers::server::{PeerPhase, PeerSession, RoutingTable, SessionEvent};
use protohackers::staging::{is_name_valid, ClientInitializationError, Membership, Staging};

const PROMPT: &[u8] = b"Welcome to budgetchat! What shall I call you?";

#[test]
fn join_order() {
    let mut alice = Staging::new(1);
    let prompt = alice.request_name();
    assert_eq!(prompt, PROMPT.to_vec());
    let name_a = alice.submit_name(&b"alice".to_vec()).expect("alice is a valid name");
    assert_eq!(name_a, b"alice".to_vec());

    let mut room = Room::new();
    let outs = room.process_event(RoomEvent::Connected(1, name_a));
    assert_eq!(outs, vec![(1u64, b"* The room contains: ".to_vec())]);

    let mut bob = Staging::new(2);
    assert_eq!(bob.request_name(), PROMPT.to_vec());
    let name_b = bob.submit_name(&b"bob".to_vec()).expect("bob is a valid name");
    let outs = room.process_event(RoomEvent::Connected(2, name_b));
    assert_eq!(
        outs,
        vec![
            (1u64, b"* bob has entered the room".to_vec()),
            (2u64, b"* The room contains: alice".to_vec()),
        ]
    );
}

fn room_with_alice_and_bob() -> Room {
    let mut room = Room::new();
    room.process_event(RoomEvent::Connected(1, b"alice".to_vec()));
    room.process_event(RoomEvent::Connected(2, b"bob".to_vec()));
    room
}

#[test]
fn relay_goes_to_bob_only() {
    let mut room = room_with_alice_and_bob();
    let outs = room.process_event(RoomEvent::Message(1, b"hi".to_vec()));
    assert_eq!(outs, vec![(2u64, b"[alice] hi".to_vec())]);
}

#[test]
fn leave_notice_after_disconnect() {
    let mut room = room_with_alice_and_bob();
    let outs = room.process_event(RoomEvent::Disconnected(1));
    assert_eq!(outs, vec![(2u64, b"* alice has left the room".to_vec())]);
    assert_eq!(room.get_name(1), None);
}

#[test]
fn bad_name_is_rejected_after_prompt() {
    let mut staging = Staging::new(7);
    let prompt = staging.request_name();
    assert_eq!(prompt, PROMPT.to_vec());
    let err = staging.submit_name(&b"no spaces!".to_vec()).expect_err("name must be rejected");
    assert_eq!(err, ClientInitializationError::InvalidName(b"no spaces!".to_vec()));
    assert_eq!(staging.membership, Membership::NameRequested);
}

#[test]
fn unknown_member_disconnect_is_silent() {
    let mut room = room_with_alice_and_bob();
    let outs = room.process_event(RoomEvent::Disconnected(99));
    assert!(outs.is_empty());
}

#[test]
fn unknown_sender_is_dropped() {
    let mut room = room_with_alice_and_bob();
    let outs = room.process_event(RoomEvent::Message(99, b"ghost".to_vec()));
    assert!(outs.is_empty());
}

#[test]
fn relay_strips_trailing_carriage_return() {
    let mut room = room_with_alice_and_bob();
    let outs = room.process_event(RoomEvent::Message(2, b"hello\r".to_vec()));
    assert_eq!(outs, vec![(1u64, b"[bob] hello".to_vec())]);
}

#[test]
fn duplicate_names_are_accepted() {
    let mut room = room_with_alice_and_bob();
    let outs = room.process_event(RoomEvent::Connected(3, b"alice".to_vec()));
    assert_eq!(
        outs,
        vec![
            (1u64, b"* alice has entered the room".to_vec()),
            (2u64, b"* alice has entered the room".to_vec()),
            (3u64, b"* The room contains: alice, bob".to_vec()),
        ]
    );
}

#[test]
fn names_are_trimmed_and_validated() {
    assert_eq!(is_name_valid(&b"  alice \r\n".to_vec()), Some(b"alice".to_vec()));
    assert_eq!(is_name_valid(&b"bob7".to_vec()), Some(b"bob7".to_vec()));
    assert_eq!(is_name_valid(&b"".to_vec()), None);
    assert_eq!(is_name_valid(&b"   ".to_vec()), None);
    assert_eq!(is_name_valid(&b"no spaces!".to_vec()), None);
    assert_eq!(is_name_valid(&b"abcdefghijklmnop".to_vec()), Some(b"abcdefghijklmnop".to_vec()));
    assert_eq!(is_name_valid(&b"abcdefghijklmnopq".to_vec()), None);
    assert_eq!(Staging::is_name_valid(&b" carol ".to_vec()), Some(b"carol".to_vec()));
}

#[test]
fn line_codec_round_trip() {
    let codec = LineCodec::new();
    let record = b"hello world".to_vec();
    let mut encoded = Vec::new();
    codec.encode(&record, &mut encoded);
    assert_eq!(encoded, b"hello world\n".to_vec());
    match codec.decode(&encoded) {
        LineDecision::Record(decoded, consumed) => {
            assert_eq!(decoded, record);
            assert_eq!(consumed, record.len() + 1);
        }
        other => panic!("expected a record, got {:?}", other),
    }
}

#[test]
fn line_codec_empty_record() {
    let codec = LineCodec::new();
    match codec.decode(&vec![0x0A]) {
        LineDecision::Record(decoded, consumed) => {
            assert_eq!(decoded, Vec::<u8>::new());
            assert_eq!(consumed, 1);
        }
        other => panic!("expected an empty record, got {:?}", other),
    }
}

#[test]
fn line_codec_waits_without_newline() {
    let codec = LineCodec::new();
    assert_eq!(codec.decode(&b"partial".to_vec()), LineDecision::NeedMore);
}

#[test]
fn line_codec_rejects_oversize_record() {
    let codec = LineCodec { max_record: 4 };
    assert_eq!(
        codec.decode(&b"toolong\n".to_vec()),
        LineDecision::Failed(LineError::Oversize)
    );
    assert_eq!(codec.decode(&b"sixbytes".to_vec()), LineDecision::Failed(LineError::Oversize));
}

#[test]
fn line_codec_rejects_invalid_utf8() {
    let codec = LineCodec::new();
    assert_eq!(
        codec.decode(&vec![0xFF, 0xFE, 0x0A]),
        LineDecision::Failed(LineError::InvalidUtf8)
    );
}

#[test]
fn connection_fan_out_and_prune() {
    let mut conn = Connection::new(42);
    let t1 = conn.subscribe();
    let t2 = conn.subscribe();
    let t3 = conn.subscribe();
    assert_ne!(t1, t2);
    assert_ne!(t2, t3);

    let outs = conn.broadcast(&b"line".to_vec());
    assert_eq!(
        outs,
        vec![(t1, b"line".to_vec()), (t2, b"line".to_vec()), (t3, b"line".to_vec())]
    );

    conn.prune_closed(&vec![t2]);
    let outs = conn.broadcast(&b"next".to_vec());
    assert_eq!(outs, vec![(t1, b"next".to_vec()), (t3, b"next".to_vec())]);

    let signalled = conn.close_all();
    assert_eq!(signalled, vec![t1, t3]);
    assert!(conn.broadcast(&b"gone".to_vec()).is_empty());
}

#[test]
fn connection_outbound_appends_one_lf() {
    let conn = Connection::new(1);
    assert_eq!(conn.outbound_bytes(&b"hi".to_vec()), b"hi\n".to_vec());
}

#[test]
fn peer_session_lifecycle() {
    let mut session = PeerSession::new(5);
    assert_eq!(session.phase, PeerPhase::Joining);
    let announce = session.handle(SessionEvent::Staged(b"alice".to_vec()));
    assert_eq!(announce, Some(RoomEvent::Connected(5, b"alice".to_vec())));
    assert_eq!(session.phase, PeerPhase::Joined);
    let announce = session.handle(SessionEvent::ConnectionClosed);
    assert_eq!(announce, Some(RoomEvent::Disconnected(5)));
    assert_eq!(session.phase, PeerPhase::Departed);
    assert_eq!(session.handle(SessionEvent::ConnectionClosed), None);
}

#[test]
fn failed_ceremony_announces_nothing() {
    let mut session = PeerSession::new(6);
    assert_eq!(session.handle(SessionEvent::ConnectionClosed), None);
    assert_eq!(session.phase, PeerPhase::Departed);
}

#[test]
fn routing_table_tracks_registrations() {
    let mut table = RoutingTable::new();
    assert!(!table.contains(1));
    table.register(1);
    table.register(2);
    table.register(1);
    assert!(table.contains(1));
    assert!(table.contains(2));
    table.deregister(1);
    assert!(!table.contains(1));
    assert!(table.contains(2));
    table.deregister(9);
    assert!(table.contains(2));
}
