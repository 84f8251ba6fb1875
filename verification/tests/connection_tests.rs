use broker_core::connection::{handle, CloseReason, Connection, ConnectionState};
use broker_core::fanout::Delivery;
use broker_core::frame::{DecodeError, Frame, FrameType};
use broker_core::record::ReplayReader;
use broker_core::server::{Reply, Server};
use broker_core::storage::{MemoryStorage, StorageError};

fn wire(frame_type: FrameType, stream_id: u64, payload: &[u8]) -> Vec<u8> {
    Frame { frame_type, stream_id, offset: 0, payload: payload.to_vec() }.encode()
}

fn header(kind: u8, stream_id: u64, declared: u32) -> Vec<u8> {
    let mut bytes = vec![kind];
    bytes.extend_from_slice(&stream_id.to_le_bytes());
    bytes.extend_from_slice(&0u64.to_le_bytes());
    bytes.extend_from_slice(&declared.to_le_bytes());
    bytes
}

fn acks(replies: &[Reply]) -> Vec<(u64, u64)> {
    replies
        .iter()
        .map(|reply| match reply {
            Reply::Ack(frame) => {
                assert_eq!(frame.frame_type, FrameType::Ack);
                assert!(frame.payload.is_empty());
                (frame.stream_id, frame.offset)
            }
            other => panic!("not an ack: {:?}", other),
        })
        .collect()
}

fn replay(server: &Server<MemoryStorage>, stream_id: u64) -> Vec<(u64, Vec<u8>)> {
    let mut reader = ReplayReader::new(server.storage().contents(stream_id));
    reader.read_all().into_iter().map(|r| (r.offset, r.payload)).collect()
}

#[test]
fn new_connection_is_reading_with_an_empty_buffer() {
    let conn = Connection::new();
    assert_eq!(conn.current_state(), ConnectionState::Reading);
    assert_eq!(conn.buffered_len(), 0);
    assert!(!conn.is_closed());
}

#[test]
fn empty_read_is_a_clean_close() {
    let mut conn = Connection::new();
    conn.on_read(&[]);
    assert_eq!(conn.current_state(), ConnectionState::Closed(CloseReason::EndOfStream));
    assert!(conn.is_closed());
}

#[test]
fn read_buffers_and_goes_on_to_dispatch() {
    let mut conn = Connection::new();
    conn.on_read(&[1, 2, 3]);
    assert_eq!(conn.current_state(), ConnectionState::Dispatching);
    assert_eq!(conn.buffered_len(), 3);
    conn.on_read(&[4]);
    assert_eq!(conn.buffered_len(), 4);
}

#[test]
fn closed_connection_takes_nothing() {
    let mut conn = Connection::new();
    conn.on_read(&[]);
    conn.on_read(&[1, 2, 3]);
    assert_eq!(conn.current_state(), ConnectionState::Closed(CloseReason::EndOfStream));
    assert_eq!(conn.buffered_len(), 0);
    let mut server = Server::new(MemoryStorage::new());
    assert!(conn.step(&mut server).is_none());
    assert!(handle(&mut conn, &wire(FrameType::Publish, 1, b"x"), &mut server).is_empty());
    assert_eq!(server.next_offset(), 0);
}

#[test]
fn step_on_a_partial_frame_goes_back_to_reading() {
    let mut conn = Connection::new();
    let mut server = Server::new(MemoryStorage::new());
    let bytes = wire(FrameType::Publish, 1, b"payload");
    conn.on_read(&bytes[..25]);
    assert!(conn.step(&mut server).is_none());
    assert_eq!(conn.current_state(), ConnectionState::Reading);
    assert_eq!(conn.buffered_len(), 25);
    assert!(conn.step(&mut server).is_none());
    conn.on_read(&bytes[25..]);
    let reply = conn.step(&mut server).unwrap();
    assert_eq!(acks(&[reply]), vec![(1, 0)]);
    assert_eq!(conn.current_state(), ConnectionState::Dispatching);
    assert!(conn.step(&mut server).is_none());
    assert_eq!(conn.current_state(), ConnectionState::Reading);
    assert_eq!(conn.buffered_len(), 0);
}

#[test]
fn handle_dispatches_every_whole_frame_of_a_read() {
    let mut conn = Connection::new();
    let mut server = Server::new(MemoryStorage::new());
    let mut bytes = wire(FrameType::Publish, 7, b"hello");
    bytes.extend_from_slice(&wire(FrameType::Ack, 7, b""));
    bytes.extend_from_slice(&wire(FrameType::Publish, 8, b"other"));
    bytes.extend_from_slice(&wire(FrameType::Publish, 7, b"world"));
    bytes.extend_from_slice(&wire(FrameType::Publish, 7, b"cut off")[..25]);
    let replies = handle(&mut conn, &bytes, &mut server);
    assert_eq!(replies.len(), 4);
    assert!(matches!(replies[1], Reply::Ignored));
    let committed: Vec<Reply> =
        replies.into_iter().filter(|reply| !matches!(reply, Reply::Ignored)).collect();
    assert_eq!(acks(&committed), vec![(7, 0), (8, 1), (7, 2)]);
    assert_eq!(conn.current_state(), ConnectionState::Reading);
    assert_eq!(conn.buffered_len(), 25);
    assert_eq!(server.next_offset(), 3);
    assert_eq!(replay(&server, 7), vec![(0, b"hello".to_vec()), (2, b"world".to_vec())]);
    assert_eq!(replay(&server, 8), vec![(1, b"other".to_vec())]);
}

#[test]
fn handle_gives_the_same_answers_for_any_chunking() {
    let mut stream = Vec::new();
    for i in 0..6u8 {
        stream.extend_from_slice(&wire(FrameType::Publish, (i % 2) as u64, &vec![i; i as usize + 1]));
    }
    for chunk in [1usize, 2, 5, 21, 22, 40, 1000] {
        let mut conn = Connection::new();
        let mut server = Server::new(MemoryStorage::new());
        let mut replies = Vec::new();
        for piece in stream.chunks(chunk) {
            replies.extend(handle(&mut conn, piece, &mut server));
        }
        assert_eq!(
            acks(&replies),
            vec![(0, 0), (1, 1), (0, 2), (1, 3), (0, 4), (1, 5)]
        );
        assert_eq!(conn.current_state(), ConnectionState::Reading);
        assert_eq!(conn.buffered_len(), 0);
        assert_eq!(
            replay(&server, 1),
            vec![(1, vec![1; 2]), (3, vec![3; 4]), (5, vec![5; 6])]
        );
    }
}

#[test]
fn handle_of_an_empty_read_closes_and_changes_nothing_else() {
    let mut conn = Connection::new();
    let mut server = Server::new(MemoryStorage::new());
    handle(&mut conn, &wire(FrameType::Publish, 1, b"x")[..10], &mut server);
    let replies = handle(&mut conn, &[], &mut server);
    assert!(replies.is_empty());
    assert_eq!(conn.current_state(), ConnectionState::Closed(CloseReason::EndOfStream));
    assert_eq!(conn.buffered_len(), 10);
    assert_eq!(server.next_offset(), 0);
}

#[test]
fn unknown_frame_type_closes_the_connection_only() {
    let mut conn = Connection::new();
    let mut server = Server::new(MemoryStorage::new());
    let mut bytes = wire(FrameType::Publish, 1, b"fine");
    bytes.extend_from_slice(&header(0xff, 1, 0));
    bytes.extend_from_slice(&wire(FrameType::Publish, 1, b"never seen"));
    let replies = handle(&mut conn, &bytes, &mut server);
    assert_eq!(acks(&replies), vec![(1, 0)]);
    assert_eq!(
        conn.current_state(),
        ConnectionState::Closed(CloseReason::Protocol(DecodeError::UnknownFrameType))
    );
    assert_eq!(server.next_offset(), 1);

    let mut other = Connection::new();
    let replies = handle(&mut other, &wire(FrameType::Publish, 1, b"still served"), &mut server);
    assert_eq!(acks(&replies), vec![(1, 1)]);
}

#[test]
fn publish_without_payload_closes_the_connection() {
    let mut conn = Connection::new();
    let mut server = Server::new(MemoryStorage::new());
    let mut bytes = wire(FrameType::Publish, 1, b"fine");
    bytes.extend_from_slice(&header(0x01, 1, 0));
    let replies = handle(&mut conn, &bytes, &mut server);
    assert_eq!(acks(&replies), vec![(1, 0)]);
    assert_eq!(conn.current_state(), ConnectionState::Closed(CloseReason::InvalidFrame));
    assert_eq!(server.next_offset(), 1);
    assert_eq!(replay(&server, 1), vec![(0, b"fine".to_vec())]);
}

#[test]
fn failed_commit_closes_the_connection_without_an_ack() {
    let mut conn = Connection::new();
    let mut server = Server::new(MemoryStorage::with_room(14 + 4));
    let mut bytes = wire(FrameType::Publish, 1, b"ok");
    bytes.extend_from_slice(&wire(FrameType::Publish, 1, b"no room"));
    bytes.extend_from_slice(&wire(FrameType::Publish, 1, b"not tried"));
    let replies = handle(&mut conn, &bytes, &mut server);
    assert_eq!(acks(&replies), vec![(1, 0)]);
    assert_eq!(
        conn.current_state(),
        ConnectionState::Closed(CloseReason::Storage(StorageError::Write))
    );
    assert_eq!(server.next_offset(), 2);
    assert_eq!(replay(&server, 1), vec![(0, b"ok".to_vec())]);
}

#[test]
fn end_to_end_publish_ack_and_delivery() {
    let mut server = Server::new(MemoryStorage::new());

    let mut subscriber = Connection::new();
    let mut replies = handle(&mut subscriber, &wire(FrameType::Subscribe, 7, b""), &mut server);
    assert_eq!(replies.len(), 1);
    let mut subscription = match replies.pop().unwrap() {
        Reply::Subscribed(subscription) => subscription,
        other => panic!("not a subscription: {:?}", other),
    };

    let mut publisher = Connection::new();
    let replies = handle(&mut publisher, &wire(FrameType::Publish, 7, b"hello"), &mut server);
    assert_eq!(acks(&replies), vec![(7, 0)]);
    let replies = handle(&mut publisher, &wire(FrameType::Publish, 7, b"world"), &mut server);
    assert_eq!(acks(&replies), vec![(7, 1)]);

    let mut delivered = Vec::new();
    loop {
        match subscription.poll() {
            Delivery::Message(frame) => {
                assert_eq!(frame.frame_type, FrameType::Message);
                assert_eq!(frame.stream_id, 7);
                let back = Frame::decode(&frame.encode()).unwrap();
                delivered.push((back.offset, back.payload));
            }
            Delivery::Idle => break,
            other => panic!("unexpected: {:?}", other),
        }
    }
    assert_eq!(delivered, vec![(0, b"hello".to_vec()), (1, b"world".to_vec())]);
    assert_eq!(replay(&server, 7), vec![(0, b"hello".to_vec()), (1, b"world".to_vec())]);
}

#[test]
fn message_without_payload_from_a_client_is_ignored() {
    let mut conn = Connection::new();
    let mut server = Server::new(MemoryStorage::new());
    let mut bytes = header(0x02, 1, 0);
    bytes.extend_from_slice(&header(0x04, 1, 0));
    bytes.extend_from_slice(&wire(FrameType::Publish, 1, b"after"));
    let replies = handle(&mut conn, &bytes, &mut server);
    assert_eq!(replies.len(), 3);
    assert!(matches!(replies[0], Reply::Ignored));
    assert!(matches!(replies[1], Reply::Ignored));
    assert_eq!(acks(&replies[2..]), vec![(1, 0)]);
    assert_eq!(conn.current_state(), ConnectionState::Reading);
}
