use broker_core::fanout::Delivery;
use broker_core::frame::{Frame, FrameType};
use broker_core::record::ReplayReader;
use broker_core::server::{Reply, Server};
use broker_core::storage::{MemoryStorage, Storage, StorageError};

fn frame(frame_type: FrameType, stream_id: u64, offset: u64, payload: &[u8]) -> Frame {
    Frame { frame_type, stream_id, offset, payload: payload.to_vec() }
}

fn ack(reply: Reply) -> Frame {
    match reply {
        Reply::Ack(frame) => frame,
        other => panic!("not an ack: {:?}", other),
    }
}

fn replay(server: &Server<MemoryStorage>, stream_id: u64) -> Vec<(u64, Vec<u8>)> {
    let mut reader = ReplayReader::new(server.storage().contents(stream_id));
    reader.read_all().into_iter().map(|r| (r.offset, r.payload)).collect()
}

#[test]
fn fresh_server_starts_at_offset_zero() {
    let server = Server::new(MemoryStorage::new());
    assert_eq!(server.next_offset(), 0);
    assert!(!server.is_exhausted());
}

#[test]
fn append_assigns_offsets_in_order_across_streams() {
    let mut server = Server::new(MemoryStorage::new());
    assert_eq!(server.append(1, b"a"), Ok(0));
    assert_eq!(server.append(2, b"b"), Ok(1));
    assert_eq!(server.append(1, b"c"), Ok(2));
    assert_eq!(server.next_offset(), 3);
    assert_eq!(replay(&server, 1), vec![(0, b"a".to_vec()), (2, b"c".to_vec())]);
    assert_eq!(replay(&server, 2), vec![(1, b"b".to_vec())]);
}

#[test]
fn append_writes_the_record_bytes() {
    let mut server = Server::new(MemoryStorage::new());
    server.append(3, b"hi").unwrap();
    assert_eq!(
        server.storage().contents(3),
        vec![0, 0, 0, 0, 0, 0, 0, 0, 2, 0, 0, 0, b'h', b'i']
    );
}

#[test]
fn publish_is_acknowledged_with_its_offset_and_stream() {
    let mut server = Server::new(MemoryStorage::new());
    let first = ack(server.handle_frame(frame(FrameType::Publish, 7, 999, b"hello")).unwrap());
    assert_eq!(first.frame_type, FrameType::Ack);
    assert_eq!(first.stream_id, 7);
    assert_eq!(first.offset, 0);
    assert!(first.payload.is_empty());
    let second = ack(server.handle_frame(frame(FrameType::Publish, 7, 999, b"world")).unwrap());
    assert_eq!((second.stream_id, second.offset), (7, 1));
    assert_eq!(replay(&server, 7), vec![(0, b"hello".to_vec()), (1, b"world".to_vec())]);
}

#[test]
fn ack_and_message_from_a_client_are_ignored() {
    let mut server = Server::new(MemoryStorage::new());
    let reply = server.handle_frame(frame(FrameType::Ack, 7, 3, b"")).unwrap();
    assert!(matches!(reply, Reply::Ignored));
    let reply = server.handle_frame(frame(FrameType::Message, 7, 3, b"m")).unwrap();
    assert!(matches!(reply, Reply::Ignored));
    assert_eq!(server.next_offset(), 0);
    assert!(server.storage().contents(7).is_empty());
}

#[test]
fn subscribe_spends_no_offset_and_writes_nothing() {
    let mut server = Server::new(MemoryStorage::new());
    let reply = server.handle_frame(frame(FrameType::Subscribe, 7, 0, b"")).unwrap();
    match reply {
        Reply::Subscribed(subscription) => assert_eq!(subscription.stream_id, 7),
        other => panic!("not a subscription: {:?}", other),
    }
    assert_eq!(server.next_offset(), 0);
    assert!(server.storage().contents(7).is_empty());
}

#[test]
fn failed_commit_gets_no_ack_and_spends_its_offset() {
    let mut server = Server::new(MemoryStorage::with_room(14 + 5));
    ack(server.handle_frame(frame(FrameType::Publish, 1, 0, b"ok")).unwrap());
    let failed = server.handle_frame(frame(FrameType::Publish, 1, 0, b"too long"));
    assert!(matches!(failed, Err(StorageError::Write)));
    assert_eq!(server.next_offset(), 2);
    assert_eq!(replay(&server, 1), vec![(0, b"ok".to_vec())]);
}

#[test]
fn failed_commit_is_not_broadcast() {
    let mut server = Server::new(MemoryStorage::with_room(3));
    let mut subscription =
        match server.handle_frame(frame(FrameType::Subscribe, 1, 0, b"")).unwrap() {
            Reply::Subscribed(subscription) => subscription,
            other => panic!("not a subscription: {:?}", other),
        };
    assert!(server.handle_frame(frame(FrameType::Publish, 1, 0, b"lost")).is_err());
    assert!(matches!(subscription.poll(), Delivery::Idle));
}

#[test]
fn subscriber_receives_the_commits_made_after_it_attached() {
    let mut server = Server::new(MemoryStorage::new());
    ack(server.handle_frame(frame(FrameType::Publish, 7, 0, b"early")).unwrap());
    let mut subscription =
        match server.handle_frame(frame(FrameType::Subscribe, 7, 0, b"")).unwrap() {
            Reply::Subscribed(subscription) => subscription,
            other => panic!("not a subscription: {:?}", other),
        };
    ack(server.handle_frame(frame(FrameType::Publish, 8, 0, b"other stream")).unwrap());
    let acked = ack(server.handle_frame(frame(FrameType::Publish, 7, 0, b"late")).unwrap());
    match subscription.poll() {
        Delivery::Message(message) => {
            assert_eq!(message.frame_type, FrameType::Message);
            assert_eq!(message.stream_id, 7);
            assert_eq!(message.offset, acked.offset);
            assert_eq!(message.offset, 2);
            assert_eq!(message.payload, b"late".to_vec());
        }
        other => panic!("not a message: {:?}", other),
    }
    assert!(matches!(subscription.poll(), Delivery::Idle));
}

/// A storage that records what it is handed and fails on demand.
struct Scripted {
    fail_with: Option<StorageError>,
    handed: Vec<(u64, Vec<u8>)>,
}

impl Storage for Scripted {
    fn answered(&self, _: u64, _: &[u8], _: &Self, _: Result<(), StorageError>) -> bool {
        true
    }

    fn append(&mut self, stream_id: u64, bytes: &[u8]) -> Result<(), StorageError> {
        self.handed.push((stream_id, bytes.to_vec()));
        match self.fail_with {
            Some(e) => Err(e),
            None => Ok(()),
        }
    }
}

#[test]
fn storage_is_handed_the_record_of_the_publish() {
    let mut server = Server::new(Scripted { fail_with: None, handed: Vec::new() });
    ack(server.handle_frame(frame(FrameType::Publish, 9, 123, b"abc")).unwrap());
    ack(server.handle_frame(frame(FrameType::Publish, 4, 456, b"d")).unwrap());
    assert_eq!(
        server.storage().handed,
        vec![
            (9, vec![0, 0, 0, 0, 0, 0, 0, 0, 3, 0, 0, 0, b'a', b'b', b'c']),
            (4, vec![1, 0, 0, 0, 0, 0, 0, 0, 1, 0, 0, 0, b'd']),
        ]
    );
}

#[test]
fn every_storage_error_fails_the_publish() {
    for e in [StorageError::Open, StorageError::Write, StorageError::Sync] {
        let mut server = Server::new(Scripted { fail_with: Some(e), handed: Vec::new() });
        let mut subscription =
            match server.handle_frame(frame(FrameType::Subscribe, 1, 0, b"")).unwrap() {
                Reply::Subscribed(subscription) => subscription,
                other => panic!("not a subscription: {:?}", other),
            };
        match server.handle_frame(frame(FrameType::Publish, 1, 0, b"x")) {
            Err(got) => assert_eq!(got, e),
            Ok(reply) => panic!("acknowledged: {:?}", reply),
        }
        assert_eq!(server.append(1, b"y"), Err(e));
        assert_eq!(server.next_offset(), 2);
        assert_eq!(server.storage().handed.len(), 2);
        assert!(matches!(subscription.poll(), Delivery::Idle));
    }
}

#[test]
fn acknowledge_takes_the_answer_of_the_storage() {
    let mut server = Server::new(MemoryStorage::new());
    assert_eq!(server.acknowledge(7, 5, b"p", Ok(())), Ok(5));
    for e in [StorageError::Open, StorageError::Write, StorageError::Sync] {
        assert_eq!(server.acknowledge(7, 6, b"p", Err(e)), Err(e));
    }
    assert_eq!(server.next_offset(), 0);
}

#[test]
fn settle_acknowledges_and_broadcasts_a_durable_record() {
    let mut server = Server::new(MemoryStorage::new());
    let mut subscription =
        match server.handle_frame(frame(FrameType::Subscribe, 7, 0, b"")).unwrap() {
            Reply::Subscribed(subscription) => subscription,
            other => panic!("not a subscription: {:?}", other),
        };
    let acked = ack(server.settle(7, 41, b"hello".to_vec(), Ok(())).unwrap());
    assert_eq!(acked.frame_type, FrameType::Ack);
    assert_eq!((acked.stream_id, acked.offset), (7, 41));
    assert!(acked.payload.is_empty());
    match subscription.poll() {
        Delivery::Message(message) => {
            assert_eq!((message.stream_id, message.offset), (7, 41));
            assert_eq!(message.payload, b"hello".to_vec());
        }
        other => panic!("not a message: {:?}", other),
    }
    assert!(matches!(subscription.poll(), Delivery::Idle));
}

#[test]
fn settle_of_a_failed_append_answers_the_error_and_broadcasts_nothing() {
    let mut server = Server::new(MemoryStorage::new());
    let mut subscription =
        match server.handle_frame(frame(FrameType::Subscribe, 7, 0, b"")).unwrap() {
            Reply::Subscribed(subscription) => subscription,
            other => panic!("not a subscription: {:?}", other),
        };
    for e in [StorageError::Open, StorageError::Write, StorageError::Sync] {
        match server.settle(7, 0, b"lost".to_vec(), Err(e)) {
            Err(got) => assert_eq!(got, e),
            Ok(reply) => panic!("acknowledged: {:?}", reply),
        }
    }
    assert!(matches!(subscription.poll(), Delivery::Idle));
    assert_eq!(server.next_offset(), 0);
}

#[test]
fn message_and_ack_are_ignored_whatever_they_hold() {
    let mut server = Server::new(MemoryStorage::new());
    for kind in [FrameType::Message, FrameType::Ack] {
        for payload in [&b""[..], &b"payload"[..]] {
            let reply = server.handle_frame(frame(kind, 7, 9, payload)).unwrap();
            assert!(matches!(reply, Reply::Ignored));
        }
    }
    assert_eq!(server.next_offset(), 0);
}
