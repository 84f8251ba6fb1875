use broker_core::record::{Record, ReplayReader};

fn record(offset: u64, payload: &[u8]) -> Record {
    Record { offset, payload: payload.to_vec() }
}

fn log_of(records: &[Record]) -> Vec<u8> {
    let mut log = Vec::new();
    for r in records {
        log.extend_from_slice(&r.encode());
    }
    log
}

fn replay(log: &[u8]) -> Vec<(u64, Vec<u8>)> {
    let mut reader = ReplayReader::new(log.to_vec());
    reader.read_all().into_iter().map(|r| (r.offset, r.payload)).collect()
}

#[test]
fn record_is_offset_then_length_then_payload() {
    let bytes = record(0x0102_0304_0506_0708, &[0xaa, 0xbb]).encode();
    assert_eq!(
        bytes,
        vec![0x08, 0x07, 0x06, 0x05, 0x04, 0x03, 0x02, 0x01, 0x02, 0x00, 0x00, 0x00, 0xaa, 0xbb]
    );
}

#[test]
fn encode_parts_is_encode() {
    let r = record(77, b"payload");
    assert_eq!(Record::encode_parts(77, b"payload"), r.encode());
    assert_eq!(r.encode().len(), 12 + 7);
}

#[test]
fn record_may_be_empty() {
    assert_eq!(record(3, b"").encode(), vec![3, 0, 0, 0, 0, 0, 0, 0, 0, 0, 0, 0]);
    assert_eq!(replay(&record(3, b"").encode()), vec![(3, Vec::new())]);
}

#[test]
fn replay_yields_the_records_in_order() {
    let records = vec![record(0, b"r1"), record(1, b"record two"), record(5, &[0u8; 400])];
    let got = replay(&log_of(&records));
    assert_eq!(
        got,
        vec![(0, b"r1".to_vec()), (1, b"record two".to_vec()), (5, vec![0u8; 400])]
    );
}

#[test]
fn replay_of_empty_log_is_empty() {
    assert!(replay(&[]).is_empty());
}

#[test]
fn replay_stops_at_a_log_cut_inside_the_last_payload() {
    let records = vec![record(0, b"r1"), record(1, b"r2"), record(2, b"third record")];
    let log = log_of(&records);
    let third_starts = log.len() - (12 + 12);
    let cut = third_starts + 12 + 6;
    assert_eq!(replay(&log[..cut]), vec![(0, b"r1".to_vec()), (1, b"r2".to_vec())]);
}

#[test]
fn replay_tolerates_every_cut() {
    let records = vec![record(10, b"a"), record(11, b"bcd"), record(12, b"efghij")];
    let log = log_of(&records);
    let ends = [13usize, 13 + 15, 13 + 15 + 18];
    for cut in 0..=log.len() {
        let whole = ends.iter().filter(|&&end| end <= cut).count();
        let got = replay(&log[..cut]);
        assert_eq!(got.len(), whole);
        for (i, (offset, payload)) in got.iter().enumerate() {
            assert_eq!(*offset, records[i].offset);
            assert_eq!(*payload, records[i].payload);
        }
    }
}

#[test]
fn read_one_reads_record_by_record() {
    let log = log_of(&[record(1, b"x"), record(2, b"yy")]);
    let mut reader = ReplayReader::new(log);
    let first = reader.read_one().unwrap();
    assert_eq!((first.offset, first.payload), (1, b"x".to_vec()));
    let second = reader.read_one().unwrap();
    assert_eq!((second.offset, second.payload), (2, b"yy".to_vec()));
    assert!(reader.read_one().is_none());
    assert!(reader.read_one().is_none());
}

#[test]
fn read_all_goes_on_from_where_the_reader_stands() {
    let log = log_of(&[record(1, b"x"), record(2, b"yy"), record(3, b"zzz")]);
    let mut reader = ReplayReader::new(log);
    reader.read_one().unwrap();
    let rest: Vec<u64> = reader.read_all().iter().map(|r| r.offset).collect();
    assert_eq!(rest, vec![2, 3]);
    assert!(reader.read_all().is_empty());
}

#[test]
fn replay_all_returns_the_payloads_in_write_order() {
    let mut log = log_of(&[record(0, b"one"), record(1, b"two"), record(2, b"three")]);
    log.extend_from_slice(&[9, 9, 9]);
    let mut reader = ReplayReader::new(log);
    assert_eq!(
        reader.replay_all(),
        vec![b"one".to_vec(), b"two".to_vec(), b"three".to_vec()]
    );
}
