use wal::checksum::checksum;
use wal::codec::DecodeOutcome;
use wal::record::Log;
use wal::replay::{Replay, ReplayError};

fn log(key: &str, value: &str) -> Log {
    Log::new(key.as_bytes().to_vec(), value.as_bytes().to_vec()).expect("valid record")
}

fn five_logs() -> Vec<Log> {
    vec![
        log("k1", "v1"),
        log("k2", "v2"),
        log("k3", "v3"),
        log("k4", "v4"),
        log("k5", "v5"),
    ]
}

fn pairs(replay: &Replay) -> Vec<(Vec<u8>, Vec<u8>)> {
    replay
        .records
        .iter()
        .map(|l| (l.key().to_vec(), l.value().to_vec()))
        .collect()
}

fn expected_pairs(logs: &[Log]) -> Vec<(Vec<u8>, Vec<u8>)> {
    logs.iter()
        .map(|l| (l.key().to_vec(), l.value().to_vec()))
        .collect()
}

#[test]
fn test_single_write() {
    let mut store: Vec<u8> = Vec::new();
    let log = log("k1", "v1");
    let bytes_written = log.write_data(&mut store);
    assert!(bytes_written > 0);
    assert_eq!(bytes_written, store.len());
}

#[test]
fn test_single_read() {
    let mut store: Vec<u8> = Vec::new();
    let log = log("k1", "v1");
    log.write_data(&mut store);
    let replay = Log::read_multi_data(&store);
    assert_eq!(replay.error, None);
    assert_eq!(replay.records.len(), 1);
    assert_eq!(replay.records[0].key(), b"k1");
    assert_eq!(replay.records[0].value(), b"v1");
    assert_eq!(log.key(), b"k1");
    assert_eq!(log.value(), b"v1");
}

#[test]
fn test_multi_write() {
    let mut store: Vec<u8> = Vec::new();
    let logs = five_logs();
    let bytes_written = Log::write_multi_data(&logs, &mut store);
    assert!(bytes_written > 0);
    assert_eq!(bytes_written, store.len());
    assert_eq!(bytes_written, 5 * (12 + 2 + 2));
}

#[test]
fn test_multi_read() {
    let mut store: Vec<u8> = Vec::new();
    let logs = five_logs();
    Log::write_multi_data(&logs, &mut store);
    let replay = Log::read_multi_data(&store);
    assert_eq!(replay.error, None);
    assert_eq!(replay.records.len(), 5);
    assert_eq!(logs.len(), 5);
}

#[test]
fn checksum_is_crc32() {
    assert_eq!(checksum(b"123456789"), 0xCBF4_3926);
    assert_eq!(checksum(b""), 0);
    assert_eq!(checksum(b"k1v1"), 0xC071_FEF3);
}

#[test]
fn record_checksum_covers_key_then_value() {
    let l = log("k1", "v1");
    assert_eq!(l.checksum(), 0xC071_FEF3);
    assert_ne!(log("v1", "k1").checksum(), l.checksum());
}

#[test]
fn encode_exact_bytes() {
    let l = log("k1", "v1");
    let expected: Vec<u8> = vec![
        2, 0, 0, 0, 2, 0, 0, 0, 0xF3, 0xFE, 0x71, 0xC0, b'k', b'1', b'v', b'1',
    ];
    assert_eq!(l.encode(), expected);
}

#[test]
fn round_trip_arbitrary_bytes() {
    let cases: Vec<(Vec<u8>, Vec<u8>)> = vec![
        (vec![], vec![]),
        (vec![b'\n', 0, 255], vec![b'\n', b'\n']),
        ((0..=255).collect(), vec![0xff; 300]),
        (b"key".to_vec(), vec![]),
    ];
    for (k, v) in cases {
        let l = Log::new(k.clone(), v.clone()).expect("valid record");
        let bytes = l.encode();
        match Log::read_data(&bytes, 0) {
            Ok((back, next)) => {
                assert_eq!(back.key(), &k[..]);
                assert_eq!(back.value(), &v[..]);
                assert_eq!(back.checksum(), l.checksum());
                assert_eq!(next, bytes.len());
            }
            Err(e) => panic!("decode failed: {:?}", e),
        }
    }
}

#[test]
fn decode_advances_past_frame() {
    let mut store: Vec<u8> = Vec::new();
    let first = log("a", "bb");
    let second = log("ccc", "");
    let n = first.write_data(&mut store);
    second.write_data(&mut store);
    let (_, next) = Log::read_data(&store, 0).expect("first record");
    assert_eq!(next, n);
    let (back, end) = Log::read_data(&store, next).expect("second record");
    assert_eq!(back.key(), b"ccc");
    assert_eq!(end, store.len());
    assert!(matches!(Log::read_data(&store, end), Err(DecodeOutcome::EndOfLog)));
}

#[test]
fn every_strict_prefix_is_truncated() {
    let bytes = log("key", "value").encode();
    assert!(matches!(Log::read_data(&bytes[..0], 0), Err(DecodeOutcome::EndOfLog)));
    for n in 1..bytes.len() {
        assert!(matches!(Log::read_data(&bytes[..n], 0), Err(DecodeOutcome::Truncated)));
    }
}

#[test]
fn header_claiming_too_much_is_truncated() {
    let mut bytes = log("k", "v").encode();
    bytes[0] = 200;
    assert!(matches!(Log::read_data(&bytes, 0), Err(DecodeOutcome::Truncated)));
    let mut huge = log("k", "v").encode();
    huge[4..8].copy_from_slice(&[0xff, 0xff, 0xff, 0xff]);
    huge[0..4].copy_from_slice(&[0xff, 0xff, 0xff, 0xff]);
    assert!(matches!(Log::read_data(&huge, 0), Err(DecodeOutcome::Truncated)));
}

#[test]
fn flipping_a_checksum_bit_is_a_mismatch() {
    let bytes = log("k1", "v1").encode();
    for i in 8..12 {
        for b in 0..8 {
            let mut damaged = bytes.clone();
            damaged[i] ^= 1u8 << b;
            assert!(matches!(
                Log::read_data(&damaged, 0),
                Err(DecodeOutcome::ChecksumMismatch)
            ));
        }
    }
}

#[test]
fn flipping_a_payload_bit_is_a_mismatch() {
    let mut bytes = log("k1", "v1").encode();
    bytes[13] ^= 0x01;
    assert!(matches!(Log::read_data(&bytes, 0), Err(DecodeOutcome::ChecksumMismatch)));
}

#[test]
fn replay_keeps_append_order() {
    let logs = vec![log("z", "1"), log("a", "2"), log("m", "3"), log("a", "4")];
    let mut store: Vec<u8> = Vec::new();
    Log::write_multi_data(&logs, &mut store);
    let replay = Log::read_multi_data(&store);
    assert_eq!(replay.error, None);
    assert_eq!(pairs(&replay), expected_pairs(&logs));
}

#[test]
fn partial_batch_crash_recovers_first_three() {
    let logs = five_logs();
    let mut full: Vec<u8> = Vec::new();
    let mut ends: Vec<usize> = Vec::new();
    for l in &logs {
        l.write_data(&mut full);
        ends.push(full.len());
    }
    // Every cut inside the fourth frame, as a writer killed mid-append leaves it.
    for cut in ends[2]..ends[3] {
        let store = &full[..cut];
        let replay = Log::read_multi_data(store);
        assert_eq!(replay.error, None);
        assert_eq!(pairs(&replay), expected_pairs(&logs[..3]));
    }
}

#[test]
fn empty_store_replays_to_nothing() {
    let replay = Log::read_multi_data(&[]);
    assert!(replay.records.is_empty());
    assert_eq!(replay.error, None);
}

#[test]
fn replay_twice_is_identical() {
    let mut store: Vec<u8> = Vec::new();
    Log::write_multi_data(&five_logs(), &mut store);
    store.truncate(store.len() - 3);
    let first = Log::read_multi_data(&store);
    let second = Log::read_multi_data(&store);
    assert_eq!(pairs(&first), pairs(&second));
    assert_eq!(first.error, second.error);
    assert_eq!(first.records.len(), 4);
}

#[test]
fn corruption_is_reported_with_records_before_it() {
    let logs = five_logs();
    let mut store: Vec<u8> = Vec::new();
    Log::write_multi_data(&logs, &mut store);
    let frame_len = 16;
    store[2 * frame_len + 14] ^= 0x40;
    let replay = Log::read_multi_data(&store);
    assert_eq!(pairs(&replay), expected_pairs(&logs[..2]));
    assert_eq!(replay.error, Some(ReplayError::Corruption { offset: 2 * frame_len }));
}
