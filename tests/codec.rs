use trash_db::record::{decode_record, encode_record, fits_record_field};
use trash_db::KvError;

#[test]
fn encode_layout() {
    assert_eq!(encode_record("ab", "xyz"), vec![2, 0, 0, 0, 3, 0, 0, 0, b'a', b'b', b'x', b'y', b'z']);
    assert_eq!(encode_record("é", ""), vec![2, 0, 0, 0, 0, 0, 0, 0, 0xC3, 0xA9]);
}

#[test]
fn decode_sequence() {
    let mut log = encode_record("k", "v");
    log.extend_from_slice(&encode_record("k", ""));
    let (first, next) = decode_record(&log, 0).unwrap().unwrap();
    assert_eq!((first.key.as_str(), first.value.as_str(), next), ("k", "v", 10));
    let (second, end) = decode_record(&log, next).unwrap().unwrap();
    assert_eq!((second.key.as_str(), second.value.as_str(), end), ("k", "", 19));
    assert!(decode_record(&log, end).unwrap().is_none());
}

#[test]
fn decode_errors() {
    assert!(matches!(decode_record(&[1, 0, 0, 0], 0), Err(KvError::Corruption)));
    assert!(matches!(decode_record(&[0, 0, 0, 0, 1, 0, 0, 0, b'v'], 0), Err(KvError::Corruption)));
    assert!(matches!(decode_record(&[1, 0, 0, 0, 0, 0, 0, 0, 0xFF], 0), Err(KvError::Corruption)));
    assert!(matches!(decode_record(&[1, 0, 0, 0, 1, 0, 0, 0, b'k', 0xC3], 0), Err(KvError::Corruption)));
    assert!(matches!(decode_record(&[2, 0, 0, 0, 1, 0, 0, 0, b'k'], 0), Err(KvError::Corruption)));
}

#[test]
fn field_limits() {
    assert!(fits_record_field("short"));
    assert!(fits_record_field(""));
}

#[test]
fn error_messages() {
    assert_eq!(KvError::KeyNotFound.message(), "Key not found");
    assert_eq!(KvError::Corruption.message(), "Corrupted log record");
    assert_eq!(KvError::EngineMismatch.message(), "Illegal engine selection");
    assert_eq!(KvError::Io.message(), "I/O error");
}
