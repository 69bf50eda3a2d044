use caching_scanners::store::{
    open_envelope, resolve_state_path, seal_envelope, tmp_path_for, EnvelopeError, HEADER_SIZE,
};

fn reason_of(data: &[u8]) -> String {
    match open_envelope(data) {
        Err(e) => e.reason(),
        Ok(p) => panic!("expected a rejection, got a payload of {} bytes", p.len()),
    }
}

#[test]
fn envelope_round_trip_populated_payload() {
    let payload: Vec<u8> = (0..2000u32).map(|i| (i % 251) as u8).collect();
    let sealed = seal_envelope(&payload);
    assert_eq!(&sealed[..4], b"FSSN");
    assert_eq!(sealed[4], 2);
    assert_eq!(open_envelope(&sealed).unwrap(), payload);
}

#[test]
fn envelope_round_trip_empty_payload() {
    let sealed = seal_envelope(&[]);
    assert!(sealed.len() >= HEADER_SIZE);
    assert_eq!(open_envelope(&sealed).unwrap(), Vec::<u8>::new());
}

#[test]
fn compressed_payload_is_smaller() {
    let mut payload = Vec::new();
    for i in 0..500 {
        for j in 0..20 {
            payload.extend_from_slice(format!("/long/path/prefix/dir_{i}/sub/file_{j}.txt").as_bytes());
        }
    }
    let sealed = seal_envelope(&payload);
    assert!(sealed.len() - HEADER_SIZE < payload.len());
}

#[test]
fn version_1_payload_is_taken_as_is() {
    let mut data = b"FSSN".to_vec();
    data.push(1);
    data.extend_from_slice(b"raw payload");
    assert_eq!(open_envelope(&data).unwrap(), b"raw payload".to_vec());
}

#[test]
fn load_garbage_returns_invalid() {
    let reason = reason_of(b"not valid data at all!!!!!!!!!");
    assert!(reason.contains("not a state file"), "{reason}");
}

#[test]
fn load_empty_file() {
    let reason = reason_of(b"");
    assert!(reason.contains("truncated"), "{reason}");
}

#[test]
fn load_truncated_file() {
    let reason = reason_of(b"FS");
    assert!(reason.contains("truncated"), "{reason}");
}

#[test]
fn header_only_file_is_accepted_as_empty_legacy_payload() {
    assert_eq!(open_envelope(b"FSSN\x01").unwrap(), Vec::<u8>::new());
}

#[test]
fn load_wrong_magic() {
    let mut data = vec![b'X', b'X', b'X', b'X', 2];
    data.extend_from_slice(&[0u8; 32]);
    let reason = reason_of(&data);
    assert!(reason.contains("not a state file"), "{reason}");
}

#[test]
fn load_wrong_version() {
    let mut data = b"FSSN".to_vec();
    data.push(99);
    data.extend_from_slice(&[0u8; 32]);
    let reason = reason_of(&data);
    assert!(reason.contains("unsupported version 99"), "{reason}");
    assert!(matches!(open_envelope(&data), Err(EnvelopeError::UnsupportedVersion(99))));
}

#[test]
fn load_corrupt_compressed_data() {
    let mut data = b"FSSN".to_vec();
    data.push(2);
    data.extend_from_slice(b"this is not valid brotli data!!");
    let reason = reason_of(&data);
    assert!(reason.contains("decompression error"), "{reason}");
}

#[test]
fn load_old_bincode_state() {
    let reason = reason_of(b"\x00\x00\x00\x00\x00\x00\x00\x00some bincode");
    assert!(reason.contains("not a state file"), "{reason}");
}

#[test]
fn rejection_reasons_are_distinct() {
    let reasons = [
        EnvelopeError::Truncated.reason(),
        EnvelopeError::WrongMagic.reason(),
        EnvelopeError::UnsupportedVersion(7).reason(),
        EnvelopeError::Decompression("bad".to_string()).reason(),
    ];
    assert_eq!(reasons[0], "truncated state file");
    assert_eq!(reasons[1], "not a state file (wrong magic)");
    assert_eq!(reasons[2], "unsupported version 7");
    assert_eq!(reasons[3], "decompression error: bad");
}

#[test]
fn temp_path_is_hidden_sibling() {
    assert_eq!(tmp_path_for("/dir/my.state"), "/dir/.my.state.tmp");
    assert_eq!(tmp_path_for("/dir/.fsscan.state"), "/dir/.fsscan.state.tmp");
    assert_eq!(tmp_path_for("my.state"), ".my.state.tmp");
    assert_eq!(tmp_path_for("/x"), "/.x.tmp");
}

#[test]
fn state_path_defaults_into_root() {
    assert_eq!(resolve_state_path(None, "/data"), "/data/.fsscan.state");
    assert_eq!(resolve_state_path(None, "/"), "/.fsscan.state");
    assert_eq!(resolve_state_path(Some("/elsewhere/s".to_string()), "/data"), "/elsewhere/s");
}
