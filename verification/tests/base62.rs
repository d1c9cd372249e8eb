use tsdb::base62::{fg_decode, validate_uuid, FORMAT_G};

#[test]
fn test_fg_decode_roundtrip() {
    for i in 0u8..60 {
        let ch = FORMAT_G[i as usize];
        assert_eq!(fg_decode(ch), Some(i));
    }
}

#[test]
fn test_validate_uuid_good() {
    let uuid = "AGk26cH00001";
    assert_eq!(uuid.len(), 12);
    assert!(validate_uuid(uuid).is_ok(), "Should be valid: {}", uuid);
}

#[test]
fn test_validate_uuid_bad_length() {
    assert!(validate_uuid("short").is_err());
    assert!(validate_uuid("toolongstring123").is_err());
}

#[test]
fn test_validate_uuid_bad_class() {
    let uuid = "aGk26cH00001";
    assert!(validate_uuid(uuid).is_err());
}

#[test]
fn test_validate_uuid_bad_marker() {
    let uuid = "AXk26cH00001";
    assert!(validate_uuid(uuid).is_err());
}

#[test]
fn test_validate_uuid_bad_month() {
    let uuid = "AGk26zH00001";
    assert!(validate_uuid(uuid).is_err());
}

#[test]
fn test_fg_decode_invalid() {
    assert_eq!(fg_decode(b'l'), None);
    assert_eq!(fg_decode(b'O'), None);
}
