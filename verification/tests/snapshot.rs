use mackerel_plugin::snapshot::{decode_snapshot, encode_snapshot, storage_name};
use mackerel_plugin::ReadingSet;

#[test]
fn round_trip_reproduces_timestamp_and_mapping() {
    let mut rs = ReadingSet::new(1698230400);
    rs.insert("dice.d6".to_string(), 3.0f64.to_bits());
    rs.insert("inode.percentage.sda1.used".to_string(), 48.2f64.to_bits());
    rs.insert("name with spaces\nand breaks".to_string(), (-1.5f64).to_bits());
    rs.insert("ünïcode.nämé".to_string(), f64::NAN.to_bits());
    let bytes = encode_snapshot(&rs);
    let back = decode_snapshot(&bytes).unwrap();
    assert_eq!(back.timestamp, 1698230400);
    assert_eq!(back.len(), 4);
    assert_eq!(back.get("dice.d6"), Some(3.0f64.to_bits()));
    assert_eq!(
        back.get("inode.percentage.sda1.used"),
        Some(48.2f64.to_bits())
    );
    assert_eq!(
        back.get("name with spaces\nand breaks"),
        Some((-1.5f64).to_bits())
    );
    assert_eq!(back.get("ünïcode.nämé"), Some(f64::NAN.to_bits()));
    assert_eq!(back.get("absent"), None);
}

#[test]
fn round_trip_of_the_empty_set_and_negative_timestamps() {
    let rs = ReadingSet::new(-12345);
    let bytes = encode_snapshot(&rs);
    let back = decode_snapshot(&bytes).unwrap();
    assert_eq!(back.timestamp, -12345);
    assert_eq!(back.len(), 0);
}

#[test]
fn malformed_bytes_decode_as_nothing() {
    assert!(decode_snapshot(&b"".to_vec()).is_none());
    assert!(decode_snapshot(&b"xyz".to_vec()).is_none());
    assert!(decode_snapshot(&b"123".to_vec()).is_none());
    assert!(decode_snapshot(&b"123\n".to_vec()).is_none());
    assert!(decode_snapshot(&b"123\n1\n".to_vec()).is_none());
    assert!(decode_snapshot(&b"123\n1\n3 abc".to_vec()).is_none());
    assert!(decode_snapshot(&b"--5\n0\n".to_vec()).is_none());
    // count larger than the entries present
    assert!(decode_snapshot(&b"123\n2\n1 a 7\n".to_vec()).is_none());
}

#[test]
fn truncated_and_trailing_bytes_decode_as_nothing() {
    let mut rs = ReadingSet::new(777);
    rs.insert("a.b".to_string(), 1.25f64.to_bits());
    let bytes = encode_snapshot(&rs);
    let mut truncated = bytes.clone();
    truncated.pop();
    assert!(decode_snapshot(&truncated).is_none());
    let mut trailing = bytes.clone();
    trailing.push(b'x');
    assert!(decode_snapshot(&trailing).is_none());
    assert!(decode_snapshot(&bytes).is_some());
}

#[test]
fn repeated_names_decode_as_nothing() {
    let bytes = b"5\n2\n1 a 7\n1 a 8\n".to_vec();
    assert!(decode_snapshot(&bytes).is_none());
    let distinct = b"5\n2\n1 a 7\n1 b 8\n".to_vec();
    let back = decode_snapshot(&distinct).unwrap();
    assert_eq!(back.timestamp, 5);
    assert_eq!(back.get("a"), Some(7));
    assert_eq!(back.get("b"), Some(8));
}

#[test]
fn invalid_utf8_names_decode_as_nothing() {
    let bytes = b"5\n1\n2 \xff\xfe 7\n".to_vec();
    assert!(decode_snapshot(&bytes).is_none());
}

#[test]
fn storage_name_namespaces_the_identity() {
    assert_eq!(storage_name("inode", "whatever"), "mackerel-plugin-inode");
    assert_eq!(
        storage_name("mackerel-plugin-x", "whatever"),
        "mackerel-plugin-mackerel-plugin-x"
    );
    assert_eq!(storage_name("", "dice"), "mackerel-plugin-dice");
    assert_eq!(
        storage_name("", "mackerel-plugin-dice"),
        "mackerel-plugin-dice"
    );
}
