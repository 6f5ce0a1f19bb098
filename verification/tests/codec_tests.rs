use chipmunk::codec::WalEntry;
use chipmunk::keys::{key_cmp, KeyOrder};
use chipmunk::names::{l2_name, segment_name, sstable_name};

/// Frame round-trip at the byte level: encode an insertion, write it to a
/// buffer, decode it back, and get the original.
#[test]
fn wal_entry_bytes() {
    let mut buf: Vec<u8> = Vec::new();
    let entry = WalEntry::Put {
        key: b"hello".to_vec(),
        value: b"world".to_vec(),
    };

    let bytes = entry.as_bytes();
    assert!(bytes.len() > 0, "Expected non-zero write");
    buf.extend_from_slice(&bytes);

    let read_entry = WalEntry::from_bytes(&buf);
    assert_eq!(entry, read_entry);
}

#[test]
fn wal_entry_delete_round_trip() {
    let entry = WalEntry::Delete { key: b"gone".to_vec() };
    let buf = entry.as_bytes();
    let read_entry = WalEntry::from_bytes(&buf);
    assert_eq!(entry, read_entry);
}

#[test]
fn wal_entry_frame_layout() {
    // marker, 8-byte big-endian key length, key, 8-byte value length,
    // value, newline.
    let entry = WalEntry::Put {
        key: b"ab".to_vec(),
        value: b"c".to_vec(),
    };
    let buf = entry.as_bytes();
    let mut expected = vec![0u8];
    expected.extend_from_slice(&[0, 0, 0, 0, 0, 0, 0, 2]);
    expected.extend_from_slice(b"ab");
    expected.extend_from_slice(&[0, 0, 0, 0, 0, 0, 0, 1]);
    expected.extend_from_slice(b"c");
    expected.push(b'\n');
    assert_eq!(buf, expected);
}

#[test]
fn decode_rejects_unknown_marker() {
    let buf = vec![7u8, 0, 0, 0, 0, 0, 0, 0, 0, b'\n'];
    assert!(WalEntry::decode_at(&buf, 0).is_none());
}

#[test]
fn decode_rejects_truncated_tail() {
    let entry = WalEntry::Put {
        key: b"hello".to_vec(),
        value: b"world".to_vec(),
    };
    let mut buf = entry.as_bytes();
    buf.pop();
    assert!(WalEntry::decode_at(&buf, 0).is_none());
}

#[test]
fn decode_all_reads_frames_in_order() {
    let mut buf: Vec<u8> = Vec::new();
    let first = WalEntry::Put {
        key: b"k1".to_vec(),
        value: b"v1".to_vec(),
    };
    let second = WalEntry::Delete { key: b"k2".to_vec() };
    buf.extend_from_slice(&first.as_bytes());
    buf.extend_from_slice(&second.as_bytes());
    // A truncated third frame at the tail is ignored.
    buf.push(0);
    buf.push(0);

    let entries = WalEntry::decode_all(&buf, 0);
    assert_eq!(entries.len(), 2);
    assert_eq!(entries[0], first);
    assert_eq!(entries[1], second);
}

#[test]
fn key_order_is_lexicographic() {
    assert_eq!(key_cmp(&b"a".to_vec(), &b"b".to_vec()), KeyOrder::Less);
    assert_eq!(key_cmp(&b"a".to_vec(), &b"a".to_vec()), KeyOrder::Equal);
    assert_eq!(key_cmp(&b"ab".to_vec(), &b"a".to_vec()), KeyOrder::Greater);
    assert_eq!(key_cmp(&b"".to_vec(), &b"a".to_vec()), KeyOrder::Less);
    assert_eq!(key_cmp(&b"az".to_vec(), &b"b".to_vec()), KeyOrder::Less);
}

#[test]
fn file_names_are_decimal() {
    assert_eq!(segment_name(0), b"0.wal".to_vec());
    assert_eq!(segment_name(105), b"105.wal".to_vec());
    assert_eq!(sstable_name(7), b"sstable-7".to_vec());
    assert_eq!(l2_name(12), b"l2-12".to_vec());
}
