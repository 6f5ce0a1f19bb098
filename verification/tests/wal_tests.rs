use chipmunk::codec::WalEntry;
use chipmunk::wal::{LogDirectory, Wal, WAL_MAX_SEGMENT_SIZE_BYTES};
use chipmunk::ChipmunkError;

fn put_entries() -> Vec<WalEntry> {
    vec![
        WalEntry::Put {
            key: b"foo".to_vec(),
            value: b"bar".to_vec(),
        },
        WalEntry::Put {
            key: b"baz".to_vec(),
            value: b"qux".to_vec(),
        },
    ]
}

#[test]
fn write_to_wal() {
    let mut wal = Wal::new(0, LogDirectory::new(), WAL_MAX_SEGMENT_SIZE_BYTES, None).unwrap();

    let mut wrote = 0;
    for entry in put_entries() {
        wrote += wal.append(entry).unwrap();
    }
    wal.flush_buffer().unwrap();
    assert_eq!(wal.size(), wrote);

    // The first framed record of the active segment is the first put.
    let entries = wal.lines().unwrap();
    match &entries[0] {
        WalEntry::Put { key, value } => {
            assert_eq!(&String::from_utf8_lossy(key), "foo");
            assert_eq!(&String::from_utf8_lossy(value), "bar");
        }
        WalEntry::Delete { key: _ } => panic!("Expected put operation, got delete!"),
    }

    // A second log over the same directory gets its own segment.
    let dir = wal.close();
    let mut wal = Wal::new(1, dir, WAL_MAX_SEGMENT_SIZE_BYTES, None).unwrap();
    let mut wrote = 0;
    for entry in put_entries() {
        wrote += wal.append(entry).unwrap();
    }
    wal.flush_buffer().unwrap();
    assert_eq!(wal.size(), wrote);
}

#[test]
fn wal_replay() {
    let mut wal = Wal::new(0, LogDirectory::new(), WAL_MAX_SEGMENT_SIZE_BYTES, None).unwrap();

    let mut wrote = 0;
    for i in 0..10 {
        match i {
            0 | 3 | 6 => {
                wrote += wal
                    .append(WalEntry::Delete {
                        key: format!("key{i}").as_bytes().to_vec(),
                    })
                    .unwrap()
            }
            _ => {
                let key = format!("key{i}");
                let value = format!("value{i}");
                wrote += wal
                    .append(WalEntry::Put {
                        key: key.as_bytes().to_vec(),
                        value: value.as_bytes().to_vec(),
                    })
                    .unwrap();
            }
        };
    }
    wal.flush_buffer().unwrap();
    assert_eq!(wal.size(), wrote);

    // Drop the WAL and perform a restore over the same directory.
    let dir = wal.close();
    let mut wal = Wal::new(1, dir, WAL_MAX_SEGMENT_SIZE_BYTES, None).unwrap();
    wal.restore().unwrap();
    assert_eq!(
        wal.size(),
        wrote,
        "WAL size should be the same prior to dropping"
    );
}

#[test]
fn id() {
    let wal = Wal::new(0, LogDirectory::new(), WAL_MAX_SEGMENT_SIZE_BYTES, None).unwrap();
    assert_eq!(wal.id(), 0);
}

#[test]
fn wal_path() {
    let wal = Wal::new(0, LogDirectory::new(), WAL_MAX_SEGMENT_SIZE_BYTES, None).unwrap();
    assert_eq!(
        wal.path(),
        b"0.wal".to_vec(),
        "WAL filename was not in the expected format"
    );
}

#[test]
fn rotation() {
    let mut wal = Wal::new(0, LogDirectory::new(), WAL_MAX_SEGMENT_SIZE_BYTES, None).unwrap();

    for _ in 0..3 {
        wal.append(WalEntry::Put {
            key: b"foo".to_vec(),
            value: b"bar".to_vec(),
        })
        .unwrap();
    }

    assert_eq!(wal.closed_segments().len(), 0, "No closed segments");
    assert_eq!(wal.id(), 0);

    wal.rotate().expect("Can rotate WAL");

    assert_eq!(wal.size(), 0, "WAL size should reset");
    assert_ne!(wal.id(), 0, "WAL rotation has not occurred");
    assert_eq!(wal.closed_segments().len(), 1);
    assert_eq!(wal.id(), 1);
}

#[test]
fn segment_deletion() {
    let mut wal = Wal::new(0, LogDirectory::new(), WAL_MAX_SEGMENT_SIZE_BYTES, None).unwrap();

    let segment_count = 5;
    for i in 0..segment_count {
        for _ in 0..3 {
            wal.append(WalEntry::Put {
                key: b"foo".to_vec(),
                value: b"bar".to_vec(),
            })
            .unwrap();
        }
        assert_eq!(wal.id(), i);
        wal.rotate().expect("Can rotate WAL during test");
        assert_eq!(wal.id(), i + 1);
    }

    assert_eq!(wal.closed_segments().len(), 5);
    assert_eq!(wal.id(), 5, "Current active segment ID should be 5");

    let removed = wal
        .remove_closed_segments()
        .expect("Can remove segments in test");
    assert_eq!(removed, segment_count);
    assert_eq!(
        wal.closed_segments().len(),
        0,
        "There should be no closed segments remaining after removal"
    );
}

#[test]
fn exclusive_create_refuses_existing_segment() {
    let mut dir = LogDirectory::new();
    assert!(dir.put_file(0, vec![b'c', b'h', b'1', b'\n']));
    let r = Wal::new(0, dir, WAL_MAX_SEGMENT_SIZE_BYTES, None);
    assert!(matches!(r, Err(ChipmunkError::SegmentOpen)));
}

#[test]
fn rotation_refuses_colliding_segment() {
    let mut dir = LogDirectory::new();
    assert!(dir.put_file(1, vec![b'c', b'h', b'1', b'\n']));
    let mut wal = Wal::new(0, dir, WAL_MAX_SEGMENT_SIZE_BYTES, None).unwrap();
    let r = wal.rotate();
    assert!(matches!(r, Err(ChipmunkError::SegmentOpen)));
    // The failed rotation changed nothing.
    assert_eq!(wal.id(), 0);
    assert_eq!(wal.closed_segments().len(), 0);
}

#[test]
fn restore_skips_damaged_tail() {
    let mut wal = Wal::new(0, LogDirectory::new(), WAL_MAX_SEGMENT_SIZE_BYTES, None).unwrap();
    wal.append(WalEntry::Put {
        key: b"k".to_vec(),
        value: b"v".to_vec(),
    })
    .unwrap();
    wal.flush_buffer().unwrap();
    let wrote = wal.size();
    let mut dir = wal.close();

    // A segment whose tail was cut mid-frame loses only that frame.
    let mut damaged = vec![b'c', b'h', b'1', b'\n'];
    damaged.extend_from_slice(
        &WalEntry::Put {
            key: b"x".to_vec(),
            value: b"y".to_vec(),
        }
        .as_bytes(),
    );
    damaged.pop();
    assert!(dir.put_file(7, damaged));

    let mut wal = Wal::new(8, dir, WAL_MAX_SEGMENT_SIZE_BYTES, None).unwrap();
    wal.restore().unwrap();
    assert_eq!(wal.size(), wrote, "Only the whole frames are replayed");
}

#[test]
fn restore_reads_all_segments_in_order() {
    let mut wal = Wal::new(0, LogDirectory::new(), WAL_MAX_SEGMENT_SIZE_BYTES, None).unwrap();
    let mut wrote = 0;
    wrote += wal
        .append(WalEntry::Put {
            key: b"a".to_vec(),
            value: b"1".to_vec(),
        })
        .unwrap();
    wal.rotate().unwrap();
    wrote += wal
        .append(WalEntry::Put {
            key: b"b".to_vec(),
            value: b"2".to_vec(),
        })
        .unwrap();
    wal.flush_buffer().unwrap();
    let dir = wal.close();

    let mut wal = Wal::new(5, dir, WAL_MAX_SEGMENT_SIZE_BYTES, None).unwrap();
    wal.restore().unwrap();
    assert_eq!(wal.size(), wrote);
    let entries = wal.lines().unwrap();
    assert_eq!(entries.len(), 2);
    assert!(matches!(&entries[0], WalEntry::Put { key, .. } if key == &b"a".to_vec()));
    assert!(matches!(&entries[1], WalEntry::Put { key, .. } if key == &b"b".to_vec()));
}
