use chipmunk::config::{MemtableConfig, WalConfig};
use chipmunk::lsm::Lsm;
use chipmunk::memtable::MEMTABLE_MAX_SIZE_BYTES;
use chipmunk::wal::{LogDirectory, WAL_MAX_SEGMENT_SIZE_BYTES};

// Helper for creating an [`Lsm`] store over a directory.
fn create_lsm(wal_id: u64, dir: LogDirectory, wal_max_size: u64, memtable_max_size: u64) -> Lsm {
    let w = WalConfig {
        id: wal_id,
        max_size: wal_max_size,
        log_directory: String::from("./"),
        buffer_size: None,
    };
    let m = MemtableConfig {
        id: 0,
        max_size: memtable_max_size,
    };
    Lsm::new(w, m, dir).unwrap()
}

#[test]
fn crud() {
    let mut lsm = create_lsm(
        0,
        LogDirectory::new(),
        WAL_MAX_SEGMENT_SIZE_BYTES,
        MEMTABLE_MAX_SIZE_BYTES,
    );

    lsm.insert(b"foo".to_vec(), b"bar".to_vec()).unwrap();
    assert_eq!(lsm.memtable_id(), 0);
    assert_eq!(lsm.get(b"foo".to_vec()), Some(b"bar".to_vec()));
    assert_ne!(lsm.wal_size(), 0);
    let wal_size_after_put = lsm.wal_size();

    lsm.rotate_memtable();
    assert_eq!(
        lsm.memtable_id(),
        1,
        "Engine should have a new memtable after flush"
    );
    assert_eq!(
        lsm.get(b"foo".to_vec()),
        Some(b"bar".to_vec()),
        "Value should be found in sstable on disk"
    );

    lsm.delete(b"foo".to_vec()).unwrap();
    assert!(
        lsm.wal_size() > wal_size_after_put,
        "Deletion should append to the WAL"
    );
    assert_eq!(lsm.get(b"foo".to_vec()), None);
}

#[test]
fn compaction() {
    let mut lsm = create_lsm(0, LogDirectory::new(), 1024, 1024);

    let mut current_size = lsm.disk_size();

    for i in 1..=3 {
        for j in 0..=1000 {
            // The same key value is used, but overwritten on different
            // iterations to force entries which should be discarded.
            let key = format!("key{j}").as_bytes().to_vec();
            let value = format!("value{i}-{j}").as_bytes().to_vec();
            lsm.insert(key.clone(), value).unwrap();

            // Delete every 10th key to accumulate tombstones
            if j % 10 == 0 {
                lsm.delete(key).unwrap();
            }

            current_size = lsm.disk_size();
        }
    }

    let final_size = current_size;
    lsm.force_compaction();
    let post_compaction_size = lsm.disk_size();

    assert!(post_compaction_size < final_size);
    assert_ne!(
        lsm.memtable_id(),
        0,
        "Memtable rotation should increment the ID"
    );
    assert_eq!(
        lsm.l1_ids().len(),
        0,
        "L1 SSTables on disk should be 0 after a full compaction cycle"
    );
}

#[test]
fn bloom() {
    let mut lsm = create_lsm(
        0,
        LogDirectory::new(),
        WAL_MAX_SEGMENT_SIZE_BYTES,
        MEMTABLE_MAX_SIZE_BYTES,
    );

    lsm.insert(b"foo".to_vec(), b"bar".to_vec()).unwrap();
    assert!(lsm.check(b"foo".to_vec()));
    assert!(!lsm.check(b"baz".to_vec()));
    let (dir, _, _) = lsm.shutdown();

    let mut lsm = create_lsm(1, dir, WAL_MAX_SEGMENT_SIZE_BYTES, MEMTABLE_MAX_SIZE_BYTES);
    lsm.restore().unwrap();
    assert!(
        lsm.check(b"foo".to_vec()),
        "The key 'foo' should exist in the filter after the structure was restored."
    );
    assert!(
        !lsm.check(b"baz".to_vec()),
        "A value which does not exist should not appear after restore"
    );
    assert_eq!(
        lsm.get(b"foo".to_vec()),
        Some(b"bar".to_vec()),
        "The restored memtable serves the replayed value"
    );
}

#[test]
fn segment_cleanup() {
    let mut lsm = create_lsm(
        0,
        LogDirectory::new(),
        WAL_MAX_SEGMENT_SIZE_BYTES,
        MEMTABLE_MAX_SIZE_BYTES,
    );
    for i in 0..100 {
        lsm.insert(
            format!("foo{i}").into_bytes(),
            format!("bar{i}").into_bytes(),
        )
        .unwrap();
    }

    assert_eq!(lsm.wal_id(), 0);
    for _ in 1..=5 {
        // Force rotations
        lsm.rotate_wal().unwrap();
        lsm.rotate_memtable();
    }
    assert_eq!(lsm.wal_id(), 5);
    assert_eq!(lsm.closed_segments().len(), 5);

    for i in 0..=5 {
        assert!(
            lsm.segment_file_exists(i),
            "WAL segments should exist after rotation"
        );
    }
    lsm.remove_closed_segments().unwrap();
    for i in 0..5 {
        assert!(!lsm.segment_file_exists(i));
    }
    assert!(lsm.segment_file_exists(5));
    assert_eq!(
        lsm.closed_segments().len(),
        0,
        "No closed segments remaining after removal",
    );
}

#[test]
fn delete_then_insert_yields_insert() {
    let mut lsm = create_lsm(
        0,
        LogDirectory::new(),
        WAL_MAX_SEGMENT_SIZE_BYTES,
        MEMTABLE_MAX_SIZE_BYTES,
    );
    lsm.insert(b"k".to_vec(), b"v1".to_vec()).unwrap();
    lsm.delete(b"k".to_vec()).unwrap();
    lsm.insert(b"k".to_vec(), b"v2".to_vec()).unwrap();
    assert_eq!(lsm.get(b"k".to_vec()), Some(b"v2".to_vec()));
}

#[test]
fn compaction_drops_tombstones() {
    let mut lsm = create_lsm(
        0,
        LogDirectory::new(),
        WAL_MAX_SEGMENT_SIZE_BYTES,
        MEMTABLE_MAX_SIZE_BYTES,
    );
    lsm.insert(b"stay".to_vec(), b"v".to_vec()).unwrap();
    lsm.insert(b"gone".to_vec(), b"w".to_vec()).unwrap();
    lsm.rotate_memtable();
    lsm.delete(b"gone".to_vec()).unwrap();
    lsm.rotate_memtable();

    lsm.force_compaction();
    assert_eq!(lsm.l1_ids().len(), 0);
    assert_eq!(lsm.l2_count(), 1);
    assert_eq!(
        lsm.get(b"stay".to_vec()),
        Some(b"v".to_vec()),
        "A reachable key stays reachable across compaction"
    );
    assert_eq!(
        lsm.get(b"gone".to_vec()),
        None,
        "A key whose newest record is a tombstone is gone from the new file"
    );
}

#[test]
fn newest_wins_across_tables() {
    let mut lsm = create_lsm(
        0,
        LogDirectory::new(),
        WAL_MAX_SEGMENT_SIZE_BYTES,
        MEMTABLE_MAX_SIZE_BYTES,
    );
    lsm.insert(b"k".to_vec(), b"old".to_vec()).unwrap();
    lsm.rotate_memtable();
    lsm.insert(b"k".to_vec(), b"new".to_vec()).unwrap();
    lsm.rotate_memtable();
    assert_eq!(lsm.get(b"k".to_vec()), Some(b"new".to_vec()));
    lsm.force_compaction();
    assert_eq!(lsm.get(b"k".to_vec()), Some(b"new".to_vec()));
}

#[test]
fn new_refuses_colliding_segment() {
    let mut dir = LogDirectory::new();
    assert!(dir.put_file(0, vec![b'c', b'h', b'1', b'\n']));
    let w = WalConfig {
        id: 0,
        max_size: 1024,
        log_directory: String::from("./"),
        buffer_size: None,
    };
    let m = MemtableConfig {
        id: 0,
        max_size: 1024,
    };
    let r = Lsm::new(w, m, dir);
    assert!(matches!(r, Err(chipmunk::ChipmunkError::SegmentOpen)));
}
