use chipmunk::memtable::{Memtable, MEMTABLE_MAX_SIZE_BYTES};

#[test]
fn crud_operations() {
    let mut m = Memtable::new(0, MEMTABLE_MAX_SIZE_BYTES);
    m.insert(b"foo".to_vec(), b"bar".to_vec());

    assert_eq!(
        m.get(&b"foo".to_vec()),
        Some(b"bar".to_vec()),
        "Expected key to exist after put"
    );

    m.delete(b"foo".to_vec());
    assert!(m.get(&b"foo".to_vec()).is_none());
}

#[test]
fn flush_to_sstable() {
    let mut m = Memtable::new(0, MEMTABLE_MAX_SIZE_BYTES);
    m.insert(b"foo".to_vec(), b"bar".to_vec());
    assert_eq!(
        m.size(),
        b"bar".len() as u64,
        "Size should be approximated based on values"
    );
    let (id, table) = m.flush();
    assert_eq!(id, 0);
    assert_eq!(m.id(), 1);
    assert_eq!(m.size(), 0, "New memtable should have size of 0");
    assert_eq!(m.len(), 0, "New memtable should be empty");

    let data = Memtable::load(&table);
    assert_eq!(
        data.lookup(&b"foo".to_vec()),
        Some(Some(b"bar".to_vec())),
    );
}

#[test]
fn flush_preserves_tombstones() {
    let mut m = Memtable::new(0, MEMTABLE_MAX_SIZE_BYTES);
    m.insert(b"keep".to_vec(), b"v".to_vec());
    m.delete(b"drop".to_vec());
    let (_, table) = m.flush();

    let data = Memtable::load(&table);
    assert_eq!(data.lookup(&b"keep".to_vec()), Some(Some(b"v".to_vec())));
    assert_eq!(
        data.lookup(&b"drop".to_vec()),
        Some(None),
        "A tombstone must survive the round trip"
    );
    assert_eq!(data.lookup(&b"gone".to_vec()), None);
}

#[test]
fn tombstone_does_not_grow_size() {
    let mut m = Memtable::new(0, MEMTABLE_MAX_SIZE_BYTES);
    m.insert(b"a".to_vec(), b"1234".to_vec());
    let before = m.size();
    m.delete(b"a".to_vec());
    assert_eq!(m.size(), before);
}

#[test]
fn upsert_replaces_value() {
    let mut m = Memtable::new(0, MEMTABLE_MAX_SIZE_BYTES);
    m.insert(b"k".to_vec(), b"old".to_vec());
    m.insert(b"k".to_vec(), b"new".to_vec());
    assert_eq!(m.get(&b"k".to_vec()), Some(b"new".to_vec()));
    assert_eq!(m.len(), 1);
}
