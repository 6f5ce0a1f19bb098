use chipmunk::config::{MemtableConfig, WalConfig};
use chipmunk::facade::{handle_delete, handle_get, handle_post, parse_kv};
use chipmunk::lsm::Lsm;
use chipmunk::wal::LogDirectory;

fn make_store() -> Lsm {
    let w = WalConfig {
        id: 0,
        max_size: 1024,
        log_directory: String::from("./"),
        buffer_size: None,
    };
    let m = MemtableConfig {
        id: 0,
        max_size: 1024,
    };
    Lsm::new(w, m, LogDirectory::new()).unwrap()
}

/// A post without a `key=value` body is turned away as malformed.
#[test]
fn chipmunk_invalid_add() {
    let mut store = make_store();
    let (status, body) = handle_post(&mut store, &b"key1,value1".to_vec());
    assert_eq!(status, 400);
    assert_eq!(
        String::from_utf8_lossy(&body),
        "Must provide key=value format"
    );
}

/// The whole request surface round trip: post, read, delete, read again.
#[test]
fn chipmunk_crud() {
    let mut store = make_store();

    let (status, _) = handle_post(&mut store, &b"key1=value1".to_vec());
    assert_eq!(status, 204);

    let (status, body) = handle_get(&store, b"key1".to_vec());
    assert_eq!(status, 200);
    assert_eq!(String::from_utf8_lossy(&body), "value1");

    let status = handle_delete(&mut store, b"key1".to_vec());
    assert_eq!(status, 204);

    let (status, body) = handle_get(&store, b"key1".to_vec());
    assert_eq!(status, 404);
    assert!(body.is_empty());
}

#[test]
fn parse_kv_splits_at_first_equals() {
    let r = parse_kv(&b"a=b=c".to_vec());
    let (k, v) = r.unwrap();
    assert_eq!(k, b"a".to_vec());
    assert_eq!(v, b"b=c".to_vec());

    assert!(parse_kv(&b"no separator".to_vec()).is_none());
    assert!(parse_kv(&b"".to_vec()).is_none());

    let (k, v) = parse_kv(&b"=v".to_vec()).unwrap();
    assert!(k.is_empty());
    assert_eq!(v, b"v".to_vec());

    let (k, v) = parse_kv(&b"k=".to_vec()).unwrap();
    assert_eq!(k, b"k".to_vec());
    assert!(v.is_empty());
}
