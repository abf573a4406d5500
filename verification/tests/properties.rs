//! Concrete instances of the store's laws, and the edges of the record
//! format: empty values, empty keys, overwrites, deletes, and what each of
//! them does to the log.

use kvlog::Database;
use kvlog::Error;

#[test]
fn round_trip_reads_back_the_exact_bytes() {
    let mut db = Database::new();
    db.put(b"key", b"value").unwrap();
    assert_eq!(db.get(b"key").unwrap(), b"value");
    db.put(b"binary", &[0u8, 1, 2, 255]).unwrap();
    assert_eq!(db.get(b"binary").unwrap(), vec![0u8, 1, 2, 255]);
}

#[test]
fn empty_value_round_trips() {
    let mut db = Database::new();
    db.put(b"k", b"").unwrap();
    assert!(db.has(b"k").unwrap());
    assert_eq!(db.get(b"k").unwrap(), b"");
}

#[test]
fn empty_key_round_trips() {
    let mut db = Database::new();
    db.put(b"", b"v").unwrap();
    assert!(db.has(b"").unwrap());
    assert_eq!(db.get(b"").unwrap(), b"v");
}

#[test]
fn delete_is_idempotent() {
    let mut db = Database::new();

    // Deleting a key that was never written succeeds silently.
    db.delete(b"ghost").unwrap();
    assert!(!db.has(b"ghost").unwrap());

    // After a delete, the key is gone even if it was present.
    db.put(b"k", b"v").unwrap();
    db.delete(b"k").unwrap();
    assert!(!db.has(b"k").unwrap());
    assert!(matches!(db.get(b"k"), Err(Error::KeyNotFound)));

    // And deleting it again still succeeds.
    db.delete(b"k").unwrap();
    assert!(!db.has(b"k").unwrap());
}

#[test]
fn overwrite_returns_latest_value() {
    let mut db = Database::new();
    db.put(b"k", b"first").unwrap();
    db.put(b"k", b"second").unwrap();
    assert_eq!(db.get(b"k").unwrap(), b"second");
}

#[test]
fn overwrite_keeps_iteration_position() {
    let mut db = Database::new();
    db.put(b"a", b"1").unwrap();
    db.put(b"b", b"2").unwrap();
    db.put(b"a", b"3").unwrap();

    let mut pairs: Vec<(Vec<u8>, Vec<u8>)> = Vec::new();
    let mut it = db.into_iter();
    while let Some(pair) = it.next() {
        pairs.push(pair);
    }
    assert_eq!(
        pairs,
        vec![(b"a".to_vec(), b"3".to_vec()), (b"b".to_vec(), b"2".to_vec())]
    );
}

#[test]
fn delete_does_not_shrink_the_log() {
    let mut db = Database::new();
    db.put(b"k", b"v").unwrap();
    let before = db.log_len();
    db.delete(b"k").unwrap();
    assert_eq!(db.log_len(), before);
}

#[test]
fn log_grows_by_one_record_per_put() {
    let mut db = Database::new();
    assert_eq!(db.log_len(), 0);
    db.put(b"ab", b"cde").unwrap();
    // key + separator + value + terminator
    assert_eq!(db.log_len(), 2 + 1 + 3 + 1);
    db.delete(b"ab").unwrap();
    db.put(b"ab", b"cde").unwrap();
    // a put after a delete appends again rather than reusing bytes
    assert_eq!(db.log_len(), 2 * (2 + 1 + 3 + 1));
}

#[test]
fn truncation_forgets_previous_keys() {
    // The first open writes a key; opening fresh (as truncation does)
    // yields a store where no previously written key is present.
    let mut first = Database::new();
    first.put(b"k", b"v").unwrap();
    assert!(first.has(b"k").unwrap());

    let second = Database::new();
    assert!(!second.has(b"k").unwrap());
    assert!(matches!(second.get(b"k"), Err(Error::KeyNotFound)));
}

#[test]
fn preexisting_bytes_are_invisible_without_a_scan() {
    // Opening over existing log bytes keeps them but does not rebuild the
    // index from them: the recorded pairs stay unreachable.
    let db = Database::with_log(b"a,b\n".to_vec());
    assert_eq!(db.log_len(), 4);
    assert!(!db.has(b"a").unwrap());
    assert!(matches!(db.get(b"a"), Err(Error::KeyNotFound)));
}

#[test]
fn values_live_at_their_own_offsets_after_many_writes() {
    let mut db = Database::new();
    db.put(b"one", b"1").unwrap();
    db.put(b"two", b"22").unwrap();
    db.put(b"three", b"333").unwrap();
    db.delete(b"two").unwrap();
    db.put(b"two", b"2222").unwrap();
    assert_eq!(db.get(b"one").unwrap(), b"1");
    assert_eq!(db.get(b"two").unwrap(), b"2222");
    assert_eq!(db.get(b"three").unwrap(), b"333");

    let mut pairs: Vec<(Vec<u8>, Vec<u8>)> = Vec::new();
    let mut it = db.into_iter();
    while let Some(pair) = it.next() {
        pairs.push(pair);
    }
    // "two" was deleted and re-put, so it re-enters at the end of the order.
    assert_eq!(
        pairs,
        vec![
            (b"one".to_vec(), b"1".to_vec()),
            (b"three".to_vec(), b"333".to_vec()),
            (b"two".to_vec(), b"2222".to_vec())
        ]
    );
}
