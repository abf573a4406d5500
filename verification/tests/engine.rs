//! The engine exercised through its four verbs and its iterator.

use kvlog::Database;
use kvlog::Error;

#[test]
fn test_full() {
    let mut db = Database::new();

    assert!(!db.has(b"abc").unwrap());

    db.put(b"abc", b"xyz").unwrap();

    assert!(db.has(b"abc").unwrap());
    assert_eq!(db.get(b"abc").unwrap(), b"xyz");

    db.delete(b"abc").unwrap();

    assert!(!db.has(b"abc").unwrap());
}

#[test]
fn test_iter() {
    let mut db = Database::new();
    let numbers = vec!["one", "two", "three"];

    for (i, n) in numbers.iter().enumerate() {
        db.put((i + 1).to_string().as_bytes(), n.as_bytes()).unwrap();
    }

    let mut pairs: Vec<(Vec<u8>, Vec<u8>)> = Vec::new();
    let mut it = db.into_iter();
    while let Some(pair) = it.next() {
        pairs.push(pair);
    }
    assert_eq!(
        pairs,
        vec![
            (b"1".to_vec(), b"one".to_vec()),
            (b"2".to_vec(), b"two".to_vec()),
            (b"3".to_vec(), b"three".to_vec())
        ]
    );
}

#[test]
fn get_of_absent_key_is_key_not_found() {
    let db = Database::new();
    assert!(matches!(db.get(b"missing"), Err(Error::KeyNotFound)));
    assert!(!db.has(b"missing").unwrap());
}

#[test]
fn iterator_stays_exhausted() {
    let mut db = Database::new();
    db.put(b"k", b"v").unwrap();
    let mut it = db.into_iter();
    assert_eq!(it.next(), Some((b"k".to_vec(), b"v".to_vec())));
    assert_eq!(it.next(), None);
    assert_eq!(it.next(), None);
}
