//! The engine: an append-only log of records and the in-memory index that
//! locates each live key's current value inside it.
//!
//! A `put` appends `<key>,<value>\n` to the log and records the offset of the
//! value's first byte; `get` and `has` consult the index only and, on a hit,
//! read one value out of the log at the recorded offset; `delete` removes the
//! index pair and leaves the log untouched, so the log only ever grows.
//! Writing the record before touching the index keeps the two consistent at
//! every step: the index never points past the bytes that exist.

use vstd::prelude::*;

use indexmap::IndexMap;

use crate::Error;
use crate::KV;
use crate::format::push_all;
use crate::format::value_from;
use crate::format::value_at;
use crate::format::line_end;
use crate::format::record_of;
use crate::format::lemma_line_end_le;
use crate::format::lemma_value_at_append;
use crate::format::SEP;
use crate::format::END;
use crate::index::entries_of;
use crate::index::has_key;
use crate::index::key_index;
use crate::index::distinct_keys;
use crate::index::index_new;
use crate::index::index_len;
use crate::index::index_get;
use crate::index::index_contains;
use crate::index::index_insert;
use crate::index::index_remove;
use crate::index::index_at;

verus! {

/// The mathematical state of a store: the log bytes written so far, and the
/// index pairs — key and value offset — in insertion order.
#[verifier::ext_equal]
pub struct DbView {
    pub log: Seq<u8>,
    pub entries: Seq<(Seq<u8>, u64)>,
}

impl DbView {
    /// The state of a store that holds nothing.
    pub open spec fn empty() -> DbView {
        DbView { log: Seq::empty(), entries: Seq::empty() }
    }

    /// Well-formed: keys are distinct, and every recorded offset lies inside
    /// the log with a record terminator somewhere at or after it, so a read
    /// at that offset stays inside the log.
    pub open spec fn wf(self) -> bool {
        &&& distinct_keys(self.entries)
        &&& forall|i: int|
            0 <= i < self.entries.len() ==> (#[trigger] self.entries[i]).1 < self.log.len()
                && line_end(self.log, self.entries[i].1 as int) < self.log.len()
    }

    /// Whether `k` is live.
    pub open spec fn spec_has(self, k: Seq<u8>) -> bool {
        has_key(self.entries, k)
    }

    /// The offset of `k`'s current value.
    pub open spec fn offset_of(self, k: Seq<u8>) -> u64 {
        self.entries[key_index(self.entries, k)].1
    }

    /// What a lookup of `k` reads: the bytes at its recorded offset, up to
    /// the record terminator; nothing when `k` is not live.
    pub open spec fn spec_get(self, k: Seq<u8>) -> Option<Seq<u8>> {
        if self.spec_has(k) {
            Some(value_at(self.log, self.offset_of(k) as int))
        } else {
            None
        }
    }

    /// The state after a put: the record is appended, and the index maps the
    /// key to the offset of the value's first byte — updated in place for a
    /// key already live, appended to the order for a new one.
    pub open spec fn put(self, k: Seq<u8>, v: Seq<u8>) -> DbView {
        let off = (self.log.len() + k.len() + 1) as u64;
        DbView {
            log: self.log + record_of(k, v),
            entries: if has_key(self.entries, k) {
                self.entries.update(key_index(self.entries, k), (k, off))
            } else {
                self.entries.push((k, off))
            },
        }
    }

    /// The state after a delete: the key's pair leaves the index, later pairs
    /// shift down keeping their relative order, and the log is untouched.
    pub open spec fn delete(self, k: Seq<u8>) -> DbView {
        DbView {
            log: self.log,
            entries: if has_key(self.entries, k) {
                self.entries.remove(key_index(self.entries, k))
            } else {
                self.entries
            },
        }
    }
}

/// The engine. It owns the log bytes it has emitted and the offset index;
/// the index is the sole authority on which keys are live, while the log
/// only ever grows.
pub struct Database {
    log: Vec<u8>,
    index: IndexMap<Vec<u8>, u64>,
}

impl View for Database {
    type V = DbView;

    closed spec fn view(&self) -> DbView {
        DbView { log: self.log@, entries: entries_of(self.index) }
    }
}

impl Database {
    #[verifier::type_invariant]
    spec fn inv(self) -> bool {
        self@.wf()
    }

    /// A store with an empty log, as opening with truncation yields.
    pub fn new() -> (db: Database)
        ensures
            db@ == DbView::empty(),
            db@.wf(),
    {
        let db = Database { log: Vec::new(), index: index_new() };
        proof {
            assert(db@ =~= DbView::empty());
        }
        db
    }

    /// A store over pre-existing log bytes that no index pair points into:
    /// the bytes are preserved but invisible to lookups, as opening without
    /// truncation (and without a rebuilding scan) leaves them.
    pub fn with_log(log: Vec<u8>) -> (db: Database)
        ensures
            db@.log == log@,
            db@.entries == Seq::<(Seq<u8>, u64)>::empty(),
            db@.wf(),
    {
        Database { log, index: index_new() }
    }

    /// The number of bytes the log holds.
    pub fn log_len(&self) -> (n: usize)
        ensures
            n == self@.log.len(),
    {
        self.log.len()
    }

    /// Whether `key` is live. A pure index query: no read of the log, and no
    /// error case.
    pub fn has(&self, key: &[u8]) -> (r: Result<bool, Error>)
        ensures
            r == Ok::<bool, Error>(self@.spec_has(key@)),
    {
        Ok(index_contains(&self.index, key))
    }

    /// The offset of `key`'s current value within the log, if the key is
    /// live. It returns an offset exactly when `has` answers yes: the two
    /// never diverge.
    pub fn lookup(&self, key: &[u8]) -> (r: Option<u64>)
        ensures
            match r {
                Some(off) => self@.spec_has(key@) && off == self@.offset_of(key@) && off
                    < self@.log.len(),
                None => !self@.spec_has(key@),
            },
    {
        proof {
            use_type_invariant(&*self);
        }
        match index_get(&self.index, key) {
            None => None,
            Some(off) => {
                proof {
                    let es = self@.entries;
                    let i = choose|i: int| 0 <= i < es.len() && #[trigger] es[i] == (key@, off);
                    assert(0 <= i < es.len() && es[i].0 == key@);
                    let j = key_index(es, key@);
                    assert(0 <= j < es.len() && es[j].0 == key@);
                    assert(i == j);
                    assert(es[i].1 < self@.log.len());
                }
                Some(off)
            },
        }
    }

    /// The key and value offset at position `i` of the iteration order, for
    /// positions below the number of live pairs.
    pub fn entry_at(&self, i: usize) -> (r: Option<(Vec<u8>, u64)>)
        ensures
            match r {
                Some(p) => i < self@.entries.len() && p.0@ == self@.entries[i as int].0 && p.1
                    == self@.entries[i as int].1 && p.1 < self@.log.len(),
                None => i >= self@.entries.len(),
            },
    {
        proof {
            use_type_invariant(&*self);
        }
        let r = index_at(&self.index, i);
        proof {
            if r is Some {
                assert(self@.entries[i as int].1 < self@.log.len());
            }
        }
        r
    }

    /// The current value of `key`, read back from the log at the recorded
    /// offset; `Err(KeyNotFound)` exactly when `key` is not live.
    pub fn get(&self, key: &[u8]) -> (r: Result<Vec<u8>, Error>)
        ensures
            match r {
                Ok(v) => self@.spec_get(key@) == Some(v@),
                Err(e) => e == Error::KeyNotFound && self@.spec_get(key@) == None::<Seq<u8>>,
            },
    {
        proof {
            use_type_invariant(&*self);
        }
        match index_get(&self.index, key) {
            None => Err(Error::KeyNotFound),
            Some(off) => {
                proof {
                    let es = self@.entries;
                    let i = choose|i: int| 0 <= i < es.len() && #[trigger] es[i] == (key@, off);
                    assert(0 <= i < es.len() && es[i].0 == key@);
                    let j = key_index(es, key@);
                    assert(0 <= j < es.len() && es[j].0 == key@);
                    assert(i == j);
                    assert(self@.offset_of(key@) == off);
                    assert(es[i].1 < self@.log.len());
                }
                let n = self.log.len();
                assert(off < n);
                let v = value_from(self.log.as_slice(), off as usize);
                Ok(v)
            },
        }
    }

    /// Appends the record for `key` and `value` to the log, then points the
    /// index at the value's first byte. The write happens before the index
    /// update, so a reader never finds an offset without its bytes.
    pub fn put(&mut self, key: &[u8], value: &[u8]) -> (r: Result<(), Error>)
        ensures
            final(self)@ == old(self)@.put(key@, value@),
            final(self)@.wf(),
            r == Ok::<(), Error>(()),
    {
        proof {
            use_type_invariant(&*self);
        }
        let ghost old_view = self@;

        // Take the fields out: an empty index over any log is well formed,
        // so both intermediate states of the engine are too.
        let mut index = index_new();
        std::mem::swap(&mut index, &mut self.index);
        let mut log: Vec<u8> = Vec::new();
        std::mem::swap(&mut log, &mut self.log);

        // The record: key, separator, value, terminator — in that order. The
        // value offset is the write position right after the separator.
        push_all(&mut log, key);
        log.push(SEP);
        let off: u64 = log.len() as u64;
        push_all(&mut log, value);
        log.push(END);

        let mut key_owned: Vec<u8> = Vec::new();
        push_all(&mut key_owned, key);
        let _prev = index_insert(&mut index, key_owned, off);

        proof {
            assert(log@ =~= old_view.log + record_of(key@, value@));
            let new_view = DbView { log: log@, entries: entries_of(index) };
            lemma_put_shape(old_view, key@, value@, new_view, off);
        }
        self.log = log;
        self.index = index;
        Ok(())
    }

    /// Removes `key` from the index, if it is there; the log is untouched
    /// and the call never fails, present key or not.
    pub fn delete(&mut self, key: &[u8]) -> (r: Result<(), Error>)
        ensures
            final(self)@ == old(self)@.delete(key@),
            final(self)@.wf(),
            r == Ok::<(), Error>(()),
    {
        proof {
            use_type_invariant(&*self);
        }
        let ghost old_view = self@;
        let mut index = index_new();
        std::mem::swap(&mut index, &mut self.index);
        let _prev = index_remove(&mut index, key);
        proof {
            let new_view = DbView { log: self.log@, entries: entries_of(index) };
            lemma_delete_shape(old_view, key@, new_view);
        }
        self.index = index;
        Ok(())
    }

    /// Turns the store into a pass over its live pairs, positioned at the
    /// first one.
    pub fn into_iter(self) -> (it: DBIterator)
        ensures
            it@.db == self@,
            it@.pos == 0,
    {
        DBIterator { db: self, pos: 0 }
    }
}

/// What the index insert done by a put yields: exactly the entries of the
/// specification-level put, and a well-formed state.
proof fn lemma_put_shape(m: DbView, k: Seq<u8>, v: Seq<u8>, n: DbView, off: u64)
    requires
        m.wf(),
        n.log == m.log + record_of(k, v),
        off == m.log.len() + k.len() + 1,
        has_key(m.entries, k) ==> exists|i: int|
            0 <= i < m.entries.len() && (#[trigger] m.entries[i]).0 == k && n.entries
                == m.entries.update(i, (k, off)),
        !has_key(m.entries, k) ==> n.entries == m.entries.push((k, off)),
    ensures
        n == m.put(k, v),
        n.wf(),
{
    let j = key_index(m.entries, k);
    if has_key(m.entries, k) {
        let i = choose|i: int|
            0 <= i < m.entries.len() && (#[trigger] m.entries[i]).0 == k && n.entries
                == m.entries.update(i, (k, off));
        assert(0 <= j < m.entries.len() && m.entries[j].0 == k);
        assert(i == j);
    }
    assert(n =~= m.put(k, v));

    // Distinct keys: an update keeps every key in its place; a push adds a
    // key that was not there.
    assert forall|a: int, b: int|
        0 <= a < n.entries.len() && 0 <= b < n.entries.len() && a != b implies (
    #[trigger] n.entries[a]).0 != (#[trigger] n.entries[b]).0 by {
        if has_key(m.entries, k) {
            assert(forall|c: int|
                0 <= c < n.entries.len() ==> (#[trigger] n.entries[c]).0 == m.entries[c].0);
        } else {
            if a < m.entries.len() && b < m.entries.len() {
            } else if a < m.entries.len() {
                assert(m.entries[a].0 == n.entries[a].0);
            } else {
                assert(m.entries[b].0 == n.entries[b].0);
            }
        }
    }

    // Offsets: the old pairs keep their terminator inside the old log, which
    // is a prefix of the new one; the new pair's value is closed by the
    // terminator the record itself appended.
    assert forall|i: int| 0 <= i < n.entries.len() implies (#[trigger] n.entries[i]).1
        < n.log.len() && line_end(n.log, n.entries[i].1 as int) < n.log.len() by {
        if n.entries[i] == (k, off) && n.entries[i].1 == off {
            assert(n.log[off + v.len()] == END);
            lemma_line_end_le(n.log, off as int, off + v.len());
        } else {
            let e = n.entries[i];
            assert(0 <= i < m.entries.len() && m.entries[i] == e);
            lemma_value_at_append(m.log, record_of(k, v), e.1 as int);
        }
    }
}

/// What the index removal done by a delete yields: exactly the entries of
/// the specification-level delete, and a well-formed state.
proof fn lemma_delete_shape(m: DbView, k: Seq<u8>, n: DbView)
    requires
        m.wf(),
        n.log == m.log,
        has_key(m.entries, k) ==> exists|i: int|
            0 <= i < m.entries.len() && (#[trigger] m.entries[i]).0 == k && n.entries
                == m.entries.remove(i),
        !has_key(m.entries, k) ==> n.entries == m.entries,
    ensures
        n == m.delete(k),
        n.wf(),
{
    if has_key(m.entries, k) {
        let i = choose|i: int|
            0 <= i < m.entries.len() && (#[trigger] m.entries[i]).0 == k && n.entries
                == m.entries.remove(i);
        let j = key_index(m.entries, k);
        assert(0 <= j < m.entries.len() && m.entries[j].0 == k);
        assert(i == j);
        assert(n =~= m.delete(k));
        // Every remaining pair is one of the old pairs.
        assert forall|a: int| 0 <= a < n.entries.len() implies exists|b: int|
            0 <= b < m.entries.len() && #[trigger] n.entries[a] == m.entries[b] && (a < i ==> b
                == a) && (a >= i ==> b == a + 1) by {
            if a < i {
                assert(n.entries[a] == m.entries[a]);
            } else {
                assert(n.entries[a] == m.entries[a + 1]);
            }
        }
        assert forall|a: int, b: int|
            0 <= a < n.entries.len() && 0 <= b < n.entries.len() && a != b implies (
        #[trigger] n.entries[a]).0 != (#[trigger] n.entries[b]).0 by {
            let a0 = if a < i { a } else { a + 1 };
            let b0 = if b < i { b } else { b + 1 };
            assert(n.entries[a] == m.entries[a0]);
            assert(n.entries[b] == m.entries[b0]);
        }
        assert forall|a: int| 0 <= a < n.entries.len() implies (#[trigger] n.entries[a]).1
            < n.log.len() && line_end(n.log, n.entries[a].1 as int) < n.log.len() by {
            let a0 = if a < i { a } else { a + 1 };
            assert(n.entries[a] == m.entries[a0]);
        }
    } else {
        assert(n =~= m.delete(k));
    }
}

/// A put preserves well-formedness, as long as the new record's value offset
/// fits the offset type.
pub proof fn lemma_put_wf(m: DbView, k: Seq<u8>, v: Seq<u8>)
    requires
        m.wf(),
        m.log.len() + k.len() + 1 <= u64::MAX,
    ensures
        m.put(k, v).wf(),
{
    let off: u64 = (m.log.len() + k.len() + 1) as u64;
    if has_key(m.entries, k) {
        let j = key_index(m.entries, k);
        assert(0 <= j < m.entries.len() && m.entries[j].0 == k);
        assert(m.put(k, v).entries == m.entries.update(j, (k, off)));
    }
    lemma_put_shape(m, k, v, m.put(k, v), off);
}

/// A delete preserves well-formedness.
pub proof fn lemma_delete_wf(m: DbView, k: Seq<u8>)
    requires
        m.wf(),
    ensures
        m.delete(k).wf(),
{
    if has_key(m.entries, k) {
        let j = key_index(m.entries, k);
        assert(0 <= j < m.entries.len() && m.entries[j].0 == k);
        assert(m.delete(k).entries == m.entries.remove(j));
    }
    lemma_delete_shape(m, k, m.delete(k));
}

/// A single pass over a store's live pairs in insertion order, reading each
/// value back from the log. It owns the store, as handing the store over to
/// iteration does.
pub struct DBIterator {
    db: Database,
    pos: usize,
}

/// The mathematical state of an iterator: the store it walks and the
/// position of the next pair.
#[verifier::ext_equal]
pub struct IterView {
    pub db: DbView,
    pub pos: int,
}

impl View for DBIterator {
    type V = IterView;

    closed spec fn view(&self) -> IterView {
        IterView { db: self.db@, pos: self.pos as int }
    }
}

impl DBIterator {
    /// The pair at the current position — the key together with its current
    /// value, read back from the log — or `None` once the pairs are
    /// exhausted. A hit advances the position by one.
    pub fn next(&mut self) -> (r: Option<(Vec<u8>, Vec<u8>)>)
        ensures
            final(self)@.db == old(self)@.db,
            match r {
                Some(p) => {
                    &&& old(self)@.pos < old(self)@.db.entries.len()
                    &&& final(self)@.pos == old(self)@.pos + 1
                    &&& p.0@ == old(self)@.db.entries[old(self)@.pos].0
                    &&& p.1@ == value_at(
                        old(self)@.db.log,
                        old(self)@.db.entries[old(self)@.pos].1 as int,
                    )
                },
                None => {
                    &&& old(self)@.pos >= old(self)@.db.entries.len()
                    &&& final(self)@.pos == old(self)@.pos
                },
            },
    {
        proof {
            use_type_invariant(&self.db);
        }
        let n = index_len(&self.db.index);
        if self.pos >= n {
            return None;
        }
        let p = index_at(&self.db.index, self.pos).unwrap();
        proof {
            assert(self.db@.entries[self.pos as int].1 < self.db@.log.len());
        }
        let nlen = self.db.log.len();
        assert(p.1 < nlen);
        let v = value_from(self.db.log.as_slice(), p.1 as usize);
        self.pos = self.pos + 1;
        Some((p.0, v))
    }
}

impl KV for Database {
    fn get(&self, key: &[u8]) -> Result<Vec<u8>, Error> {
        Database::get(self, key)
    }

    fn has(&self, key: &[u8]) -> Result<bool, Error> {
        Database::has(self, key)
    }

    fn put(&mut self, key: &[u8], value: &[u8]) -> Result<(), Error> {
        Database::put(self, key, value)
    }

    fn delete(&mut self, key: &[u8]) -> Result<(), Error> {
        Database::delete(self, key)
    }
}

} // verus!
