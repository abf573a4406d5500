//! A minimal embedded key-value store backed by an append-only record log.
//!
//! The engine keeps the log bytes it has emitted together with an in-memory
//! index from key to the offset of that key's current value inside the log.
//! Records are laid out as `<key>,<value>\n`; the index is the sole authority
//! on which keys are live, while the log only ever grows.

use vstd::prelude::*;

pub mod format;
pub mod index;
pub mod laws;
pub mod store;

pub use store::DBIterator;
pub use store::Database;
pub use store::DbView;

verus! {

/// The one expected business error: a lookup of a key that is not present.
#[derive(Debug)]
pub enum Error {
    KeyNotFound,
}

/// The four verbs of the store.
pub trait KV {
    fn get(&self, key: &[u8]) -> Result<Vec<u8>, Error>;

    fn has(&self, key: &[u8]) -> Result<bool, Error>;

    fn put(&mut self, key: &[u8], value: &[u8]) -> Result<(), Error>;

    fn delete(&mut self, key: &[u8]) -> Result<(), Error>;
}

} // verus!
