//! Index keys and the cache decision of a hashing worker.
//!
//! A file's record is stored under the UTF-8 bytes of its canonical path, so
//! a file keeps its key from one run to the next whatever order the walk
//! takes, and two different paths never share one.

use vstd::prelude::*;
use vstd::utf8::*;
use vstd::string::*;
use crate::record::{EntryView, FileEntry, decode_entry, encode_entry};

verus! {

/// The key under which the record of the file at `path` is stored.
pub open spec fn key_of(path: Seq<char>) -> Seq<u8> {
    encode_utf8(path)
}

/// Two paths share a key only when they are the same path.
pub proof fn lemma_key_injective(a: Seq<char>, b: Seq<char>)
    ensures
        key_of(a) == key_of(b) <==> a == b,
{
    encode_utf8_decode_utf8(a);
    encode_utf8_decode_utf8(b);
}

/// The value found under a key, as a sequence of bytes.
pub open spec fn stored_view(stored: Option<&[u8]>) -> Option<Seq<u8>> {
    match stored {
        Some(v) => Some(v@),
        None => None,
    }
}

/// A cache hit: a readable record is stored and its modification time is
/// the file's current one.
pub open spec fn cache_hit(stored: Option<Seq<u8>>, mtime: u64) -> bool {
    match stored {
        Some(v) => match decode_entry(v) {
            Some(e) => e.mtime == mtime,
            None => false,
        },
        None => false,
    }
}

/// The index key of the file at `path`.
pub fn index_key(path: &str) -> (r: Vec<u8>)
    ensures
        r@ == key_of(path@),
{
    path.as_bytes_vec()
}

/// Whether the file must be hashed again: nothing is stored under its key,
/// what is stored cannot be read, or it was stored for another modification
/// time.
pub fn needs_rehash(stored: Option<&[u8]>, mtime: u64) -> (r: bool)
    ensures
        r == !cache_hit(stored_view(stored), mtime),
{
    match stored {
        Some(v) => match FileEntry::from_bytes(v) {
            Some(e) => e.mtime != mtime,
            None => true,
        },
        None => true,
    }
}

/// The key and the stored bytes of the record written after hashing the
/// file at `path`, modified at `mtime`, to `hash`.
pub fn fresh_record(path: &str, hash: String, mtime: u64) -> (r: (Vec<u8>, Vec<u8>))
    ensures
        r.0@ == key_of(path@),
        r.1@ == encode_entry(EntryView { path: path@, hash: hash@, mtime }),
{
    let entry = FileEntry { path: path.to_owned(), hash, mtime };
    (index_key(path), entry.to_bytes())
}

} // verus!
