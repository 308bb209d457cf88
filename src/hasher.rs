//! The content hasher: BLAKE3 over a file's bytes, fed chunk by chunk.

use vstd::prelude::*;
use crate::record::storable;

verus! {

#[verifier::external_type_specification]
#[verifier::external_body]
pub struct ExHasher(blake3::Hasher);

/// The bytes that a BLAKE3 hasher has been fed, in order.
pub uninterp spec fn fed_bytes(h: blake3::Hasher) -> Seq<u8>;

/// The BLAKE3 digest of `data`, spelled in lowercase hex.
pub uninterp spec fn blake3_hex(data: Seq<u8>) -> Seq<char>;

pub open spec fn is_lower_hex(c: char) -> bool {
    ('0' <= c && c <= '9') || ('a' <= c && c <= 'f')
}

/// Relies on `blake3::Hasher::new`: a hasher that has been fed nothing.
#[verifier::external_body]
fn new_state() -> (h: blake3::Hasher)
    ensures
        fed_bytes(h) == Seq::<u8>::empty(),
{
    blake3::Hasher::new()
}

/// Relies on `blake3::Hasher::update`: `input` is fed after what came before.
#[verifier::external_body]
fn feed(h: &mut blake3::Hasher, input: &[u8])
    ensures
        fed_bytes(*final(h)) == fed_bytes(*old(h)) + input@,
{
    h.update(input);
}

/// Relies on `blake3::Hasher::finalize` and `blake3::Hash::to_hex`: the
/// digest of everything fed so far, as 64 lowercase hex digits.
#[verifier::external_body]
fn hex_digest(h: &blake3::Hasher) -> (r: String)
    ensures
        r@ == blake3_hex(fed_bytes(*h)),
        r@.len() == 64,
        forall|i: int| 0 <= i < r@.len() ==> is_lower_hex(#[trigger] r@[i]),
{
    h.finalize().to_hex().to_string()
}

/// Hashes a file's content as it is read, one buffer at a time; the digest
/// depends on the bytes alone, not on how they were cut into chunks.
pub struct ContentHasher {
    state: blake3::Hasher,
}

impl ContentHasher {
    /// The bytes fed so far.
    pub closed spec fn input(&self) -> Seq<u8> {
        fed_bytes(self.state)
    }

    pub fn new() -> (r: ContentHasher)
        ensures
            r.input() == Seq::<u8>::empty(),
    {
        ContentHasher { state: new_state() }
    }

    /// Feeds the next chunk of the content.
    pub fn update(&mut self, chunk: &[u8])
        ensures
            final(self).input() == old(self).input() + chunk@,
    {
        feed(&mut self.state, chunk);
    }

    /// The hex digest of all the content fed so far; it holds no field
    /// separator, so a record with it can be stored.
    pub fn finalize_hex(&self) -> (r: String)
        ensures
            r@ == blake3_hex(self.input()),
            r@.len() == 64,
            storable(r@),
    {
        let r = hex_digest(&self.state);
        assert forall|i: int| 0 <= i < r@.len() implies #[trigger] r@[i] != '|' by {
            assert(is_lower_hex(r@[i]));
        }
        r
    }
}

} // verus!
