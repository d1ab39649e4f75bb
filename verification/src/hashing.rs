//! xxh3-128 content hashing in two modes.
//!
//! A file whose size fits the per-thread buffer is hashed in single-read
//! mode: one read, one call over the whole byte slice. A larger file is
//! hashed in streaming mode: the bytes are fed chunk by chunk into a running
//! accumulator and finalized at end of input. Both modes return the digest of
//! the whole content, so over identical bytes they agree bit for bit.

use vstd::prelude::*;
use vstd::slice::slice_subrange;
use xxhash_rust::xxh3::Xxh3;

verus! {

/// Declares xxhash_rust::xxh3::Xxh3, the crate's streaming hasher state, so
/// that it can stand in fields and signatures; its contents are tracked only
/// through `xxh3_fed`.
#[verifier::external_type_specification]
#[verifier::external_body]
pub struct ExXxh3(Xxh3);

/// The 128-bit xxh3 digest of a byte sequence.
pub uninterp spec fn xxh3_128_of(bytes: Seq<u8>) -> u128;

/// The bytes a streaming hasher has consumed so far.
pub uninterp spec fn xxh3_fed(hasher: Xxh3) -> Seq<u8>;

/// Relies on xxhash_rust::xxh3::xxh3_128: the digest is a pure function of
/// the input bytes.
#[verifier::external_body]
fn xxh3_oneshot(bytes: &[u8]) -> (r: u128)
    ensures
        r == xxh3_128_of(bytes@),
{
    xxhash_rust::xxh3::xxh3_128(bytes)
}

/// Relies on xxhash_rust::xxh3::Xxh3::new: a fresh hasher has consumed no
/// input.
#[verifier::external_body]
fn xxh3_new() -> (hasher: Xxh3)
    ensures
        xxh3_fed(hasher) == Seq::<u8>::empty(),
{
    Xxh3::new()
}

/// Relies on xxhash_rust::xxh3::Xxh3::update: it appends the chunk to the
/// input consumed so far.
#[verifier::external_body]
fn xxh3_update(hasher: &mut Xxh3, chunk: &[u8])
    ensures
        xxh3_fed(*final(hasher)) == xxh3_fed(*old(hasher)) + chunk@,
{
    hasher.update(chunk)
}

/// Relies on xxhash_rust::xxh3::Xxh3::digest128: the streaming digest of the
/// consumed input equals the one-shot xxh3_128 digest of the same bytes.
#[verifier::external_body]
fn xxh3_digest128(hasher: &Xxh3) -> (r: u128)
    ensures
        r == xxh3_128_of(xxh3_fed(*hasher)),
{
    hasher.digest128()
}

/// Incremental xxh3-128 hashing of a byte stream: feed chunks in order, then
/// finish to obtain the digest of their concatenation.
pub struct Xxh3Stream {
    hasher: Xxh3,
}

impl Xxh3Stream {
    /// The bytes fed so far, in order.
    pub closed spec fn fed(&self) -> Seq<u8> {
        xxh3_fed(self.hasher)
    }

    pub fn new() -> (r: Self)
        ensures
            r.fed() == Seq::<u8>::empty(),
    {
        Xxh3Stream { hasher: xxh3_new() }
    }

    pub fn feed(&mut self, chunk: &[u8])
        ensures
            final(self).fed() == old(self).fed() + chunk@,
    {
        xxh3_update(&mut self.hasher, chunk)
    }

    /// The digest of everything fed so far, equal to hashing those bytes in
    /// one pass.
    pub fn finish(&self) -> (r: u128)
        ensures
            r == xxh3_128_of(self.fed()),
    {
        xxh3_digest128(&self.hasher)
    }
}

/// Single-read mode: hash the whole content in one call.
pub fn smallfile_xxhash3_128(content: &[u8]) -> (r: u128)
    ensures
        r == xxh3_128_of(content@),
{
    xxh3_oneshot(content)
}

/// Streaming mode: feed the content in chunks of at most `chunk_size` bytes
/// into a running accumulator, then finalize. The result equals hashing the
/// whole content in one pass, so streaming and single-read mode agree.
pub fn bigfile_xxhash3_128(content: &[u8], chunk_size: usize) -> (r: u128)
    requires
        chunk_size >= 1,
    ensures
        r == xxh3_128_of(content@),
{
    let mut stream = Xxh3Stream::new();
    let len = content.len();
    let mut pos: usize = 0;
    while pos < len
        invariant
            pos <= len,
            len == content@.len(),
            chunk_size >= 1,
            stream.fed() == content@.take(pos as int),
        decreases len - pos,
    {
        let end = if len - pos < chunk_size {
            len
        } else {
            pos + chunk_size
        };
        let chunk = slice_subrange(content, pos, end);
        stream.feed(chunk);
        proof {
            assert(stream.fed() =~= content@.take(end as int));
        }
        pos = end;
    }
    proof {
        assert(content@.take(len as int) =~= content@);
    }
    stream.finish()
}

/// Hashes one file's content and reports its byte size, choosing single-read
/// mode when the content fits a buffer of `buffer_size` bytes and streaming
/// mode otherwise. Both modes digest the entire content, so the returned hash
/// does not depend on the mode taken.
pub fn get_xxhash3_128_and_size(content: &[u8], buffer_size: usize) -> (r: (u128, u64))
    requires
        buffer_size >= 1,
    ensures
        r.0 == xxh3_128_of(content@),
        r.1 == content@.len(),
{
    let filesize = content.len() as u64;
    let hash = if content.len() > buffer_size {
        bigfile_xxhash3_128(content, buffer_size)
    } else {
        smallfile_xxhash3_128(content)
    };
    (hash, filesize)
}

} // verus!
