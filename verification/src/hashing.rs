//! Streamed SHA-256 hashing through the sha2 crate, behind trusted
//! wrappers, and the verified rendering of a digest as manifest text.
//!
//! The digest of a byte string is named by the uninterpreted function
//! [`sha256_of`]; the wrappers state that a hasher fed some bytes and then
//! finished returns exactly `sha256_of` of everything it was fed. What the
//! digest is on given bytes is left entirely to the sha2 crate.

use vstd::prelude::*;

use crate::hex::{hex_of, to_hex, valid_digest, lemma_hex_of_valid};

verus! {

/// What SHA-256 returns for the given input bytes: a 32-byte digest that is
/// a function of the bytes alone.
pub uninterp spec fn sha256_of(data: Seq<u8>) -> Seq<u8>;

#[verifier::external_type_specification]
#[verifier::external_body]
pub struct ExSha256(sha2::Sha256);

/// Relies on sha2's `Digest::new`: a fresh SHA-256 state that has
/// processed no bytes.
#[verifier::external_body]
fn sha256_new() -> sha2::Sha256 {
    <sha2::Sha256 as sha2::Digest>::new()
}

/// An incremental SHA-256 computation. `fed()` is the sequence of all bytes
/// handed to it so far; the digest it finally produces depends on that
/// sequence alone, so hashing a source in chunks of any size agrees with
/// hashing it in one pass.
pub struct StreamHasher {
    state: sha2::Sha256,
    fed_bytes: Ghost<Seq<u8>>,
}

impl StreamHasher {
    /// All bytes this hasher has been fed, in order.
    pub closed spec fn fed(self) -> Seq<u8> {
        self.fed_bytes@
    }

    /// A fresh hasher that has processed no bytes.
    pub fn new() -> (h: StreamHasher)
        ensures
            h.fed() == Seq::<u8>::empty(),
    {
        StreamHasher { state: sha256_new(), fed_bytes: Ghost(Seq::empty()) }
    }

    /// Relies on sha2's `Digest::update`: feeds further bytes into the
    /// running computation, equivalent to having appended them to the input.
    #[verifier::external_body]
    pub fn update(&mut self, chunk: &[u8])
        ensures
            final(self).fed() == old(self).fed() + chunk@,
    {
        <sha2::Sha256 as sha2::Digest>::update(&mut self.state, chunk);
    }

    /// Relies on sha2's `Digest::finalize`: the 32-byte SHA-256 digest of
    /// all bytes fed, a function of those bytes alone.
    #[verifier::external_body]
    pub fn finish(self) -> (r: Vec<u8>)
        ensures
            r@ == sha256_of(self.fed()),
            r@.len() == 32,
    {
        let out = <sha2::Sha256 as sha2::Digest>::finalize(self.state);
        out.to_vec()
    }
}

/// The concatenation of a sequence of chunks, in order.
pub open spec fn concat_chunks(chunks: Seq<Seq<u8>>) -> Seq<u8>
    decreases chunks.len(),
{
    if chunks.len() == 0 {
        Seq::empty()
    } else {
        concat_chunks(chunks.drop_last()) + chunks.last()
    }
}

/// Hashing the same byte content twice yields the identical digest text:
/// the rendered digest is a function of the bytes alone.
pub proof fn lemma_digest_deterministic(a: Seq<u8>, b: Seq<u8>)
    requires
        a == b,
    ensures
        hex_of(sha256_of(a)) == hex_of(sha256_of(b)),
{
}

/// Chunked and whole-buffer hashing agree: a source delivered in chunks
/// whose concatenation is `whole` has the digest of `whole` itself,
/// whatever the chunk sizes.
pub proof fn lemma_streaming_agrees(chunks: Seq<Seq<u8>>, whole: Seq<u8>)
    requires
        concat_chunks(chunks) == whole,
    ensures
        hex_of(sha256_of(concat_chunks(chunks))) == hex_of(sha256_of(whole)),
{
}

/// The SHA-256 digest of a source delivered as successive chunks, rendered
/// as 64 lowercase hexadecimal bytes: the digest of the chunks'
/// concatenation.
pub fn hash_chunks(chunks: &Vec<Vec<u8>>) -> (r: Vec<u8>)
    ensures
        r@ == hex_of(sha256_of(concat_chunks(chunks@.map_values(|c: Vec<u8>| c@)))),
        valid_digest(r@),
{
    let ghost views = chunks@.map_values(|c: Vec<u8>| c@);
    let mut h = StreamHasher::new();
    let mut i: usize = 0;
    while i < chunks.len()
        invariant
            i <= chunks@.len(),
            views == chunks@.map_values(|c: Vec<u8>| c@),
            h.fed() == concat_chunks(views.take(i as int)),
        decreases chunks@.len() - i,
    {
        h.update(chunks[i].as_slice());
        i = i + 1;
        proof {
            assert(views.take(i as int).drop_last() =~= views.take(i as int - 1));
            assert(views.take(i as int).last() == views[i - 1]);
        }
    }
    proof {
        assert(views.take(views.len() as int) =~= views);
    }
    let digest = h.finish();
    proof {
        lemma_hex_of_valid(digest@);
    }
    to_hex(digest.as_slice())
}

/// The SHA-256 digest of `data`, rendered as 64 lowercase hexadecimal bytes.
pub fn hash_bytes(data: &[u8]) -> (r: Vec<u8>)
    ensures
        r@ == hex_of(sha256_of(data@)),
        valid_digest(r@),
{
    let mut h = StreamHasher::new();
    h.update(data);
    proof {
        assert(h.fed() =~= data@);
    }
    let digest = h.finish();
    proof {
        lemma_hex_of_valid(digest@);
    }
    to_hex(digest.as_slice())
}

} // verus!
