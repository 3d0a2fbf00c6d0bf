//! Content fingerprints: an MD5 digest, written as base64 text.

use vstd::prelude::*;

verus! {

/// A running MD5 computation. The state belongs to the `md-5` crate; all
/// that is known of it here is what it has been fed, see [`absorbed`].
#[verifier::external_body]
pub struct Md5State {
    inner: md5::Md5,
}

/// The bytes that a digest state has been fed so far, in order.
pub uninterp spec fn absorbed(state: Md5State) -> Seq<u8>;

/// The MD5 digest of a byte string.
pub uninterp spec fn md5_digest(content: Seq<u8>) -> Seq<u8>;

/// The base64 text of a byte string, standard alphabet, padded.
pub uninterp spec fn base64_text(bytes: Seq<u8>) -> Seq<char>;

/// `Md5::new` of the `md-5` crate: a state that has been fed nothing.
#[verifier::external_body]
fn md5_new() -> (state: Md5State)
    ensures
        absorbed(state) == Seq::<u8>::empty(),
{
    Md5State { inner: <md5::Md5 as md5::Digest>::new() }
}

/// `Digest::update` on an `Md5`: the chunk is appended to what the state
/// has been fed.
#[verifier::external_body]
fn md5_update(state: &mut Md5State, chunk: &[u8])
    ensures
        absorbed(*final(state)) == absorbed(*old(state)) + chunk@,
{
    md5::Digest::update(&mut state.inner, chunk);
}

/// `Digest::finalize` on an `Md5`: the digest of what the state has been
/// fed, which for MD5 is 16 bytes long.
#[verifier::external_body]
fn md5_finalize(state: Md5State) -> (digest: Vec<u8>)
    ensures
        digest@ == md5_digest(absorbed(state)),
        digest@.len() == 16,
{
    md5::Digest::finalize(state.inner).to_vec()
}

/// `base64::encode`: the text of the bytes in the standard alphabet with
/// padding. The crate panics where the length of the text overflows
/// `usize`, which a short input cannot cause.
#[verifier::external_body]
fn base64_encode(bytes: &[u8]) -> (text: String)
    requires
        bytes@.len() <= 1024,
    ensures
        text@ == base64_text(bytes@),
{
    base64::encode(bytes)
}

/// The fingerprint under which content is cached.
pub open spec fn fingerprint(content: Seq<u8>) -> Seq<char> {
    base64_text(md5_digest(content))
}

/// Hashes content that arrives in pieces, so that a large file never has
/// to be held in memory at once.
pub struct ContentHasher {
    state: Md5State,
}

impl ContentHasher {
    /// The content fed so far.
    pub closed spec fn content(self) -> Seq<u8> {
        absorbed(self.state)
    }

/// A hasher that has been fed nothing.
    pub fn new() -> (hasher: Self)
        ensures
            hasher.content() == Seq::<u8>::empty(),
    {
        ContentHasher { state: md5_new() }
    }

/// Feeds the next piece of the content.
    pub fn update(&mut self, chunk: &[u8])
        ensures
            final(self).content() == old(self).content() + chunk@,
    {
        md5_update(&mut self.state, chunk);
    }

/// The fingerprint of all that was fed.
    pub fn finish(self) -> (hash: String)
        ensures
            hash@ == fingerprint(self.content()),
    {
        let digest = md5_finalize(self.state);
        base64_encode(digest.as_slice())
    }
}

/// The fingerprint of content that is at hand in one piece.
pub fn base64_hash(content: &[u8]) -> (hash: String)
    ensures
        hash@ == fingerprint(content@),
{
    let mut hasher = ContentHasher::new();
    hasher.update(content);
    hasher.finish()
}

} // verus!
