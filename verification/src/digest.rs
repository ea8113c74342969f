//! The tagged SHA-256 engine under which every identifier is derived.

use vstd::prelude::*;
use vstd::string::StringSliceAdditionalSpecFns;
use commit_verify::{DigestExt, Sha256};

verus! {

/// A running SHA-256 computation. What it has taken in so far is
/// [`absorbed`]; nothing else of it is visible. The engine's own type is an
/// alias of a generic type with bounds on traits of other crates, which
/// cannot be declared to the verifier, so the engine is kept behind this
/// struct.
#[verifier::external_body]
pub struct TaggedHasher {
    engine: Sha256,
}

/// Every byte that the engine has taken in since it was created, in order.
pub uninterp spec fn absorbed(h: TaggedHasher) -> Seq<u8>;

/// The SHA-256 digest of `data`: 32 bytes.
pub uninterp spec fn sha256(data: Seq<u8>) -> Seq<u8>;

/// What an engine started under `tag` has taken in before any data: the
/// digest of the tag, twice.
pub open spec fn tag_prefix(tag: Seq<u8>) -> Seq<u8> {
    sha256(tag) + sha256(tag)
}

/// The digest of `data` under the domain-separation tag `tag`.
pub open spec fn tagged_sha256(tag: Seq<u8>, data: Seq<u8>) -> Seq<u8> {
    sha256(tag_prefix(tag) + data)
}

/// Calls `commit_verify::DigestExt::from_tag` for `Sha256`. Trusted: the
/// new engine has taken in the SHA-256 digest of the tag two times and
/// nothing more.
#[verifier::external_body]
pub(crate) fn hasher_from_tag(tag: &[u8]) -> (h: TaggedHasher)
    ensures
        absorbed(h) == tag_prefix(tag@),
{
    TaggedHasher { engine: Sha256::from_tag(tag) }
}

/// Calls `commit_verify::DigestExt::input_raw` for `Sha256`. Trusted: the
/// engine takes in exactly the bytes of `data`, after what it held.
#[verifier::external_body]
pub(crate) fn hasher_input(h: &mut TaggedHasher, data: &[u8])
    ensures
        absorbed(*final(h)) == absorbed(*old(h)) + data@,
{
    h.engine.input_raw(data)
}

/// Calls `commit_verify::DigestExt::finish` for `Sha256`. Trusted: the
/// result is the SHA-256 digest of all that the engine has taken in.
#[verifier::external_body]
pub(crate) fn hasher_finish(h: TaggedHasher) -> (r: [u8; 32])
    ensures
        r@ == sha256(absorbed(h)),
{
    h.engine.finish()
}

impl TaggedHasher {
    /// Starts an engine under the domain-separation tag `tag`.
    pub fn new(tag: &str) -> (h: Self)
        ensures
            absorbed(h) == tag_prefix(tag.spec_bytes()),
    {
        hasher_from_tag(tag.as_bytes())
    }

    /// Feeds `data` to the engine.
    pub fn input(&mut self, data: &[u8])
        ensures
            absorbed(*final(self)) == absorbed(*old(self)) + data@,
    {
        hasher_input(self, data)
    }

    /// Ends the computation and gives the digest.
    pub fn finish(self) -> (r: [u8; 32])
        ensures
            r@ == sha256(absorbed(self)),
    {
        hasher_finish(self)
    }
}

/// The digest of `data` under `tag`.
pub fn tagged_digest(tag: &str, data: &[u8]) -> (r: [u8; 32])
    ensures
        r@ == tagged_sha256(tag.spec_bytes(), data@),
{
    let mut h = TaggedHasher::new(tag);
    h.input(data);
    h.finish()
}

} // verus!
