//! The identifier of a transfer and its textual form.

use vstd::prelude::*;
use vstd::string::is_ascii;
use baid58::{Baid58, CHUNK_POSITIONS_32};
use crate::digest::{absorbed, sha256, TaggedHasher};

verus! {

/// The tag under which transfer identifiers are derived. Another revision
/// of the commitment takes another tag, and so another space of identifiers.
pub const TRANSFER_ID_TAG: &'static str = "urn:lnp-bp:rgb:transfer#2024-02-04";

/// The human-readable prefix of a transfer identifier in text.
pub const TRANSFER_ID_HRI: &'static str = "transfer";

/// The base-58 digits of `payload`, in chunks joined by hyphens.
pub uninterp spec fn baid58_chunks(payload: Seq<u8>) -> Seq<char>;

/// The checksum of `payload` under the prefix `hri`, in three words joined
/// by hyphens.
pub uninterp spec fn baid58_mnemonic(hri: Seq<char>, payload: Seq<u8>) -> Seq<char>;

/// The text of `payload` under the prefix `hri`: the prefix, a colon, the
/// chunked digits, a hash sign and the checksum words.
pub open spec fn baid58_text(hri: Seq<char>, payload: Seq<u8>) -> Seq<char> {
    hri + seq![':'] + baid58_chunks(payload) + seq!['#'] + baid58_mnemonic(hri, payload)
}

/// Formats a `baid58::Baid58` value, made by `Baid58::with_chunks` with the
/// chunk positions for 32 bytes, through its `Display` impl, with the flags
/// for a leading prefix, chunked digits and trailing checksum words.
/// Trusted: the text is the prefix, the fill character, the chunked digits,
/// which depend on the payload alone, a hash sign, and the words that
/// `Baid58::mnemonic` gives.
#[verifier::external_body]
fn baid58_chunked_text(hri: &'static str, payload: &[u8; 32]) -> (s: String)
    requires
        is_ascii(hri),
        hri@.len() <= 8,
    ensures
        s@ == hri@ + seq![':'] + baid58_chunks(payload@) + seq!['#'] + baid58_mnemonic(
            hri@,
            payload@,
        ),
{
    let baid = Baid58::<32>::with_chunks(hri, *payload, &CHUNK_POSITIONS_32, '-');
    format!("{::<#.2}", baid)
}

/// Calls `baid58::Baid58::mnemonic`. Trusted: the words depend on the
/// prefix and the payload alone.
#[verifier::external_body]
fn baid58_checksum_words(hri: &'static str, payload: &[u8; 32]) -> (s: String)
    requires
        is_ascii(hri),
        hri@.len() <= 8,
    ensures
        s@ == baid58_mnemonic(hri@, payload@),
{
    Baid58::<32>::with_chunks(hri, *payload, &CHUNK_POSITIONS_32, '-').mnemonic()
}

/// Identifier of a transfer: 32 bytes derived from what the transfer holds.
#[derive(Clone, Copy, Debug, PartialEq, Eq, PartialOrd, Ord, Hash)]
pub struct TransferId {
    bytes: [u8; 32],
}

impl View for TransferId {
    type V = Seq<u8>;

    closed spec fn view(&self) -> Seq<u8> {
        self.bytes@
    }
}

impl TransferId {
    /// The identifier that holds `bytes`.
    pub fn from_byte_array(bytes: [u8; 32]) -> (id: Self)
        ensures
            id@ == bytes@,
    {
        TransferId { bytes }
    }

    /// The bytes of the identifier.
    pub fn to_byte_array(&self) -> (bytes: [u8; 32])
        ensures
            bytes@ == self@,
    {
        self.bytes
    }

    /// The identifier that a finished hash engine gives: the digest of all
    /// that the engine has taken in.
    pub fn from_hasher(hasher: TaggedHasher) -> (id: Self)
        ensures
            id@ == sha256(absorbed(hasher)),
    {
        TransferId { bytes: hasher.finish() }
    }

    /// The bytes that go into the textual form.
    pub fn to_baid58_payload(&self) -> (bytes: [u8; 32])
        ensures
            bytes@ == self@,
    {
        self.bytes
    }

    /// The identifier in text: `transfer:`, the chunked base-58 digits, `#`
    /// and the checksum words.
    pub fn to_baid58_string(&self) -> (s: String)
        ensures
            s@ == baid58_text(TRANSFER_ID_HRI@, self@),
            s@ == "transfer:"@ + baid58_chunks(self@) + seq!['#'] + baid58_mnemonic(
                TRANSFER_ID_HRI@,
                self@,
            ),
    {
        proof {
            reveal_strlit("transfer");
            reveal_strlit("transfer:");
            assert("transfer:"@ =~= "transfer"@ + seq![':']);
        }
        baid58_chunked_text(TRANSFER_ID_HRI, &self.bytes)
    }

    /// The checksum of the identifier as three words.
    pub fn to_mnemonic(&self) -> (s: String)
        ensures
            s@ == baid58_mnemonic(TRANSFER_ID_HRI@, self@),
    {
        proof {
            reveal_strlit("transfer");
        }
        baid58_checksum_words(TRANSFER_ID_HRI, &self.bytes)
    }
}

} // verus!
