use baid58::{Baid58ParseError, Chunking, FromBaid58, ToBaid58, CHUNKING_32};
use commit_verify::{DigestExt, Sha256};
use rgb_containers::digest::{tagged_digest, TaggedHasher};
use rgb_containers::ident::{TransferId, TRANSFER_ID_HRI, TRANSFER_ID_TAG};

/// Stands in for the identifier on the side of the text codec.
#[derive(Debug, PartialEq, Eq)]
struct Probe([u8; 32]);

impl From<[u8; 32]> for Probe {
    fn from(bytes: [u8; 32]) -> Self { Probe(bytes) }
}

impl ToBaid58<32> for Probe {
    const HRI: &'static str = "transfer";
    const CHUNKING: Option<Chunking> = CHUNKING_32;
    fn to_baid58_payload(&self) -> [u8; 32] { self.0 }
}

impl FromBaid58<32> for Probe {}

fn parse(s: &str) -> Result<[u8; 32], Baid58ParseError> {
    Probe::from_baid58_chunked_str(s, ':', '#').map(|p| p.0)
}

fn sample(seed: u8) -> [u8; 32] {
    let mut bytes = [0u8; 32];
    for (i, b) in bytes.iter_mut().enumerate() {
        *b = seed.wrapping_mul(31).wrapping_add((i as u8).wrapping_mul(7));
    }
    bytes
}

#[test]
fn constants() {
    assert_eq!(TRANSFER_ID_TAG, "urn:lnp-bp:rgb:transfer#2024-02-04");
    assert_eq!(TRANSFER_ID_HRI, "transfer");
}

#[test]
fn byte_array_round_trip() {
    let bytes = sample(3);
    let id = TransferId::from_byte_array(bytes);
    assert_eq!(id.to_byte_array(), bytes);
    assert_eq!(id.to_baid58_payload(), bytes);
}

#[test]
fn tagged_digest_is_sha256_under_the_tag_hashed_twice() {
    let data = [1u8, 2, 3, 4, 5];
    let mut engine = Sha256::from_tag("some tag");
    engine.input_raw(&data);
    let expected = engine.finish();
    assert_eq!(tagged_digest("some tag", &data), expected);
    assert_ne!(tagged_digest("other tag", &data), expected);
    assert_ne!(tagged_digest("some tag", &data[..4]), expected);
}

#[test]
fn tagged_digest_of_nothing() {
    // SHA-256 of the tag digest twice, for the tag "urn:lnp-bp:rgb:transfer#2024-02-04"
    let got = tagged_digest(TRANSFER_ID_TAG, &[]);
    let again = TaggedHasher::new(TRANSFER_ID_TAG).finish();
    assert_eq!(got, again);
    assert_ne!(got, [0u8; 32]);
}

#[test]
fn hasher_takes_input_in_pieces() {
    let mut whole = TaggedHasher::new("t");
    whole.input(&[1, 2, 3, 4]);
    let mut pieces = TaggedHasher::new("t");
    pieces.input(&[1]);
    pieces.input(&[]);
    pieces.input(&[2, 3, 4]);
    assert_eq!(whole.finish(), pieces.finish());
}

#[test]
fn identifier_from_hasher_is_its_digest() {
    let mut a = TaggedHasher::new(TRANSFER_ID_TAG);
    a.input(&[9, 9, 9]);
    let id = TransferId::from_hasher(a);
    assert_eq!(id.to_byte_array(), tagged_digest(TRANSFER_ID_TAG, &[9, 9, 9]));
}

#[test]
fn text_has_prefix_chunks_and_checksum() {
    let id = TransferId::from_byte_array(sample(1));
    let text = id.to_baid58_string();
    assert!(text.starts_with("transfer:"), "{text}");
    let rest = &text["transfer:".len()..];
    let (value, checksum) = rest.split_once('#').expect("checksum part");
    let chunks: Vec<&str> = value.split('-').collect();
    assert_eq!(chunks.len(), 6, "{text}");
    assert_eq!(chunks[0].len(), 6);
    for chunk in &chunks[1..5] {
        assert_eq!(chunk.len(), 8);
    }
    assert!(value.chars().all(|c| c == '-' || c.is_ascii_alphanumeric()));
    assert_eq!(checksum.split('-').count(), 3);
    assert_eq!(checksum, id.to_mnemonic());
}

#[test]
fn text_differs_from_payload_and_between_ids() {
    let a = TransferId::from_byte_array(sample(1));
    let b = TransferId::from_byte_array(sample(2));
    assert_ne!(a.to_baid58_string(), b.to_baid58_string());
    assert_ne!(a.to_mnemonic(), b.to_mnemonic());
    assert_eq!(a.to_baid58_string(), TransferId::from_byte_array(sample(1)).to_baid58_string());
}

#[test]
fn text_round_trips_through_the_codec() {
    for seed in 0..40u8 {
        let bytes = sample(seed);
        let text = TransferId::from_byte_array(bytes).to_baid58_string();
        assert_eq!(parse(&text), Ok(bytes), "{text}");
    }
}

#[test]
fn text_of_all_ones_round_trips() {
    let bytes = [0xffu8; 32];
    let text = TransferId::from_byte_array(bytes).to_baid58_string();
    assert_eq!(parse(&text), Ok(bytes), "{text}");
}

#[test]
fn text_of_zero_identifier() {
    let id = TransferId::from_byte_array([0u8; 32]);
    assert_eq!(
        id.to_baid58_string(),
        "transfer:111111-11111111-11111111-11111111-11#shake-easy-rider"
    );
    assert_eq!(id.to_mnemonic(), "shake-easy-rider");
}

#[test]
fn wrong_checksum_is_reported() {
    let a = TransferId::from_byte_array(sample(5));
    let b = TransferId::from_byte_array(sample(6));
    let text = a.to_baid58_string();
    let (head, _) = text.split_once('#').unwrap();
    let forged = format!("{head}#{}", b.to_mnemonic());
    assert!(matches!(parse(&forged), Err(Baid58ParseError::ChecksumMismatch { .. })), "{forged}");
}

#[test]
fn wrong_separators_are_reported() {
    let text = TransferId::from_byte_array(sample(5)).to_baid58_string();
    let unchunked: String = {
        let (head, tail) = text.split_once('#').unwrap();
        format!("{}#{}", head.replace('-', ""), tail)
    };
    assert_eq!(parse(&unchunked), Err(Baid58ParseError::InvalidChunking));
}

#[test]
fn wrong_character_is_reported() {
    let text = TransferId::from_byte_array(sample(5)).to_baid58_string();
    let at = "transfer:".len() + 2;
    let mut chars: Vec<char> = text.chars().collect();
    chars[at] = 'l';
    let bad: String = chars.into_iter().collect();
    assert!(
        matches!(parse(&bad), Err(Baid58ParseError::InvalidBase58Character('l', _))),
        "{bad}"
    );
}
