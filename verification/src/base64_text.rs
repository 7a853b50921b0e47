//! Base64 as the `base64` crate does it, for RFC 2047 `B` words.

use vstd::prelude::*;

verus! {

/// The symbol for a six-bit value in the standard alphabet (RFC 4648).
pub open spec fn b64_symbol(v: nat) -> u8 {
    if v < 26 {
        (0x41 + v) as u8
    } else if v < 52 {
        (0x61 + v - 26) as u8
    } else if v < 62 {
        (0x30 + v - 52) as u8
    } else if v == 62 {
        0x2B
    } else {
        0x2F
    }
}

/// Standard base64 with `=` padding (RFC 4648, section 4): each group of
/// three bytes becomes four symbols; a final group of one or two bytes is
/// padded to four with `=`.
pub open spec fn base64_text(b: Seq<u8>) -> Seq<u8>
    decreases b.len(),
{
    if b.len() == 0 {
        Seq::empty()
    } else if b.len() == 1 {
        seq![b64_symbol(b[0] as nat / 4), b64_symbol((b[0] as nat % 4) * 16), 0x3Du8, 0x3Du8]
    } else if b.len() == 2 {
        seq![
            b64_symbol(b[0] as nat / 4),
            b64_symbol((b[0] as nat % 4) * 16 + b[1] as nat / 16),
            b64_symbol((b[1] as nat % 16) * 4),
            0x3Du8,
        ]
    } else {
        seq![
            b64_symbol(b[0] as nat / 4),
            b64_symbol((b[0] as nat % 4) * 16 + b[1] as nat / 16),
            b64_symbol((b[1] as nat % 16) * 4 + b[2] as nat / 64),
            b64_symbol(b[2] as nat % 64),
        ] + base64_text(b.skip(3))
    }
}

/// What the `base64` crate's general-purpose engine with the standard
/// alphabet and `DecodePaddingMode::Indifferent` decodes these bytes to, or
/// `None` where it reports an error. A function of the bytes alone.
pub uninterp spec fn indifferent_base64_decoded(payload: Seq<u8>) -> Option<Seq<u8>>;

/// Encodes with the `base64` crate's `STANDARD` engine (`Engine::encode`),
/// taking the `String` it returns as its bytes. The contract claims the
/// RFC 4648 standard encoding with padding. The crate panics only when the
/// encoded length overflows `usize`, which no slice in memory can reach.
#[verifier::external_body]
pub(crate) fn encode_standard(bytes: &[u8]) -> (encoded: Vec<u8>)
    ensures
        encoded@ == base64_text(bytes@),
{
    base64::Engine::encode(&base64::engine::general_purpose::STANDARD, bytes).into_bytes()
}

/// Decodes with a `base64` general-purpose engine built from the standard
/// alphabet with `DecodePaddingMode::Indifferent` (`Engine::decode`); an
/// error becomes `None`. The contract claims that the result is
/// `indifferent_base64_decoded` of the input, and that it is no longer than
/// the engine's conservative estimate, three bytes per started group of
/// four, which is the buffer the engine decodes into before truncating.
#[verifier::external_body]
pub(crate) fn decode_indifferent(payload: &[u8]) -> (decoded: Option<Vec<u8>>)
    ensures
        decoded is Some <==> indifferent_base64_decoded(payload@) is Some,
        decoded matches Some(v) ==> Some(v@) == indifferent_base64_decoded(payload@) && v@.len()
            <= (payload@.len() + 3) / 4 * 3,
{
    let engine = base64::engine::GeneralPurpose::new(
        &base64::alphabet::STANDARD,
        base64::engine::GeneralPurposeConfig::new().with_decode_padding_mode(
            base64::engine::DecodePaddingMode::Indifferent,
        ),
    );
    base64::Engine::decode(&engine, payload).ok()
}

} // verus!
