//! Charset decoding for mail: the legacy encodings the Encoding Standard
//! refuses, UTF-7, vendor label aliases, a fallback for unplaceable labels,
//! and the RFC 2047 encoded-word rewrite that runs before header parsing.

pub mod base64_text;
pub mod tables;
pub mod text;
pub mod utf7;
pub mod legacy_cjk;
pub mod encoded_word;
pub mod charset;
pub mod reindex;
