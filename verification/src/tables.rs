//! The character tables of the Encoding Standard, as `encoding_rs` carries
//! them. This crate never decodes a table itself: it hands bytes to
//! `encoding_rs` and reasons about what comes back by name.

use vstd::prelude::*;

verus! {

/// The encodings whose tables this crate reads with.
#[derive(Clone, Copy, Debug, PartialEq, Eq, Structural)]
pub enum Table {
    ShiftJis,
    EucKr,
    Gbk,
    Big5,
    Iso2022Jp,
    Windows1252,
}

/// What `encoding_rs`'s `Encoding::decode` returns, as text, for these
/// bytes under this table's encoding: a leading byte-order mark of UTF-8 or
/// UTF-16 is sniffed and decides the encoding instead, and malformed
/// sequences become U+FFFD. A function of the table and the bytes alone.
pub uninterp spec fn table_text(table: Table, bytes: Seq<u8>) -> Seq<char>;

/// What `encoding_rs`'s `Encoding::decode_without_bom_handling` returns, as
/// text, for these bytes under this table's encoding: no byte-order mark is
/// sniffed, and malformed sequences become U+FFFD. A function of the table
/// and the bytes alone.
pub uninterp spec fn table_text_without_bom(table: Table, bytes: Seq<u8>) -> Seq<char>;

/// Whether `encoding_rs`'s `Encoding::for_label` finds an encoding for
/// these label bytes. A function of the bytes alone.
pub uninterp spec fn standard_label_resolves(label: Seq<u8>) -> bool;

/// The largest input handed to a table: the decode panics when its
/// output buffer size overflows `usize`, which it computes as a small
/// multiple of the input length (at most three times it, plus a few bytes,
/// rounded up to a power of two).
pub open spec fn table_input_fits(len: nat) -> bool {
    len <= usize::MAX / 8
}

/// The code point windows-1252 gives a byte, as `encoding_rs` tabulates it:
/// ASCII and 0xA0 to 0xFF stand for themselves, and 27 of the 32 bytes from
/// 0x80 to 0x9F for punctuation and letters elsewhere in Unicode (the other
/// five stand for themselves too).
pub open spec fn windows_1252_point(b: u8) -> u32 {
    if b == 0x80 {
        0x20AC
    } else if b == 0x82 {
        0x201A
    } else if b == 0x83 {
        0x0192
    } else if b == 0x84 {
        0x201E
    } else if b == 0x85 {
        0x2026
    } else if b == 0x86 {
        0x2020
    } else if b == 0x87 {
        0x2021
    } else if b == 0x88 {
        0x02C6
    } else if b == 0x89 {
        0x2030
    } else if b == 0x8A {
        0x0160
    } else if b == 0x8B {
        0x2039
    } else if b == 0x8C {
        0x0152
    } else if b == 0x8E {
        0x017D
    } else if b == 0x91 {
        0x2018
    } else if b == 0x92 {
        0x2019
    } else if b == 0x93 {
        0x201C
    } else if b == 0x94 {
        0x201D
    } else if b == 0x95 {
        0x2022
    } else if b == 0x96 {
        0x2013
    } else if b == 0x97 {
        0x2014
    } else if b == 0x98 {
        0x02DC
    } else if b == 0x99 {
        0x2122
    } else if b == 0x9A {
        0x0161
    } else if b == 0x9B {
        0x203A
    } else if b == 0x9C {
        0x0153
    } else if b == 0x9E {
        0x017E
    } else if b == 0x9F {
        0x0178
    } else {
        b as u32
    }
}

/// Windows-1252 text: one character per byte, each the byte's
/// `windows_1252_point`.
pub open spec fn is_windows_1252_text(bytes: Seq<u8>, text: Seq<char>) -> bool {
    &&& text.len() == bytes.len()
    &&& forall|i: int| 0 <= i < bytes.len() ==> (#[trigger] text[i]) as u32 == windows_1252_point(bytes[i])
}

/// Decodes with `encoding_rs`: `Encoding::decode` on the table's static
/// encoding, byte-order-mark sniffing included, its text taken as an owned
/// `String`. The contract claims only that the text is `table_text` of the
/// table and the bytes.
#[verifier::external_body]
pub(crate) fn table_decode(table: Table, bytes: &[u8]) -> (text: String)
    requires
        table_input_fits(bytes@.len()),
    ensures
        text@ == table_text(table, bytes@),
{
    let encoding = match table {
        Table::ShiftJis => encoding_rs::SHIFT_JIS,
        Table::EucKr => encoding_rs::EUC_KR,
        Table::Gbk => encoding_rs::GBK,
        Table::Big5 => encoding_rs::BIG5,
        Table::Iso2022Jp => encoding_rs::ISO_2022_JP,
        Table::Windows1252 => encoding_rs::WINDOWS_1252,
    };
    encoding.decode(bytes).0.into_owned()
}

/// Decodes with `encoding_rs`: `Encoding::decode_without_bom_handling` on
/// the table's static encoding, its text taken as an owned `String`. The
/// contract claims that the text is `table_text_without_bom` of the table
/// and the bytes; that its UTF-8 is no longer than the worst case that
/// `Decoder::max_utf8_buffer_length` documents for a fresh decoder of these
/// tables (three bytes per input byte, plus three for Big5); and, for
/// windows-1252, whose table in `encoding_rs` maps every byte, that each
/// byte becomes the one character `windows_1252_point` names. Nothing more
/// is said of the other tables' text.
#[verifier::external_body]
pub(crate) fn table_decode_without_bom(table: Table, bytes: &[u8]) -> (text: String)
    requires
        table_input_fits(bytes@.len()),
    ensures
        text@ == table_text_without_bom(table, bytes@),
        vstd::utf8::encode_utf8(text@).len() <= 3 * bytes@.len() + 3,
        table == Table::Windows1252 ==> is_windows_1252_text(bytes@, text@),
{
    let encoding = match table {
        Table::ShiftJis => encoding_rs::SHIFT_JIS,
        Table::EucKr => encoding_rs::EUC_KR,
        Table::Gbk => encoding_rs::GBK,
        Table::Big5 => encoding_rs::BIG5,
        Table::Iso2022Jp => encoding_rs::ISO_2022_JP,
        Table::Windows1252 => encoding_rs::WINDOWS_1252,
    };
    encoding.decode_without_bom_handling(bytes).0.into_owned()
}

/// The byte windows-1252 writes for a code point, where there is one.
pub open spec fn windows_1252_byte(p: u32) -> Option<u8> {
    if p == 0x20AC {
        Some(0x80u8)
    } else if p == 0x201A {
        Some(0x82u8)
    } else if p == 0x0192 {
        Some(0x83u8)
    } else if p == 0x201E {
        Some(0x84u8)
    } else if p == 0x2026 {
        Some(0x85u8)
    } else if p == 0x2020 {
        Some(0x86u8)
    } else if p == 0x2021 {
        Some(0x87u8)
    } else if p == 0x02C6 {
        Some(0x88u8)
    } else if p == 0x2030 {
        Some(0x89u8)
    } else if p == 0x0160 {
        Some(0x8Au8)
    } else if p == 0x2039 {
        Some(0x8Bu8)
    } else if p == 0x0152 {
        Some(0x8Cu8)
    } else if p == 0x017D {
        Some(0x8Eu8)
    } else if p == 0x2018 {
        Some(0x91u8)
    } else if p == 0x2019 {
        Some(0x92u8)
    } else if p == 0x201C {
        Some(0x93u8)
    } else if p == 0x201D {
        Some(0x94u8)
    } else if p == 0x2022 {
        Some(0x95u8)
    } else if p == 0x2013 {
        Some(0x96u8)
    } else if p == 0x2014 {
        Some(0x97u8)
    } else if p == 0x02DC {
        Some(0x98u8)
    } else if p == 0x2122 {
        Some(0x99u8)
    } else if p == 0x0161 {
        Some(0x9Au8)
    } else if p == 0x203A {
        Some(0x9Bu8)
    } else if p == 0x0153 {
        Some(0x9Cu8)
    } else if p == 0x017E {
        Some(0x9Eu8)
    } else if p == 0x0178 {
        Some(0x9Fu8)
    } else if p < 0x100 && windows_1252_point(p as u8) == p {
        Some(p as u8)
    } else {
        None
    }
}

/// Windows-1252 loses nothing: every byte becomes a character other than
/// U+FFFD, and the byte can be read back from its character.
pub proof fn law_windows_1252_is_reversible(b: u8)
    ensures
        windows_1252_point(b) != 0xFFFD,
        windows_1252_byte(windows_1252_point(b)) == Some(b),
{
}

/// Text read as windows-1252 holds no U+FFFD, and it gives back the bytes
/// it was read from: two byte strings read to the same text are the same.
pub proof fn law_windows_1252_text_gives_back_its_bytes(
    a: Seq<u8>,
    b: Seq<u8>,
    text: Seq<char>,
)
    requires
        is_windows_1252_text(a, text),
        is_windows_1252_text(b, text),
    ensures
        forall|i: int| 0 <= i < text.len() ==> #[trigger] text[i] != '\u{FFFD}',
        a == b,
{
    assert forall|i: int| 0 <= i < text.len() implies #[trigger] text[i] != '\u{FFFD}' by {
        law_windows_1252_is_reversible(a[i]);
    }
    assert forall|i: int| 0 <= i < a.len() implies a[i] == b[i] by {
        assert(text[i] as u32 == windows_1252_point(a[i]));
        law_windows_1252_is_reversible(a[i]);
        law_windows_1252_is_reversible(b[i]);
    }
    assert(a =~= b);
}

/// Asks `encoding_rs`'s `Encoding::for_label` whether it can resolve the
/// label; the contract claims only that the answer is
/// `standard_label_resolves` of the bytes.
#[verifier::external_body]
pub(crate) fn standard_resolves(label: &[u8]) -> (known: bool)
    ensures
        known == standard_label_resolves(label@),
{
    encoding_rs::Encoding::for_label(label).is_some()
}

/// Text decoded through a table, with no byte-order mark sniffed, or
/// nothing when there is nothing to decode.
pub open spec fn flushed(table: Table, run: Seq<u8>) -> Seq<char> {
    if run.len() == 0 {
        Seq::empty()
    } else {
        table_text_without_bom(table, run)
    }
}

} // verus!
