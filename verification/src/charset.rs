//! Which charsets are decoded here, and what to do with a name nobody
//! recognises.
//!
//! `encoding_rs` implements the WHATWG Encoding Standard, a browser
//! specification. It refuses ISO-2022-KR, ISO-2022-CN and HZ-GB-2312 (they
//! become one U+FFFD) and dropped UTF-7; mail archived in them still has to
//! read, so those are decoded here (`legacy_cjk`, `utf7`). It resolves labels
//! from a fixed list without the vendor spellings Windows mailers send
//! (CP932, CP949, UHC, CP936, CP950); those need only the right name, since
//! the Standard's tables are the Microsoft ones, and `alias` supplies it for
//! labels that do not already resolve. A label nobody can place is read by
//! `fallback`: UTF-8 when it is, UTF-8 with its damage marked when it looks
//! like UTF-8 that lost a byte, and windows-1252 otherwise, which loses
//! nothing.

use vstd::prelude::*;
use crate::legacy_cjk;
use crate::legacy_cjk::{is_refused_name, refused_label_name, refused_text};
use crate::tables::{
    Table, is_windows_1252_text, standard_label_resolves, standard_resolves, table_decode,
    table_decode_without_bom, table_input_fits, table_text, table_text_without_bom,
};
use crate::text::{
    ascii_lower, before_star, chars_of, equals_ignoring_ascii_case, same_ignoring_ascii_case, star_end,
    trim_both, trim_range, utf8_of_range, utf8_str,
};
use crate::utf7;
use crate::utf7::{is_utf7_label, utf7_text};

verus! {

/// The charset name itself: the label trimmed of white space, of the quotes
/// a header may put round it, cut at the RFC 2231 language tag (`*`), and
/// trimmed of white space again.
pub open spec fn charset_name(label: Seq<char>) -> Seq<char> {
    trim_both(before_star(trim_both(trim_both(label, false), true)), false)
}

/// The Encoding Standard resolves the label's name (as UTF-8 bytes).
pub open spec fn label_resolves(label: Seq<char>) -> bool {
    standard_label_resolves(vstd::utf8::encode_utf8(charset_name(label)))
}

/// The vendor spellings and the table each means.
pub open spec fn vendor_table(name: Seq<char>) -> Option<Table> {
    if same_ignoring_ascii_case(name, "cp932"@) || same_ignoring_ascii_case(name, "x-ms-cp932"@) {
        Some(Table::ShiftJis)
    } else if same_ignoring_ascii_case(name, "cp949"@) || same_ignoring_ascii_case(name, "uhc"@)
        || same_ignoring_ascii_case(name, "x-uhc"@) || same_ignoring_ascii_case(
        name,
        "x-windows-949"@,
    ) || same_ignoring_ascii_case(name, "x-euc-kr"@) || same_ignoring_ascii_case(
        name,
        "ks_c_5601"@,
    ) {
        Some(Table::EucKr)
    } else if same_ignoring_ascii_case(name, "cp936"@) || same_ignoring_ascii_case(
        name,
        "windows-936"@,
    ) || same_ignoring_ascii_case(name, "ms936"@) || same_ignoring_ascii_case(name, "ms_936"@) {
        Some(Table::Gbk)
    } else if same_ignoring_ascii_case(name, "cp950"@) || same_ignoring_ascii_case(
        name,
        "windows-950"@,
    ) || same_ignoring_ascii_case(name, "ms950"@) || same_ignoring_ascii_case(name, "x-big5"@) {
        Some(Table::Big5)
    } else if same_ignoring_ascii_case(name, "iso-2022-jp-1"@) || same_ignoring_ascii_case(
        name,
        "iso-2022-jp-2"@,
    ) || same_ignoring_ascii_case(name, "iso-2022-jp-3"@) || same_ignoring_ascii_case(
        name,
        "iso-2022-jp-2004"@,
    ) || same_ignoring_ascii_case(name, "iso-2022-jp-ms"@) {
        Some(Table::Iso2022Jp)
    } else {
        None
    }
}

/// The table a label means when the Standard knows it under another name:
/// never for a label the Standard resolves itself.
pub open spec fn alias_of(label: Seq<char>) -> Option<Table> {
    if label_resolves(label) {
        None
    } else {
        vendor_table(charset_name(label))
    }
}

/// Where the charset name stands among the label's characters.
pub(crate) fn name(label: &Vec<char>) -> (r: (usize, usize))
    ensures
        r.0 <= r.1 <= label@.len(),
        label@.subrange(r.0 as int, r.1 as int) == charset_name(label@),
{
    let n = label.len();
    assert(label@.subrange(0, n as int) =~= label@);
    let (a, b) = trim_range(label, 0, n, false);
    let (c, d) = trim_range(label, a, b, true);
    let e = star_end(label, c, d);
    trim_range(label, c, e, false)
}

fn resolves_range(label: &Vec<char>, lo: usize, hi: usize) -> (r: bool)
    requires
        lo <= hi <= label@.len(),
    ensures
        r == standard_label_resolves(vstd::utf8::encode_utf8(label@.subrange(lo as int, hi as int))),
{
    let bytes = utf8_of_range(label, lo, hi);
    standard_resolves(bytes.as_slice())
}

/// Whether the Encoding Standard can resolve this label at all. A label it
/// cannot resolve is read as UTF-8 by everything downstream, whatever the
/// bytes are.
pub fn resolvable(label: &str) -> (r: bool)
    ensures
        r == label_resolves(label@),
{
    let chars = chars_of(label);
    let (lo, hi) = name(&chars);
    resolves_range(&chars, lo, hi)
}

fn any_of(chars: &Vec<char>, lo: usize, hi: usize, a: &str, b: &str, c: &str, d: &str) -> (r: bool)
    requires
        lo <= hi <= chars@.len(),
    ensures
        r == (same_ignoring_ascii_case(chars@.subrange(lo as int, hi as int), a@)
            || same_ignoring_ascii_case(chars@.subrange(lo as int, hi as int), b@)
            || same_ignoring_ascii_case(chars@.subrange(lo as int, hi as int), c@)
            || same_ignoring_ascii_case(chars@.subrange(lo as int, hi as int), d@)),
{
    equals_ignoring_ascii_case(chars, lo, hi, a) || equals_ignoring_ascii_case(chars, lo, hi, b)
        || equals_ignoring_ascii_case(chars, lo, hi, c) || equals_ignoring_ascii_case(
        chars,
        lo,
        hi,
        d,
    )
}

fn vendor_table_of(chars: &Vec<char>, lo: usize, hi: usize) -> (r: Option<Table>)
    requires
        lo <= hi <= chars@.len(),
    ensures
        r == vendor_table(chars@.subrange(lo as int, hi as int)),
{
    if equals_ignoring_ascii_case(chars, lo, hi, "cp932") || equals_ignoring_ascii_case(
        chars,
        lo,
        hi,
        "x-ms-cp932",
    ) {
        Some(Table::ShiftJis)
    } else if any_of(chars, lo, hi, "cp949", "uhc", "x-uhc", "x-windows-949") || equals_ignoring_ascii_case(chars, lo, hi, "x-euc-kr") || equals_ignoring_ascii_case(
        chars,
        lo,
        hi,
        "ks_c_5601",
    ) {
        Some(Table::EucKr)
    } else if any_of(chars, lo, hi, "cp936", "windows-936", "ms936", "ms_936") {
        Some(Table::Gbk)
    } else if any_of(chars, lo, hi, "cp950", "windows-950", "ms950", "x-big5") {
        Some(Table::Big5)
    } else if any_of(chars, lo, hi, "iso-2022-jp-1", "iso-2022-jp-2", "iso-2022-jp-3", "iso-2022-jp-2004")
        || equals_ignoring_ascii_case(chars, lo, hi, "iso-2022-jp-ms") {
        Some(Table::Iso2022Jp)
    } else {
        None
    }
}

/// The table a label means when the Standard knows it under another name,
/// or `None` when there is nothing to fix. A label `encoding_rs` resolves
/// is left entirely alone.
pub fn alias(label: &str) -> (r: Option<Table>)
    ensures
        r == alias_of(label@),
        label_resolves(label@) ==> r is None,
{
    let chars = chars_of(label);
    let (lo, hi) = name(&chars);
    if resolves_range(&chars, lo, hi) {
        return None;
    }
    vendor_table_of(&chars, lo, hi)
}

/// Whether this charset has to be decoded here rather than left to the
/// parser: the Standard refuses it, or cannot place the name.
pub open spec fn decoded_here(label: Seq<char>) -> bool {
    is_refused_name(refused_label_name(label)) || !label_resolves(label)
}

/// Whether this charset has to be decoded here rather than left to the parser.
pub fn decodes_here(label: &str) -> (r: bool)
    ensures
        r == decoded_here(label@),
{
    legacy_cjk::is_replacement_charset(label) || !resolvable(label)
}

/// What `String::from_utf8_lossy` makes of the bytes: each malformed
/// sequence replaced with U+FFFD. A function of the bytes alone.
pub uninterp spec fn lossy_utf8_text(bytes: Seq<u8>) -> Seq<char>;

/// The bytes hold, somewhere, the UTF-8 encoding of this character.
pub open spec fn carries_encoding(bytes: Seq<u8>, c: char) -> bool {
    exists|j: int|
        0 <= j && j + vstd::utf8::encode_scalar(c as u32).len() <= bytes.len() && #[trigger] bytes.subrange(
            j,
            j + vstd::utf8::encode_scalar(c as u32).len(),
        ) == vstd::utf8::encode_scalar(c as u32)
}

/// The bytes hold a well-formed multi-byte UTF-8 sequence for a character
/// other than U+FFFD.
pub open spec fn holds_multibyte_utf8(bytes: Seq<u8>) -> bool {
    exists|c: char| (c as u32) >= 0x80 && c != '\u{FFFD}' && #[trigger] carries_encoding(bytes, c)
}

/// `String::from_utf8_lossy`, owned. The contract claims that the text is
/// `lossy_utf8_text` of the bytes, and two things std documents of it:
/// valid UTF-8 comes back as the text it encodes, and only invalid
/// sequences are replaced (by U+FFFD), so any other non-ASCII character of
/// the text stands for its own well-formed encoding in the bytes.
#[verifier::external_body]
fn utf8_lossy(bytes: &[u8]) -> (text: String)
    ensures
        text@ == lossy_utf8_text(bytes@),
        vstd::utf8::valid_utf8(bytes@) ==> text@ == vstd::utf8::decode_utf8(bytes@),
        forall|i: int|
            0 <= i < text@.len() && (#[trigger] text@[i] as u32) >= 0x80 && text@[i] != '\u{FFFD}'
                ==> carries_encoding(bytes@, text@[i]),
{
    String::from_utf8_lossy(bytes).into_owned()
}

/// How many U+FFFD the text holds.
pub open spec fn replacement_count(t: Seq<char>) -> nat
    decreases t.len(),
{
    if t.len() == 0 {
        0
    } else {
        replacement_count(t.drop_last()) + if t.last() == '\u{FFFD}' {
            1nat
        } else {
            0nat
        }
    }
}

/// The text holds a character that is neither ASCII nor U+FFFD: a real
/// multi-byte character survived the decode.
pub open spec fn has_multibyte(t: Seq<char>) -> bool {
    exists|i: int| 0 <= i < t.len() && (t[i] as u32) >= 0x80 && #[trigger] t[i] != '\u{FFFD}'
}

/// Lossily decoded text that looks like UTF-8 which lost a byte rather than
/// text that was never UTF-8: real multi-byte characters survived, and at
/// most one character in fifty is U+FFFD.
pub open spec fn looks_like_damaged_utf8(t: Seq<char>) -> bool {
    has_multibyte(t) && t.len() > 0 && replacement_count(t) * 50 <= t.len()
}

/// What bytes with no usable label read as: UTF-8 when they are, the lossy
/// UTF-8 reading when it looks like damaged UTF-8, and windows-1252
/// otherwise.
pub open spec fn fallback_text(bytes: Seq<u8>) -> Seq<char> {
    if vstd::utf8::valid_utf8(bytes) {
        vstd::utf8::decode_utf8(bytes)
    } else if looks_like_damaged_utf8(lossy_utf8_text(bytes)) {
        lossy_utf8_text(bytes)
    } else {
        table_text_without_bom(Table::Windows1252, bytes)
    }
}

/// Whether this looks like UTF-8 that lost a byte rather than text that was
/// never UTF-8.
fn damaged_utf8(lossy: &str) -> (r: bool)
    ensures
        r == looks_like_damaged_utf8(lossy@),
{
    let chars = chars_of(lossy);
    let mut total: usize = 0;
    let mut bad: usize = 0;
    let mut multibyte = false;
    let n = chars.len();
    while total < n
        invariant
            n == chars@.len(),
            total <= n,
            bad == replacement_count(chars@.take(total as int)),
            bad <= total,
            multibyte == has_multibyte(chars@.take(total as int)),
        decreases n - total,
    {
        let c = chars[total];
        let ghost before = chars@.take(total as int);
        let ghost after = chars@.take(total + 1);
        assert(after.drop_last() =~= before);
        assert(after.last() == c);
        if c == '\u{FFFD}' {
            bad = bad + 1;
        } else if (c as u32) >= 0x80 {
            multibyte = true;
        }
        proof {
            if has_multibyte(after) {
                let k = choose|k: int| 0 <= k < after.len() && (after[k] as u32) >= 0x80 && #[trigger] after[k] != '\u{FFFD}';
                if k < before.len() {
                    assert(before[k] == after[k]);
                }
            }
            if has_multibyte(before) {
                let k = choose|k: int| 0 <= k < before.len() && (before[k] as u32) >= 0x80 && #[trigger] before[k] != '\u{FFFD}';
                assert(after[k] == before[k]);
            }
            if (c as u32) >= 0x80 && c != '\u{FFFD}' {
                assert(after[total as int] == c);
            }
        }
        total = total + 1;
    }
    assert(chars@.take(n as int) =~= chars@);
    multibyte && total > 0 && (bad as u128) * 50 <= total as u128
}

/// What to read bytes as when the label is no help at all. Valid UTF-8 is
/// UTF-8. Otherwise, UTF-8 with damage keeps its U+FFFD marks, and text
/// that was never UTF-8 is read as windows-1252, which decodes every byte,
/// so nothing is lost.
pub fn fallback(bytes: &[u8]) -> (text: String)
    requires
        table_input_fits(bytes@.len()),
    ensures
        text@ == fallback_text(bytes@),
        !vstd::utf8::valid_utf8(bytes@) && !looks_like_damaged_utf8(lossy_utf8_text(bytes@))
            ==> is_windows_1252_text(bytes@, text@),
        !vstd::utf8::valid_utf8(bytes@) && !holds_multibyte_utf8(bytes@) ==> is_windows_1252_text(
            bytes@,
            text@,
        ),
{
    match utf8_str(bytes) {
        Some(valid) => {
            proof {
                vstd::utf8::encode_utf8_decode_utf8(valid@);
            }
            return String::from_str(valid);
        },
        None => {},
    }
    let lossy = utf8_lossy(bytes);
    if damaged_utf8(lossy.as_str()) {
        proof {
            let t = lossy@;
            let i = choose|i: int|
                0 <= i < t.len() && (t[i] as u32) >= 0x80 && #[trigger] t[i] != '\u{FFFD}';
            assert(carries_encoding(bytes@, t[i]));
            assert(holds_multibyte_utf8(bytes@));
        }
        return lossy;
    }
    table_decode_without_bom(Table::Windows1252, bytes)
}

/// What `decode` reads bytes labelled this way as, or `None` when the
/// parser's own decoding is right for the label.
pub open spec fn charset_text(label: Seq<char>, bytes: Seq<u8>) -> Option<Seq<char>> {
    match alias_of(label) {
        Some(table) => Some(table_text(table, bytes)),
        None => {
            if is_refused_name(refused_label_name(label)) {
                Some(refused_text(refused_label_name(label), bytes))
            } else if is_utf7_label(charset_name(label)) {
                Some(utf7_text(bytes))
            } else if label_resolves(label) {
                None
            } else {
                Some(fallback_text(bytes))
            }
        },
    }
}

/// Decodes a charset the parser would get wrong, or `None` when it would not.
pub fn decode(label: &str, bytes: &[u8]) -> (r: Option<String>)
    requires
        table_input_fits(bytes@.len()),
    ensures
        r is Some <==> charset_text(label@, bytes@) is Some,
        r matches Some(text) ==> Some(text@) == charset_text(label@, bytes@),
{
    let chars = chars_of(label);
    let (lo, hi) = name(&chars);
    // A vendor spelling of a table already shipped: a lookup, nothing more.
    match alias(label) {
        Some(table) => {
            return Some(table_decode(table, bytes));
        },
        None => {},
    }
    // One of the ones the Standard answers with a single U+FFFD.
    match legacy_cjk::decode(label, bytes) {
        Some(text) => {
            return Some(text);
        },
        None => {},
    }
    if is_utf7_name(&chars, lo, hi) {
        return Some(utf7::decode(bytes));
    }
    // Anything the Standard can resolve is its business, not ours.
    if resolves_range(&chars, lo, hi) {
        return None;
    }
    Some(fallback(bytes))
}

/// Whether `chars[lo..hi]` names UTF-7.
fn is_utf7_name(chars: &Vec<char>, lo: usize, hi: usize) -> (r: bool)
    requires
        lo <= hi <= chars@.len(),
    ensures
        r == is_utf7_label(chars@.subrange(lo as int, hi as int)),
{
    any_of(chars, lo, hi, "utf-7", "utf7", "unicode-1-1-utf-7", "csunicode11utf7")
        || equals_ignoring_ascii_case(chars, lo, hi, "x-unicode-2-0-utf-7")
}

/// `decode` answers exactly for the labels `decodes_here` claims, and for
/// the UTF-7 names: everything else is left to the parser.
pub proof fn law_decode_answers_where_decoded_here(label: Seq<char>, bytes: Seq<u8>)
    ensures
        charset_text(label, bytes) is Some <==> decoded_here(label) || is_utf7_label(
            charset_name(label),
        ),
{
}

/// A label nobody can place reads through `fallback`, and valid UTF-8
/// under such a label comes back exactly as it is.
pub proof fn law_unplaceable_label_reads_through_fallback(label: Seq<char>, bytes: Seq<u8>)
    requires
        !label_resolves(label),
        vendor_table(charset_name(label)) is None,
        !is_refused_name(refused_label_name(label)),
        !is_utf7_label(charset_name(label)),
    ensures
        charset_text(label, bytes) == Some(fallback_text(bytes)),
        vstd::utf8::valid_utf8(bytes) ==> charset_text(label, bytes) == Some(
            vstd::utf8::decode_utf8(bytes),
        ),
{
}

/// Valid UTF-8 is left exactly as it is by the fallback.
pub proof fn law_valid_utf8_is_left_as_it_is(bytes: Seq<u8>)
    requires
        vstd::utf8::valid_utf8(bytes),
    ensures
        fallback_text(bytes) == vstd::utf8::decode_utf8(bytes),
        vstd::utf8::encode_utf8(fallback_text(bytes)) == bytes,
{
    vstd::utf8::decode_utf8_encode_utf8(bytes);
}

/// A name that is not the same as another once case is folded, because the
/// two differ at `k`, where `name` agrees with `via`.
proof fn lemma_not_same_through(name: Seq<char>, via: Seq<char>, other: Seq<char>, k: int)
    requires
        same_ignoring_ascii_case(name, via),
        0 <= k < via.len(),
        k < other.len(),
        ascii_lower(via[k]) != ascii_lower(other[k]),
    ensures
        !same_ignoring_ascii_case(name, other),
{
    assert(ascii_lower(name[k]) == ascii_lower(via[k]));
}

/// Every vendor spelling, in any case, names its own table: the Shift_JIS,
/// EUC-KR (Unified Hangul), GBK, Big5 and ISO-2022-JP code pages each under
/// every name Microsoft and mailers give them.
pub proof fn law_vendor_spellings_name_their_tables(name: Seq<char>)
    ensures
        same_ignoring_ascii_case(name, "cp932"@) ==> vendor_table(name) == Some(Table::ShiftJis),
        same_ignoring_ascii_case(name, "x-ms-cp932"@) ==> vendor_table(name) == Some(Table::ShiftJis),
        same_ignoring_ascii_case(name, "cp949"@) ==> vendor_table(name) == Some(Table::EucKr),
        same_ignoring_ascii_case(name, "uhc"@) ==> vendor_table(name) == Some(Table::EucKr),
        same_ignoring_ascii_case(name, "x-uhc"@) ==> vendor_table(name) == Some(Table::EucKr),
        same_ignoring_ascii_case(name, "x-windows-949"@) ==> vendor_table(name) == Some(Table::EucKr),
        same_ignoring_ascii_case(name, "x-euc-kr"@) ==> vendor_table(name) == Some(Table::EucKr),
        same_ignoring_ascii_case(name, "ks_c_5601"@) ==> vendor_table(name) == Some(Table::EucKr),
        same_ignoring_ascii_case(name, "cp936"@) ==> vendor_table(name) == Some(Table::Gbk),
        same_ignoring_ascii_case(name, "windows-936"@) ==> vendor_table(name) == Some(Table::Gbk),
        same_ignoring_ascii_case(name, "ms936"@) ==> vendor_table(name) == Some(Table::Gbk),
        same_ignoring_ascii_case(name, "ms_936"@) ==> vendor_table(name) == Some(Table::Gbk),
        same_ignoring_ascii_case(name, "cp950"@) ==> vendor_table(name) == Some(Table::Big5),
        same_ignoring_ascii_case(name, "windows-950"@) ==> vendor_table(name) == Some(Table::Big5),
        same_ignoring_ascii_case(name, "ms950"@) ==> vendor_table(name) == Some(Table::Big5),
        same_ignoring_ascii_case(name, "x-big5"@) ==> vendor_table(name) == Some(Table::Big5),
        same_ignoring_ascii_case(name, "iso-2022-jp-1"@) ==> vendor_table(name) == Some(Table::Iso2022Jp),
        same_ignoring_ascii_case(name, "iso-2022-jp-2"@) ==> vendor_table(name) == Some(Table::Iso2022Jp),
        same_ignoring_ascii_case(name, "iso-2022-jp-3"@) ==> vendor_table(name) == Some(Table::Iso2022Jp),
        same_ignoring_ascii_case(name, "iso-2022-jp-2004"@) ==> vendor_table(name) == Some(Table::Iso2022Jp),
        same_ignoring_ascii_case(name, "iso-2022-jp-ms"@) ==> vendor_table(name) == Some(Table::Iso2022Jp),
{
    reveal_strlit("cp932");
    reveal_strlit("x-ms-cp932");
    reveal_strlit("cp949");
    reveal_strlit("uhc");
    reveal_strlit("x-uhc");
    reveal_strlit("x-windows-949");
    reveal_strlit("x-euc-kr");
    reveal_strlit("ks_c_5601");
    reveal_strlit("cp936");
    reveal_strlit("windows-936");
    reveal_strlit("ms936");
    reveal_strlit("ms_936");
    reveal_strlit("cp950");
    reveal_strlit("windows-950");
    reveal_strlit("ms950");
    reveal_strlit("x-big5");
    reveal_strlit("iso-2022-jp-1");
    reveal_strlit("iso-2022-jp-2");
    reveal_strlit("iso-2022-jp-3");
    reveal_strlit("iso-2022-jp-2004");
    reveal_strlit("iso-2022-jp-ms");
    if same_ignoring_ascii_case(name, "cp932"@) {
    }
    if same_ignoring_ascii_case(name, "x-ms-cp932"@) {
    }
    if same_ignoring_ascii_case(name, "cp949"@) {
        lemma_not_same_through(name, "cp949"@, "cp932"@, 3);
    }
    if same_ignoring_ascii_case(name, "uhc"@) {
    }
    if same_ignoring_ascii_case(name, "x-uhc"@) {
        lemma_not_same_through(name, "x-uhc"@, "cp932"@, 0);
    }
    if same_ignoring_ascii_case(name, "x-windows-949"@) {
    }
    if same_ignoring_ascii_case(name, "x-euc-kr"@) {
    }
    if same_ignoring_ascii_case(name, "ks_c_5601"@) {
    }
    if same_ignoring_ascii_case(name, "cp936"@) {
        lemma_not_same_through(name, "cp936"@, "cp932"@, 4);
        lemma_not_same_through(name, "cp936"@, "cp949"@, 3);
        lemma_not_same_through(name, "cp936"@, "x-uhc"@, 0);
    }
    if same_ignoring_ascii_case(name, "windows-936"@) {
    }
    if same_ignoring_ascii_case(name, "ms936"@) {
        lemma_not_same_through(name, "ms936"@, "cp932"@, 0);
        lemma_not_same_through(name, "ms936"@, "cp949"@, 0);
        lemma_not_same_through(name, "ms936"@, "x-uhc"@, 0);
    }
    if same_ignoring_ascii_case(name, "ms_936"@) {
    }
    if same_ignoring_ascii_case(name, "cp950"@) {
        lemma_not_same_through(name, "cp950"@, "cp932"@, 3);
        lemma_not_same_through(name, "cp950"@, "cp949"@, 3);
        lemma_not_same_through(name, "cp950"@, "x-uhc"@, 0);
        lemma_not_same_through(name, "cp950"@, "cp936"@, 3);
        lemma_not_same_through(name, "cp950"@, "ms936"@, 0);
    }
    if same_ignoring_ascii_case(name, "windows-950"@) {
        lemma_not_same_through(name, "windows-950"@, "windows-936"@, 9);
    }
    if same_ignoring_ascii_case(name, "ms950"@) {
        lemma_not_same_through(name, "ms950"@, "cp932"@, 0);
        lemma_not_same_through(name, "ms950"@, "cp949"@, 0);
        lemma_not_same_through(name, "ms950"@, "x-uhc"@, 0);
        lemma_not_same_through(name, "ms950"@, "cp936"@, 0);
        lemma_not_same_through(name, "ms950"@, "ms936"@, 3);
    }
    if same_ignoring_ascii_case(name, "x-big5"@) {
        lemma_not_same_through(name, "x-big5"@, "ms_936"@, 0);
    }
    if same_ignoring_ascii_case(name, "iso-2022-jp-1"@) {
        lemma_not_same_through(name, "iso-2022-jp-1"@, "x-windows-949"@, 0);
    }
    if same_ignoring_ascii_case(name, "iso-2022-jp-2"@) {
        lemma_not_same_through(name, "iso-2022-jp-2"@, "x-windows-949"@, 0);
    }
    if same_ignoring_ascii_case(name, "iso-2022-jp-3"@) {
        lemma_not_same_through(name, "iso-2022-jp-3"@, "x-windows-949"@, 0);
    }
    if same_ignoring_ascii_case(name, "iso-2022-jp-2004"@) {
    }
    if same_ignoring_ascii_case(name, "iso-2022-jp-ms"@) {
    }
}

} // verus!
