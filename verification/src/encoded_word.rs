//! RFC 2047 encoded-word runs, rewritten before the header block is parsed.
//!
//! A header parser that decodes each `=?charset?B|Q?…?=` word on its own
//! turns a UTF-8 character folded across two adjacent Base64 words into two
//! U+FFFD. So adjacent words of one charset have their octets concatenated
//! first and are written back as one word. ISO-2022-JP is the other way
//! around: a Japanese mailer folds on a character boundary and wraps each
//! fragment in its own `ESC $ B … ESC ( B`, and concatenating those payloads
//! would put an empty ASCII stretch between escapes, which the WHATWG
//! decoder marks with U+FFFD at every join. Those runs are decoded fragment
//! by fragment and written back as one UTF-8 word; a fold that really splits
//! a JIS character (the next fragment has no designation) is still joined
//! first. Words in a charset the Encoding Standard refuses are decoded here
//! and written back as UTF-8, even alone.

use vstd::prelude::*;
use std::borrow::Cow;
use crate::base64_text::{
    base64_text, decode_indifferent, encode_standard, indifferent_base64_decoded,
};
use crate::legacy_cjk;
use crate::legacy_cjk::{is_refused_name, refused_label_name, refused_text};
use crate::tables::{Table, table_decode, table_input_fits, table_text};
use crate::text::{
    at3, at4, bytes_equal_ignoring_ascii_case, extend_bytes, latin1, opens_with, same_ignoring_ascii_case,
    utf8_str,
};

verus! {

/// Where one encoded word stands in the header bytes: the whole word
/// `[start, end)`, its charset `[charset_start, charset_end)`, its encoding
/// letter in upper case, and its payload `[payload_start, payload_end)`.
#[derive(Clone, Copy, PartialEq, Eq, Structural)]
pub struct ParsedWord {
    pub start: usize,
    pub end: usize,
    pub charset_start: usize,
    pub charset_end: usize,
    pub encoding: u8,
    pub payload_start: usize,
    pub payload_end: usize,
}

/// Folding white space.
pub open spec fn is_fws_byte(b: u8) -> bool {
    b == 0x20 || b == 0x09 || b == 0x0D || b == 0x0A
}

pub open spec fn ascii_upper_byte(b: u8) -> u8 {
    if 0x61 <= b <= 0x7A {
        (b - 32) as u8
    } else {
        b
    }
}

/// The first `?` at or after `from`.
pub open spec fn find_question(s: Seq<u8>, from: int) -> Option<int>
    decreases s.len() - from,
{
    if from < 0 || from >= s.len() {
        None
    } else if s[from] == 0x3F {
        Some(from)
    } else {
        find_question(s, from + 1)
    }
}

/// The first `?=` that starts at or after `from`.
pub open spec fn find_close(s: Seq<u8>, from: int) -> Option<int>
    decreases s.len() - from,
{
    if from < 0 || from + 1 >= s.len() {
        None
    } else if s[from] == 0x3F && s[from + 1] == 0x3D {
        Some(from)
    } else {
        find_close(s, from + 1)
    }
}

/// The encoded word that starts at `at`, if one does: `=?`, a non-empty
/// charset running to the next `?`, `B` or `Q` in either case, `?`, and a
/// payload running to the first `?=` after it.
pub open spec fn word_at(s: Seq<u8>, at: int) -> Option<ParsedWord> {
    if s.len() > usize::MAX || at < 0 || at + 2 > s.len() || s[at] != 0x3D || s[at + 1] != 0x3F {
        None
    } else {
        match find_question(s, at + 2) {
            None => None,
            Some(q) => {
                if q == at + 2 || q + 1 >= s.len() {
                    None
                } else if ascii_upper_byte(s[q + 1]) != 0x42 && ascii_upper_byte(s[q + 1]) != 0x51 {
                    None
                } else if q + 2 >= s.len() || s[q + 2] != 0x3F {
                    None
                } else {
                    match find_close(s, q + 3) {
                        None => None,
                        Some(c) => Some(
                            ParsedWord {
                                start: at as usize,
                                end: (c + 2) as usize,
                                charset_start: (at + 2) as usize,
                                charset_end: q as usize,
                                encoding: ascii_upper_byte(s[q + 1]),
                                payload_start: (q + 3) as usize,
                                payload_end: c as usize,
                            },
                        ),
                    }
                }
            },
        }
    }
}

/// A word's parts lie in order inside the bytes.
pub open spec fn well_placed(s: Seq<u8>, w: ParsedWord) -> bool {
    &&& w.start + 2 == w.charset_start
    &&& w.charset_start < w.charset_end
    &&& w.charset_end + 3 == w.payload_start
    &&& w.payload_start <= w.payload_end
    &&& w.payload_end + 2 == w.end
    &&& w.end <= s.len()
    &&& w.encoding == 0x42 || w.encoding == 0x51
}

pub proof fn lemma_find_question(s: Seq<u8>, from: int)
    ensures
        find_question(s, from) matches Some(q) ==> from <= q < s.len() && s[q] == 0x3F,
        find_question(s, from) matches Some(q) ==> forall|j: int| from <= j < q ==> s[j] != 0x3F,
    decreases s.len() - from,
{
    if from >= 0 && from < s.len() && s[from] != 0x3F {
        lemma_find_question(s, from + 1);
    }
}

proof fn lemma_find_question_at(s: Seq<u8>, from: int, q: int)
    requires
        0 <= from <= q < s.len(),
        s[q] == 0x3F,
        forall|j: int| from <= j < q ==> s[j] != 0x3F,
    ensures
        find_question(s, from) == Some(q),
    decreases q - from,
{
    if from < q {
        lemma_find_question_at(s, from + 1, q);
    }
}

pub proof fn lemma_find_close(s: Seq<u8>, from: int)
    ensures
        find_close(s, from) matches Some(c) ==> from <= c && c + 1 < s.len(),
        find_close(s, from) matches Some(c) ==> s[c] == 0x3F && s[c + 1] == 0x3D,
        find_close(s, from) matches Some(c) ==> forall|j: int|
            from <= j < c ==> !(#[trigger] s[j] == 0x3F && s[j + 1] == 0x3D),
    decreases s.len() - from,
{
    if from >= 0 && from + 1 < s.len() && !(s[from] == 0x3F && s[from + 1] == 0x3D) {
        lemma_find_close(s, from + 1);
    }
}

proof fn lemma_find_close_at(s: Seq<u8>, from: int, c: int)
    requires
        0 <= from <= c,
        c + 1 < s.len(),
        s[c] == 0x3F && s[c + 1] == 0x3D,
        forall|j: int| from <= j < c ==> !(#[trigger] s[j] == 0x3F && s[j + 1] == 0x3D),
    ensures
        find_close(s, from) == Some(c),
    decreases c - from,
{
    if from < c {
        lemma_find_close_at(s, from + 1, c);
    }
}

/// `=?C?E?P?=` starts at `at`, with a charset `C` of `cl` bytes, none of
/// them `?`, an encoding letter `E` that is `B` or `Q` in either case, and
/// a payload `P` of `pl` bytes in which no `?=` starts: the shortest
/// payload that closes.
pub open spec fn encoded_word_shape(s: Seq<u8>, at: int, cl: int, pl: int) -> bool {
    &&& 0 <= at
    &&& 1 <= cl
    &&& 0 <= pl
    &&& at + cl + pl + 7 <= s.len()
    &&& s[at] == 0x3D && s[at + 1] == 0x3F
    &&& forall|j: int| at + 2 <= j < at + 2 + cl ==> s[j] != 0x3F
    &&& s[at + 2 + cl] == 0x3F
    &&& (ascii_upper_byte(s[at + 3 + cl]) == 0x42 || ascii_upper_byte(s[at + 3 + cl]) == 0x51)
    &&& s[at + 4 + cl] == 0x3F
    &&& forall|j: int| at + 5 + cl <= j < at + 5 + cl + pl ==> !(#[trigger] s[j] == 0x3F && s[j + 1] == 0x3D)
    &&& s[at + 5 + cl + pl] == 0x3F && s[at + 6 + cl + pl] == 0x3D
}

/// The word such a shape stands for: it ends `cl + pl + 7` bytes after
/// `at`, and its letter is kept in upper case.
pub open spec fn shaped_word(s: Seq<u8>, at: int, cl: int, pl: int) -> ParsedWord {
    ParsedWord {
        start: at as usize,
        end: (at + cl + pl + 7) as usize,
        charset_start: (at + 2) as usize,
        charset_end: (at + 2 + cl) as usize,
        encoding: ascii_upper_byte(s[at + 3 + cl]),
        payload_start: (at + 5 + cl) as usize,
        payload_end: (at + 5 + cl + pl) as usize,
    }
}

/// An encoded word is read at `at` exactly when one starts there: every
/// word read has the shape `=?C?E?P?=` with the shortest payload, and every
/// such shape is read as the word it stands for.
pub proof fn law_word_at_reads_exactly_the_encoded_words(s: Seq<u8>, at: int, cl: int, pl: int)
    requires
        s.len() <= usize::MAX,
    ensures
        word_at(s, at) matches Some(w) ==> encoded_word_shape(
            s,
            at,
            w.charset_end - w.charset_start,
            w.payload_end - w.payload_start,
        ) && w == shaped_word(s, at, w.charset_end - w.charset_start, w.payload_end - w.payload_start),
        encoded_word_shape(s, at, cl, pl) ==> word_at(s, at) == Some(shaped_word(s, at, cl, pl)),
{
    lemma_word_at_placed(s, at);
    if at >= 0 && at + 2 <= s.len() {
        lemma_find_question(s, at + 2);
        if let Some(q) = find_question(s, at + 2) {
            lemma_find_close(s, q + 3);
        }
    }
    if encoded_word_shape(s, at, cl, pl) {
        lemma_find_question_at(s, at + 2, at + 2 + cl);
        lemma_find_close_at(s, at + 5 + cl, at + 5 + cl + pl);
    }
}

pub proof fn lemma_word_at_placed(s: Seq<u8>, at: int)
    ensures
        word_at(s, at) matches Some(w) ==> well_placed(s, w) && w.start == at,
{
    if at >= 0 && at + 2 <= s.len() {
        lemma_find_question(s, at + 2);
        if let Some(q) = find_question(s, at + 2) {
            lemma_find_close(s, q + 3);
        }
    }
}

fn upper_byte(b: u8) -> (r: u8)
    ensures
        r == ascii_upper_byte(b),
{
    if 0x61 <= b && b <= 0x7A {
        b - 32
    } else {
        b
    }
}

/// Reads the encoded word that starts at `at`, if one does.
pub fn try_parse_encoded_word(data: &[u8], at: usize) -> (r: Option<ParsedWord>)
    ensures
        r == word_at(data@, at as int),
{
    let len = data.len();
    if at > len || len - at < 2 || data[at] != 0x3D || data[at + 1] != 0x3F {
        return None;
    }
    let mut i = at + 2;
    let charset_start = i;
    while i < len && data[i] != 0x3F
        invariant
            len == data@.len(),
            at + 2 <= i <= len,
            find_question(data@, at + 2) == find_question(data@, i as int),
        decreases len - i,
    {
        i = i + 1;
    }
    if i >= len {
        return None;
    }
    if i == charset_start {
        return None;
    }
    let q = i;
    assert(find_question(data@, q as int) == Some(q as int));
    i = i + 1;
    if i >= len {
        return None;
    }
    let encoding = upper_byte(data[i]);
    if encoding != 0x42 && encoding != 0x51 {
        return None;
    }
    i = i + 1;
    if i >= len || data[i] != 0x3F {
        return None;
    }
    i = i + 1;
    let payload_start = i;
    while i < len && len - i >= 2
        invariant
            len == data@.len(),
            payload_start <= i <= len,
            payload_start == q + 3,
            find_close(data@, q + 3) == find_close(data@, i as int),
            at + 2 < q,
            q + 2 < len,
            charset_start == at + 2,
            data@[at as int] == 0x3D,
            data@[at + 1] == 0x3F,
            data@[q + 2] == 0x3F,
            encoding == ascii_upper_byte(data@[q + 1]),
            encoding == 0x42 || encoding == 0x51,
            find_question(data@, at + 2) == Some(q as int),
        decreases len - i,
    {
        if data[i] == 0x3F && data[i + 1] == 0x3D {
            assert(find_close(data@, i as int) == Some(i as int));
            return Some(
                ParsedWord {
                    start: at,
                    end: i + 2,
                    charset_start,
                    charset_end: q,
                    encoding,
                    payload_start,
                    payload_end: i,
                },
            );
        }
        i = i + 1;
    }
    None
}

pub open spec fn hex_digit(b: u8) -> Option<u8> {
    if 0x30 <= b <= 0x39 {
        Some((b - 0x30) as u8)
    } else if 0x61 <= b <= 0x66 {
        Some((b - 0x61 + 10) as u8)
    } else if 0x41 <= b <= 0x46 {
        Some((b - 0x41 + 10) as u8)
    } else {
        None
    }
}

pub open spec fn prepend_bytes(head: Seq<u8>, rest: Option<Seq<u8>>) -> Option<Seq<u8>> {
    match rest {
        Some(r) => Some(head + r),
        None => None,
    }
}

/// The octets of a `Q` payload: `_` is a space, `=XY` is the byte with
/// those hex digits (an `=` without two following bytes, or with a digit
/// that is not hex, makes the payload invalid), anything else is itself.
pub open spec fn q_decoded(p: Seq<u8>) -> Option<Seq<u8>>
    decreases p.len(),
{
    if p.len() == 0 {
        Some(Seq::empty())
    } else if p[0] == 0x5F {
        prepend_bytes(seq![0x20u8], q_decoded(p.drop_first()))
    } else if p[0] == 0x3D {
        if 2 < p.len() {
            match (hex_digit(p[1]), hex_digit(p[2])) {
                (Some(hi), Some(lo)) => prepend_bytes(
                    seq![(hi * 16 + lo) as u8],
                    q_decoded(p.skip(3)),
                ),
                _ => None,
            }
        } else {
            None
        }
    } else {
        prepend_bytes(seq![p[0]], q_decoded(p.drop_first()))
    }
}

fn hex_val(b: u8) -> (r: Option<u8>)
    ensures
        r == hex_digit(b),
        r matches Some(v) ==> v < 16,
{
    if 0x30 <= b && b <= 0x39 {
        Some(b - 0x30)
    } else if 0x61 <= b && b <= 0x66 {
        Some(b - 0x61 + 10)
    } else if 0x41 <= b && b <= 0x46 {
        Some(b - 0x41 + 10)
    } else {
        None
    }
}

pub proof fn lemma_q_decoded_len(p: Seq<u8>)
    ensures
        q_decoded(p) matches Some(r) ==> r.len() <= p.len(),
    decreases p.len(),
{
    if p.len() > 0 {
        lemma_q_decoded_len(p.drop_first());
        if p.len() > 2 {
            lemma_q_decoded_len(p.skip(3));
        }
    }
}

fn decode_q_payload(payload: &[u8]) -> (r: Option<Vec<u8>>)
    ensures
        r is Some <==> q_decoded(payload@) is Some,
        r matches Some(v) ==> Some(v@) == q_decoded(payload@),
{
    let mut out: Vec<u8> = Vec::new();
    let mut i: usize = 0;
    let n = payload.len();
    assert(payload@.skip(0) =~= payload@);
    while i < n
        invariant
            n == payload@.len(),
            i <= n,
            q_decoded(payload@) == prepend_bytes(out@, q_decoded(payload@.skip(i as int))),
        decreases n - i,
    {
        let ghost p = payload@.skip(i as int);
        let ghost o = out@;
        assert(p.drop_first() =~= payload@.skip(i + 1));
        let b = payload[i];
        if b == 0x5F {
            out.push(0x20);
            i = i + 1;
        } else if b == 0x3D && n - i > 2 {
            assert(p.skip(3) =~= payload@.skip(i + 3));
            let hi = match hex_val(payload[i + 1]) {
                Some(v) => v,
                None => return None,
            };
            let lo = match hex_val(payload[i + 2]) {
                Some(v) => v,
                None => return None,
            };
            out.push(hi * 16 + lo);
            i = i + 3;
        } else if b == 0x3D {
            return None;
        } else {
            out.push(b);
            i = i + 1;
        }
        assert(prepend_bytes(out@, q_decoded(payload@.skip(i as int))) =~= prepend_bytes(
            o,
            q_decoded(p),
        )) by {
            match q_decoded(payload@.skip(i as int)) {
                Some(r) => {
                    assert(out@ + r =~= o + (out@.skip(o.len() as int) + r));
                },
                None => {},
            }
        }
    }
    assert(prepend_bytes(out@, q_decoded(payload@.skip(n as int))) =~= Some(out@)) by {
        assert(payload@.skip(n as int) =~= Seq::<u8>::empty());
        assert(out@ + Seq::<u8>::empty() =~= out@);
    }
    Some(out)
}

/// The charset bytes of a word.
pub open spec fn charset_of(s: Seq<u8>, w: ParsedWord) -> Seq<u8> {
    s.subrange(w.charset_start as int, w.charset_end as int)
}

/// The charset name without its RFC 2231 language tag (what precedes `*`).
pub open spec fn token_bytes(c: Seq<u8>) -> Seq<u8>
    decreases c.len(),
{
    if c.len() == 0 {
        c
    } else if c[0] == 0x2A {
        Seq::empty()
    } else {
        seq![c[0]] + token_bytes(c.drop_first())
    }
}

/// Two charsets name the same thing: their tokens agree ignoring ASCII case.
pub open spec fn same_charset(a: Seq<u8>, b: Seq<u8>) -> bool {
    same_ignoring_ascii_case(latin1(token_bytes(a)), latin1(token_bytes(b)))
}

/// The ISO-2022-JP family: the base encoding and the extensions mailers
/// label their JIS words with.
pub open spec fn is_jp_family(charset: Seq<u8>) -> bool {
    let t = latin1(token_bytes(charset));
    ||| same_ignoring_ascii_case(t, "ISO-2022-JP"@)
    ||| same_ignoring_ascii_case(t, "ISO-2022-JP-1"@)
    ||| same_ignoring_ascii_case(t, "ISO-2022-JP-2"@)
    ||| same_ignoring_ascii_case(t, "ISO-2022-JP-3"@)
    ||| same_ignoring_ascii_case(t, "ISO-2022-JP-2004"@)
    ||| same_ignoring_ascii_case(t, "ISO-2022-JP-MS"@)
    ||| same_ignoring_ascii_case(t, "CSISO2022JP"@)
    ||| same_ignoring_ascii_case(t, "ISO2022-JP"@)
    ||| same_ignoring_ascii_case(t, "ISO2022JP"@)
}

/// Where the token of `data[lo..hi]` ends.
fn charset_token(data: &[u8], lo: usize, hi: usize) -> (r: usize)
    requires
        lo <= hi <= data@.len(),
    ensures
        lo <= r <= hi,
        data@.subrange(lo as int, r as int) == token_bytes(data@.subrange(lo as int, hi as int)),
{
    let mut i = lo;
    while i < hi && data[i] != 0x2A
        invariant
            lo <= i <= hi <= data@.len(),
            token_bytes(data@.subrange(lo as int, hi as int)) == data@.subrange(lo as int, i as int)
                + token_bytes(data@.subrange(i as int, hi as int)),
        decreases hi - i,
    {
        assert(data@.subrange(i as int, hi as int).drop_first() =~= data@.subrange(i + 1, hi as int));
        assert(data@.subrange(lo as int, i + 1) =~= data@.subrange(lo as int, i as int) + seq![
            data@[i as int],
        ]);
        i = i + 1;
    }
    assert(data@.subrange(lo as int, i as int) + token_bytes(data@.subrange(i as int, hi as int))
        =~= data@.subrange(lo as int, i as int));
    i
}

/// Whether the two byte ranges agree ignoring ASCII case.
fn ranges_equal_ignoring_case(data: &[u8], a_lo: usize, a_hi: usize, b_lo: usize, b_hi: usize) -> (r:
    bool)
    requires
        a_lo <= a_hi <= data@.len(),
        b_lo <= b_hi <= data@.len(),
    ensures
        r == same_ignoring_ascii_case(
            latin1(data@.subrange(a_lo as int, a_hi as int)),
            latin1(data@.subrange(b_lo as int, b_hi as int)),
        ),
{
    let ghost la = latin1(data@.subrange(a_lo as int, a_hi as int));
    let ghost lb = latin1(data@.subrange(b_lo as int, b_hi as int));
    if a_hi - a_lo != b_hi - b_lo {
        return false;
    }
    let n = a_hi - a_lo;
    let mut i: usize = 0;
    while i < n
        invariant
            a_lo <= a_hi <= data@.len(),
            b_lo <= b_hi <= data@.len(),
            n == a_hi - a_lo,
            n == b_hi - b_lo,
            la == latin1(data@.subrange(a_lo as int, a_hi as int)),
            lb == latin1(data@.subrange(b_lo as int, b_hi as int)),
            i <= n,
            forall|j: int|
                0 <= j < i ==> #[trigger] crate::text::ascii_lower(la[j]) == crate::text::ascii_lower(
                    lb[j],
                ),
        decreases n - i,
    {
        let x = data[a_lo + i] as char;
        let y = data[b_lo + i] as char;
        assert(x == la[i as int] && y == lb[i as int]);
        if crate::text::to_ascii_lower(x) != crate::text::to_ascii_lower(y) {
            return false;
        }
        i = i + 1;
    }
    true
}

/// Whether two words name the same charset.
fn charset_eq(data: &[u8], a: &ParsedWord, b: &ParsedWord) -> (r: bool)
    requires
        well_placed(data@, *a),
        well_placed(data@, *b),
    ensures
        r == same_charset(charset_of(data@, *a), charset_of(data@, *b)),
{
    let ae = charset_token(data, a.charset_start, a.charset_end);
    let be = charset_token(data, b.charset_start, b.charset_end);
    ranges_equal_ignoring_case(data, a.charset_start, ae, b.charset_start, be)
}

fn is_iso2022_jp_family(data: &[u8], w: &ParsedWord) -> (r: bool)
    requires
        well_placed(data@, *w),
    ensures
        r == is_jp_family(charset_of(data@, *w)),
{
    let lo = w.charset_start;
    let hi = charset_token(data, lo, w.charset_end);
    bytes_equal_ignoring_ascii_case(data, lo, hi, "ISO-2022-JP") || bytes_equal_ignoring_ascii_case(
        data,
        lo,
        hi,
        "ISO-2022-JP-1",
    ) || bytes_equal_ignoring_ascii_case(data, lo, hi, "ISO-2022-JP-2")
        || bytes_equal_ignoring_ascii_case(data, lo, hi, "ISO-2022-JP-3")
        || bytes_equal_ignoring_ascii_case(data, lo, hi, "ISO-2022-JP-2004")
        || bytes_equal_ignoring_ascii_case(data, lo, hi, "ISO-2022-JP-MS")
        || bytes_equal_ignoring_ascii_case(data, lo, hi, "CSISO2022JP")
        || bytes_equal_ignoring_ascii_case(data, lo, hi, "ISO2022-JP")
        || bytes_equal_ignoring_ascii_case(data, lo, hi, "ISO2022JP")
}

/// The ISO-2022-JP state a stretch of bytes is in after its escapes.
#[derive(Clone, Copy, PartialEq, Eq, Structural)]
pub enum Iso2022State {
    Ascii,
    Roman,
    Kana,
    Jis,
}

/// The state after reading `s` from `state`: `ESC $ B`, `ESC $ @`,
/// `ESC $ A` and `ESC $ ( D|O|P` enter a double-byte set, `ESC ( B` ASCII,
/// `ESC ( J` and `ESC ( H` JIS-Roman, `ESC ( I` katakana; every other byte
/// leaves the state as it is.
pub open spec fn jp_state_after(s: Seq<u8>, state: Iso2022State) -> Iso2022State
    decreases s.len(),
{
    if s.len() == 0 {
        state
    } else if s[0] != 0x1B {
        jp_state_after(s.drop_first(), state)
    } else if opens_with(s, seq![0x1Bu8, 0x24, 0x42]) || opens_with(s, seq![0x1Bu8, 0x24, 0x40])
        || opens_with(s, seq![0x1Bu8, 0x24, 0x41]) {
        jp_state_after(s.skip(3), Iso2022State::Jis)
    } else if opens_with(s, seq![0x1Bu8, 0x24, 0x28, 0x44]) || opens_with(
        s,
        seq![0x1Bu8, 0x24, 0x28, 0x4F],
    ) || opens_with(s, seq![0x1Bu8, 0x24, 0x28, 0x50]) {
        jp_state_after(s.skip(4), Iso2022State::Jis)
    } else if opens_with(s, seq![0x1Bu8, 0x28, 0x42]) {
        jp_state_after(s.skip(3), Iso2022State::Ascii)
    } else if opens_with(s, seq![0x1Bu8, 0x28, 0x4A]) || opens_with(s, seq![0x1Bu8, 0x28, 0x48]) {
        jp_state_after(s.skip(3), Iso2022State::Roman)
    } else if opens_with(s, seq![0x1Bu8, 0x28, 0x49]) {
        jp_state_after(s.skip(3), Iso2022State::Kana)
    } else {
        jp_state_after(s.drop_first(), state)
    }
}

fn iso2022_end_state(data: &[u8]) -> (r: Iso2022State)
    ensures
        r == jp_state_after(data@, Iso2022State::Ascii),
{
    let mut i: usize = 0;
    let mut state = Iso2022State::Ascii;
    let n = data.len();
    assert(data@.skip(0) =~= data@);
    while i < n
        invariant
            n == data@.len(),
            i <= n,
            jp_state_after(data@.skip(i as int), state) == jp_state_after(
                data@,
                Iso2022State::Ascii,
            ),
        decreases n - i,
    {
        let ghost s = data@.skip(i as int);
        assert(s.drop_first() =~= data@.skip(i + 1));
        proof {
            if i + 3 <= n {
                assert(s.skip(3) =~= data@.skip(i + 3));
            }
            if i + 4 <= n {
                assert(s.skip(4) =~= data@.skip(i + 4));
            }
        }
        if data[i] != 0x1B {
            i = i + 1;
        } else if at3(data, i, 0x1B, 0x24, 0x42) || at3(data, i, 0x1B, 0x24, 0x40) || at3(
            data,
            i,
            0x1B,
            0x24,
            0x41,
        ) {
            state = Iso2022State::Jis;
            i = i + 3;
        } else if at4(data, i, 0x1B, 0x24, 0x28, 0x44) || at4(data, i, 0x1B, 0x24, 0x28, 0x4F)
            || at4(data, i, 0x1B, 0x24, 0x28, 0x50) {
            state = Iso2022State::Jis;
            i = i + 4;
        } else if at3(data, i, 0x1B, 0x28, 0x42) {
            state = Iso2022State::Ascii;
            i = i + 3;
        } else if at3(data, i, 0x1B, 0x28, 0x4A) || at3(data, i, 0x1B, 0x28, 0x48) {
            state = Iso2022State::Roman;
            i = i + 3;
        } else if at3(data, i, 0x1B, 0x28, 0x49) {
            state = Iso2022State::Kana;
            i = i + 3;
        } else {
            i = i + 1;
        }
    }
    state
}

/// A fragment ends its group when the group so far is not left in a
/// double-byte set and the fragment opens with its own escape.
pub open spec fn jp_cut(prev: Seq<u8>, next: Seq<u8>) -> bool {
    jp_state_after(prev, Iso2022State::Ascii) != Iso2022State::Jis && next.len() > 0 && next[0]
        == 0x1B
}

fn iso2022_should_cut(prev: &[u8], next: &[u8]) -> (r: bool)
    ensures
        r == jp_cut(prev@, next@),
{
    iso2022_end_state(prev) != Iso2022State::Jis && next.len() > 0 && next[0] == 0x1B
}

/// The octets a word carries: base64 for `B`, quoted-printable-like for `Q`.
pub open spec fn word_payload(s: Seq<u8>, w: ParsedWord) -> Option<Seq<u8>> {
    let p = s.subrange(w.payload_start as int, w.payload_end as int);
    if w.encoding == 0x42 {
        indifferent_base64_decoded(p)
    } else if w.encoding == 0x51 {
        q_decoded(p)
    } else {
        None
    }
}

fn decode_word_payload(data: &[u8], w: &ParsedWord) -> (r: Option<Vec<u8>>)
    requires
        well_placed(data@, *w),
    ensures
        r is Some <==> word_payload(data@, *w) is Some,
        r matches Some(v) ==> Some(v@) == word_payload(data@, *w) && v@.len() <= w.end - w.start,
{
    let payload = &data[w.payload_start..w.payload_end];
    if w.encoding == 0x42 {
        decode_indifferent(payload)
    } else if w.encoding == 0x51 {
        proof {
            lemma_q_decoded_len(payload@);
        }
        decode_q_payload(payload)
    } else {
        None
    }
}

/// One UTF-8 `B` word carrying the text.
pub open spec fn utf8_word(text: Seq<char>) -> Seq<u8> {
    vstd::utf8::encode_utf8("=?UTF-8?B?"@) + base64_text(vstd::utf8::encode_utf8(text))
        + vstd::utf8::encode_utf8("?="@)
}

fn utf8_encoded_word(text: &String) -> (r: Vec<u8>)
    ensures
        r@ == utf8_word(text@),
{
    let b64 = encode_standard(text.as_str().as_bytes());
    let mut out: Vec<u8> = Vec::new();
    extend_bytes(&mut out, "=?UTF-8?B?".as_bytes());
    extend_bytes(&mut out, b64.as_slice());
    extend_bytes(&mut out, "?=".as_bytes());
    assert(out@ =~= utf8_word(text@));
    out
}

/// The words of a run lie in order, each inside the bytes.
pub open spec fn ordered_run(s: Seq<u8>, ws: Seq<ParsedWord>) -> bool {
    &&& forall|k: int| 0 <= k < ws.len() ==> well_placed(s, #[trigger] ws[k])
    &&& forall|j: int, k: int|
        #![trigger ws[j], ws[k]]
        0 <= j < k < ws.len() ==> ws[j].end <= ws[k].start
}

/// The octets of every word of a run, or `None` when one cannot be decoded.
pub open spec fn word_payloads(s: Seq<u8>, ws: Seq<ParsedWord>) -> Option<Seq<Seq<u8>>>
    decreases ws.len(),
{
    if ws.len() == 0 {
        Some(Seq::empty())
    } else {
        match word_payload(s, ws[0]) {
            None => None,
            Some(p) => match word_payloads(s, ws.drop_first()) {
                None => None,
                Some(r) => Some(seq![p] + r),
            },
        }
    }
}

pub open spec fn prepend_payloads(head: Seq<Seq<u8>>, rest: Option<Seq<Seq<u8>>>) -> Option<
    Seq<Seq<u8>>,
> {
    match rest {
        Some(r) => Some(head + r),
        None => None,
    }
}

/// All the octets, in order.
pub open spec fn joined(ps: Seq<Seq<u8>>) -> Seq<u8>
    decreases ps.len(),
{
    if ps.len() == 0 {
        Seq::empty()
    } else {
        joined(ps.drop_last()) + ps.last()
    }
}

/// ISO-2022-JP fragments grouped for decoding: a fragment joins the group
/// before it unless `jp_cut` says it starts a new one.
pub open spec fn jp_groups(ps: Seq<Seq<u8>>) -> Seq<Seq<u8>>
    decreases ps.len(),
{
    if ps.len() == 0 {
        Seq::empty()
    } else {
        let g = jp_groups(ps.drop_last());
        let x = ps.last();
        if g.len() > 0 && !jp_cut(g.last(), x) {
            g.update(g.len() - 1, g.last() + x)
        } else {
            g.push(x)
        }
    }
}

/// Each group decoded with the ISO-2022-JP table, the texts joined.
pub open spec fn groups_text(gs: Seq<Seq<u8>>) -> Seq<char>
    decreases gs.len(),
{
    if gs.len() == 0 {
        Seq::empty()
    } else {
        groups_text(gs.drop_last()) + table_text(Table::Iso2022Jp, gs.last())
    }
}

pub open spec fn jp_merged(s: Seq<u8>, ws: Seq<ParsedWord>) -> Option<Seq<u8>> {
    match word_payloads(s, ws) {
        None => None,
        Some(ps) => Some(utf8_word(groups_text(jp_groups(ps)))),
    }
}

/// The run's octets joined and written back as one `B` word in the first
/// word's charset.
pub open spec fn stateless_merged(s: Seq<u8>, ws: Seq<ParsedWord>) -> Option<Seq<u8>> {
    match word_payloads(s, ws) {
        None => None,
        Some(ps) => Some(
            vstd::utf8::encode_utf8("=?"@) + charset_of(s, ws[0]) + vstd::utf8::encode_utf8("?B?"@)
                + base64_text(joined(ps)) + vstd::utf8::encode_utf8("?="@),
        ),
    }
}

/// What a run of adjacent words of one charset is rewritten to.
pub open spec fn merged_run(s: Seq<u8>, ws: Seq<ParsedWord>) -> Option<Seq<u8>> {
    if ws.len() == 0 {
        None
    } else if is_jp_family(charset_of(s, ws[0])) {
        jp_merged(s, ws)
    } else {
        stateless_merged(s, ws)
    }
}

proof fn lemma_payloads_step(s: Seq<u8>, ws: Seq<ParsedWord>, i: int, p: Seq<u8>)
    requires
        0 <= i < ws.len(),
        word_payload(s, ws[i]) == Some(p),
    ensures
        prepend_payloads(Seq::empty(), word_payloads(s, ws.skip(i))) == prepend_payloads(
            seq![p],
            word_payloads(s, ws.skip(i + 1)),
        ),
{
    assert(ws.skip(i).drop_first() =~= ws.skip(i + 1));
    assert(ws.skip(i)[0] == ws[i]);
    match word_payloads(s, ws.skip(i + 1)) {
        Some(r) => {
            assert(Seq::<Seq<u8>>::empty() + (seq![p] + r) =~= seq![p] + r);
        },
        None => {},
    }
}

proof fn lemma_jp_groups_step(prev: Seq<Seq<u8>>, done: Seq<Seq<u8>>, cur: Seq<u8>, p: Seq<u8>)
    requires
        prev.len() > 0 ==> jp_groups(prev) == done.push(cur),
        prev.len() == 0 ==> jp_groups(prev) == done && done.len() == 0,
    ensures
        prev.len() > 0 && !jp_cut(cur, p) ==> jp_groups(prev.push(p)) == done.push(cur + p),
        prev.len() > 0 && jp_cut(cur, p) ==> jp_groups(prev.push(p)) == done.push(cur).push(p),
        prev.len() == 0 ==> jp_groups(prev.push(p)) == done.push(p),
{
    assert(prev.push(p).drop_last() =~= prev);
    assert(prev.push(p).last() == p);
    if prev.len() > 0 && !jp_cut(cur, p) {
        assert(done.push(cur).update(done.len() as int, cur + p) =~= done.push(cur + p));
    }
}

proof fn lemma_groups_text_push(gs: Seq<Seq<u8>>, g: Seq<u8>)
    ensures
        groups_text(gs.push(g)) == groups_text(gs) + table_text(Table::Iso2022Jp, g),
{
    assert(gs.push(g).drop_last() =~= gs);
}

proof fn lemma_payloads_fail(s: Seq<u8>, ws: Seq<ParsedWord>, i: int, decoded: Seq<Seq<u8>>)
    requires
        0 <= i < ws.len(),
        word_payload(s, ws[i]) is None,
        word_payloads(s, ws) == prepend_payloads(decoded, word_payloads(s, ws.skip(i))),
    ensures
        word_payloads(s, ws) is None,
{
    assert(ws.skip(i)[0] == ws[i]);
}

proof fn lemma_payloads_advance(
    s: Seq<u8>,
    ws: Seq<ParsedWord>,
    i: int,
    decoded: Seq<Seq<u8>>,
    p: Seq<u8>,
)
    requires
        0 <= i < ws.len(),
        word_payload(s, ws[i]) == Some(p),
        word_payloads(s, ws) == prepend_payloads(decoded, word_payloads(s, ws.skip(i))),
    ensures
        word_payloads(s, ws) == prepend_payloads(decoded.push(p), word_payloads(s, ws.skip(i + 1))),
{
    lemma_payloads_step(s, ws, i, p);
    assert(ws.skip(i).drop_first() =~= ws.skip(i + 1));
    match word_payloads(s, ws.skip(i + 1)) {
        Some(r) => {
            assert(decoded + (seq![p] + r) =~= decoded.push(p) + r);
        },
        None => {},
    }
}

proof fn lemma_payloads_done(s: Seq<u8>, ws: Seq<ParsedWord>, decoded: Seq<Seq<u8>>)
    requires
        word_payloads(s, ws) == prepend_payloads(decoded, word_payloads(s, ws.skip(ws.len() as int))),
    ensures
        word_payloads(s, ws) == Some(decoded),
{
    assert(ws.skip(ws.len() as int) =~= Seq::<ParsedWord>::empty());
    assert(decoded + Seq::<Seq<u8>>::empty() =~= decoded);
}

fn merge_iso2022_jp_run(data: &[u8], words: &Vec<ParsedWord>) -> (r: Option<Vec<u8>>)
    requires
        ordered_run(data@, words@),
        table_input_fits(data@.len()),
    ensures
        r is Some <==> jp_merged(data@, words@) is Some,
        r matches Some(v) ==> Some(v@) == jp_merged(data@, words@),
{
    let mut text = String::new();
    let mut current: Vec<u8> = Vec::new();
    let mut have = false;
    let ghost mut decoded: Seq<Seq<u8>> = Seq::empty();
    let ghost mut done: Seq<Seq<u8>> = Seq::empty();
    let n = words.len();
    assert(words@.skip(0) =~= words@);
    assert(Seq::<Seq<u8>>::empty() + Seq::<Seq<u8>>::empty() =~= Seq::<Seq<u8>>::empty());
    for i in 0..n
        invariant
            n == words@.len(),
            ordered_run(data@, words@),
            table_input_fits(data@.len()),
            decoded.len() == i,
            word_payloads(data@, words@) == prepend_payloads(
                decoded,
                word_payloads(data@, words@.skip(i as int)),
            ),
            have == (i > 0),
            i > 0 ==> jp_groups(decoded) == done.push(current@),
            i == 0 ==> jp_groups(decoded) == done && done.len() == 0,
            i > 0 ==> current@.len() <= words@[i - 1].end,
            text@ == groups_text(done),
    {
        let w = words[i];
        assert(well_placed(data@, w));
        let payload = match decode_word_payload(data, &w) {
            Some(p) => p,
            None => {
                proof {
                    lemma_payloads_fail(data@, words@, i as int, decoded);
                }
                return None;
            },
        };
        let ghost pv = payload@;
        proof {
            lemma_payloads_advance(data@, words@, i as int, decoded, pv);
            lemma_jp_groups_step(decoded, done, current@, pv);
            if i > 0 {
                assert(words@[i - 1].end <= words@[i as int].start);
            }
        }
        if have && !iso2022_should_cut(current.as_slice(), payload.as_slice()) {
            extend_bytes(&mut current, payload.as_slice());
        } else {
            if have {
                let piece = table_decode(Table::Iso2022Jp, current.as_slice());
                text.push_str(piece.as_str());
                proof {
                    lemma_groups_text_push(done, current@);
                    done = done.push(current@);
                }
            }
            current = payload;
            have = true;
        }
        proof {
            decoded = decoded.push(pv);
        }
    }
    if have {
        let piece = table_decode(Table::Iso2022Jp, current.as_slice());
        text.push_str(piece.as_str());
        proof {
            lemma_groups_text_push(done, current@);
            done = done.push(current@);
        }
    }
    proof {
        lemma_payloads_done(data@, words@, decoded);
    }
    Some(utf8_encoded_word(&text))
}

proof fn lemma_joined_push(ps: Seq<Seq<u8>>, p: Seq<u8>)
    ensures
        joined(ps.push(p)) == joined(ps) + p,
{
    assert(ps.push(p).drop_last() =~= ps);
}

fn merge_stateless_run(data: &[u8], words: &Vec<ParsedWord>) -> (r: Option<Vec<u8>>)
    requires
        words@.len() > 0,
        ordered_run(data@, words@),
    ensures
        r is Some <==> stateless_merged(data@, words@) is Some,
        r matches Some(v) ==> Some(v@) == stateless_merged(data@, words@),
{
    let mut merged: Vec<u8> = Vec::new();
    let ghost mut decoded: Seq<Seq<u8>> = Seq::empty();
    let n = words.len();
    assert(words@.skip(0) =~= words@);
    assert(Seq::<Seq<u8>>::empty() + Seq::<Seq<u8>>::empty() =~= Seq::<Seq<u8>>::empty());
    for i in 0..n
        invariant
            n == words@.len(),
            ordered_run(data@, words@),
            decoded.len() == i,
            word_payloads(data@, words@) == prepend_payloads(
                decoded,
                word_payloads(data@, words@.skip(i as int)),
            ),
            merged@ == joined(decoded),
    {
        let w = words[i];
        assert(well_placed(data@, w));
        let payload = match decode_word_payload(data, &w) {
            Some(p) => p,
            None => {
                proof {
                    lemma_payloads_fail(data@, words@, i as int, decoded);
                }
                return None;
            },
        };
        proof {
            lemma_payloads_advance(data@, words@, i as int, decoded, payload@);
            lemma_joined_push(decoded, payload@);
            decoded = decoded.push(payload@);
        }
        extend_bytes(&mut merged, payload.as_slice());
    }
    proof {
        lemma_payloads_done(data@, words@, decoded);
    }
    let first = words[0];
    assert(well_placed(data@, first));
    let b64 = encode_standard(merged.as_slice());
    let mut out: Vec<u8> = Vec::new();
    extend_bytes(&mut out, "=?".as_bytes());
    extend_bytes(&mut out, &data[first.charset_start..first.charset_end]);
    extend_bytes(&mut out, "?B?".as_bytes());
    extend_bytes(&mut out, b64.as_slice());
    extend_bytes(&mut out, "?=".as_bytes());
    Some(out)
}

/// What one word of a refused charset reads as: its octets through the
/// decoder for its own label, when the label is UTF-8 naming one of them.
pub open spec fn word_refused_text(s: Seq<u8>, w: ParsedWord) -> Option<Seq<char>> {
    match word_payload(s, w) {
        None => None,
        Some(p) => {
            let c = charset_of(s, w);
            if !vstd::utf8::valid_utf8(c) {
                None
            } else {
                let name = refused_label_name(vstd::utf8::decode_utf8(c));
                if is_refused_name(name) {
                    Some(refused_text(name, p))
                } else {
                    None
                }
            }
        },
    }
}

/// Every word of the run decoded on its own, the texts joined.
pub open spec fn run_refused_text(s: Seq<u8>, ws: Seq<ParsedWord>) -> Option<Seq<char>>
    decreases ws.len(),
{
    if ws.len() == 0 {
        Some(Seq::empty())
    } else {
        match word_refused_text(s, ws[0]) {
            None => None,
            Some(t) => match run_refused_text(s, ws.drop_first()) {
                None => None,
                Some(r) => Some(t + r),
            },
        }
    }
}

pub open spec fn prepend_text(head: Seq<char>, rest: Option<Seq<char>>) -> Option<Seq<char>> {
    match rest {
        Some(r) => Some(head + r),
        None => None,
    }
}

/// A run whose first word names a charset the Encoding Standard refuses,
/// decoded word by word and written back as one UTF-8 word.
pub open spec fn refused_run_rewrite(s: Seq<u8>, ws: Seq<ParsedWord>) -> Option<Seq<u8>> {
    if ws.len() == 0 {
        None
    } else {
        let c = charset_of(s, ws[0]);
        if !vstd::utf8::valid_utf8(c) || !is_refused_name(
            refused_label_name(vstd::utf8::decode_utf8(c)),
        ) {
            None
        } else {
            match run_refused_text(s, ws) {
                None => None,
                Some(t) => Some(utf8_word(t)),
            }
        }
    }
}

fn word_label<'a>(data: &'a [u8], w: &ParsedWord) -> (r: Option<&'a str>)
    requires
        well_placed(data@, *w),
    ensures
        r is Some <==> vstd::utf8::valid_utf8(charset_of(data@, *w)),
        r matches Some(l) ==> l@ == vstd::utf8::decode_utf8(charset_of(data@, *w)),
{
    let r = utf8_str(&data[w.charset_start..w.charset_end]);
    proof {
        if let Some(l) = r {
            vstd::utf8::encode_utf8_decode_utf8(l@);
        }
    }
    r
}

/// Decodes a run whose charset the Encoding Standard refuses, and writes the
/// text back as one UTF-8 word.
fn replacement_charset_run(data: &[u8], words: &Vec<ParsedWord>) -> (r: Option<Vec<u8>>)
    requires
        ordered_run(data@, words@),
        table_input_fits(data@.len()),
    ensures
        r is Some <==> refused_run_rewrite(data@, words@) is Some,
        r matches Some(v) ==> Some(v@) == refused_run_rewrite(data@, words@),
{
    if words.len() == 0 {
        return None;
    }
    let first = words[0];
    assert(well_placed(data@, first));
    let label = match word_label(data, &first) {
        Some(l) => l,
        None => return None,
    };
    if !legacy_cjk::is_replacement_charset(label) {
        return None;
    }
    let mut text = String::new();
    let n = words.len();
    assert(words@.skip(0) =~= words@);
    for i in 0..n
        invariant
            n == words@.len(),
            ordered_run(data@, words@),
            table_input_fits(data@.len()),
            run_refused_text(data@, words@) == prepend_text(
                text@,
                run_refused_text(data@, words@.skip(i as int)),
            ),
    {
        let w = words[i];
        assert(well_placed(data@, w));
        let ghost rest = words@.skip(i as int);
        assert(rest[0] == w);
        assert(rest.drop_first() =~= words@.skip(i + 1));
        let payload = match decode_word_payload(data, &w) {
            Some(p) => p,
            None => return None,
        };
        let label = match word_label(data, &w) {
            Some(l) => l,
            None => return None,
        };
        let piece = match legacy_cjk::decode(label, payload.as_slice()) {
            Some(t) => t,
            None => return None,
        };
        let ghost before = text@;
        text.push_str(piece.as_str());
        proof {
            match run_refused_text(data@, words@.skip(i + 1)) {
                Some(r) => {
                    assert(before + (piece@ + r) =~= text@ + r);
                },
                None => {},
            }
        }
    }
    proof {
        assert(words@.skip(n as int) =~= Seq::<ParsedWord>::empty());
        assert(text@ + Seq::<char>::empty() =~= text@);
    }
    Some(utf8_encoded_word(&text))
}

fn merge_run(data: &[u8], words: &Vec<ParsedWord>) -> (r: Option<Vec<u8>>)
    requires
        ordered_run(data@, words@),
        table_input_fits(data@.len()),
    ensures
        r is Some <==> merged_run(data@, words@) is Some,
        r matches Some(v) ==> Some(v@) == merged_run(data@, words@),
{
    if words.len() == 0 {
        return None;
    }
    let first = words[0];
    assert(well_placed(data@, first));
    if is_iso2022_jp_family(data, &first) {
        merge_iso2022_jp_run(data, words)
    } else {
        merge_stateless_run(data, words)
    }
}

/// The first position at or after `pos` that is not folding white space.
pub open spec fn skip_fws_from(s: Seq<u8>, pos: int) -> int
    decreases s.len() - pos,
{
    if 0 <= pos < s.len() && is_fws_byte(s[pos]) {
        skip_fws_from(s, pos + 1)
    } else {
        pos
    }
}

pub proof fn lemma_skip_fws(s: Seq<u8>, pos: int)
    ensures
        skip_fws_from(s, pos) >= pos,
        0 <= pos <= s.len() ==> skip_fws_from(s, pos) <= s.len(),
    decreases s.len() - pos,
{
    if 0 <= pos < s.len() && is_fws_byte(s[pos]) {
        lemma_skip_fws(s, pos + 1);
    }
}

/// The words that continue a run whose last word ended at `last_end`:
/// after folding white space, another encoded word of the same charset.
pub open spec fn run_after(s: Seq<u8>, first: ParsedWord, last_end: int) -> Seq<ParsedWord>
    decreases s.len() - last_end,
{
    let scan = skip_fws_from(s, last_end);
    match word_at(s, scan) {
        Some(next) => {
            if same_charset(charset_of(s, next), charset_of(s, first)) {
                proof {
                    lemma_skip_fws(s, last_end);
                    lemma_word_at_placed(s, scan);
                }
                seq![next] + run_after(s, first, next.end as int)
            } else {
                Seq::empty()
            }
        },
        None => Seq::empty(),
    }
}

proof fn lemma_skip_fws_reaches(s: Seq<u8>, from: int, to: int)
    requires
        0 <= from <= to < s.len(),
        forall|j: int| from <= j < to ==> is_fws_byte(#[trigger] s[j]),
        !is_fws_byte(s[to]),
    ensures
        skip_fws_from(s, from) == to,
    decreases to - from,
{
    if from < to {
        assert(is_fws_byte(s[from]));
        lemma_skip_fws_reaches(s, from + 1, to);
    }
}

/// Folding white space (spaces, tabs, carriage returns and line feeds)
/// between two encoded words of one charset keeps them in one run: the word
/// after the white space continues the run, and after the run's first word
/// it is the second word of the run.
pub proof fn law_folding_white_space_continues_a_run(
    s: Seq<u8>,
    first: ParsedWord,
    last_end: int,
    next_at: int,
)
    requires
        0 <= last_end <= next_at,
        forall|j: int|
            last_end <= j < next_at ==> (#[trigger] s[j] == 0x20 || s[j] == 0x09 || s[j] == 0x0D
                || s[j] == 0x0A),
        word_at(s, next_at) is Some,
        same_charset(charset_of(s, word_at(s, next_at)->0), charset_of(s, first)),
    ensures
        run_after(s, first, last_end).len() > 0,
        run_after(s, first, last_end)[0] == word_at(s, next_at)->0,
        last_end == first.end ==> word_run(s, first).len() >= 2 && word_run(s, first)[1] == word_at(
            s,
            next_at,
        )->0,
{
    lemma_word_at_placed(s, next_at);
    assert forall|j: int| last_end <= j < next_at implies is_fws_byte(#[trigger] s[j]) by {}
    assert(s[next_at] == 0x3D);
    lemma_skip_fws_reaches(s, last_end, next_at);
    let rest = run_after(s, first, last_end);
    if last_end == first.end {
        assert(word_run(s, first) == seq![first] + rest);
    }
}

/// The run an encoded word begins: it and every adjacent word of its charset.
pub open spec fn word_run(s: Seq<u8>, first: ParsedWord) -> Seq<ParsedWord> {
    seq![first] + run_after(s, first, first.end as int)
}

pub proof fn lemma_run_after(s: Seq<u8>, first: ParsedWord, last_end: int)
    ensures
        ordered_run(s, run_after(s, first, last_end)),
        forall|k: int|
            0 <= k < run_after(s, first, last_end).len() ==> #[trigger] run_after(
                s,
                first,
                last_end,
            )[k].start >= last_end,
        run_after(s, first, last_end).len() > 0 ==> run_after(s, first, last_end).last().end
            > last_end,
    decreases s.len() - last_end,
{
    let scan = skip_fws_from(s, last_end);
    lemma_skip_fws(s, last_end);
    lemma_word_at_placed(s, scan);
    if let Some(next) = word_at(s, scan) {
        if same_charset(charset_of(s, next), charset_of(s, first)) {
            let rest = run_after(s, first, next.end as int);
            lemma_run_after(s, first, next.end as int);
            let ra = run_after(s, first, last_end);
            assert(ra =~= seq![next] + rest);
            assert forall|k: int| 0 <= k < ra.len() implies well_placed(s, #[trigger] ra[k]) by {
                if k > 0 {
                    assert(ra[k] == rest[k - 1]);
                }
            }
            assert forall|j: int, k: int| 0 <= j < k < ra.len() implies ra[j].end <= ra[k].start by {
                assert(ra[k] == rest[k - 1]);
                if j > 0 {
                    assert(ra[j] == rest[j - 1]);
                }
            }
            assert forall|k: int| 0 <= k < ra.len() implies #[trigger] ra[k].start >= last_end by {
                if k > 0 {
                    assert(ra[k] == rest[k - 1]);
                }
            }
            if rest.len() > 0 {
                assert(ra.last() == rest.last());
            }
        }
    }
}

pub proof fn lemma_word_run(s: Seq<u8>, first: ParsedWord)
    requires
        well_placed(s, first),
    ensures
        ordered_run(s, word_run(s, first)),
        word_run(s, first)[0] == first,
        word_run(s, first).last().end >= first.end,
        word_run(s, first).last().end <= s.len(),
{
    let ra = run_after(s, first, first.end as int);
    lemma_run_after(s, first, first.end as int);
    let run = word_run(s, first);
    assert forall|k: int| 0 <= k < run.len() implies well_placed(s, #[trigger] run[k]) by {
        if k > 0 {
            assert(run[k] == ra[k - 1]);
        }
    }
    assert forall|j: int, k: int| 0 <= j < k < run.len() implies run[j].end <= run[k].start by {
        assert(run[k] == ra[k - 1]);
        if j > 0 {
            assert(run[j] == ra[j - 1]);
        }
    }
    if ra.len() > 0 {
        assert(run.last() == ra.last());
        assert(well_placed(s, ra[ra.len() - 1]));
    }
}

fn is_fws(b: u8) -> (r: bool)
    ensures
        r == is_fws_byte(b),
{
    b == 0x20 || b == 0x09 || b == 0x0D || b == 0x0A
}

fn skip_fws(data: &[u8], pos: usize) -> (r: usize)
    requires
        pos <= data@.len(),
    ensures
        r == skip_fws_from(data@, pos as int),
        pos <= r <= data@.len(),
{
    let mut p = pos;
    while p < data.len() && is_fws(data[p])
        invariant
            pos <= p <= data@.len(),
            skip_fws_from(data@, pos as int) == skip_fws_from(data@, p as int),
        decreases data@.len() - p,
    {
        p = p + 1;
    }
    p
}

/// The run that begins with `first`.
fn collect_run(data: &[u8], first: ParsedWord) -> (run: Vec<ParsedWord>)
    requires
        well_placed(data@, first),
    ensures
        run@ == word_run(data@, first),
{
    let mut run: Vec<ParsedWord> = Vec::new();
    run.push(first);
    let mut last_end = first.end;
    proof {
        lemma_word_run(data@, first);
        assert(word_run(data@, first) =~= run@ + run_after(data@, first, last_end as int));
    }
    loop
        invariant
            well_placed(data@, first),
            last_end <= data@.len(),
            word_run(data@, first) == run@ + run_after(data@, first, last_end as int),
        decreases data@.len() - last_end,
    {
        let scan = skip_fws(data, last_end);
        proof {
            lemma_word_at_placed(data@, scan as int);
        }
        match try_parse_encoded_word(data, scan) {
            Some(next) => {
                if charset_eq(data, &next, &first) {
                    let ghost rest = run_after(data@, first, next.end as int);
                    assert(run_after(data@, first, last_end as int) == seq![next] + rest);
                    run.push(next);
                    last_end = next.end;
                    assert(word_run(data@, first) =~= run@ + rest);
                } else {
                    assert(run_after(data@, first, last_end as int) =~= Seq::<ParsedWord>::empty());
                    assert(run@ + Seq::<ParsedWord>::empty() =~= run@);
                    return run;
                }
            },
            None => {
                assert(run_after(data@, first, last_end as int) =~= Seq::<ParsedWord>::empty());
                assert(run@ + Seq::<ParsedWord>::empty() =~= run@);
                return run;
            },
        }
    }
}

/// The header bytes from `pos` on, rewritten: each run that begins there
/// is replaced when its charset is one the Encoding Standard refuses, or
/// when it has two words or more and they merge; every other byte stays.
/// The flag says whether anything was replaced.
pub open spec fn rewrite_from(s: Seq<u8>, pos: int) -> (Seq<u8>, bool)
    decreases s.len() - pos,
{
    if pos < 0 || pos >= s.len() {
        (Seq::empty(), false)
    } else {
        match word_at(s, pos) {
            Some(first) => {
                let run = word_run(s, first);
                let span_end = run.last().end as int;
                proof {
                    lemma_word_at_placed(s, pos);
                    lemma_word_run(s, first);
                }
                let rest = rewrite_from(s, span_end);
                match refused_run_rewrite(s, run) {
                    Some(rw) => (rw + rest.0, true),
                    None => {
                        if run.len() >= 2 && merged_run(s, run) is Some {
                            (merged_run(s, run)->0 + rest.0, true)
                        } else {
                            (s.subrange(pos, span_end) + rest.0, rest.1)
                        }
                    },
                }
            },
            None => {
                let rest = rewrite_from(s, pos + 1);
                (seq![s[pos]] + rest.0, rest.1)
            },
        }
    }
}

/// Where nothing is replaced, the bytes come back as they were.
pub proof fn lemma_unchanged_rewrite_is_identity(s: Seq<u8>, pos: int)
    requires
        0 <= pos <= s.len(),
        !rewrite_from(s, pos).1,
    ensures
        rewrite_from(s, pos).0 == s.skip(pos),
    decreases s.len() - pos,
{
    if pos < s.len() {
        match word_at(s, pos) {
            Some(first) => {
                lemma_word_at_placed(s, pos);
                lemma_word_run(s, first);
                let span_end = word_run(s, first).last().end as int;
                lemma_unchanged_rewrite_is_identity(s, span_end);
                assert(s.subrange(pos, span_end) + s.skip(span_end) =~= s.skip(pos));
            },
            None => {
                lemma_unchanged_rewrite_is_identity(s, pos + 1);
                assert(seq![s[pos]] + s.skip(pos + 1) =~= s.skip(pos));
            },
        }
    } else {
        assert(s.skip(pos) =~= Seq::<u8>::empty());
    }
}

/// The run that begins at `pos` and what it is rewritten to, if anything.
fn rewrite_run_at(headers: &[u8], first: ParsedWord) -> (r: (Option<Vec<u8>>, usize))
    requires
        table_input_fits(headers@.len()),
        word_at(headers@, first.start as int) == Some(first),
    ensures
        first.start < r.1 <= headers@.len(),
        r.1 == word_run(headers@, first).last().end,
        r.0 matches Some(v) ==> rewrite_from(headers@, first.start as int) == (
            v@ + rewrite_from(headers@, r.1 as int).0,
            true,
        ),
        r.0 is None ==> rewrite_from(headers@, first.start as int) == (
            headers@.subrange(first.start as int, r.1 as int) + rewrite_from(
                headers@,
                r.1 as int,
            ).0,
            rewrite_from(headers@, r.1 as int).1,
        ),
{
    proof {
        lemma_word_at_placed(headers@, first.start as int);
        lemma_word_run(headers@, first);
    }
    let run = collect_run(headers, first);
    let span_end = run[run.len() - 1].end;
    match replacement_charset_run(headers, &run) {
        Some(rw) => {
            return (Some(rw), span_end);
        },
        None => {},
    }
    if run.len() >= 2 {
        match merge_run(headers, &run) {
            Some(merged) => {
                return (Some(merged), span_end);
            },
            None => {},
        }
    }
    (None, span_end)
}

/// Rewrites the runs of the header block, or says that nothing changed.
fn rewrite_header_block(headers: &[u8]) -> (r: Option<Vec<u8>>)
    requires
        table_input_fits(headers@.len()),
    ensures
        r is Some <==> rewrite_from(headers@, 0).1,
        r matches Some(v) ==> v@ == rewrite_from(headers@, 0).0,
{
    // Most messages have no run to rewrite, so the block is only copied once
    // a rewrite actually happens.
    let mut out: Vec<u8> = Vec::new();
    let mut changed = false;
    let mut pos: usize = 0;
    let len = headers.len();
    assert(headers@.take(0) =~= Seq::<u8>::empty());
    while pos < len
        invariant
            len == headers@.len(),
            table_input_fits(len as nat),
            pos <= len,
            rewrite_from(headers@, 0).0 == (if changed {
                out@
            } else {
                headers@.take(pos as int)
            }) + rewrite_from(headers@, pos as int).0,
            rewrite_from(headers@, 0).1 == (changed || rewrite_from(headers@, pos as int).1),
        decreases len - pos,
    {
        let ghost h = headers@;
        let ghost before = if changed {
            out@
        } else {
            h.take(pos as int)
        };
        let ghost was_changed = changed;
        match try_parse_encoded_word(headers, pos) {
            Some(first) => {
                proof {
                    lemma_word_at_placed(h, pos as int);
                }
                let (replacement, span_end) = rewrite_run_at(headers, first);
                let ghost rest = rewrite_from(h, span_end as int);
                match replacement {
                    Some(rw) => {
                        if !changed {
                            out = Vec::new();
                            extend_bytes(&mut out, &headers[0..pos]);
                            changed = true;
                        }
                        extend_bytes(&mut out, rw.as_slice());
                        pos = span_end;
                        assert(before + (rw@ + rest.0) =~= out@ + rest.0);
                    },
                    None => {
                        if changed {
                            extend_bytes(&mut out, &headers[pos..span_end]);
                        }
                        let ghost old_pos = pos;
                        pos = span_end;
                        proof {
                            if was_changed {
                                assert(before + (h.subrange(old_pos as int, span_end as int)
                                    + rest.0) =~= out@ + rest.0);
                            } else {
                                assert(before + (h.subrange(old_pos as int, span_end as int)
                                    + rest.0) =~= h.take(pos as int) + rest.0);
                            }
                        }
                    },
                }
            },
            None => {
                let ghost rest = rewrite_from(h, pos + 1);
                assert(rewrite_from(h, pos as int) == (seq![h[pos as int]] + rest.0, rest.1));
                if changed {
                    out.push(headers[pos]);
                }
                pos = pos + 1;
                proof {
                    if was_changed {
                        assert(before + (seq![h[pos - 1]] + rest.0) =~= out@ + rest.0);
                    } else {
                        assert(before + (seq![h[pos - 1]] + rest.0) =~= h.take(pos as int)
                            + rest.0);
                    }
                }
            },
        }
    }
    proof {
        assert(rewrite_from(headers@, pos as int).0 =~= Seq::<u8>::empty());
    }
    if changed {
        assert(out@ + Seq::<u8>::empty() =~= out@);
        Some(out)
    } else {
        None
    }
}

/// A blank line starts at `k`: `CR LF CR LF` or `LF LF` begins there.
pub open spec fn blank_at(s: Seq<u8>, k: int) -> bool {
    ||| (0 <= k && k + 4 <= s.len() && s[k] == 0x0D && s[k + 1] == 0x0A && s[k + 2] == 0x0D
        && s[k + 3] == 0x0A)
    ||| (0 <= k && k + 2 <= s.len() && s[k] == 0x0A && s[k + 1] == 0x0A)
}

/// The first blank line, in either form, at or after `from`.
pub open spec fn find_blank(s: Seq<u8>, from: int) -> Option<int>
    decreases s.len() - from,
{
    if from < 0 || from + 2 > s.len() {
        None
    } else if blank_at(s, from) {
        Some(from)
    } else {
        find_blank(s, from + 1)
    }
}

/// Where the top-level header block ends: at its first blank line,
/// whichever of the two forms comes first, else at the end of the message.
pub open spec fn header_block_len(s: Seq<u8>) -> int {
    match find_blank(s, 0) {
        Some(k) => k,
        None => s.len() as int,
    }
}

proof fn lemma_find_blank_bounds(s: Seq<u8>, from: int)
    requires
        0 <= from,
    ensures
        find_blank(s, from) matches Some(k) ==> from <= k && k + 2 <= s.len() && blank_at(s, k),
        find_blank(s, from) matches Some(k) ==> forall|j: int| from <= j < k ==> !blank_at(s, j),
        find_blank(s, from) is None ==> forall|j: int| from <= j ==> !blank_at(s, j),
    decreases s.len() - from,
{
    if from + 2 <= s.len() {
        lemma_find_blank_bounds(s, from + 1);
    }
}

/// The top-level header block ends at its first blank line: no blank line
/// starts inside it, and where it stops short of the end of the message a
/// blank line starts right there.
pub proof fn law_header_block_ends_at_first_blank_line(raw: Seq<u8>)
    ensures
        0 <= header_block_len(raw) <= raw.len(),
        forall|j: int| 0 <= j < header_block_len(raw) ==> !blank_at(raw, j),
        header_block_len(raw) < raw.len() ==> blank_at(raw, header_block_len(raw)),
        header_block_len(raw) == raw.len() ==> forall|j: int| 0 <= j ==> !blank_at(raw, j),
{
    lemma_find_blank_bounds(raw, 0);
}

fn header_body_split(raw: &[u8]) -> (r: usize)
    ensures
        r == header_block_len(raw@),
        r <= raw@.len(),
{
    proof {
        lemma_find_blank_bounds(raw@, 0);
    }
    let n = raw.len();
    let mut i: usize = 0;
    while i < n && n - i >= 2
        invariant
            n == raw@.len(),
            i <= n,
            find_blank(raw@, 0) == find_blank(raw@, i as int),
        decreases n - i,
    {
        let crlf = n - i >= 4 && raw[i] == 0x0D && raw[i + 1] == 0x0A && raw[i + 2] == 0x0D
            && raw[i + 3] == 0x0A;
        let lf = raw[i] == 0x0A && raw[i + 1] == 0x0A;
        if crlf || lf {
            return i;
        }
        i = i + 1;
    }
    n
}

/// What the message becomes: the header block with its runs rewritten and
/// the body after it byte for byte; `None` when no run was rewritten.
pub open spec fn merged_message(raw: Seq<u8>) -> Option<Seq<u8>> {
    let hl = header_block_len(raw);
    let (headers, changed) = rewrite_from(raw.take(hl), 0);
    if changed {
        Some(headers + raw.skip(hl))
    } else {
        None
    }
}

/// Rewrites the encoded-word runs of the top-level header block only; the
/// body is never touched. The input itself is handed back, uncopied, when
/// no run is rewritten.
pub fn merge_adjacent_encoded_words(raw: &[u8]) -> (r: Cow<'_, [u8]>)
    requires
        table_input_fits(raw@.len()),
    ensures
        r is Borrowed <==> merged_message(raw@) is None,
        r@ == match merged_message(raw@) {
            Some(m) => m,
            None => raw@,
        },
        r@ == rewrite_from(raw@.take(header_block_len(raw@)), 0).0 + raw@.skip(
            header_block_len(raw@),
        ),
{
    let header_len = header_body_split(raw);
    let headers = &raw[0..header_len];
    match rewrite_header_block(headers) {
        None => {
            proof {
                assert(headers@ =~= raw@.take(header_len as int));
                lemma_unchanged_rewrite_is_identity(headers@, 0);
                assert(headers@.skip(0) =~= headers@);
                assert(headers@ + raw@.skip(header_len as int) =~= raw@);
            }
            Cow::Borrowed(raw)
        },
        Some(new_headers) => {
            let mut out: Vec<u8> = Vec::new();
            extend_bytes(&mut out, new_headers.as_slice());
            extend_bytes(&mut out, &raw[header_len..raw.len()]);
            assert(headers@ =~= raw@.take(header_len as int));
            assert(raw@.subrange(header_len as int, raw@.len() as int) =~= raw@.skip(header_len as int));
            Cow::Owned(out)
        },
    }
}

/// A header stretch with no `=?` in it holds no encoded word, and nothing
/// in it is rewritten.
pub proof fn lemma_no_word_no_rewrite(s: Seq<u8>, pos: int)
    requires
        0 <= pos,
        forall|k: int| pos <= k < s.len() - 1 ==> !(#[trigger] s[k] == 0x3D && s[k + 1] == 0x3F),
    ensures
        !rewrite_from(s, pos).1,
    decreases s.len() - pos,
{
    if pos < s.len() {
        if pos + 1 < s.len() {
            assert(!(s[pos] == 0x3D && s[pos + 1] == 0x3F));
        }
        assert(word_at(s, pos) is None);
        lemma_no_word_no_rewrite(s, pos + 1);
    }
}

/// Scanning from `pos` as the rewrite does, every run found is a lone word
/// whose charset the Encoding Standard does not refuse.
pub open spec fn only_lone_plain_words(s: Seq<u8>, pos: int) -> bool
    decreases s.len() - pos,
{
    if pos < 0 || pos >= s.len() {
        true
    } else {
        match word_at(s, pos) {
            Some(first) => {
                proof {
                    lemma_word_at_placed(s, pos);
                }
                let run = word_run(s, first);
                &&& run.len() == 1
                &&& refused_run_rewrite(s, run) is None
                &&& only_lone_plain_words(s, first.end as int)
            },
            None => only_lone_plain_words(s, pos + 1),
        }
    }
}

/// Where every run the scan finds is a lone word in a charset that is not
/// refused, nothing is rewritten.
pub proof fn lemma_lone_plain_words_no_rewrite(s: Seq<u8>, pos: int)
    requires
        only_lone_plain_words(s, pos),
    ensures
        !rewrite_from(s, pos).1,
    decreases s.len() - pos,
{
    if 0 <= pos < s.len() {
        lemma_word_at_placed(s, pos);
        match word_at(s, pos) {
            Some(first) => {
                let run = word_run(s, first);
                assert(run[0] == first);
                assert(run.last() == first);
                lemma_lone_plain_words_no_rewrite(s, first.end as int);
            },
            None => {
                lemma_lone_plain_words_no_rewrite(s, pos + 1);
            },
        }
    }
}

/// A message whose header block holds only lone encoded words, none in a
/// refused charset, comes back untouched and uncopied: a lone word has
/// nothing to merge with.
pub proof fn law_lone_plain_words_are_not_copied(raw: Seq<u8>)
    requires
        only_lone_plain_words(raw.take(header_block_len(raw)), 0),
    ensures
        merged_message(raw) is None,
{
    lemma_lone_plain_words_no_rewrite(raw.take(header_block_len(raw)), 0);
}

/// A message whose header block holds no `=?` comes back untouched and
/// uncopied: there is no encoded word to rewrite.
pub proof fn law_plain_headers_pass_through(raw: Seq<u8>)
    requires
        forall|k: int|
            0 <= k < header_block_len(raw) - 1 ==> !(#[trigger] raw[k] == 0x3D && raw[k + 1] == 0x3F),
    ensures
        merged_message(raw) is None,
{
    let hl = header_block_len(raw);
    lemma_find_blank_bounds(raw, 0);
    let h = raw.take(hl);
    assert forall|k: int| 0 <= k < h.len() - 1 implies !(#[trigger] h[k] == 0x3D && h[k + 1] == 0x3F) by {
        assert(h[k] == raw[k] && h[k + 1] == raw[k + 1]);
    }
    lemma_no_word_no_rewrite(h, 0);
}

/// ISO-2022-JP fragments: one that opens with its own escape after a group
/// left outside a double-byte set starts a group of its own and is decoded
/// on its own; any other fragment (a fold that splits a JIS character
/// carries no designation) is joined to the group before it.
pub proof fn law_jp_fragments_join_unless_self_contained(ps: Seq<Seq<u8>>, next: Seq<u8>)
    requires
        ps.len() > 0,
    ensures
        jp_groups(ps).len() > 0,
        jp_cut(jp_groups(ps).last(), next) ==> jp_groups(ps.push(next)) == jp_groups(ps).push(next),
        !jp_cut(jp_groups(ps).last(), next) ==> jp_groups(ps.push(next)) == jp_groups(ps).update(
            jp_groups(ps).len() - 1,
            jp_groups(ps).last() + next,
        ),
    decreases ps.len(),
{
    assert(ps.push(next).drop_last() =~= ps);
    if ps.len() > 1 {
        law_jp_fragments_join_unless_self_contained(ps.drop_last(), ps.last());
        assert(ps.drop_last().push(ps.last()) =~= ps);
    }
}

} // verus!
