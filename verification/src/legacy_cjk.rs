//! The four CJK charsets the Encoding Standard refuses to decode:
//! ISO-2022-KR, ISO-2022-CN, ISO-2022-CN-EXT and HZ-GB-2312.
//!
//! Each is an eight-bit table already in `encoding_rs`, shifted into seven
//! bits with escape sequences saying where the shifted stretches are. So the
//! work here is a state machine over the escapes; each double-byte pair is
//! handed to `EUC_KR` or `GBK` with its high bits put back. CNS 11643, the
//! Traditional Chinese set ISO-2022-CN can name, has no table here: its
//! characters become U+FFFD, one per character, while the rest still reads.

use vstd::prelude::*;
use crate::tables::{Table, flushed, table_decode_without_bom, table_input_fits};
use crate::text::{
    ascii_lower, before_star, chars_of, equals_ignoring_ascii_case, opens_with,
    same_ignoring_ascii_case, seven_bit_char, star_end, to_ascii_lower, trim_both, trim_range, at2,
    at3, at4, latin1, lemma_encode_utf8_concat, lemma_scalar_width, lemma_utf8_len_push, utf8_len,
};

verus! {

/// The label as these charsets are matched: trimmed of white space, then of
/// quotes, and cut at the RFC 2231 language tag (`*`).
pub open spec fn refused_label_name(label: Seq<char>) -> Seq<char> {
    before_star(trim_both(trim_both(label, false), true))
}

pub open spec fn is_hz_name(name: Seq<char>) -> bool {
    ||| same_ignoring_ascii_case(name, "hz-gb-2312"@)
    ||| same_ignoring_ascii_case(name, "hz-gb2312"@)
    ||| same_ignoring_ascii_case(name, "hz"@)
}

/// The names the Encoding Standard answers with a single U+FFFD.
pub open spec fn is_refused_name(name: Seq<char>) -> bool {
    ||| same_ignoring_ascii_case(name, "iso-2022-kr"@)
    ||| same_ignoring_ascii_case(name, "iso2022-kr"@)
    ||| same_ignoring_ascii_case(name, "iso2022kr"@)
    ||| same_ignoring_ascii_case(name, "csiso2022kr"@)
    ||| same_ignoring_ascii_case(name, "iso-2022-cn"@)
    ||| same_ignoring_ascii_case(name, "iso2022-cn"@)
    ||| same_ignoring_ascii_case(name, "iso-2022-cn-ext"@)
    ||| same_ignoring_ascii_case(name, "csiso2022cn"@)
    ||| is_hz_name(name)
}

/// The name holds `kr` in either case.
pub open spec fn mentions_kr(name: Seq<char>) -> bool {
    exists|i: int|
        0 <= i && i + 1 < name.len() && #[trigger] ascii_lower(name[i]) == 'k' && ascii_lower(
            name[i + 1],
        ) == 'r'
}

/// A byte of a seven-bit double-byte pair.
pub open spec fn is_septet_byte(b: u8) -> bool {
    0x21 <= b <= 0x7E
}

pub open spec fn esc_designate_ksc() -> Seq<u8> {
    seq![0x1Bu8, 0x24, 0x29, 0x43]
}

/// ISO-2022-KR (RFC 1557) from a given state: `shifted` says whether SO is
/// in force, `run` holds the pairs (high bits restored) not yet decoded.
/// `ESC $ ) C` announces KS X 1001 and is skipped, any other escape byte is
/// dropped, SO and SI shift in and out, and a line ends in ASCII.
pub open spec fn kr_text(s: Seq<u8>, shifted: bool, run: Seq<u8>) -> Seq<char>
    decreases s.len(),
{
    if s.len() == 0 {
        flushed(Table::EucKr, run)
    } else if s[0] == 0x1B {
        if opens_with(s, esc_designate_ksc()) {
            kr_text(s.skip(4), shifted, run)
        } else {
            kr_text(s.drop_first(), shifted, run)
        }
    } else if s[0] == 0x0E {
        kr_text(s.drop_first(), true, run)
    } else if s[0] == 0x0F {
        flushed(Table::EucKr, run) + kr_text(s.drop_first(), false, Seq::empty())
    } else if s[0] == 0x0D || s[0] == 0x0A {
        flushed(Table::EucKr, run) + seq![s[0] as char] + kr_text(
            s.drop_first(),
            false,
            Seq::empty(),
        )
    } else if shifted && is_septet_byte(s[0]) && s.len() >= 2 && is_septet_byte(s[1]) {
        kr_text(s.skip(2), true, run + seq![s[0] | 0x80, s[1] | 0x80])
    } else if shifted {
        flushed(Table::EucKr, run) + seq![seven_bit_char(s[0])] + kr_text(
            s.drop_first(),
            true,
            Seq::empty(),
        )
    } else {
        seq![seven_bit_char(s[0])] + kr_text(s.drop_first(), false, run)
    }
}

fn is_septet(b: u8) -> (r: bool)
    ensures
        r == is_septet_byte(b),
{
    0x21 <= b && b <= 0x7E
}

/// A byte outside a shifted stretch: only ASCII is meaningful there.
fn push_unshifted(out: &mut String, b: u8)
    ensures
        final(out)@ == old(out)@.push(seven_bit_char(b)),
        utf8_len(final(out)@) <= utf8_len(old(out)@) + 3,
{
    if b < 0x80 {
        push_char(out, b as char);
    } else {
        push_char(out, '\u{FFFD}');
    }
}

/// Appends a character of the Basic Multilingual Plane: at most three
/// bytes of UTF-8.
fn push_char(out: &mut String, c: char)
    requires
        (c as u32) <= 0xFFFF,
    ensures
        final(out)@ == old(out)@.push(c),
        utf8_len(final(out)@) <= utf8_len(old(out)@) + 3,
{
    proof {
        lemma_utf8_len_push(out@, c);
        lemma_scalar_width(c);
    }
    out.push(c);
}

/// The most UTF-8 that flushing these pending pairs can add.
pub open spec fn pending_cost(run: Seq<u8>) -> int {
    if run.len() == 0 {
        0
    } else {
        3 * run.len() + 3int
    }
}

/// What the output, with the pairs still pending, may have cost after `i`
/// input bytes: four bytes of UTF-8 per input byte, and one more while
/// pairs are pending.
pub open spec fn within_budget(out: Seq<char>, run: Seq<u8>, i: int) -> bool {
    utf8_len(out) + pending_cost(run) <= 4 * i + if run.len() > 0 {
        1int
    } else {
        0int
    }
}

/// Seven-bit pairs, with their high bits put back, through a real table.
fn flush(run: &mut Vec<u8>, out: &mut String, table: Table)
    requires
        table_input_fits(old(run)@.len()),
    ensures
        final(out)@ == old(out)@ + flushed(table, old(run)@),
        final(run)@ == Seq::<u8>::empty(),
        utf8_len(final(out)@) <= utf8_len(old(out)@) + pending_cost(old(run)@),
{
    if run.len() == 0 {
        assert(old(out)@ + Seq::<char>::empty() =~= old(out)@);
        return;
    }
    let text = table_decode_without_bom(table, run.as_slice());
    proof {
        lemma_encode_utf8_concat(out@, text@);
    }
    out.push_str(text.as_str());
    run.clear();
}

/// ISO-2022-KR, RFC 1557.
fn decode_iso2022_kr(bytes: &[u8]) -> (text: String)
    requires
        table_input_fits(bytes@.len()),
    ensures
        text@ == kr_text(bytes@, false, Seq::empty()),
        utf8_len(text@) <= 4 * bytes@.len() + 1,
{
    let mut out = String::new();
    let mut run: Vec<u8> = Vec::new();
    let mut shifted = false;
    let mut i: usize = 0;
    let n = bytes.len();
    assert(bytes@.skip(0) =~= bytes@);
    while i < n
        invariant
            n == bytes@.len(),
            table_input_fits(n as nat),
            i <= n,
            run@.len() <= i,
            out@ + kr_text(bytes@.skip(i as int), shifted, run@) == kr_text(
                bytes@,
                false,
                Seq::empty(),
            ),
            within_budget(out@, run@, i as int),
        decreases n - i,
    {
        let ghost s = bytes@.skip(i as int);
        let ghost o = out@;
        let ghost r = run@;
        let ghost sh = shifted;
        assert(s.drop_first() =~= bytes@.skip(i + 1));
        let b = bytes[i];
        if b == 0x1B {
            if at4(bytes, i, 0x1B, 0x24, 0x29, 0x43) {
                if i + 4 <= n {
                assert(s.skip(4) =~= bytes@.skip(i + 4));
            }
                i = i + 4;
            } else {
                i = i + 1;
            }
        } else if b == 0x0E {
            shifted = true;
            i = i + 1;
        } else if b == 0x0F {
            flush(&mut run, &mut out, Table::EucKr);
            shifted = false;
            i = i + 1;
        } else if b == 0x0D || b == 0x0A {
            flush(&mut run, &mut out, Table::EucKr);
            shifted = false;
            push_char(&mut out, b as char);
            i = i + 1;
        } else if shifted && is_septet(b) && i + 1 < n && is_septet(bytes[i + 1]) {
            if i + 2 <= n {
            assert(s.skip(2) =~= bytes@.skip(i + 2));
        }
            run.push(b | 0x80);
            run.push(bytes[i + 1] | 0x80);
            assert(run@ =~= r + seq![s[0] | 0x80, s[1] | 0x80]);
            i = i + 2;
        } else if shifted {
            flush(&mut run, &mut out, Table::EucKr);
            push_unshifted(&mut out, b);
            i = i + 1;
        } else {
            push_unshifted(&mut out, b);
            i = i + 1;
        }
        assert(out@ + kr_text(bytes@.skip(i as int), shifted, run@) =~= o + kr_text(s, sh, r));
    }
    flush(&mut run, &mut out, Table::EucKr);
    out
}

/// HZ-GB-2312 (RFC 1843) from a given state: `gb` says whether a `~{`
/// stretch is open, `run` holds its pairs not yet decoded. `~~` is a tilde,
/// `~` before a newline is a line continuation, and a tilde that begins
/// nothing is kept in ASCII and dropped inside a stretch.
pub open spec fn hz_text(s: Seq<u8>, gb: bool, run: Seq<u8>) -> Seq<char>
    decreases s.len(),
{
    if s.len() == 0 {
        flushed(Table::Gbk, run)
    } else if s[0] == 0x7E {
        if s.len() >= 2 && s[1] == 0x7B && !gb {
            hz_text(s.skip(2), true, run)
        } else if s.len() >= 2 && s[1] == 0x7D && gb {
            flushed(Table::Gbk, run) + hz_text(s.skip(2), false, Seq::empty())
        } else if s.len() >= 2 && s[1] == 0x7E {
            flushed(Table::Gbk, run) + seq!['~'] + hz_text(s.skip(2), gb, Seq::empty())
        } else if s.len() >= 2 && s[1] == 0x0A {
            hz_text(s.skip(2), gb, run)
        } else if gb {
            hz_text(s.drop_first(), gb, run)
        } else {
            seq!['~'] + hz_text(s.drop_first(), gb, run)
        }
    } else if !gb {
        seq![seven_bit_char(s[0])] + hz_text(s.drop_first(), false, run)
    } else if s[0] == 0x0D || s[0] == 0x0A {
        flushed(Table::Gbk, run) + seq![s[0] as char] + hz_text(s.drop_first(), false, Seq::empty())
    } else if is_septet_byte(s[0]) && s.len() >= 2 && is_septet_byte(s[1]) {
        hz_text(s.skip(2), true, run + seq![s[0] | 0x80, s[1] | 0x80])
    } else {
        flushed(Table::Gbk, run) + seq![seven_bit_char(s[0])] + hz_text(
            s.drop_first(),
            true,
            Seq::empty(),
        )
    }
}

/// HZ-GB-2312, RFC 1843.
fn decode_hz(bytes: &[u8]) -> (text: String)
    requires
        table_input_fits(bytes@.len()),
    ensures
        text@ == hz_text(bytes@, false, Seq::empty()),
        utf8_len(text@) <= 4 * bytes@.len() + 1,
{
    let mut out = String::new();
    let mut run: Vec<u8> = Vec::new();
    let mut gb = false;
    let mut i: usize = 0;
    let n = bytes.len();
    assert(bytes@.skip(0) =~= bytes@);
    while i < n
        invariant
            n == bytes@.len(),
            table_input_fits(n as nat),
            i <= n,
            run@.len() <= i,
            out@ + hz_text(bytes@.skip(i as int), gb, run@) == hz_text(
                bytes@,
                false,
                Seq::empty(),
            ),
            within_budget(out@, run@, i as int),
        decreases n - i,
    {
        let ghost s = bytes@.skip(i as int);
        let ghost o = out@;
        let ghost r = run@;
        let ghost g = gb;
        assert(s.drop_first() =~= bytes@.skip(i + 1));
        if i + 2 <= n {
            assert(s.skip(2) =~= bytes@.skip(i + 2));
        }
        let b = bytes[i];
        if b == 0x7E {
            let next: Option<u8> = if i + 1 < n { Some(bytes[i + 1]) } else { None };
            if next == Some(0x7Bu8) && !gb {
                gb = true;
                i = i + 2;
            } else if next == Some(0x7Du8) && gb {
                flush(&mut run, &mut out, Table::Gbk);
                gb = false;
                i = i + 2;
            } else if next == Some(0x7Eu8) {
                flush(&mut run, &mut out, Table::Gbk);
                push_char(&mut out, '~');
                i = i + 2;
            } else if next == Some(0x0Au8) {
                i = i + 2;
            } else {
                if !gb {
                    push_char(&mut out, '~');
                }
                i = i + 1;
            }
        } else if !gb {
            push_unshifted(&mut out, b);
            i = i + 1;
        } else if b == 0x0D || b == 0x0A {
            flush(&mut run, &mut out, Table::Gbk);
            gb = false;
            push_char(&mut out, b as char);
            i = i + 1;
        } else if is_septet(b) && i + 1 < n && is_septet(bytes[i + 1]) {
            run.push(b | 0x80);
            run.push(bytes[i + 1] | 0x80);
            assert(run@ =~= r + seq![s[0] | 0x80, s[1] | 0x80]);
            i = i + 2;
        } else {
            flush(&mut run, &mut out, Table::Gbk);
            push_unshifted(&mut out, b);
            i = i + 1;
        }
        assert(out@ + hz_text(bytes@.skip(i as int), gb, run@) =~= o + hz_text(s, g, r));
    }
    flush(&mut run, &mut out, Table::Gbk);
    out
}

/// Which set a shifted ISO-2022-CN stretch is carrying.
#[derive(Clone, Copy, PartialEq, Eq, Structural)]
pub enum G1Set {
    /// GB2312, which is GBK with the high bits off.
    Gb2312,
    /// CNS 11643 or ISO-IR-165: announced, understood, and not carried here.
    Untabled,
}

pub open spec fn skip_up_to_four(s: Seq<u8>) -> Seq<u8> {
    if s.len() >= 4 {
        s.skip(4)
    } else {
        Seq::empty()
    }
}

/// ISO-2022-CN and ISO-2022-CN-EXT (RFC 1922) from a given state: `g1` is
/// the set designated into G1, `shifted` whether SO is in force, `run` the
/// GB2312 pairs not yet decoded. `ESC $ ) A` designates GB2312, `ESC $ ) G`
/// and `ESC $ ) E` a set with no table; G2 and G3 designations (`ESC $ *`,
/// `ESC $ +`) are skipped with their final byte; SS2 and SS3 (`ESC N`,
/// `ESC O`) stand for one character that cannot be drawn. A line end drops
/// the designation as well as the shift.
pub open spec fn cn_text(s: Seq<u8>, g1: Option<G1Set>, shifted: bool, run: Seq<u8>) -> Seq<char>
    decreases s.len(),
{
    if s.len() == 0 {
        flushed(Table::Gbk, run)
    } else if s[0] == 0x1B {
        if opens_with(s, seq![0x1Bu8, 0x24, 0x29, 0x41]) {
            flushed(Table::Gbk, run) + cn_text(s.skip(4), Some(G1Set::Gb2312), shifted, Seq::empty())
        } else if opens_with(s, seq![0x1Bu8, 0x24, 0x29, 0x47]) || opens_with(
            s,
            seq![0x1Bu8, 0x24, 0x29, 0x45],
        ) {
            flushed(Table::Gbk, run) + cn_text(
                s.skip(4),
                Some(G1Set::Untabled),
                shifted,
                Seq::empty(),
            )
        } else if opens_with(s, seq![0x1Bu8, 0x24, 0x2A]) || opens_with(s, seq![0x1Bu8, 0x24, 0x2B]) {
            cn_text(skip_up_to_four(s), g1, shifted, run)
        } else if opens_with(s, seq![0x1Bu8, 0x4E]) || opens_with(s, seq![0x1Bu8, 0x4F]) {
            flushed(Table::Gbk, run) + seq!['\u{FFFD}'] + cn_text(
                skip_up_to_four(s),
                g1,
                shifted,
                Seq::empty(),
            )
        } else {
            cn_text(s.drop_first(), g1, shifted, run)
        }
    } else if s[0] == 0x0E {
        cn_text(s.drop_first(), g1, true, run)
    } else if s[0] == 0x0F {
        flushed(Table::Gbk, run) + cn_text(s.drop_first(), g1, false, Seq::empty())
    } else if s[0] == 0x0D || s[0] == 0x0A {
        flushed(Table::Gbk, run) + seq![s[0] as char] + cn_text(
            s.drop_first(),
            None,
            false,
            Seq::empty(),
        )
    } else if shifted && is_septet_byte(s[0]) && s.len() >= 2 && is_septet_byte(s[1]) {
        if g1 == Some(G1Set::Gb2312) {
            cn_text(s.skip(2), g1, true, run + seq![s[0] | 0x80, s[1] | 0x80])
        } else {
            flushed(Table::Gbk, run) + seq!['\u{FFFD}'] + cn_text(s.skip(2), g1, true, Seq::empty())
        }
    } else if shifted {
        flushed(Table::Gbk, run) + seq![seven_bit_char(s[0])] + cn_text(
            s.drop_first(),
            g1,
            true,
            Seq::empty(),
        )
    } else {
        seq![seven_bit_char(s[0])] + cn_text(s.drop_first(), g1, false, run)
    }
}

/// ISO-2022-CN and ISO-2022-CN-EXT, RFC 1922.
fn decode_iso2022_cn(bytes: &[u8]) -> (text: String)
    requires
        table_input_fits(bytes@.len()),
    ensures
        text@ == cn_text(bytes@, None, false, Seq::empty()),
        utf8_len(text@) <= 4 * bytes@.len() + 1,
{
    let mut out = String::new();
    let mut run: Vec<u8> = Vec::new();
    let mut g1: Option<G1Set> = None;
    let mut shifted = false;
    let mut i: usize = 0;
    let n = bytes.len();
    assert(bytes@.skip(0) =~= bytes@);
    while i < n
        invariant
            n == bytes@.len(),
            table_input_fits(n as nat),
            i <= n,
            run@.len() <= i,
            out@ + cn_text(bytes@.skip(i as int), g1, shifted, run@) == cn_text(
                bytes@,
                None,
                false,
                Seq::empty(),
            ),
            within_budget(out@, run@, i as int),
        decreases n - i,
    {
        let ghost s = bytes@.skip(i as int);
        let ghost o = out@;
        let ghost r = run@;
        let ghost g = g1;
        let ghost sh = shifted;
        assert(s.drop_first() =~= bytes@.skip(i + 1));
        if i + 2 <= n {
            assert(s.skip(2) =~= bytes@.skip(i + 2));
        }
        let b = bytes[i];
        if b == 0x1B {
            let left = n - i;
            let skip: usize = if left < 4 { left } else { 4 };
            assert(skip_up_to_four(s) =~= bytes@.skip(i + skip));
            if i + 4 <= n {
                assert(s.skip(4) =~= bytes@.skip(i + 4));
            }
            if at4(bytes, i, 0x1B, 0x24, 0x29, 0x41) {
                flush(&mut run, &mut out, Table::Gbk);
                g1 = Some(G1Set::Gb2312);
                i = i + 4;
            } else if at4(bytes, i, 0x1B, 0x24, 0x29, 0x47) || at4(bytes, i, 0x1B, 0x24, 0x29, 0x45) {
                flush(&mut run, &mut out, Table::Gbk);
                g1 = Some(G1Set::Untabled);
                i = i + 4;
            } else if at3(bytes, i, 0x1B, 0x24, 0x2A) || at3(bytes, i, 0x1B, 0x24, 0x2B) {
                i = i + skip;
            } else if at2(bytes, i, 0x1B, 0x4E) || at2(bytes, i, 0x1B, 0x4F) {
                flush(&mut run, &mut out, Table::Gbk);
                push_char(&mut out, '\u{FFFD}');
                i = i + skip;
            } else {
                i = i + 1;
            }
        } else if b == 0x0E {
            shifted = true;
            i = i + 1;
        } else if b == 0x0F {
            flush(&mut run, &mut out, Table::Gbk);
            shifted = false;
            i = i + 1;
        } else if b == 0x0D || b == 0x0A {
            flush(&mut run, &mut out, Table::Gbk);
            shifted = false;
            g1 = None;
            push_char(&mut out, b as char);
            i = i + 1;
        } else if shifted && is_septet(b) && i + 1 < n && is_septet(bytes[i + 1]) {
            match g1 {
                Some(G1Set::Gb2312) => {
                    run.push(b | 0x80);
                    run.push(bytes[i + 1] | 0x80);
                    assert(run@ =~= r + seq![s[0] | 0x80, s[1] | 0x80]);
                },
                _ => {
                    flush(&mut run, &mut out, Table::Gbk);
                    push_char(&mut out, '\u{FFFD}');
                },
            }
            i = i + 2;
        } else if shifted {
            flush(&mut run, &mut out, Table::Gbk);
            push_unshifted(&mut out, b);
            i = i + 1;
        } else {
            push_unshifted(&mut out, b);
            i = i + 1;
        }
        assert(out@ + cn_text(bytes@.skip(i as int), g1, shifted, run@) =~= o + cn_text(
            s,
            g,
            sh,
            r,
        ));
    }
    flush(&mut run, &mut out, Table::Gbk);
    out
}

/// What one of the refused charsets, named `name`, reads these bytes as.
pub open spec fn refused_text(name: Seq<char>, bytes: Seq<u8>) -> Seq<char> {
    if is_hz_name(name) {
        hz_text(bytes, false, Seq::empty())
    } else if mentions_kr(name) {
        kr_text(bytes, false, Seq::empty())
    } else {
        cn_text(bytes, None, false, Seq::empty())
    }
}

/// Where the matched name of a label stands among its characters.
fn refused_name_range(chars: &Vec<char>) -> (r: (usize, usize))
    ensures
        r.0 <= r.1 <= chars@.len(),
        chars@.subrange(r.0 as int, r.1 as int) == refused_label_name(chars@),
{
    let n = chars.len();
    assert(chars@.subrange(0, n as int) =~= chars@);
    let (a, b) = trim_range(chars, 0, n, false);
    let (c, d) = trim_range(chars, a, b, true);
    let e = star_end(chars, c, d);
    (c, e)
}

fn is_hz_range(chars: &Vec<char>, lo: usize, hi: usize) -> (r: bool)
    requires
        lo <= hi <= chars@.len(),
    ensures
        r == is_hz_name(chars@.subrange(lo as int, hi as int)),
{
    equals_ignoring_ascii_case(chars, lo, hi, "hz-gb-2312") || equals_ignoring_ascii_case(
        chars,
        lo,
        hi,
        "hz-gb2312",
    ) || equals_ignoring_ascii_case(chars, lo, hi, "hz")
}

fn is_refused_range(chars: &Vec<char>, lo: usize, hi: usize) -> (r: bool)
    requires
        lo <= hi <= chars@.len(),
    ensures
        r == is_refused_name(chars@.subrange(lo as int, hi as int)),
{
    equals_ignoring_ascii_case(chars, lo, hi, "iso-2022-kr") || equals_ignoring_ascii_case(
        chars,
        lo,
        hi,
        "iso2022-kr",
    ) || equals_ignoring_ascii_case(chars, lo, hi, "iso2022kr") || equals_ignoring_ascii_case(
        chars,
        lo,
        hi,
        "csiso2022kr",
    ) || equals_ignoring_ascii_case(chars, lo, hi, "iso-2022-cn") || equals_ignoring_ascii_case(
        chars,
        lo,
        hi,
        "iso2022-cn",
    ) || equals_ignoring_ascii_case(chars, lo, hi, "iso-2022-cn-ext")
        || equals_ignoring_ascii_case(chars, lo, hi, "csiso2022cn") || is_hz_range(chars, lo, hi)
}

fn mentions_kr_range(chars: &Vec<char>, lo: usize, hi: usize) -> (r: bool)
    requires
        lo <= hi <= chars@.len(),
    ensures
        r == mentions_kr(chars@.subrange(lo as int, hi as int)),
{
    let ghost name = chars@.subrange(lo as int, hi as int);
    let mut i = lo;
    while i < hi && hi - i >= 2
        invariant
            lo <= i <= hi <= chars@.len(),
            name == chars@.subrange(lo as int, hi as int),
            forall|j: int|
                0 <= j < i - lo && j + 1 < name.len() ==> !(#[trigger] ascii_lower(name[j]) == 'k'
                    && ascii_lower(name[j + 1]) == 'r'),
        decreases hi - i,
    {
        if to_ascii_lower(chars[i]) == 'k' && to_ascii_lower(chars[i + 1]) == 'r' {
            assert(ascii_lower(name[i - lo]) == 'k' && ascii_lower(name[i - lo + 1]) == 'r');
            return true;
        }
        i = i + 1;
    }
    false
}

/// Whether this is a charset the Encoding Standard answers with U+FFFD.
pub fn is_replacement_charset(label: &str) -> (r: bool)
    ensures
        r == is_refused_name(refused_label_name(label@)),
{
    let chars = chars_of(label);
    let (lo, hi) = refused_name_range(&chars);
    is_refused_range(&chars, lo, hi)
}

/// Decodes one of those four, or `None` when the label is not one of them.
pub fn decode(label: &str, bytes: &[u8]) -> (r: Option<String>)
    requires
        table_input_fits(bytes@.len()),
    ensures
        r is Some <==> is_refused_name(refused_label_name(label@)),
        r matches Some(text) ==> text@ == refused_text(refused_label_name(label@), bytes@),
        r matches Some(text) ==> vstd::utf8::encode_utf8(text@).len() <= 4 * bytes@.len() + 1,
{
    let chars = chars_of(label);
    let (lo, hi) = refused_name_range(&chars);
    if !is_refused_range(&chars, lo, hi) {
        return None;
    }
    if is_hz_range(&chars, lo, hi) {
        Some(decode_hz(bytes))
    } else if mentions_kr_range(&chars, lo, hi) {
        Some(decode_iso2022_kr(bytes))
    } else {
        Some(decode_iso2022_cn(bytes))
    }
}

/// ISO-2022-KR: a line ends in ASCII. Whatever state the text before a
/// line end leaves, the text after it reads as if it stood alone: the
/// shift and any pending pairs end at the line end.
pub proof fn law_kr_line_end_resets_state(
    before: Seq<u8>,
    end: u8,
    after: Seq<u8>,
    shifted: bool,
    run: Seq<u8>,
)
    requires
        end == 0x0A || end == 0x0D,
    ensures
        kr_text(before + seq![end] + after, shifted, run) == kr_text(before + seq![end], shifted, run)
            + kr_text(after, false, Seq::empty()),
    decreases before.len(),
{
    let s = before + seq![end] + after;
    let t = before + seq![end];
    if before.len() == 0 {
        assert(s.drop_first() =~= after);
        assert(t.drop_first() =~= Seq::<u8>::empty());
        assert(kr_text(Seq::<u8>::empty(), false, Seq::empty()) =~= Seq::<char>::empty());
        assert(kr_text(t, shifted, run) =~= flushed(Table::EucKr, run) + seq![end as char]);
        assert(kr_text(s, shifted, run) =~= kr_text(t, shifted, run) + kr_text(
            after,
            false,
            Seq::empty(),
        ));
    } else {
        let b = before[0];
        assert(s[0] == b && t[0] == b);
        let pat = esc_designate_ksc();
        assert(opens_with(s, pat) == opens_with(t, pat)) by {
            if before.len() >= 4 {
                assert(s.take(4) =~= before.take(4));
                assert(t.take(4) =~= before.take(4));
            } else {
                let k = before.len() as int;
                assert(s[k] == end && t[k] == end);
                if opens_with(s, pat) {
                    assert(s.take(4)[k] == pat[k]);
                }
                if opens_with(t, pat) {
                    assert(t.take(4)[k] == pat[k]);
                }
            }
        }
        let tail = before.drop_first();
        assert(s.drop_first() =~= tail + seq![end] + after);
        assert(t.drop_first() =~= tail + seq![end]);
        if before.len() >= 2 {
            assert(s[1] == before[1] && t[1] == before[1]);
            assert(s.skip(2) =~= before.skip(2) + seq![end] + after);
            assert(t.skip(2) =~= before.skip(2) + seq![end]);
        } else {
            assert(s[1] == end && t[1] == end);
        }
        if before.len() >= 4 {
            assert(s.skip(4) =~= before.skip(4) + seq![end] + after);
            assert(t.skip(4) =~= before.skip(4) + seq![end]);
        }
        let rest_after = kr_text(after, false, Seq::empty());
        if b == 0x1B {
            if opens_with(s, pat) {
                assert(before.len() >= 4);
                law_kr_line_end_resets_state(before.skip(4), end, after, shifted, run);
            } else {
                law_kr_line_end_resets_state(tail, end, after, shifted, run);
            }
        } else if b == 0x0E {
            law_kr_line_end_resets_state(tail, end, after, true, run);
        } else if b == 0x0F {
            law_kr_line_end_resets_state(tail, end, after, false, Seq::empty());
            assert(kr_text(s, shifted, run) =~= kr_text(t, shifted, run) + rest_after);
        } else if b == 0x0D || b == 0x0A {
            law_kr_line_end_resets_state(tail, end, after, false, Seq::empty());
            assert(kr_text(s, shifted, run) =~= kr_text(t, shifted, run) + rest_after);
        } else if shifted && is_septet_byte(b) && s.len() >= 2 && is_septet_byte(s[1]) {
            assert(before.len() >= 2);
            law_kr_line_end_resets_state(
                before.skip(2),
                end,
                after,
                true,
                run + seq![s[0] | 0x80, s[1] | 0x80],
            );
        } else if shifted {
            law_kr_line_end_resets_state(tail, end, after, true, Seq::empty());
            assert(kr_text(s, shifted, run) =~= kr_text(t, shifted, run) + rest_after);
        } else {
            law_kr_line_end_resets_state(tail, end, after, false, run);
            assert(kr_text(s, shifted, run) =~= kr_text(t, shifted, run) + rest_after);
        }
    }
}

/// ISO-2022-KR: a line end at the very end reads as itself, after whatever
/// the text before it reads as.
pub proof fn lemma_kr_trailing_line_end(before: Seq<u8>, end: u8, shifted: bool, run: Seq<u8>)
    requires
        end == 0x0A || end == 0x0D,
    ensures
        kr_text(before + seq![end], shifted, run) == kr_text(before, shifted, run) + seq![end as char],
    decreases before.len(),
{
    let t = before + seq![end];
    if before.len() == 0 {
        assert(t.drop_first() =~= Seq::<u8>::empty());
        assert(kr_text(Seq::<u8>::empty(), false, Seq::empty()) =~= Seq::<char>::empty());
        assert(kr_text(t, shifted, run) =~= flushed(Table::EucKr, run) + seq![end as char]);
    } else {
        let b = before[0];
        assert(t[0] == b);
        let pat = esc_designate_ksc();
        assert(opens_with(t, pat) == opens_with(before, pat)) by {
            if before.len() >= 4 {
                assert(t.take(4) =~= before.take(4));
            } else {
                let k = before.len() as int;
                assert(t[k] == end);
                if opens_with(t, pat) {
                    assert(t.take(4)[k] == pat[k]);
                }
            }
        }
        let tail = before.drop_first();
        assert(t.drop_first() =~= tail + seq![end]);
        if before.len() >= 2 {
            assert(t[1] == before[1]);
            assert(t.skip(2) =~= before.skip(2) + seq![end]);
        } else {
            assert(t[1] == end);
        }
        if before.len() >= 4 {
            assert(t.skip(4) =~= before.skip(4) + seq![end]);
        }
        if b == 0x1B {
            if opens_with(t, pat) {
                lemma_kr_trailing_line_end(before.skip(4), end, shifted, run);
            } else {
                lemma_kr_trailing_line_end(tail, end, shifted, run);
            }
        } else if b == 0x0E {
            lemma_kr_trailing_line_end(tail, end, true, run);
        } else if b == 0x0F {
            lemma_kr_trailing_line_end(tail, end, false, Seq::empty());
            assert(kr_text(t, shifted, run) =~= kr_text(before, shifted, run) + seq![end as char]);
        } else if b == 0x0D || b == 0x0A {
            lemma_kr_trailing_line_end(tail, end, false, Seq::empty());
            assert(kr_text(t, shifted, run) =~= kr_text(before, shifted, run) + seq![end as char]);
        } else if shifted && is_septet_byte(b) && t.len() >= 2 && is_septet_byte(t[1]) {
            lemma_kr_trailing_line_end(
                before.skip(2),
                end,
                true,
                run + seq![t[0] | 0x80, t[1] | 0x80],
            );
        } else if shifted {
            lemma_kr_trailing_line_end(tail, end, true, Seq::empty());
            assert(kr_text(t, shifted, run) =~= kr_text(before, shifted, run) + seq![end as char]);
        } else {
            lemma_kr_trailing_line_end(tail, end, false, run);
            assert(kr_text(t, shifted, run) =~= kr_text(before, shifted, run) + seq![end as char]);
        }
    }
}

/// ISO-2022-KR: text split at a line end reads as its two halves read
/// alone, with the line end between them.
pub proof fn law_kr_line_end_splits_the_text(before: Seq<u8>, end: u8, after: Seq<u8>)
    requires
        end == 0x0A || end == 0x0D,
    ensures
        kr_text(before + seq![end] + after, false, Seq::empty()) == kr_text(
            before,
            false,
            Seq::empty(),
        ) + seq![end as char] + kr_text(after, false, Seq::empty()),
{
    law_kr_line_end_resets_state(before, end, after, false, Seq::empty());
    lemma_kr_trailing_line_end(before, end, false, Seq::empty());
}

/// How many bytes the ISO-2022-CN reader takes as its next step.
pub open spec fn cn_step_len(s: Seq<u8>, shifted: bool) -> int {
    if s.len() == 0 {
        0
    } else if s[0] == 0x1B {
        if opens_with(s, seq![0x1Bu8, 0x24, 0x29, 0x41]) || opens_with(
            s,
            seq![0x1Bu8, 0x24, 0x29, 0x47],
        ) || opens_with(s, seq![0x1Bu8, 0x24, 0x29, 0x45]) {
            4
        } else if opens_with(s, seq![0x1Bu8, 0x24, 0x2A]) || opens_with(s, seq![0x1Bu8, 0x24, 0x2B])
            || opens_with(s, seq![0x1Bu8, 0x4E]) || opens_with(s, seq![0x1Bu8, 0x4F]) {
            if s.len() >= 4 {
                4
            } else {
                s.len() as int
            }
        } else {
            1
        }
    } else if shifted && is_septet_byte(s[0]) && s.len() >= 2 && is_septet_byte(s[1]) {
        2
    } else {
        1
    }
}

/// Whether SO is in force after the reader's next step.
pub open spec fn cn_shift_after(s: Seq<u8>, shifted: bool) -> bool {
    if s.len() == 0 {
        shifted
    } else if s[0] == 0x0E {
        true
    } else if s[0] == 0x0F || s[0] == 0x0D || s[0] == 0x0A {
        false
    } else {
        shifted
    }
}

/// The ISO-2022-CN reader, starting with SO in force or not, takes a step
/// that begins at byte `k`: that byte is read for itself rather than
/// skipped as part of an escape sequence.
pub open spec fn cn_reads_at(s: Seq<u8>, k: int, shifted: bool) -> bool
    decreases s.len(),
{
    if k == 0 {
        true
    } else if k < 0 || s.len() == 0 {
        false
    } else {
        let t = cn_step_len(s, shifted);
        t <= k && cn_reads_at(s.skip(t), k - t, cn_shift_after(s, shifted))
    }
}

proof fn lemma_prefix_decides(before: Seq<u8>, end: u8, after: Seq<u8>, pat: Seq<u8>)
    requires
        end == 0x0A || end == 0x0D,
        forall|j: int| 0 <= j < pat.len() ==> pat[j] != 0x0A && pat[j] != 0x0D,
    ensures
        opens_with(before + seq![end] + after, pat) == opens_with(before + seq![end], pat),
{
    let s = before + seq![end] + after;
    let t = before + seq![end];
    if pat.len() <= before.len() {
        assert(s.take(pat.len() as int) =~= before.take(pat.len() as int));
        assert(t.take(pat.len() as int) =~= before.take(pat.len() as int));
    } else {
        let k = before.len() as int;
        assert(s[k] == end && t[k] == end);
        if opens_with(s, pat) {
            assert(s.take(pat.len() as int)[k] == pat[k]);
        }
        if opens_with(t, pat) {
            assert(t.take(pat.len() as int)[k] == pat[k]);
        }
    }
}

/// What the ISO-2022-CN reader emits on its next step, and the state it
/// leaves: designation, shift, pending pairs.
pub open spec fn cn_step(s: Seq<u8>, g1: Option<G1Set>, shifted: bool, run: Seq<u8>) -> (
    Seq<char>,
    Option<G1Set>,
    bool,
    Seq<u8>,
) {
    let none: Seq<u8> = Seq::empty();
    if s[0] == 0x1B {
        if opens_with(s, seq![0x1Bu8, 0x24, 0x29, 0x41]) {
            (flushed(Table::Gbk, run), Some(G1Set::Gb2312), shifted, none)
        } else if opens_with(s, seq![0x1Bu8, 0x24, 0x29, 0x47]) || opens_with(
            s,
            seq![0x1Bu8, 0x24, 0x29, 0x45],
        ) {
            (flushed(Table::Gbk, run), Some(G1Set::Untabled), shifted, none)
        } else if opens_with(s, seq![0x1Bu8, 0x24, 0x2A]) || opens_with(s, seq![0x1Bu8, 0x24, 0x2B]) {
            (Seq::empty(), g1, shifted, run)
        } else if opens_with(s, seq![0x1Bu8, 0x4E]) || opens_with(s, seq![0x1Bu8, 0x4F]) {
            (flushed(Table::Gbk, run) + seq!['\u{FFFD}'], g1, shifted, none)
        } else {
            (Seq::empty(), g1, shifted, run)
        }
    } else if s[0] == 0x0E {
        (Seq::empty(), g1, true, run)
    } else if s[0] == 0x0F {
        (flushed(Table::Gbk, run), g1, false, none)
    } else if s[0] == 0x0D || s[0] == 0x0A {
        (flushed(Table::Gbk, run) + seq![s[0] as char], None, false, none)
    } else if shifted && is_septet_byte(s[0]) && s.len() >= 2 && is_septet_byte(s[1]) {
        if g1 == Some(G1Set::Gb2312) {
            (Seq::empty(), g1, true, run + seq![s[0] | 0x80, s[1] | 0x80])
        } else {
            (flushed(Table::Gbk, run) + seq!['\u{FFFD}'], g1, true, none)
        }
    } else if shifted {
        (flushed(Table::Gbk, run) + seq![seven_bit_char(s[0])], g1, true, none)
    } else {
        (seq![seven_bit_char(s[0])], g1, false, run)
    }
}

proof fn lemma_cn_unfold(s: Seq<u8>, g1: Option<G1Set>, shifted: bool, run: Seq<u8>)
    requires
        s.len() > 0,
    ensures
        ({
            let (out, g, sh, r) = cn_step(s, g1, shifted, run);
            let k = cn_step_len(s, shifted);
            &&& 1 <= k <= s.len()
            &&& cn_text(s, g1, shifted, run) == out + cn_text(s.skip(k), g, sh, r)
        }),
{
    assert(s.skip(1) =~= s.drop_first());
    if s.len() >= 4 {
        assert(skip_up_to_four(s) =~= s.skip(4));
    } else {
        assert(skip_up_to_four(s) =~= s.skip(s.len() as int));
    }
    let (out, g, sh, r) = cn_step(s, g1, shifted, run);
    let k = cn_step_len(s, shifted);
    assert(cn_text(s, g1, shifted, run) =~= out + cn_text(s.skip(k), g, sh, r));
}

/// The next step of the reader is decided within the text before a line
/// end, whatever follows it.
proof fn lemma_cn_step_agrees(
    before: Seq<u8>,
    end: u8,
    after: Seq<u8>,
    g1: Option<G1Set>,
    shifted: bool,
    run: Seq<u8>,
)
    requires
        end == 0x0A || end == 0x0D,
        before.len() > 0,
    ensures
        cn_step(before + seq![end] + after, g1, shifted, run) == cn_step(
            before + seq![end],
            g1,
            shifted,
            run,
        ),
        cn_step_len(before + seq![end] + after, shifted) <= before.len() ==> cn_step_len(
            before + seq![end] + after,
            shifted,
        ) == cn_step_len(before + seq![end], shifted),
        cn_shift_after(before + seq![end] + after, shifted) == cn_shift_after(
            before + seq![end],
            shifted,
        ),
{
    let s = before + seq![end] + after;
    let t = before + seq![end];
    assert(s[0] == before[0] && t[0] == before[0]);
    lemma_prefix_decides(before, end, after, seq![0x1Bu8, 0x24, 0x29, 0x41]);
    lemma_prefix_decides(before, end, after, seq![0x1Bu8, 0x24, 0x29, 0x47]);
    lemma_prefix_decides(before, end, after, seq![0x1Bu8, 0x24, 0x29, 0x45]);
    lemma_prefix_decides(before, end, after, seq![0x1Bu8, 0x24, 0x2A]);
    lemma_prefix_decides(before, end, after, seq![0x1Bu8, 0x24, 0x2B]);
    lemma_prefix_decides(before, end, after, seq![0x1Bu8, 0x4E]);
    lemma_prefix_decides(before, end, after, seq![0x1Bu8, 0x4F]);
    if before.len() >= 2 {
        assert(s[1] == before[1] && t[1] == before[1]);
    } else {
        assert(s[1] == end && t[1] == end);
    }
}

/// ISO-2022-CN: a line end that is read as one (rather than skipped as the
/// last byte of an escape sequence) ends the shift and the designation
/// alike; what follows reads as if it stood alone.
pub proof fn law_cn_line_end_resets_state(
    before: Seq<u8>,
    end: u8,
    after: Seq<u8>,
    g1: Option<G1Set>,
    shifted: bool,
    run: Seq<u8>,
)
    requires
        end == 0x0A || end == 0x0D,
        cn_reads_at(before + seq![end] + after, before.len() as int, shifted),
    ensures
        cn_text(before + seq![end] + after, g1, shifted, run) == cn_text(
            before + seq![end],
            g1,
            shifted,
            run,
        ) + cn_text(after, None, false, Seq::empty()),
    decreases before.len(),
{
    let s = before + seq![end] + after;
    let t = before + seq![end];
    let rest_after = cn_text(after, None, false, Seq::empty());
    if before.len() == 0 {
        lemma_cn_unfold(s, g1, shifted, run);
        lemma_cn_unfold(t, g1, shifted, run);
        assert(s.skip(1) =~= after);
        assert(t.skip(1) =~= Seq::<u8>::empty());
        assert(cn_text(Seq::<u8>::empty(), None, false, Seq::empty()) =~= Seq::<char>::empty());
        assert(cn_text(s, g1, shifted, run) =~= cn_text(t, g1, shifted, run) + rest_after);
    } else {
        lemma_cn_unfold(s, g1, shifted, run);
        lemma_cn_unfold(t, g1, shifted, run);
        lemma_cn_step_agrees(before, end, after, g1, shifted, run);
        let k = cn_step_len(s, shifted);
        let (out, g, sh, r) = cn_step(s, g1, shifted, run);
        assert(k <= before.len());
        let nb = before.skip(k);
        assert(s.skip(k) =~= nb + seq![end] + after);
        assert(t.skip(k) =~= nb + seq![end]);
        assert(sh == cn_shift_after(s, shifted));
        law_cn_line_end_resets_state(nb, end, after, g, sh, r);
        assert(cn_text(s, g1, shifted, run) =~= cn_text(t, g1, shifted, run) + rest_after);
    }
}

/// How many bytes the HZ reader takes as its next step.
pub open spec fn hz_step_len(s: Seq<u8>, gb: bool) -> int {
    if s.len() == 0 {
        0
    } else if s[0] == 0x7E {
        if s.len() >= 2 && ((s[1] == 0x7B && !gb) || (s[1] == 0x7D && gb) || s[1] == 0x7E || s[1]
            == 0x0A) {
            2
        } else {
            1
        }
    } else if gb && s[0] != 0x0D && s[0] != 0x0A && is_septet_byte(s[0]) && s.len() >= 2
        && is_septet_byte(s[1]) {
        2
    } else {
        1
    }
}

/// What the HZ reader emits on its next step, and whether a GB stretch is
/// open after it, with its pending pairs.
pub open spec fn hz_step(s: Seq<u8>, gb: bool, run: Seq<u8>) -> (Seq<char>, bool, Seq<u8>) {
    let none: Seq<u8> = Seq::empty();
    if s[0] == 0x7E {
        if s.len() >= 2 && s[1] == 0x7B && !gb {
            (Seq::empty(), true, run)
        } else if s.len() >= 2 && s[1] == 0x7D && gb {
            (flushed(Table::Gbk, run), false, none)
        } else if s.len() >= 2 && s[1] == 0x7E {
            (flushed(Table::Gbk, run) + seq!['~'], gb, none)
        } else if s.len() >= 2 && s[1] == 0x0A {
            (Seq::empty(), gb, run)
        } else if gb {
            (Seq::empty(), gb, run)
        } else {
            (seq!['~'], gb, run)
        }
    } else if !gb {
        (seq![seven_bit_char(s[0])], false, run)
    } else if s[0] == 0x0D || s[0] == 0x0A {
        (flushed(Table::Gbk, run) + seq![s[0] as char], false, none)
    } else if is_septet_byte(s[0]) && s.len() >= 2 && is_septet_byte(s[1]) {
        (Seq::empty(), true, run + seq![s[0] | 0x80, s[1] | 0x80])
    } else {
        (flushed(Table::Gbk, run) + seq![seven_bit_char(s[0])], true, none)
    }
}

/// The HZ reader, starting inside a GB stretch or not, takes a step that
/// begins at byte `k`: that byte is read for itself rather than as the
/// second byte of a tilde escape or a pair.
pub open spec fn hz_reads_at(s: Seq<u8>, k: int, gb: bool) -> bool
    decreases s.len(),
{
    if k == 0 {
        true
    } else if k < 0 || s.len() == 0 {
        false
    } else {
        let t = hz_step_len(s, gb);
        t <= k && hz_reads_at(s.skip(t), k - t, hz_step(s, gb, Seq::empty()).1)
    }
}

proof fn lemma_hz_unfold(s: Seq<u8>, gb: bool, run: Seq<u8>)
    requires
        s.len() > 0,
    ensures
        ({
            let (out, g, r) = hz_step(s, gb, run);
            let k = hz_step_len(s, gb);
            &&& 1 <= k <= s.len()
            &&& hz_text(s, gb, run) == out + hz_text(s.skip(k), g, r)
            &&& g == hz_step(s, gb, Seq::empty()).1
            &&& (gb || run.len() == 0) ==> (g || r.len() == 0)
        }),
{
    assert(s.skip(1) =~= s.drop_first());
    let (out, g, r) = hz_step(s, gb, run);
    let k = hz_step_len(s, gb);
    assert(hz_text(s, gb, run) =~= out + hz_text(s.skip(k), g, r));
}

proof fn lemma_hz_step_agrees(before: Seq<u8>, end: u8, after: Seq<u8>, gb: bool, run: Seq<u8>)
    requires
        end == 0x0A || end == 0x0D,
        before.len() > 0,
        hz_step_len(before + seq![end] + after, gb) <= before.len(),
    ensures
        hz_step(before + seq![end] + after, gb, run) == hz_step(before + seq![end], gb, run),
        hz_step_len(before + seq![end] + after, gb) == hz_step_len(before + seq![end], gb),
{
    let s = before + seq![end] + after;
    let t = before + seq![end];
    assert(s[0] == before[0] && t[0] == before[0]);
    if before.len() >= 2 {
        assert(s[1] == before[1] && t[1] == before[1]);
    } else {
        assert(s[1] == end && t[1] == end);
    }
}

/// HZ-GB-2312: a line end that is read as one (rather than as the second
/// byte of a `~` line continuation) closes any GB stretch; what follows
/// reads as if it stood alone. Stated for the states the reader can be in:
/// outside a GB stretch no pairs are pending.
pub proof fn law_hz_line_end_resets_state(
    before: Seq<u8>,
    end: u8,
    after: Seq<u8>,
    gb: bool,
    run: Seq<u8>,
)
    requires
        end == 0x0A || end == 0x0D,
        gb || run.len() == 0,
        hz_reads_at(before + seq![end] + after, before.len() as int, gb),
    ensures
        hz_text(before + seq![end] + after, gb, run) == hz_text(before + seq![end], gb, run)
            + hz_text(after, false, Seq::empty()),
    decreases before.len(),
{
    let s = before + seq![end] + after;
    let t = before + seq![end];
    let rest_after = hz_text(after, false, Seq::empty());
    lemma_hz_unfold(s, gb, run);
    lemma_hz_unfold(t, gb, run);
    if before.len() == 0 {
        assert(s.skip(1) =~= after);
        assert(t.skip(1) =~= Seq::<u8>::empty());
        assert(hz_text(Seq::<u8>::empty(), false, Seq::empty()) =~= Seq::<char>::empty());
        if !gb {
            assert(run =~= Seq::<u8>::empty());
            assert(flushed(Table::Gbk, run) =~= Seq::<char>::empty());
        }
        assert(hz_text(s, gb, run) =~= hz_text(t, gb, run) + rest_after);
    } else {
        let k = hz_step_len(s, gb);
        assert(k <= before.len());
        lemma_hz_step_agrees(before, end, after, gb, run);
        let (out, g, r) = hz_step(s, gb, run);
        let nb = before.skip(k);
        assert(s.skip(k) =~= nb + seq![end] + after);
        assert(t.skip(k) =~= nb + seq![end]);
        law_hz_line_end_resets_state(nb, end, after, g, r);
        assert(hz_text(s, gb, run) =~= hz_text(t, gb, run) + rest_after);
    }
}

/// ISO-2022-KR: the announcement `ESC $ ) C` designates KS X 1001 for
/// shifted stretches, which is the only set SO can mean here; it reads as
/// nothing and changes nothing, so the text with it and without it is the
/// same.
pub proof fn law_kr_announcement_reads_as_nothing(rest: Seq<u8>, shifted: bool, run: Seq<u8>)
    ensures
        kr_text(esc_designate_ksc() + rest, shifted, run) == kr_text(rest, shifted, run),
{
    let s = esc_designate_ksc() + rest;
    assert(s.take(4) =~= esc_designate_ksc());
    assert(s.skip(4) =~= rest);
}

/// ASCII with each `~` written twice, as HZ-GB-2312 escapes a tilde.
pub open spec fn hz_escaped(s: Seq<u8>) -> Seq<u8>
    decreases s.len(),
{
    if s.len() == 0 {
        Seq::empty()
    } else if s[0] == 0x7E {
        seq![0x7Eu8, 0x7E] + hz_escaped(s.drop_first())
    } else {
        seq![s[0]] + hz_escaped(s.drop_first())
    }
}

/// HZ-GB-2312: ASCII whose tildes are escaped as `~~` reads back exactly as
/// the ASCII it was.
pub proof fn law_hz_escaped_ascii_reads_back(s: Seq<u8>)
    requires
        forall|i: int| 0 <= i < s.len() ==> #[trigger] s[i] < 0x80,
    ensures
        hz_text(hz_escaped(s), false, Seq::empty()) == latin1(s),
    decreases s.len(),
{
    if s.len() == 0 {
        assert(latin1(s) =~= Seq::<char>::empty());
        assert(flushed(Table::Gbk, Seq::empty()) =~= Seq::<char>::empty());
    } else {
        let tail = s.drop_first();
        assert forall|i: int| 0 <= i < tail.len() implies #[trigger] tail[i] < 0x80 by {
            assert(tail[i] == s[i + 1]);
        }
        law_hz_escaped_ascii_reads_back(tail);
        let e = hz_escaped(s);
        assert(latin1(s) =~= seq![s[0] as char] + latin1(tail));
        assert(flushed(Table::Gbk, Seq::empty()) =~= Seq::<char>::empty());
        if s[0] == 0x7E {
            assert(e[0] == 0x7E && e[1] == 0x7E);
            assert(e.skip(2) =~= hz_escaped(tail));
        } else {
            assert(e[0] == s[0]);
            assert(e.drop_first() =~= hz_escaped(tail));
        }
    }
}

/// ISO-2022-KR: inside a shifted stretch, a byte that is neither a control
/// of the encoding nor the start of a pair is read as itself, and the
/// stretch stays open after it: only SI or a line end shifts out, so
/// sending SO again right after such a byte changes nothing.
pub proof fn law_kr_lone_byte_keeps_the_shift(b: u8, rest: Seq<u8>, run: Seq<u8>)
    requires
        b != 0x1B && b != 0x0E && b != 0x0F && b != 0x0D && b != 0x0A,
        !is_septet_byte(b),
    ensures
        kr_text(seq![b] + rest, true, run) == kr_text(seq![b, 0x0Eu8] + rest, true, run),
        kr_text(seq![b] + rest, true, run) == flushed(Table::EucKr, run) + seq![seven_bit_char(b)]
            + kr_text(rest, true, Seq::empty()),
{
    let s1 = seq![b] + rest;
    let s2 = seq![b, 0x0Eu8] + rest;
    let so_rest = seq![0x0Eu8] + rest;
    assert(s1[0] == b && s2[0] == b);
    assert(s1.drop_first() =~= rest);
    assert(s2.drop_first() =~= so_rest);
    assert(so_rest[0] == 0x0E);
    assert(so_rest.drop_first() =~= rest);
    let tail = kr_text(rest, true, Seq::empty());
    assert(kr_text(so_rest, true, Seq::empty()) == tail);
    assert(kr_text(s2, true, run) == flushed(Table::EucKr, run) + seq![seven_bit_char(b)] + kr_text(
        so_rest,
        true,
        Seq::empty(),
    ));
}

/// HZ-GB-2312: a line end after the last byte reads as itself after
/// whatever came before, pending pairs of an open stretch included (the
/// end of input decodes them just as a line end does). A `~` right before
/// the line end would join it as a line continuation, so the text may not
/// end with one.
proof fn lemma_hz_trailing_line_end(s: Seq<u8>, gb: bool, run: Seq<u8>)
    requires
        !gb ==> run.len() == 0,
        s.len() == 0 || s.last() != 0x7E,
    ensures
        hz_text(s + seq![0x0Au8], gb, run) == hz_text(s, gb, run) + seq!['\n'],
    decreases s.len(),
{
    let t = s + seq![0x0Au8];
    assert(seven_bit_char(0x0Au8) == '\n');
    assert((0x0Au8 as char) == '\n');
    if s.len() == 0 {
        assert(t[0] == 0x0A);
        assert(t.drop_first() =~= Seq::<u8>::empty());
        assert(flushed(Table::Gbk, Seq::<u8>::empty()) =~= Seq::<char>::empty());
        let e = hz_text(Seq::<u8>::empty(), false, Seq::empty());
        assert(e =~= Seq::<char>::empty());
        assert(hz_text(s, gb, run) == flushed(Table::Gbk, run));
        if gb {
            assert(hz_text(t, gb, run) == flushed(Table::Gbk, run) + seq!['\n'] + e);
        } else {
            assert(run =~= Seq::<u8>::empty());
            assert(flushed(Table::Gbk, run) =~= Seq::<char>::empty());
            assert(hz_text(t, gb, run) == seq!['\n'] + hz_text(Seq::<u8>::empty(), false, run));
        }
        assert(hz_text(t, gb, run) =~= hz_text(s, gb, run) + seq!['\n']);
    } else {
        let b = s[0];
        let tail = s.drop_first();
        assert(t[0] == b);
        assert(t.drop_first() =~= tail + seq![0x0Au8]);
        if tail.len() > 0 {
            assert(tail.last() == s.last());
        }
        assert(flushed(Table::Gbk, Seq::<u8>::empty()) =~= Seq::<char>::empty());
        if s.len() >= 2 {
            assert(t[1] == s[1]);
            assert(t.skip(2) =~= s.skip(2) + seq![0x0Au8]);
            if s.skip(2).len() > 0 {
                assert(s.skip(2).last() == s.last());
            }
        } else {
            assert(t[1] == 0x0A);
        }
        if b == 0x7E {
            assert(s.len() >= 2);
            if s[1] == 0x7B && !gb {
                lemma_hz_trailing_line_end(s.skip(2), true, run);
            } else if s[1] == 0x7D && gb {
                lemma_hz_trailing_line_end(s.skip(2), false, Seq::empty());
                assert(hz_text(t, gb, run) =~= hz_text(s, gb, run) + seq!['\n']);
            } else if s[1] == 0x7E {
                lemma_hz_trailing_line_end(s.skip(2), gb, Seq::empty());
                assert(hz_text(t, gb, run) =~= hz_text(s, gb, run) + seq!['\n']);
            } else if s[1] == 0x0A {
                lemma_hz_trailing_line_end(s.skip(2), gb, run);
            } else if gb {
                lemma_hz_trailing_line_end(tail, gb, run);
            } else {
                lemma_hz_trailing_line_end(tail, gb, run);
                assert(hz_text(t, gb, run) =~= hz_text(s, gb, run) + seq!['\n']);
            }
        } else if !gb {
            lemma_hz_trailing_line_end(tail, false, run);
            assert(hz_text(t, gb, run) =~= hz_text(s, gb, run) + seq!['\n']);
        } else if b == 0x0D || b == 0x0A {
            lemma_hz_trailing_line_end(tail, false, Seq::empty());
            assert(hz_text(t, gb, run) =~= hz_text(s, gb, run) + seq!['\n']);
        } else if is_septet_byte(b) && s.len() >= 2 && is_septet_byte(s[1]) {
            lemma_hz_trailing_line_end(s.skip(2), true, run + seq![s[0] | 0x80, s[1] | 0x80]);
        } else {
            lemma_hz_trailing_line_end(tail, true, Seq::empty());
            assert(hz_text(t, gb, run) =~= hz_text(s, gb, run) + seq!['\n']);
        }
    }
}

/// HZ-GB-2312: the end of the input closes whatever is open. Text that does
/// not end in `~` reads the same with a line end added after it, plus that
/// line end: a stretch cut off before its `~}` still yields its pairs.
pub proof fn law_hz_end_of_input_reads_like_a_line_end(s: Seq<u8>)
    requires
        s.len() == 0 || s.last() != 0x7E,
    ensures
        hz_text(s + seq![0x0Au8], false, Seq::empty()) == hz_text(s, false, Seq::empty()) + seq![
            '\n',
        ],
{
    lemma_hz_trailing_line_end(s, false, Seq::empty());
}

/// ISO-2022-CN: as in ISO-2022-KR, a byte inside a shifted stretch that is
/// neither a control of the encoding nor the start of a pair is read as
/// itself and leaves the stretch and its designation in force: sending SO
/// again right after it changes nothing.
pub proof fn law_cn_lone_byte_keeps_the_shift(b: u8, rest: Seq<u8>, g1: Option<G1Set>, run: Seq<u8>)
    requires
        b != 0x1B && b != 0x0E && b != 0x0F && b != 0x0D && b != 0x0A,
        !is_septet_byte(b),
    ensures
        cn_text(seq![b] + rest, g1, true, run) == cn_text(seq![b, 0x0Eu8] + rest, g1, true, run),
        cn_text(seq![b] + rest, g1, true, run) == flushed(Table::Gbk, run) + seq![seven_bit_char(b)]
            + cn_text(rest, g1, true, Seq::empty()),
{
    let s1 = seq![b] + rest;
    let s2 = seq![b, 0x0Eu8] + rest;
    let so_rest = seq![0x0Eu8] + rest;
    assert(s1[0] == b && s2[0] == b);
    assert(s1.drop_first() =~= rest);
    assert(s2.drop_first() =~= so_rest);
    assert(so_rest[0] == 0x0E);
    assert(so_rest.drop_first() =~= rest);
    let tail = cn_text(rest, g1, true, Seq::empty());
    assert(cn_text(so_rest, g1, true, Seq::empty()) == tail);
    assert(cn_text(s2, g1, true, run) == flushed(Table::Gbk, run) + seq![seven_bit_char(b)]
        + cn_text(so_rest, g1, true, Seq::empty()));
}

} // verus!
