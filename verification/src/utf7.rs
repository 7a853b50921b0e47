//! UTF-7 as mail spells it (RFC 2152).
//!
//! Text runs as ASCII until a `+`, which opens a run of modified base64
//! standing for UTF-16BE code units. The run closes at a `-`, which is
//! absorbed, or at any byte that cannot be base64, which is kept. `+-` is a
//! literal plus sign. Malformed input degrades to the text around it: the
//! decoder is total.

use vstd::prelude::*;
use vstd::arithmetic::power2::*;
use vstd::arithmetic::div_mod::*;
use crate::base64_text::b64_symbol;
use crate::text::{
    chars_of, equals_ignoring_ascii_case, lemma_encode_utf8_concat, lemma_scalar_width,
    same_ignoring_ascii_case, seven_bit_char,
};

verus! {

/// The labels that name UTF-7.
pub open spec fn is_utf7_label(label: Seq<char>) -> bool {
    ||| same_ignoring_ascii_case(label, "utf-7"@)
    ||| same_ignoring_ascii_case(label, "utf7"@)
    ||| same_ignoring_ascii_case(label, "unicode-1-1-utf-7"@)
    ||| same_ignoring_ascii_case(label, "csunicode11utf7"@)
    ||| same_ignoring_ascii_case(label, "x-unicode-2-0-utf-7"@)
}

/// A byte of the base64 alphabet.
pub open spec fn is_b64_byte(b: u8) -> bool {
    ||| 0x41 <= b <= 0x5A
    ||| 0x61 <= b <= 0x7A
    ||| 0x30 <= b <= 0x39
    ||| b == 0x2B
    ||| b == 0x2F
}

/// The six bits a base64 byte stands for.
pub open spec fn b64_sextet(b: u8) -> nat {
    if 0x41 <= b <= 0x5A {
        (b - 0x41) as nat
    } else if 0x61 <= b <= 0x7A {
        (b - 0x61 + 26) as nat
    } else if 0x30 <= b <= 0x39 {
        (b - 0x30 + 52) as nat
    } else if b == 0x2B {
        62
    } else {
        63
    }
}

/// How many base64 bytes the sequence starts with.
pub open spec fn b64_run_len(s: Seq<u8>) -> nat
    decreases s.len(),
{
    if s.len() > 0 && is_b64_byte(s[0]) {
        1 + b64_run_len(s.drop_first())
    } else {
        0
    }
}

pub proof fn lemma_run_len_bound(s: Seq<u8>)
    ensures
        b64_run_len(s) <= s.len(),
    decreases s.len(),
{
    if s.len() > 0 && is_b64_byte(s[0]) {
        lemma_run_len_bound(s.drop_first());
    }
}

/// The run read as one big-endian number, six bits per byte.
pub open spec fn run_value(run: Seq<u8>) -> nat
    decreases run.len(),
{
    if run.len() == 0 {
        0
    } else {
        run_value(run.drop_last()) * 64 + b64_sextet(run.last())
    }
}

/// The UTF-16 code units a run carries: unit `k` is bits `16k .. 16k + 16`
/// of the run's `6n` bits, most significant first. Bits left over after the
/// last whole unit are padding.
pub open spec fn utf16_units(run: Seq<u8>) -> Seq<u16> {
    let n = 6 * run.len();
    Seq::new(
        n / 16,
        |k: int| ((run_value(run) / pow2((n - 16 * k - 16) as nat)) % 0x10000) as u16,
    )
}

pub open spec fn is_lead_surrogate(u: u16) -> bool {
    0xD800 <= u <= 0xDBFF
}

pub open spec fn is_trail_surrogate(u: u16) -> bool {
    0xDC00 <= u <= 0xDFFF
}

/// The character a surrogate pair stands for.
pub open spec fn pair_scalar(lead: u16, trail: u16) -> u32 {
    (0x10000 + (lead - 0xD800) * 0x400 + (trail - 0xDC00)) as u32
}

/// UTF-16 decoding in which every unpaired surrogate becomes U+FFFD.
pub open spec fn utf16_text(u: Seq<u16>) -> Seq<char>
    decreases u.len(),
{
    if u.len() == 0 {
        Seq::empty()
    } else if is_lead_surrogate(u[0]) && u.len() >= 2 && is_trail_surrogate(u[1]) {
        seq![pair_scalar(u[0], u[1]) as char] + utf16_text(u.subrange(2, u.len() as int))
    } else if 0xD800 <= u[0] <= 0xDFFF {
        seq!['\u{FFFD}'] + utf16_text(u.drop_first())
    } else {
        seq![(u[0] as u32) as char] + utf16_text(u.drop_first())
    }
}

/// The text a UTF-7 byte sequence stands for.
pub open spec fn utf7_text(s: Seq<u8>) -> Seq<char>
    decreases s.len(),
{
    if s.len() == 0 {
        Seq::empty()
    } else if s[0] != 0x2B {
        seq![seven_bit_char(s[0])] + utf7_text(s.drop_first())
    } else if s.len() >= 2 && s[1] == 0x2D {
        seq!['+'] + utf7_text(s.subrange(2, s.len() as int))
    } else {
        let k = b64_run_len(s.drop_first()) as int;
        proof {
            lemma_run_len_bound(s.drop_first());
        }
        if k == 0 {
            seq!['+'] + utf7_text(s.drop_first())
        } else {
            let rest = s.subrange(1 + k, s.len() as int);
            utf16_text(utf16_units(s.subrange(1, 1 + k))) + if rest.len() > 0 && rest[0] == 0x2D {
                utf7_text(rest.drop_first())
            } else {
                utf7_text(rest)
            }
        }
    }
}

/// Whether this label names UTF-7.
pub fn is_utf7(label: &str) -> (r: bool)
    ensures
        r == is_utf7_label(label@),
{
    let chars = chars_of(label);
    let n = chars.len();
    assert(chars@.subrange(0, n as int) =~= label@);
    equals_ignoring_ascii_case(&chars, 0, n, "utf-7") || equals_ignoring_ascii_case(
        &chars,
        0,
        n,
        "utf7",
    ) || equals_ignoring_ascii_case(&chars, 0, n, "unicode-1-1-utf-7")
        || equals_ignoring_ascii_case(&chars, 0, n, "csunicode11utf7")
        || equals_ignoring_ascii_case(&chars, 0, n, "x-unicode-2-0-utf-7")
}

fn is_b64(b: u8) -> (r: bool)
    ensures
        r == is_b64_byte(b),
{
    (0x41 <= b && b <= 0x5A) || (0x61 <= b && b <= 0x7A) || (0x30 <= b && b <= 0x39) || b == 0x2B
        || b == 0x2F
}

fn b64_val(b: u8) -> (r: Option<u32>)
    ensures
        r is Some <==> is_b64_byte(b),
        r matches Some(v) ==> v == b64_sextet(b) && v < 64,
{
    if 0x41 <= b && b <= 0x5A {
        Some((b - 0x41) as u32)
    } else if 0x61 <= b && b <= 0x7A {
        Some((b - 0x61) as u32 + 26)
    } else if 0x30 <= b && b <= 0x39 {
        Some((b - 0x30) as u32 + 52)
    } else if b == 0x2B {
        Some(62)
    } else if b == 0x2F {
        Some(63)
    } else {
        None
    }
}

/// `2^n` for a small `n`.
fn pow2_u32(n: u32) -> (r: u32)
    requires
        n < 32,
    ensures
        r == pow2(n as nat),
{
    proof {
        vstd::bits::lemma_u32_pow2_no_overflow(n as nat);
        vstd::bits::lemma_u32_shl_is_mul(1, n);
    }
    1u32 << n
}

/// Appending a sextet keeps what the earlier bits say.
proof fn lemma_shifted_quotient(x: nat, v: nat, e: nat)
    requires
        v < 64,
    ensures
        (x * 64 + v) / pow2(e + 6) == x / pow2(e),
{
    lemma_pow2_adds(e, 6);
    lemma2_to64();
    lemma_pow2_pos(e);
    lemma_div_denominator((x * 64 + v) as int, 64, pow2(e) as int);
    lemma_fundamental_div_mod_converse((x * 64 + v) as int, 64, x as int, v as int);
    assert(64 * pow2(e) == pow2(e) * 64) by (nonlinear_arith);
}

/// The accumulator keeps the low bits of the run value.
proof fn lemma_accumulate(rv: nat, acc: nat, v: nat, b: nat)
    requires
        v < 64,
        acc == rv % pow2(b),
    ensures
        acc * 64 + v == (rv * 64 + v) % pow2(b + 6),
        acc * 64 + v < pow2(b + 6),
{
    lemma_pow2_adds(b, 6);
    lemma2_to64();
    lemma_pow2_pos(b);
    let p = pow2(b) as int;
    let q = rv as int / p;
    lemma_fundamental_div_mod(rv as int, p);
    assert(acc < p) by {
        lemma_mod_bound(rv as int, p);
    }
    assert(acc * 64 + v < p * 64) by (nonlinear_arith)
        requires
            acc < p,
            v < 64,
    ;
    assert(rv * 64 + v == q * (p * 64) + (acc * 64 + v)) by (nonlinear_arith)
        requires
            rv == p * q + acc,
    ;
    lemma_fundamental_div_mod_converse((rv * 64 + v) as int, p * 64, q, (acc * 64 + v) as int);
}

/// Splitting the accumulator into a whole unit and what is left.
proof fn lemma_split_unit(rv: nat, acc: nat, rest_bits: nat)
    requires
        acc == rv % pow2(rest_bits + 16),
    ensures
        acc / pow2(rest_bits) == (rv / pow2(rest_bits)) % 0x10000,
        acc % pow2(rest_bits) == rv % pow2(rest_bits),
{
    let y = pow2(rest_bits) as int;
    lemma_pow2_pos(rest_bits);
    lemma_pow2_adds(rest_bits, 16);
    lemma2_to64();
    lemma_mod_breakdown(rv as int, y, 0x10000);
    lemma_mod_bound(rv as int, y);
    let hi = (rv as int / y) % 0x10000;
    let lo = rv as int % y;
    assert(acc == hi * y + lo) by (nonlinear_arith)
        requires
            acc == y * hi + lo,
    ;
    lemma_fundamental_div_mod_converse(acc as int, y, hi, lo);
}

/// The code units of a run, from its base64 bytes.
fn run_units(run: &[u8]) -> (units: Vec<u16>)
    requires
        forall|j: int| 0 <= j < run@.len() ==> is_b64_byte(#[trigger] run@[j]),
    ensures
        units@ == utf16_units(run@),
{
    let mut acc: u32 = 0;
    let mut bits: u32 = 0;
    let mut units: Vec<u16> = Vec::new();
    let mut i: usize = 0;
    proof {
        lemma2_to64();
        assert(utf16_units(run@.take(0)) =~= Seq::<u16>::empty());
    }
    while i < run.len()
        invariant
            i <= run@.len(),
            forall|j: int| 0 <= j < run@.len() ==> is_b64_byte(#[trigger] run@[j]),
            units@.len() * 16 + bits == 6 * i,
            bits < 16,
            acc == run_value(run@.take(i as int)) % pow2(bits as nat),
            units@ == utf16_units(run@.take(i as int)),
        decreases run@.len() - i,
    {
        let v = match b64_val(run[i]) {
            Some(v) => v,
            None => 0,
        };
        let ghost prefix = run@.take(i as int);
        let ghost next = run@.take(i + 1);
        let ghost old_units = units@;
        let ghost old_bits = bits;
        assert(next.drop_last() =~= prefix);
        assert(next.last() == run@[i as int]);
        assert(run_value(next) == run_value(prefix) * 64 + v);
        proof {
            lemma_accumulate(run_value(prefix), acc as nat, v as nat, bits as nat);
            lemma_pow2_strictly_increases((bits + 6) as nat, 32);
            lemma2_to64();
            lemma2_to64_rest();
        }
        acc = acc * 64 + v;
        bits = bits + 6;
        if bits >= 16 {
            bits = bits - 16;
            let p = pow2_u32(bits);
            proof {
                lemma_split_unit(run_value(next), acc as nat, bits as nat);
                lemma_pow2_pos(bits as nat);
                lemma_pow2_adds(bits as nat, 16);
            }
            let unit = acc / p;
            assert(unit < 0x10000) by {
                lemma_multiply_divide_lt(acc as int, pow2(bits as nat) as int, 0x10000);
            }
            units.push(unit as u16);
            acc = acc % p;
        }
        proof {
            let n2 = 6 * (i + 1);
            assert(n2 / 16 == units@.len()) by {
                lemma_fundamental_div_mod_converse(n2 as int, 16, units@.len() as int, bits as int);
            }
            assert forall|k: int| 0 <= k < old_units.len() implies #[trigger] units@[k] == utf16_units(next)[k] by {
                let e = (6 * i - 16 * k - 16) as nat;
                lemma_shifted_quotient(run_value(prefix), v as nat, e);
                assert((6 * (i + 1) - 16 * k - 16) as nat == e + 6);
            }
            assert(units@ =~= utf16_units(next));
        }
        i = i + 1;
    }
    assert(run@.take(i as int) =~= run@);
    units
}

/// Appends UTF-16 code units as text; an unpaired surrogate becomes U+FFFD.
fn push_utf16(units: &Vec<u16>, out: &mut String)
    ensures
        final(out)@ == old(out)@ + utf16_text(units@),
{
    let ghost start = out@;
    let mut k: usize = 0;
    assert(units@.skip(0) =~= units@);
    while k < units.len()
        invariant
            k <= units@.len(),
            out@ + utf16_text(units@.skip(k as int)) == start + utf16_text(units@),
        decreases units@.len() - k,
    {
        let u = units[k];
        let ghost rest = units@.skip(k as int);
        if 0xD800 <= u && u <= 0xDBFF && k + 1 < units.len() && 0xDC00 <= units[k + 1]
            && units[k + 1] <= 0xDFFF {
            let t = units[k + 1];
            let v: u32 = 0x10000 + ((u - 0xD800) as u32) * 0x400 + ((t - 0xDC00) as u32);
            let c = match char::from_u32(v) {
                Some(c) => c,
                None => '\u{FFFD}',
            };
            proof {
                assert(v == pair_scalar(u, t));
                vstd::utf8::char_u32_cast(c, v);
                assert(rest.subrange(2, rest.len() as int) =~= units@.skip(k + 2));
            }
            out.push(c);
            k = k + 2;
        } else if 0xD800 <= u && u <= 0xDFFF {
            assert(rest.drop_first() =~= units@.skip(k + 1));
            out.push('\u{FFFD}');
            k = k + 1;
        } else {
            let v = u as u32;
            let c = match char::from_u32(v) {
                Some(c) => c,
                None => '\u{FFFD}',
            };
            proof {
                vstd::utf8::char_u32_cast(c, v);
                assert(rest.drop_first() =~= units@.skip(k + 1));
            }
            out.push(c);
            k = k + 1;
        }
    }
}

/// One `+…` run: modified base64 of UTF-16BE code units.
fn push_shifted(run: &[u8], out: &mut String)
    requires
        forall|j: int| 0 <= j < run@.len() ==> is_b64_byte(#[trigger] run@[j]),
    ensures
        final(out)@ == old(out)@ + utf16_text(utf16_units(run@)),
{
    let units = run_units(run);
    push_utf16(&units, out);
}

/// Decodes UTF-7. Never fails: malformed input degrades to the text around it.
pub fn decode(bytes: &[u8]) -> (text: String)
    ensures
        text@ == utf7_text(bytes@),
{
    let mut out = String::new();
    let mut i: usize = 0;
    let n = bytes.len();
    assert(bytes@.skip(0) =~= bytes@);
    while i < n
        invariant
            n == bytes@.len(),
            i <= n,
            out@ + utf7_text(bytes@.skip(i as int)) == utf7_text(bytes@),
        decreases n - i,
    {
        let ghost s = bytes@.skip(i as int);
        let b = bytes[i];
        if b != 0x2B {
            assert(s.drop_first() =~= bytes@.skip(i + 1));
            if b < 0x80 {
                out.push(b as char);
            } else {
                out.push('\u{FFFD}');
            }
            i = i + 1;
            continue;
        }
        i = i + 1;
        if i < n && bytes[i] == 0x2D {
            assert(s.subrange(2, s.len() as int) =~= bytes@.skip(i + 1));
            out.push('+');
            i = i + 1;
            continue;
        }
        let start = i;
        assert(s.drop_first() =~= bytes@.skip(start as int));
        while i < n && is_b64(bytes[i])
            invariant
                n == bytes@.len(),
                start <= i <= n,
                b64_run_len(bytes@.skip(start as int)) == (i - start) + b64_run_len(
                    bytes@.skip(i as int),
                ),
                forall|j: int| start <= j < i ==> is_b64_byte(#[trigger] bytes@[j]),
            decreases n - i,
        {
            assert(bytes@.skip(i as int).drop_first() =~= bytes@.skip(i + 1));
            i = i + 1;
        }
        if i == start {
            out.push('+');
            continue;
        }
        let run = &bytes[start..i];
        assert(run@ =~= s.subrange(1, 1 + (i - start)));
        push_shifted(run, &mut out);
        assert(s.subrange(1 + (i - start), s.len() as int) =~= bytes@.skip(i as int));
        if i < n && bytes[i] == 0x2D {
            assert(bytes@.skip(i as int).drop_first() =~= bytes@.skip(i + 1));
            i = i + 1;
        }
    }
    out
}

proof fn lemma_run_len_of_run(r: Seq<u8>, t: Seq<u8>)
    requires
        forall|j: int| 0 <= j < r.len() ==> is_b64_byte(#[trigger] r[j]),
        t.len() > 0 ==> !is_b64_byte(t[0]),
    ensures
        b64_run_len(r + t) == r.len(),
    decreases r.len(),
{
    if r.len() == 0 {
        assert(r + t =~= t);
    } else {
        assert((r + t).drop_first() =~= r.drop_first() + t);
        lemma_run_len_of_run(r.drop_first(), t);
    }
}

/// Text with no `+` in it is read byte for byte: ASCII as itself, anything
/// higher as U+FFFD, and whatever follows is read as if on its own.
pub proof fn law_plain_text_reads_byte_for_byte(plain: Seq<u8>, rest: Seq<u8>)
    requires
        forall|j: int| 0 <= j < plain.len() ==> #[trigger] plain[j] != 0x2B,
    ensures
        utf7_text(plain + rest) == plain.map_values(|b: u8| seven_bit_char(b)) + utf7_text(rest),
    decreases plain.len(),
{
    if plain.len() == 0 {
        assert(plain + rest =~= rest);
        assert(plain.map_values(|b: u8| seven_bit_char(b)) =~= Seq::<char>::empty());
        assert(Seq::<char>::empty() + utf7_text(rest) =~= utf7_text(rest));
    } else {
        let tail = plain.drop_first();
        assert((plain + rest).drop_first() =~= tail + rest);
        law_plain_text_reads_byte_for_byte(tail, rest);
        assert(plain.map_values(|b: u8| seven_bit_char(b)) =~= seq![seven_bit_char(plain[0])]
            + tail.map_values(|b: u8| seven_bit_char(b)));
    }
}

/// A shifted run closed by `-` decodes on its own: the `-` is absorbed and
/// the text after it reads as if nothing had come before.
pub proof fn law_closed_run_stands_alone(run: Seq<u8>, rest: Seq<u8>)
    requires
        run.len() > 0,
        forall|j: int| 0 <= j < run.len() ==> is_b64_byte(#[trigger] run[j]),
    ensures
        utf7_text(seq![0x2Bu8] + run + seq![0x2Du8] + rest) == utf16_text(utf16_units(run))
            + utf7_text(rest),
{
    let s = seq![0x2Bu8] + run + seq![0x2Du8] + rest;
    let after = seq![0x2Du8] + rest;
    assert(s.drop_first() =~= run + after);
    lemma_run_len_of_run(run, after);
    assert(s.subrange(1, 1 + run.len() as int) =~= run);
    assert(s.subrange(1 + run.len() as int, s.len() as int) =~= after);
    assert(after.drop_first() =~= rest);
    assert(s[1] == run[0]);
}

proof fn lemma_utf16_text_len(u: Seq<u16>)
    ensures
        utf16_text(u).len() <= u.len(),
    decreases u.len(),
{
    if u.len() > 0 {
        if is_lead_surrogate(u[0]) && u.len() >= 2 && is_trail_surrogate(u[1]) {
            lemma_utf16_text_len(u.subrange(2, u.len() as int));
        } else {
            lemma_utf16_text_len(u.drop_first());
        }
    }
}

/// Decoding never yields more characters than there are input bytes: the
/// output grows in proportion to the input, whatever the input holds.
pub proof fn law_utf7_output_is_bounded_by_input(s: Seq<u8>)
    ensures
        utf7_text(s).len() <= s.len(),
    decreases s.len(),
{
    if s.len() > 0 {
        if s[0] != 0x2B {
            law_utf7_output_is_bounded_by_input(s.drop_first());
        } else if s.len() >= 2 && s[1] == 0x2D {
            law_utf7_output_is_bounded_by_input(s.subrange(2, s.len() as int));
        } else {
            let k = b64_run_len(s.drop_first()) as int;
            lemma_run_len_bound(s.drop_first());
            if k == 0 {
                law_utf7_output_is_bounded_by_input(s.drop_first());
            } else {
                let run = s.subrange(1, 1 + k);
                let rest = s.subrange(1 + k, s.len() as int);
                lemma_utf16_text_len(utf16_units(run));
                assert(utf16_units(run).len() <= k) by {
                    assert((6 * run.len()) / 16 <= run.len());
                }
                if rest.len() > 0 && rest[0] == 0x2D {
                    law_utf7_output_is_bounded_by_input(rest.drop_first());
                } else {
                    law_utf7_output_is_bounded_by_input(rest);
                }
            }
        }
    }
}

proof fn lemma_encode_cons(c: char, rest: Seq<char>)
    ensures
        vstd::utf8::encode_utf8(seq![c] + rest).len() == vstd::utf8::encode_scalar(c as u32).len()
            + vstd::utf8::encode_utf8(rest).len(),
{
    lemma_encode_utf8_concat(seq![c], rest);
    let one = seq![c];
    assert(one[0] == c);
    assert(one.drop_first() =~= Seq::<char>::empty());
    assert(vstd::utf8::encode_utf8(one.drop_first()) =~= Seq::<u8>::empty());
    assert(vstd::utf8::encode_utf8(one) =~= vstd::utf8::encode_scalar(c as u32));
}

proof fn lemma_utf16_utf8_len(u: Seq<u16>)
    ensures
        vstd::utf8::encode_utf8(utf16_text(u)).len() <= 3 * u.len(),
    decreases u.len(),
{
    if u.len() > 0 {
        if is_lead_surrogate(u[0]) && u.len() >= 2 && is_trail_surrogate(u[1]) {
            let tail = u.subrange(2, u.len() as int);
            lemma_utf16_utf8_len(tail);
            let c = pair_scalar(u[0], u[1]) as char;
            lemma_encode_cons(c, utf16_text(tail));
            lemma_scalar_width(c);
        } else if 0xD800 <= u[0] <= 0xDFFF {
            let tail = u.drop_first();
            lemma_utf16_utf8_len(tail);
            lemma_encode_cons('\u{FFFD}', utf16_text(tail));
            lemma_scalar_width('\u{FFFD}');
        } else {
            let tail = u.drop_first();
            lemma_utf16_utf8_len(tail);
            let c = (u[0] as u32) as char;
            lemma_encode_cons(c, utf16_text(tail));
            lemma_scalar_width(c);
            assert((c as u32) <= 0xFFFF);
        }
    }
}

/// Decoding never yields more than three bytes of UTF-8 per input byte.
pub proof fn law_utf7_utf8_is_at_most_three_bytes_per_input_byte(s: Seq<u8>)
    ensures
        vstd::utf8::encode_utf8(utf7_text(s)).len() <= 3 * s.len(),
    decreases s.len(),
{
    if s.len() > 0 {
        if s[0] != 0x2B {
            law_utf7_utf8_is_at_most_three_bytes_per_input_byte(s.drop_first());
            lemma_encode_cons(seven_bit_char(s[0]), utf7_text(s.drop_first()));
            lemma_scalar_width(seven_bit_char(s[0]));
        } else if s.len() >= 2 && s[1] == 0x2D {
            law_utf7_utf8_is_at_most_three_bytes_per_input_byte(s.subrange(2, s.len() as int));
            lemma_encode_cons('+', utf7_text(s.subrange(2, s.len() as int)));
            lemma_scalar_width('+');
        } else {
            let k = b64_run_len(s.drop_first()) as int;
            lemma_run_len_bound(s.drop_first());
            if k == 0 {
                law_utf7_utf8_is_at_most_three_bytes_per_input_byte(s.drop_first());
                lemma_encode_cons('+', utf7_text(s.drop_first()));
                lemma_scalar_width('+');
            } else {
                let run = s.subrange(1, 1 + k);
                let rest = s.subrange(1 + k, s.len() as int);
                let units = utf16_units(run);
                lemma_utf16_utf8_len(units);
                assert(units.len() <= k) by {
                    assert((6 * run.len()) / 16 <= run.len());
                }
                let after = if rest.len() > 0 && rest[0] == 0x2D {
                    rest.drop_first()
                } else {
                    rest
                };
                law_utf7_utf8_is_at_most_three_bytes_per_input_byte(after);
                lemma_encode_utf8_concat(utf16_text(units), utf7_text(after));
            }
        }
    }
}

/// The `k` base64 symbols that write the low `6k` bits of `n`, most
/// significant first.
pub open spec fn b64_digits(n: nat, k: nat) -> Seq<u8>
    decreases k,
{
    if k == 0 {
        Seq::empty()
    } else {
        b64_digits(n / 64, (k - 1) as nat).push(b64_symbol(n % 64))
    }
}

proof fn lemma_b64_symbol(v: nat)
    requires
        v < 64,
    ensures
        is_b64_byte(b64_symbol(v)),
        b64_sextet(b64_symbol(v)) == v,
{
}

proof fn lemma_b64_digits(n: nat, k: nat)
    ensures
        b64_digits(n, k).len() == k,
        forall|j: int| 0 <= j < k ==> is_b64_byte(#[trigger] b64_digits(n, k)[j]),
        run_value(b64_digits(n, k)) == n % pow2(6 * k),
    decreases k,
{
    if k == 0 {
        lemma2_to64();
    } else {
        let km = (k - 1) as nat;
        let d = b64_digits(n / 64, km);
        lemma_b64_digits(n / 64, km);
        lemma_b64_symbol(n % 64);
        let full = d.push(b64_symbol(n % 64));
        assert(full.drop_last() =~= d);
        assert forall|j: int| 0 <= j < k implies is_b64_byte(#[trigger] full[j]) by {
            if j < km {
                assert(full[j] == d[j]);
            }
        }
        lemma2_to64();
        lemma_pow2_pos(6 * km);
        lemma_pow2_adds(6 * km, 6);
        assert(6 * k == 6 * km + 6);
        lemma_breakdown(n as int, 64, pow2(6 * km) as int);
        assert(pow2(6 * km) * 64 == 64 * pow2(6 * km)) by (nonlinear_arith);
    }
}

/// UTF-16 code units read as one big-endian number, sixteen bits per unit.
pub open spec fn units_value(u: Seq<u16>) -> nat
    decreases u.len(),
{
    if u.len() == 0 {
        0
    } else {
        units_value(u.drop_last()) * 0x10000 + u.last() as nat
    }
}

proof fn lemma_units_value(u: Seq<u16>)
    ensures
        units_value(u) < pow2(16 * u.len()),
        forall|i: int|
            0 <= i < u.len() ==> (units_value(u) / pow2((16 * (u.len() - 1 - i)) as nat)) % 0x10000
                == #[trigger] u[i] as nat,
    decreases u.len(),
{
    lemma2_to64();
    if u.len() > 0 {
        let init = u.drop_last();
        lemma_units_value(init);
        let v0 = units_value(init);
        let p = pow2(16 * init.len());
        lemma_pow2_adds(16 * init.len(), 16);
        assert(16 * u.len() == 16 * init.len() + 16);
        assert(v0 * 0x10000 + u.last() < p * 0x10000) by (nonlinear_arith)
            requires
                v0 < p,
                u.last() < 0x10000,
        ;
        let v = units_value(u);
        assert forall|i: int| 0 <= i < u.len() implies (v / pow2((16 * (u.len() - 1 - i)) as nat))
            % 0x10000 == #[trigger] u[i] as nat by {
            lemma_div_multiples_vanish_fancy(v0 as int, u.last() as int, 0x10000);
            assert(v == 0x10000 * v0 + u.last());
            if i == u.len() - 1 {
                assert((16 * (u.len() - 1 - i)) as nat == 0);
                assert(pow2(0) == 1);
                assert(v / 1 == v);
                lemma_fundamental_div_mod_converse(v as int, 0x10000, v0 as int, u.last() as int);
                assert(u[i] == u.last());
            } else {
                let e = (16 * (init.len() - 1 - i)) as nat;
                assert((16 * (u.len() - 1 - i)) as nat == 16 + e);
                lemma_pow2_adds(16, e);
                lemma_pow2_pos(e);
                lemma_div_denominator(v as int, 0x10000, pow2(e) as int);
                assert(pow2(16 + e) == 0x10000 * pow2(e));
                assert(v / 0x10000 == v0);
                assert(v / pow2(16 + e) == v0 / pow2(e));
                assert(init[i] == u[i]);
                assert((v0 / pow2(e)) % 0x10000 == init[i] as nat);
            }
        }
    }
}

/// The modified base64 that UTF-7 writes these code units as: their
/// big-endian bits (UTF-16BE), zero-padded to a whole number of sextets,
/// with no `=`.
pub open spec fn units_run(u: Seq<u16>) -> Seq<u8> {
    let k = ((16 * u.len() + 5) / 6) as nat;
    b64_digits(units_value(u) * pow2((6 * k - 16 * u.len()) as nat), k)
}

proof fn lemma_units_run(u: Seq<u16>)
    ensures
        units_run(u).len() == (16 * u.len() + 5) / 6,
        forall|j: int| 0 <= j < units_run(u).len() ==> is_b64_byte(#[trigger] units_run(u)[j]),
        utf16_units(units_run(u)) == u,
{
    let m = u.len();
    let k = ((16 * m + 5) / 6) as nat;
    lemma_fundamental_div_mod((16 * m + 5) as int, 6);
    lemma_mod_bound((16 * m + 5) as int, 6);
    assert(16 * m <= 6 * k < 16 * m + 6);
    let pad = (6 * k - 16 * m) as nat;
    let v = units_value(u);
    let n = v * pow2(pad);
    let run = units_run(u);
    lemma_b64_digits(n, k);
    lemma_units_value(u);
    lemma_pow2_pos(pad);
    lemma_pow2_adds(16 * m, pad);
    assert(6 * k == 16 * m + pad);
    assert(n < pow2(6 * k)) by (nonlinear_arith)
        requires
            v < pow2(16 * m),
            pow2(pad) > 0,
            n == v * pow2(pad),
            pow2(6 * k) == pow2(16 * m) * pow2(pad),
    ;
    lemma_small_mod(n, pow2(6 * k));
    assert(run_value(run) == n);
    assert(6 * run.len() / 16 == m) by {
        lemma_fundamental_div_mod_converse((6 * k) as int, 16, m as int, pad as int);
    }
    let units = utf16_units(run);
    assert forall|j: int| 0 <= j < m implies #[trigger] units[j] == u[j] by {
        let e = (16 * (m - 1 - j)) as nat;
        assert((6 * run.len() - 16 * j - 16) as nat == pad + e);
        lemma_pow2_adds(pad, e);
        lemma_pow2_pos(e);
        lemma_div_denominator(n as int, pow2(pad) as int, pow2(e) as int);
        lemma_div_multiples_vanish(v as int, pow2(pad) as int);
        assert(pow2(pad) * v == n) by (nonlinear_arith)
            requires
                n == v * pow2(pad),
        ;
        assert(n / pow2(pad) == v);
        assert(n / pow2(pad + e) == v / pow2(e));
        assert((v / pow2(e)) % 0x10000 == u[j] as nat);
    }
    assert(units =~= u);
}

/// A text's UTF-16: one code unit for a character of the Basic
/// Multilingual Plane, a surrogate pair for any other.
pub open spec fn utf16_of(t: Seq<char>) -> Seq<u16>
    decreases t.len(),
{
    if t.len() == 0 {
        Seq::empty()
    } else {
        let c = t[0] as u32;
        if c <= 0xFFFF {
            seq![c as u16] + utf16_of(t.drop_first())
        } else {
            seq![
                (0xD800 + (c - 0x10000) / 0x400) as u16,
                (0xDC00 + (c - 0x10000) % 0x400) as u16,
            ] + utf16_of(t.drop_first())
        }
    }
}

/// UTF-16 decoding gives back the text that was encoded.
proof fn lemma_utf16_round_trip(t: Seq<char>)
    ensures
        utf16_text(utf16_of(t)) == t,
        t.len() > 0 ==> utf16_of(t).len() > 0,
    decreases t.len(),
{
    if t.len() > 0 {
        let rest = t.drop_first();
        lemma_utf16_round_trip(rest);
        let u = utf16_of(t);
        let c = t[0] as u32;
        vstd::utf8::char_is_scalar(t[0]);
        vstd::utf8::char_u32_cast(t[0], c);
        if c <= 0xFFFF {
            assert(u[0] == c as u16);
            assert(u.drop_first() =~= utf16_of(rest));
            assert(!is_lead_surrogate(u[0]));
            assert((u[0] as u32) == c);
        } else {
            let x = (c - 0x10000) as int;
            lemma_fundamental_div_mod(x, 0x400);
            lemma_mod_bound(x, 0x400);
            let q = x / 0x400;
            let r = x % 0x400;
            assert(0 <= q < 0x400);
            assert(u[0] == (0xD800 + q) as u16);
            assert(u[1] == (0xDC00 + r) as u16);
            assert(is_lead_surrogate(u[0]) && is_trail_surrogate(u[1]));
            assert(pair_scalar(u[0], u[1]) == c);
            assert(u.subrange(2, u.len() as int) =~= utf16_of(rest));
        }
        assert(utf16_text(u) =~= t);
    }
}

proof fn lemma_run_len_of_b64(run: Seq<u8>, tail: Seq<u8>)
    requires
        forall|j: int| 0 <= j < run.len() ==> is_b64_byte(#[trigger] run[j]),
        tail.len() > 0,
        !is_b64_byte(tail[0]),
    ensures
        b64_run_len(run + tail) == run.len(),
    decreases run.len(),
{
    if run.len() == 0 {
        assert(run + tail =~= tail);
    } else {
        assert((run + tail)[0] == run[0]);
        assert((run + tail).drop_first() =~= run.drop_first() + tail);
        assert forall|j: int| 0 <= j < run.drop_first().len() implies is_b64_byte(
            #[trigger] run.drop_first()[j],
        ) by {
            assert(run.drop_first()[j] == run[j + 1]);
        }
        lemma_run_len_of_b64(run.drop_first(), tail);
    }
}

/// A `+` run holding the modified base64 of a non-empty text's UTF-16BE,
/// closed with `-`, decodes back to the text: the bits left over after the
/// last whole code unit yield no character.
pub proof fn law_utf7_run_of_a_text_reads_back(t: Seq<char>)
    requires
        t.len() > 0,
    ensures
        utf7_text(seq![0x2Bu8] + units_run(utf16_of(t)) + seq![0x2Du8]) == t,
{
    let u = utf16_of(t);
    lemma_utf16_round_trip(t);
    lemma_units_run(u);
    let run = units_run(u);
    let s = seq![0x2Bu8] + run + seq![0x2Du8];
    assert(run.len() > 0);
    assert(s[0] == 0x2B);
    assert(s[1] == run[0]);
    assert(s.drop_first() =~= run + seq![0x2Du8]);
    lemma_run_len_of_b64(run, seq![0x2Du8]);
    let k = run.len() as int;
    assert(s.subrange(1, 1 + k) =~= run);
    let rest = s.subrange(1 + k, s.len() as int);
    assert(rest =~= seq![0x2Du8]);
    assert(rest.drop_first() =~= Seq::<u8>::empty());
    assert(is_b64_byte(run[0]));
    assert(s[1] != 0x2D);
    assert(b64_run_len(s.drop_first()) == k);
    assert(rest.len() > 0 && rest[0] == 0x2D);
    assert(utf7_text(rest.drop_first()) =~= Seq::<char>::empty());
    assert(utf7_text(s) == utf16_text(utf16_units(s.subrange(1, 1 + k))) + utf7_text(
        rest.drop_first(),
    ));
    assert(utf16_text(u) + Seq::<char>::empty() =~= t);
}

} // verus!
