//! Character-level helpers shared by the decoders.

use vstd::prelude::*;

verus! {

/// `String::push` appends one character.
pub assume_specification[ String::push ](string: &mut String, ch: char)
    ensures
        final(string)@ == old(string)@.push(ch),
;

/// `String::push_str` appends the characters of a string slice.
pub assume_specification[ String::push_str ](string: &mut String, piece: &str)
    ensures
        final(string)@ == old(string)@ + piece@,
;

/// The characters of a string slice, in order.
pub fn chars_of(s: &str) -> (v: Vec<char>)
    ensures
        v@ == s@,
{
    let mut v: Vec<char> = Vec::new();
    for c in it: s.chars()
        invariant
            v@ == it.seq().take(it.index()),
            it.seq() == s@,
    {
        v.push(c);
    }
    v
}

/// `char::from_u32` gives the character with that scalar value, or `None`
/// when the value is a surrogate or above U+10FFFF.
pub assume_specification[ char::from_u32 ](i: u32) -> (c: Option<char>)
    ensures
        c is Some <==> vstd::utf8::is_scalar(i),
        c matches Some(ch) ==> ch as u32 == i,
;

/// ASCII lowercase of one character; every other character is left alone.
pub open spec fn ascii_lower(c: char) -> char {
    if 'A' <= c && c <= 'Z' {
        ((c as u32) + 32) as char
    } else {
        c
    }
}

/// The two sequences are equal once ASCII letters are folded to lower case.
pub open spec fn same_ignoring_ascii_case(a: Seq<char>, b: Seq<char>) -> bool {
    &&& a.len() == b.len()
    &&& forall|i: int| 0 <= i < a.len() ==> #[trigger] ascii_lower(a[i]) == ascii_lower(b[i])
}

/// Unicode's White_Space property, which is what `char::is_whitespace` tests.
pub open spec fn is_white_space(c: char) -> bool {
    let u = c as u32;
    ||| 0x09 <= u <= 0x0D
    ||| u == 0x20
    ||| u == 0x85
    ||| u == 0xA0
    ||| u == 0x1680
    ||| 0x2000 <= u <= 0x200A
    ||| u == 0x2028
    ||| u == 0x2029
    ||| u == 0x202F
    ||| u == 0x205F
    ||| u == 0x3000
}

/// What a trim removes: white space, or the double quote.
pub open spec fn trimmed_char(c: char, quotes: bool) -> bool {
    if quotes {
        c == '"'
    } else {
        is_white_space(c)
    }
}

/// The sequence without its leading trimmed characters.
pub open spec fn strip_front(s: Seq<char>, quotes: bool) -> Seq<char>
    decreases s.len(),
{
    if s.len() > 0 && trimmed_char(s[0], quotes) {
        strip_front(s.drop_first(), quotes)
    } else {
        s
    }
}

/// The sequence without its trailing trimmed characters.
pub open spec fn strip_back(s: Seq<char>, quotes: bool) -> Seq<char>
    decreases s.len(),
{
    if s.len() > 0 && trimmed_char(s.last(), quotes) {
        strip_back(s.drop_last(), quotes)
    } else {
        s
    }
}

/// `str::trim` (white space) or `str::trim_matches('"')` (quotes).
pub open spec fn trim_both(s: Seq<char>, quotes: bool) -> Seq<char> {
    strip_back(strip_front(s, quotes), quotes)
}

/// What comes before the first `*`, or everything when there is none.
pub open spec fn before_star(s: Seq<char>) -> Seq<char>
    decreases s.len(),
{
    if s.len() == 0 {
        s
    } else if s[0] == '*' {
        Seq::empty()
    } else {
        seq![s[0]] + before_star(s.drop_first())
    }
}

pub fn is_white_space_char(c: char) -> (r: bool)
    ensures
        r == is_white_space(c),
{
    let u = c as u32;
    (0x09 <= u && u <= 0x0D) || u == 0x20 || u == 0x85 || u == 0xA0 || u == 0x1680 || (0x2000
        <= u && u <= 0x200A) || u == 0x2028 || u == 0x2029 || u == 0x202F || u == 0x205F || u
        == 0x3000
}

pub fn to_ascii_lower(c: char) -> (r: char)
    ensures
        r == ascii_lower(c),
{
    if 'A' <= c && c <= 'Z' {
        let b = (c as u32) + 32;
        let r = ((c as u8) + 32) as char;
        proof {
            assert(r as u32 == b);
            vstd::utf8::char_u32_cast(r, b);
        }
        r
    } else {
        c
    }
}

fn is_trimmed_char(c: char, quotes: bool) -> (r: bool)
    ensures
        r == trimmed_char(c, quotes),
{
    if quotes {
        c == '"'
    } else {
        is_white_space_char(c)
    }
}

/// Trims `s[lo..hi]` at both ends; the answer is a range of `s`.
pub fn trim_range(s: &Vec<char>, lo: usize, hi: usize, quotes: bool) -> (r: (usize, usize))
    requires
        lo <= hi <= s@.len(),
    ensures
        lo <= r.0 <= r.1 <= hi,
        s@.subrange(r.0 as int, r.1 as int) == trim_both(s@.subrange(lo as int, hi as int), quotes),
{
    let mut a = lo;
    while a < hi && is_trimmed_char(s[a], quotes)
        invariant
            lo <= a <= hi <= s@.len(),
            strip_front(s@.subrange(lo as int, hi as int), quotes) == strip_front(
                s@.subrange(a as int, hi as int),
                quotes,
            ),
        decreases hi - a,
    {
        assert(s@.subrange(a as int, hi as int).drop_first() =~= s@.subrange(a + 1, hi as int));
        a = a + 1;
    }
    let mut b = hi;
    while b > a && is_trimmed_char(s[b - 1], quotes)
        invariant
            lo <= a <= b <= hi <= s@.len(),
            strip_front(s@.subrange(lo as int, hi as int), quotes) == s@.subrange(
                a as int,
                hi as int,
            ),
            trim_both(s@.subrange(lo as int, hi as int), quotes) == strip_back(
                s@.subrange(a as int, b as int),
                quotes,
            ),
        decreases b - a,
    {
        assert(s@.subrange(a as int, b as int).drop_last() =~= s@.subrange(a as int, b - 1));
        b = b - 1;
    }
    (a, b)
}

/// Where the first `*` of `s[lo..hi]` stands, or `hi`.
pub fn star_end(s: &Vec<char>, lo: usize, hi: usize) -> (r: usize)
    requires
        lo <= hi <= s@.len(),
    ensures
        lo <= r <= hi,
        s@.subrange(lo as int, r as int) == before_star(s@.subrange(lo as int, hi as int)),
{
    let mut i = lo;
    while i < hi && s[i] != '*'
        invariant
            lo <= i <= hi <= s@.len(),
            before_star(s@.subrange(lo as int, hi as int)) == s@.subrange(lo as int, i as int)
                + before_star(s@.subrange(i as int, hi as int)),
        decreases hi - i,
    {
        assert(s@.subrange(i as int, hi as int).drop_first() =~= s@.subrange(i + 1, hi as int));
        assert(s@.subrange(lo as int, i + 1) =~= s@.subrange(lo as int, i as int) + seq![s@[i as int]]);
        i = i + 1;
    }
    assert(s@.subrange(lo as int, i as int) + before_star(s@.subrange(i as int, hi as int))
        =~= s@.subrange(lo as int, i as int));
    i
}

/// Whether `s[lo..hi]` equals `known` once ASCII letters are folded.
pub fn equals_ignoring_ascii_case(s: &Vec<char>, lo: usize, hi: usize, known: &str) -> (r: bool)
    requires
        lo <= hi <= s@.len(),
    ensures
        r == same_ignoring_ascii_case(s@.subrange(lo as int, hi as int), known@),
{
    let k = chars_of(known);
    if hi - lo != k.len() {
        return false;
    }
    let mut i: usize = 0;
    while i < k.len()
        invariant
            lo <= hi <= s@.len(),
            hi - lo == k@.len(),
            k@ == known@,
            i <= k@.len(),
            forall|j: int|
                0 <= j < i ==> #[trigger] ascii_lower(s@[lo + j]) == ascii_lower(k@[j]),
        decreases k@.len() - i,
    {
        if to_ascii_lower(s[lo + i]) != to_ascii_lower(k[i]) {
            assert(ascii_lower(s@.subrange(lo as int, hi as int)[i as int]) != ascii_lower(
                known@[i as int],
            ));
            return false;
        }
        i = i + 1;
    }
    assert forall|j: int| 0 <= j < s@.subrange(lo as int, hi as int).len() implies #[trigger] ascii_lower(
        s@.subrange(lo as int, hi as int)[j],
    ) == ascii_lower(known@[j]) by {
        assert(ascii_lower(s@[lo + j]) == ascii_lower(k@[j]));
    }
    true
}

/// A byte in a seven-bit stretch: ASCII is itself, anything higher cannot be
/// seven-bit text and is marked U+FFFD.
pub open spec fn seven_bit_char(b: u8) -> char {
    if b < 0x80 {
        b as char
    } else {
        '\u{FFFD}'
    }
}

/// The byte sequence begins with `pat`.
pub open spec fn opens_with(s: Seq<u8>, pat: Seq<u8>) -> bool {
    pat.len() <= s.len() && s.take(pat.len() as int) == pat
}

/// Whether `bytes[i..]` begins with the two bytes `a b`.
pub fn at2(bytes: &[u8], i: usize, a: u8, b: u8) -> (r: bool)
    requires
        i <= bytes@.len(),
    ensures
        r == opens_with(bytes@.skip(i as int), seq![a, b]),
{
    let r = bytes.len() - i >= 2 && bytes[i] == a && bytes[i + 1] == b;
    proof {
        let s = bytes@.skip(i as int);
        if s.len() >= 2 {
            assert(r ==> s.take(2) =~= seq![a, b]);
            assert(s.take(2) == seq![a, b] ==> s.take(2)[0] == a && s.take(2)[1] == b);
        }
    }
    r
}

/// Whether `bytes[i..]` begins with the three bytes `a b c`.
pub fn at3(bytes: &[u8], i: usize, a: u8, b: u8, c: u8) -> (r: bool)
    requires
        i <= bytes@.len(),
    ensures
        r == opens_with(bytes@.skip(i as int), seq![a, b, c]),
{
    let r = bytes.len() - i >= 3 && bytes[i] == a && bytes[i + 1] == b && bytes[i + 2] == c;
    proof {
        let s = bytes@.skip(i as int);
        if s.len() >= 3 {
            assert(r ==> s.take(3) =~= seq![a, b, c]);
            assert(s.take(3) == seq![a, b, c] ==> s.take(3)[0] == a && s.take(3)[1] == b
                && s.take(3)[2] == c);
        }
    }
    r
}

/// Whether `bytes[i..]` begins with the four bytes `a b c d`.
pub fn at4(bytes: &[u8], i: usize, a: u8, b: u8, c: u8, d: u8) -> (r: bool)
    requires
        i <= bytes@.len(),
    ensures
        r == opens_with(bytes@.skip(i as int), seq![a, b, c, d]),
{
    let r = bytes.len() - i >= 4 && bytes[i] == a && bytes[i + 1] == b && bytes[i + 2] == c
        && bytes[i + 3] == d;
    proof {
        let s = bytes@.skip(i as int);
        if s.len() >= 4 {
            assert(r ==> s.take(4) =~= seq![a, b, c, d]);
            assert(s.take(4) == seq![a, b, c, d] ==> s.take(4)[0] == a && s.take(4)[1] == b
                && s.take(4)[2] == c && s.take(4)[3] == d);
        }
    }
    r
}

/// `std::str::from_utf8`, with its error as `None`: it succeeds exactly
/// on valid UTF-8, and the string slice it gives holds the same bytes.
#[verifier::external_body]
pub(crate) fn utf8_str(bytes: &[u8]) -> (s: Option<&str>)
    ensures
        s is Some <==> vstd::utf8::valid_utf8(bytes@),
        s matches Some(t) ==> vstd::utf8::encode_utf8(t@) == bytes@,
{
    std::str::from_utf8(bytes).ok()
}

/// The bytes read one character per byte (ISO-8859-1), which is how byte
/// labels are compared with ASCII names.
pub open spec fn latin1(bytes: Seq<u8>) -> Seq<char> {
    bytes.map_values(|b: u8| b as char)
}

/// Whether `bytes[lo..hi]` equals `known` once ASCII letters are folded.
pub fn bytes_equal_ignoring_ascii_case(bytes: &[u8], lo: usize, hi: usize, known: &str) -> (r:
    bool)
    requires
        lo <= hi <= bytes@.len(),
    ensures
        r == same_ignoring_ascii_case(latin1(bytes@.subrange(lo as int, hi as int)), known@),
{
    let k = chars_of(known);
    let ghost l = latin1(bytes@.subrange(lo as int, hi as int));
    if hi - lo != k.len() {
        return false;
    }
    let mut i: usize = 0;
    while i < k.len()
        invariant
            lo <= hi <= bytes@.len(),
            hi - lo == k@.len(),
            k@ == known@,
            l == latin1(bytes@.subrange(lo as int, hi as int)),
            i <= k@.len(),
            forall|j: int| 0 <= j < i ==> #[trigger] ascii_lower(l[j]) == ascii_lower(k@[j]),
        decreases k@.len() - i,
    {
        let c = bytes[lo + i] as char;
        assert(c == l[i as int]);
        if to_ascii_lower(c) != to_ascii_lower(k[i]) {
            return false;
        }
        i = i + 1;
    }
    true
}

/// Appends bytes to a vector.
pub fn extend_bytes(out: &mut Vec<u8>, more: &[u8])
    ensures
        final(out)@ == old(out)@ + more@,
{
    out.extend_from_slice(more);
    assert(out@ =~= old(out)@ + more@);
}

/// UTF-8 of a concatenation is the concatenation of the UTF-8.
pub proof fn lemma_encode_utf8_concat(a: Seq<char>, b: Seq<char>)
    ensures
        vstd::utf8::encode_utf8(a + b) == vstd::utf8::encode_utf8(a) + vstd::utf8::encode_utf8(b),
    decreases a.len(),
{
    if a.len() == 0 {
        assert(a + b =~= b);
        assert(Seq::<u8>::empty() + vstd::utf8::encode_utf8(b) =~= vstd::utf8::encode_utf8(b));
    } else {
        assert((a + b).drop_first() =~= a.drop_first() + b);
        assert((a + b)[0] == a[0]);
        lemma_encode_utf8_concat(a.drop_first(), b);
        assert(vstd::utf8::encode_utf8(a + b) =~= vstd::utf8::encode_utf8(a) + vstd::utf8::encode_utf8(b));
    }
}

/// The length of a text's UTF-8.
pub open spec fn utf8_len(t: Seq<char>) -> nat {
    vstd::utf8::encode_utf8(t).len()
}

/// A character takes at most four bytes of UTF-8, and at most three when it
/// lies in the Basic Multilingual Plane.
pub proof fn lemma_scalar_width(c: char)
    ensures
        vstd::utf8::encode_scalar(c as u32).len() <= 4,
        (c as u32) <= 0xFFFF ==> vstd::utf8::encode_scalar(c as u32).len() <= 3,
{
    vstd::utf8::char_is_scalar(c);
}

/// The UTF-8 of a text with one more character.
pub proof fn lemma_utf8_len_push(t: Seq<char>, c: char)
    ensures
        utf8_len(t.push(c)) == utf8_len(t) + vstd::utf8::encode_scalar(c as u32).len(),
{
    let one = seq![c];
    assert(one[0] == c);
    assert(one.drop_first() =~= Seq::<char>::empty());
    assert(vstd::utf8::encode_utf8(one.drop_first()) =~= Seq::<u8>::empty());
    assert(vstd::utf8::encode_utf8(one) =~= vstd::utf8::encode_scalar(c as u32));
    assert(t.push(c) =~= t + one);
    lemma_encode_utf8_concat(t, one);
}

/// Appends the UTF-8 of one character.
pub fn push_utf8(out: &mut Vec<u8>, c: char)
    ensures
        final(out)@ == old(out)@ + vstd::utf8::encode_scalar(c as u32),
{
    let v = c as u32;
    proof {
        vstd::utf8::char_is_scalar(c);
    }
    if v <= 0x7F {
        out.push((v & 0x7F) as u8);
    } else if v <= 0x7FF {
        out.push(0xC0 | ((v >> 6) & 0x1F) as u8);
        out.push(0x80 | (v & 0x3F) as u8);
    } else if v <= 0xFFFF {
        out.push(0xE0 | ((v >> 12) & 0x0F) as u8);
        out.push(0x80 | ((v >> 6) & 0x3F) as u8);
        out.push(0x80 | (v & 0x3F) as u8);
    } else {
        out.push(0xF0 | ((v >> 18) & 0x7) as u8);
        out.push(0x80 | ((v >> 12) & 0x3F) as u8);
        out.push(0x80 | ((v >> 6) & 0x3F) as u8);
        out.push(0x80 | (v & 0x3F) as u8);
    }
    assert(out@ =~= old(out)@ + vstd::utf8::encode_scalar(c as u32));
}

/// The UTF-8 of `chars[lo..hi]`.
pub fn utf8_of_range(chars: &Vec<char>, lo: usize, hi: usize) -> (r: Vec<u8>)
    requires
        lo <= hi <= chars@.len(),
    ensures
        r@ == vstd::utf8::encode_utf8(chars@.subrange(lo as int, hi as int)),
{
    let mut out: Vec<u8> = Vec::new();
    let mut i = lo;
    assert(chars@.subrange(lo as int, lo as int) =~= Seq::<char>::empty());
    while i < hi
        invariant
            lo <= i <= hi <= chars@.len(),
            out@ == vstd::utf8::encode_utf8(chars@.subrange(lo as int, i as int)),
        decreases hi - i,
    {
        let c = chars[i];
        proof {
            let a = chars@.subrange(lo as int, i as int);
            assert(chars@.subrange(lo as int, i + 1) =~= a + seq![c]);
            lemma_encode_utf8_concat(a, seq![c]);
            let one = seq![c];
            assert(one.drop_first() =~= Seq::<char>::empty());
            assert(one[0] == c);
            assert(vstd::utf8::encode_utf8(one.drop_first()) =~= Seq::<u8>::empty());
            assert(vstd::utf8::encode_utf8(one) == vstd::utf8::encode_scalar(one[0] as u32)
                + vstd::utf8::encode_utf8(one.drop_first()));
            assert(vstd::utf8::encode_utf8(one) =~= vstd::utf8::encode_scalar(c as u32));
        }
        push_utf8(&mut out, c);
        i = i + 1;
    }
    out
}

} // verus!
