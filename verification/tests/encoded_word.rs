use petrel_mime::encoded_word::{merge_adjacent_encoded_words, try_parse_encoded_word};
use std::borrow::Cow;

#[test]
fn rewrite_leaves_body_literal() {
    let raw = b"Subject: ok\r\n\r\n=?utf-8?B?5p2x5Lqs?=";
    let out = merge_adjacent_encoded_words(raw);
    assert!(matches!(out, Cow::Borrowed(_)), "no header merge, no copy");
    assert!(out.ends_with(b"=?utf-8?B?5p2x5Lqs?="));
}

#[test]
fn adjacent_utf8_subject_words_become_one() {
    let raw = b"From: =?utf-8?B?5p2x5Lqs?= <tokyo@example.com>\r\n\
Subject: =?utf-8?B?5p2x5Lqs?= =?utf-8?B?6KiI55S7?=\r\n\r\n\
body\r\n";
    let out = merge_adjacent_encoded_words(raw);
    let text = String::from_utf8_lossy(&out);
    assert_eq!(
        text.matches("=?utf-8?B?5p2x5Lqs6KiI55S7?=").count(),
        1,
        "merged subject word appears once: {text}"
    );
    assert!(
        !text.contains("=?utf-8?B?6KiI55S7?="),
        "second subject word must be gone: {text}"
    );
}

#[test]
fn self_contained_iso_2022_jp_words_become_one_utf8_word() {
    let raw = b"Subject: =?ISO-2022-JP?B?GyRCJDMkbCRPGyhC?=\r\n\
 =?ISO-2022-JP?B?GyRCJUYlOSVIGyhC?=\r\n\
 =?ISO-2022-JP?B?GyRCJEckORsoQg==?=\r\n\r\n\
body\r\n";
    let out = merge_adjacent_encoded_words(raw);
    let text = String::from_utf8_lossy(&out);
    assert!(
        text.contains("=?UTF-8?B?"),
        "self-contained JIS runs must be rewritten as UTF-8: {text}"
    );
    assert!(
        !text.contains("ISO-2022-JP"),
        "original JIS words must be gone: {text}"
    );
}

// Further cases.

#[test]
fn the_jis_runs_are_written_back_as_their_text() {
    let raw = b"Subject: =?ISO-2022-JP?B?GyRCJDMkbCRPGyhC?=\r\n\
 =?ISO-2022-JP?B?GyRCJUYlOSVIGyhC?=\r\n\
 =?ISO-2022-JP?B?GyRCJEckORsoQg==?=\r\n\r\nbody\r\n";
    let out = merge_adjacent_encoded_words(raw);
    // これはテストです, base64 of its UTF-8.
    let want = b"Subject: =?UTF-8?B?44GT44KM44Gv44OG44K544OI44Gn44GZ?=\r\n\r\nbody\r\n";
    assert_eq!(&out[..], &want[..]);
}

#[test]
fn a_lone_word_in_an_ordinary_charset_is_left_alone() {
    let raw = b"Subject: =?utf-8?B?5p2x5Lqs?=\r\n\r\nbody";
    assert!(matches!(merge_adjacent_encoded_words(raw), Cow::Borrowed(_)));
}

#[test]
fn a_lone_word_in_a_refused_charset_is_rewritten_as_utf8() {
    // ISO-2022-KR "한글" as a Q word: SO G Q 1 [ SI.
    let raw = b"Subject: =?ISO-2022-KR?Q?=0EGQ1[=0F?=\r\n\r\nbody";
    let out = merge_adjacent_encoded_words(raw);
    // 한글 in UTF-8 is ED 95 9C EA B8 80.
    assert_eq!(&out[..], &b"Subject: =?UTF-8?B?7ZWc6riA?=\r\n\r\nbody"[..]);
}

#[test]
fn q_words_of_one_charset_merge_into_one_b_word() {
    let raw = b"Subject: =?utf-8?Q?caf=C3?= =?UTF-8?q?=A9_ok?=\n\nbody";
    let out = merge_adjacent_encoded_words(raw);
    // "café ok" joined from both halves, in the first word's charset.
    assert_eq!(&out[..], &b"Subject: =?utf-8?B?Y2Fmw6kgb2s=?=\n\nbody"[..]);
}

#[test]
fn a_run_that_cannot_be_decoded_is_left_as_it_was() {
    let raw = b"Subject: =?utf-8?B?***?= =?utf-8?B?5p2x?=\r\n\r\n";
    assert!(matches!(merge_adjacent_encoded_words(raw), Cow::Borrowed(_)));
}

#[test]
fn words_of_different_charsets_do_not_merge() {
    let raw = b"Subject: =?utf-8?B?5p2x?= =?iso-8859-1?Q?caf=E9?=\r\n\r\n";
    assert!(matches!(merge_adjacent_encoded_words(raw), Cow::Borrowed(_)));
}

#[test]
fn the_header_block_ends_at_a_bare_lf_blank_line_before_a_crlf_one() {
    // The first blank line is the LF LF after "a"; the words after it are
    // body, though a CR LF CR LF blank line follows them.
    let raw = b"a\n\n=?utf-8?B?5p2x?= =?utf-8?B?5Lqs?=\r\n\r\nc";
    let out = merge_adjacent_encoded_words(raw);
    assert!(matches!(out, Cow::Borrowed(_)));
    assert_eq!(&out[..], &raw[..]);
}

#[test]
fn a_later_lf_blank_line_in_the_body_does_not_extend_the_header_block() {
    let raw = b"Subject: =?utf-8?B?5p2x?= =?utf-8?B?5Lqs?=\r\n\r\nx\n\n=?utf-8?B?5p2x?= =?utf-8?B?5Lqs?=";
    let out = merge_adjacent_encoded_words(raw);
    assert_eq!(
        &out[..],
        &b"Subject: =?utf-8?B?5p2x5Lqs?=\r\n\r\nx\n\n=?utf-8?B?5p2x?= =?utf-8?B?5Lqs?="[..]
    );
}

#[test]
fn a_message_without_a_blank_line_is_all_header() {
    let raw = b"Subject: =?utf-8?B?5p2x?= =?utf-8?B?5Lqs?=";
    let out = merge_adjacent_encoded_words(raw);
    assert_eq!(&out[..], &b"Subject: =?utf-8?B?5p2x5Lqs?="[..]);
}

#[test]
fn a_word_ends_at_the_first_question_mark_equals() {
    let data = b"x =?utf-8?q?a?=b?=";
    let w = try_parse_encoded_word(data, 2).unwrap();
    assert_eq!((w.start, w.end), (2, 15));
    assert_eq!((w.charset_start, w.charset_end), (4, 9));
    assert_eq!(w.encoding, b'Q');
    assert_eq!((w.payload_start, w.payload_end), (12, 13));
    assert!(try_parse_encoded_word(data, 0).is_none());
    assert!(try_parse_encoded_word(b"=??B?x?=", 0).is_none());
    assert!(try_parse_encoded_word(b"=?utf-8?X?x?=", 0).is_none());
    assert!(try_parse_encoded_word(b"=?utf-8?B?x", 0).is_none());
    assert!(try_parse_encoded_word(data, 99).is_none());
}
