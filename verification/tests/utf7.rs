use petrel_mime::utf7::{decode, is_utf7};

#[test]
fn the_labels_are_recognised_and_nothing_else_is() {
    for yes in ["UTF-7", "utf-7", "UNICODE-1-1-UTF-7", "csUnicode11UTF7"] {
        assert!(is_utf7(yes), "{yes} is UTF-7");
    }
    for no in ["UTF-8", "UTF-16", "utf-70", "", "us-ascii"] {
        assert!(!is_utf7(no), "{no} is not UTF-7");
    }
}

#[test]
fn ascii_passes_through_untouched() {
    assert_eq!(decode(b"Hello, world!"), "Hello, world!");
}

#[test]
fn a_shift_run_reads() {
    assert_eq!(decode(b"Hi Mom -+Jjo--!"), "Hi Mom -\u{263A}-!");
    assert_eq!(decode(b"+ZeVnLIqe-"), "日本語");
}

#[test]
fn a_literal_plus_is_written_as_plus_dash() {
    assert_eq!(decode(b"1 +- 1 = 2"), "1 + 1 = 2");
    assert_eq!(decode(b"+-"), "+");
}

#[test]
fn a_run_ended_by_something_other_than_a_dash_keeps_that_character() {
    assert_eq!(decode(b"+Jjo!"), "\u{263A}!");
    assert_eq!(decode(b"+Jjo and more"), "\u{263A} and more");
}

#[test]
fn a_surrogate_pair_becomes_one_character() {
    assert_eq!(decode(b"+2D3eAA-"), "\u{1F600}");
}

#[test]
fn malformed_input_degrades_and_terminates() {
    assert_eq!(decode(b"a+"), "a+");
    assert_eq!(decode(b"a+ b"), "a+ b");
    assert!(decode(b"+2D0-").contains('\u{FFFD}'));
    assert!(decode(b"a\xffb").contains('\u{FFFD}'));
    let _ = decode(b"+A-");
    let _ = decode(b"+AAAAAAAAAAAAAAAAAAAA");
}

#[test]
fn runs_can_follow_one_another() {
    assert_eq!(decode(b"+ZeU-+Zyw-"), "日本");
}

// Further cases.

#[test]
fn a_high_byte_outside_a_run_is_marked_exactly_once() {
    assert_eq!(decode(b"a\xffb"), "a\u{FFFD}b");
}

#[test]
fn padding_bits_carry_no_character() {
    // "+A-" holds six bits: no whole code unit.
    assert_eq!(decode(b"+A-"), "");
    // Twenty `A`s are 120 bits: seven NUL code units and eight bits of padding.
    assert_eq!(decode(b"+AAAAAAAAAAAAAAAAAAAA"), "\0".repeat(7));
}

#[test]
fn a_lone_trail_surrogate_is_marked() {
    // U+DC00 alone.
    assert_eq!(decode(b"+3AA-x"), "\u{FFFD}x");
}

#[test]
fn a_lead_surrogate_before_an_ordinary_unit_marks_only_itself() {
    // U+D83D then U+0041.
    assert_eq!(decode(b"+2D0AQQ-"), "\u{FFFD}A");
}

#[test]
fn the_utf8_is_at_most_three_bytes_per_input_byte() {
    for input in [
        &b"+2D3cAA-"[..],
        b"+AOkA6QDp-",
        b"\x80\xff\xfe",
        b"+2D3cAA",
        b"+//8-",
        b"plain",
        b"",
    ] {
        let out = decode(input);
        assert!(out.len() <= 3 * input.len(), "{input:?} gave {out:?}");
        assert!(out.chars().count() <= input.len());
    }
    // Three replaced high bytes: nine bytes of UTF-8, exactly three per byte.
    assert_eq!(decode(b"\x80\xff\xfe").len(), 9);
}

#[test]
fn the_base64_of_a_texts_utf16be_reads_back_as_the_text() {
    assert_eq!(decode(b"+ZeVnLIqe-"), "日本語");
    assert_eq!(decode(b"+2D3eAA-"), "\u{1F600}");
    assert_eq!(decode(b"+AOk-"), "é");
    assert_eq!(decode(b"+AEgAaQAgAE0AbwBtACAALSY6AC0-"), "Hi Mom -\u{263A}-");
}
