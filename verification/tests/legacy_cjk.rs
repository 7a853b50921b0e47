use petrel_mime::legacy_cjk::{decode, is_replacement_charset};

#[test]
fn the_four_are_recognised_and_nothing_else_is() {
    for yes in [
        "ISO-2022-KR",
        "iso-2022-kr",
        "csISO2022KR",
        "ISO-2022-CN",
        "ISO-2022-CN-EXT",
        "HZ-GB-2312",
        "hz-gb2312",
        "\"ISO-2022-KR\"",
        "ISO-2022-KR*ko",
    ] {
        assert!(is_replacement_charset(yes), "{yes} should be ours");
    }
    for no in [
        "ISO-2022-JP",
        "EUC-KR",
        "Big5",
        "GBK",
        "GB18030",
        "UTF-8",
        "Shift_JIS",
        "windows-1252",
        "",
    ] {
        assert!(!is_replacement_charset(no), "{no} is not ours to decode");
    }
}

#[test]
fn iso_2022_kr_reads() {
    let raw = b"\x1b$)CHello \x0eGQ1[\x0f!";
    assert_eq!(decode("ISO-2022-KR", raw).unwrap(), "Hello 한글!");
}

#[test]
fn iso_2022_kr_reads_without_the_announcement() {
    assert_eq!(decode("ISO-2022-KR", b"\x0eGQ1[\x0f").unwrap(), "한글");
}

#[test]
fn hz_reads_including_its_escapes() {
    assert_eq!(decode("HZ-GB-2312", b"Hi ~{VPND~}!").unwrap(), "Hi 中文!");
    assert_eq!(decode("HZ-GB-2312", b"a~~b").unwrap(), "a~b");
    assert_eq!(decode("HZ-GB-2312", b"a~\nb").unwrap(), "ab");
}

#[test]
fn iso_2022_cn_reads_its_gb_half() {
    let raw = b"\x1b$)A\x0eVPND\x0f ok";
    assert_eq!(decode("ISO-2022-CN", raw).unwrap(), "中文 ok");
}

#[test]
fn iso_2022_cn_keeps_what_it_can_of_the_untabled_half() {
    let raw = b"\x1b$)G\x0eVPND\x0f plain text";
    let out = decode("ISO-2022-CN", raw).unwrap();
    assert!(
        out.ends_with(" plain text"),
        "the ASCII was lost too: {out:?}"
    );
    assert!(
        out.contains('\u{FFFD}'),
        "the untabled run should be marked"
    );
}

#[test]
fn a_line_ends_in_ascii() {
    let out = decode("ISO-2022-KR", b"\x0eGQ\nplain").unwrap();
    assert!(
        out.ends_with("\nplain"),
        "state leaked across the line: {out:?}"
    );
}

#[test]
fn something_not_ours_is_left_alone() {
    assert!(decode("UTF-8", b"hello").is_none());
    assert!(decode("ISO-2022-JP", b"hello").is_none());
}

#[test]
fn no_input_can_break_it() {
    let mut seed = 0x2545_F491_4F6C_DD1Du64;
    let mut next = move || {
        seed ^= seed << 13;
        seed ^= seed >> 7;
        seed ^= seed << 17;
        seed
    };
    let interesting: &[u8] =
        b"\x1b$)C\x1b$)A\x1b$)G\x1b$*H\x1b$+I\x1bN\x1bO\x0e\x0f~{~}~~\r\n!~";
    for case in 0..4000 {
        let len = (next() % 64) as usize;
        let mut bytes = Vec::with_capacity(len);
        for _ in 0..len {
            let r = next();
            bytes.push(if r % 3 == 0 {
                interesting[(r >> 8) as usize % interesting.len()]
            } else {
                (r >> 16) as u8
            });
        }
        for label in ["ISO-2022-KR", "HZ-GB-2312", "ISO-2022-CN"] {
            let out = decode(label, &bytes).expect("ours to decode");
            assert!(
                out.len() <= bytes.len() * 4 + 8,
                "case {case}: {label} grew {} bytes into {}",
                bytes.len(),
                out.len()
            );
        }
    }
}

#[test]
fn every_prefix_of_a_good_message_decodes() {
    let full = b"\x1b$)CHello \x0eGQ1[\x0f world";
    for n in 0..=full.len() {
        let _ = decode("ISO-2022-KR", &full[..n]).expect("ours");
    }
    let hz = b"Hi ~{VPND~} there";
    for n in 0..=hz.len() {
        let _ = decode("HZ-GB-2312", &hz[..n]).expect("ours");
    }
}

// Further cases.

#[test]
fn a_line_end_in_iso_2022_kr_leaves_the_rest_reading_alone() {
    let before = b"\x0eGQ\n";
    let after = b"1[ plain";
    let mut whole = before.to_vec();
    whole.extend_from_slice(after);
    let joined = decode("ISO-2022-KR", &whole).unwrap();
    let mut separate = decode("ISO-2022-KR", before).unwrap();
    separate.push_str(&decode("ISO-2022-KR", after).unwrap());
    assert_eq!(joined, separate);
    assert!(joined.ends_with("\n1[ plain"), "{joined:?}");
}

#[test]
fn a_high_byte_outside_a_stretch_is_marked() {
    assert_eq!(decode("ISO-2022-KR", b"a\xffb").unwrap(), "a\u{FFFD}b");
    assert_eq!(decode("HZ-GB-2312", b"a\xffb").unwrap(), "a\u{FFFD}b");
}

#[test]
fn a_tilde_that_begins_nothing_is_kept_in_ascii_and_dropped_in_a_stretch() {
    assert_eq!(decode("HZ-GB-2312", b"a~b").unwrap(), "a~b");
    assert_eq!(decode("HZ-GB-2312", b"~{VP~ND~}").unwrap(), "中文");
}

#[test]
fn a_single_shift_in_iso_2022_cn_is_one_unreadable_character() {
    assert_eq!(decode("ISO-2022-CN", b"a\x1bNxyb").unwrap(), "a\u{FFFD}b");
}

#[test]
fn the_language_tag_and_quotes_do_not_hide_the_charset() {
    assert_eq!(decode("\"hz-gb-2312*zh\"", b"~{VPND~}").unwrap(), "中文");
}

#[test]
fn a_shifted_run_that_looks_like_a_utf8_byte_order_mark_is_still_ks_x_1001() {
    // SO "o;?!" SI: the pairs EF BB and BF A1 go to EUC-KR as they are.
    assert_eq!(decode("ISO-2022-KR", b"\x0eo;?!\x0f").unwrap(), "\u{7664}\u{c5d0}");
}

#[test]
fn escaped_tildes_in_hz_read_back_as_the_ascii_they_were() {
    assert_eq!(decode("HZ-GB-2312", b"a~~{b~~~~c\n~~}").unwrap(), "a~{b~~c\n~}");
}

#[test]
fn the_iso_2022_kr_announcement_changes_nothing() {
    let with = decode("ISO-2022-KR", b"\x1b$)Cx\x0eGQ\x0fy").unwrap();
    let without = decode("ISO-2022-KR", b"x\x0eGQ\x0fy").unwrap();
    assert_eq!(with, without);
    assert_eq!(with, "x\u{d55c}y");
}

#[test]
fn short_stretches_broken_by_high_bytes_stay_within_four_bytes_per_byte() {
    let mut kr = b"\x0e".to_vec();
    let mut hz = b"~{".to_vec();
    let mut cn = b"\x1b$)A\x0e".to_vec();
    for _ in 0..50 {
        kr.extend_from_slice(b"!!\x80");
        hz.extend_from_slice(b"!!\x80");
        cn.extend_from_slice(b"!!\x80");
    }
    for (label, bytes) in [("ISO-2022-KR", &kr), ("HZ-GB-2312", &hz), ("ISO-2022-CN", &cn)] {
        let out = decode(label, bytes).unwrap();
        assert!(out.len() <= 4 * bytes.len() + 1, "{label}: {} from {}", out.len(), bytes.len());
        assert_eq!(out.chars().filter(|c| *c == '\u{FFFD}').count(), 50);
    }
}
