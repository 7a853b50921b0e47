use petrel_mime::charset::{alias, decode, decodes_here, fallback, resolvable};
use petrel_mime::tables::Table;

#[test]
fn the_vendor_spellings_map_to_the_tables_they_mean() {
    for (label, want) in [
        ("CP932", Table::ShiftJis),
        ("cp932", Table::ShiftJis),
        ("x-ms-cp932", Table::ShiftJis),
        ("CP949", Table::EucKr),
        ("UHC", Table::EucKr),
        ("x-windows-949", Table::EucKr),
        ("ks_c_5601", Table::EucKr),
        ("CP936", Table::Gbk),
        ("windows-936", Table::Gbk),
        ("CP950", Table::Big5),
        ("windows-950", Table::Big5),
        ("x-big5", Table::Big5),
        ("ISO-2022-JP-2", Table::Iso2022Jp),
        ("iso-2022-jp-2004", Table::Iso2022Jp),
    ] {
        assert_eq!(alias(label), Some(want), "{label} maps wrong");
        assert!(decodes_here(label), "{label} should be decoded here");
    }
}

/// Anything the standard decoder can resolve is left to it.
#[test]
fn a_name_the_standard_decoder_knows_is_left_alone() {
    for already_fine in [
        "UTF-8",
        "Shift_JIS",
        "windows-31j",
        "EUC-KR",
        "ks_c_5601-1987",
        "GBK",
        "GB18030",
        "Big5",
        "big5-hkscs",
        "ISO-2022-JP",
        "windows-1252",
        "windows-1258",
        "iso-8859-1",
    ] {
        assert_eq!(alias(already_fine), None, "{already_fine} was overridden");
        assert!(resolvable(already_fine), "{already_fine} resolves");
        assert!(
            !decodes_here(already_fine),
            "{already_fine} is not ours to decode"
        );
        assert_eq!(
            decode(already_fine, b"hello"),
            None,
            "{already_fine} must be left to the parser"
        );
    }
}

#[test]
fn quoting_and_a_language_tag_are_not_part_of_the_name() {
    assert_eq!(alias("\"CP932\""), Some(Table::ShiftJis));
    assert_eq!(alias("CP949*ko"), Some(Table::EucKr));
    assert_eq!(alias("  cp950  "), Some(Table::Big5));
    assert!(resolvable("\"UTF-8\""));
    assert!(resolvable("UTF-8*en"));
}

#[test]
fn the_vendor_only_ranges_decode_rather_than_approximate() {
    // CP932's NEC special row, which plain JIS X 0208 does not have.
    assert_eq!(
        decode("CP932", b"\x87\x40\x87\x54").unwrap(),
        "\u{2460}\u{2160}"
    );
    // A lead byte in UHC's extension, outside the EUC-KR ones.
    let korean = decode("UHC", b"\x81\x41\x81\x61").unwrap();
    assert!(
        !korean.contains('\u{FFFD}'),
        "UHC extension lost: {korean:?}"
    );
}

#[test]
fn the_ordinary_ranges_read_too() {
    assert_eq!(decode("CP932", b"\x82\xb1\x82\xea").unwrap(), "これ");
    assert_eq!(decode("CP949", b"\xc7\xd1\xb1\xdb").unwrap(), "한글");
    assert_eq!(decode("CP936", b"\xd6\xd0\xce\xc4").unwrap(), "中文");
    assert_eq!(decode("CP950", b"\xa4\xa4\xa4\xe5").unwrap(), "中文");
}

#[test]
fn an_iso_2022_jp_extension_reads_its_base_repertoire() {
    assert_eq!(
        decode("ISO-2022-JP-2", b"\x1b$B$3$l\x1b(B ok").unwrap(),
        "これ ok"
    );
}

#[test]
fn utf7_is_decoded_here_since_the_standard_dropped_it() {
    assert!(decodes_here("UTF-7"));
    assert_eq!(decode("UTF-7", b"Hi Mom -+Jjo--!").unwrap(), "Hi Mom -☺-!");
    assert_eq!(decode("utf-7", b"+ZeVnLIqe-").unwrap(), "日本語");
}

#[test]
fn the_four_refused_charsets_still_go_to_their_own_decoders() {
    assert_eq!(decode("ISO-2022-KR", b"\x0eGQ1[\x0f").unwrap(), "한글");
    assert_eq!(decode("HZ-GB-2312", b"Hi ~{VPND~}!").unwrap(), "Hi 中文!");
}

#[test]
fn valid_utf8_is_left_exactly_as_it_is() {
    assert_eq!(fallback("café ☕".as_bytes()), "café ☕");
    assert_eq!(fallback(b"plain ascii"), "plain ascii");
    assert_eq!(fallback(b""), "");
    assert_eq!(
        decode("unknown-8bit", "日本語".as_bytes()).unwrap(),
        "日本語"
    );
}

#[test]
fn latin1_text_comes_back_correct_instead_of_replaced() {
    assert_eq!(fallback(b"caf\xe9 na\xefve"), "café naïve");
    assert_eq!(fallback(b"Gr\xfc\xdfe aus M\xfcnchen"), "Grüße aus München");
    assert_eq!(fallback(b"Hello \xa9 world"), "Hello © world");
}

#[test]
fn what_cannot_be_read_is_at_least_not_destroyed() {
    let shift_jis = b"\x82\xb1\x82\xea";
    let out = fallback(shift_jis);
    assert!(!out.contains('\u{FFFD}'), "bytes were destroyed: {out:?}");
    let back = encoding_rs::WINDOWS_1252.encode(&out).0.into_owned();
    assert_eq!(back.as_slice(), shift_jis, "not reversible");
}

#[test]
fn utf8_with_one_damaged_character_stays_utf8() {
    let mut bytes = "Here is the quarterly summary, written in full."
        .as_bytes()
        .to_vec();
    bytes.extend_from_slice(b"\xe2\x80"); // a clipped em dash
    bytes.extend_from_slice(" The rest of it reads perfectly well — ask Renée.".as_bytes());
    let out = fallback(&bytes);
    assert!(out.contains("quarterly summary"), "{out:?}");
    assert!(out.contains("Renée"), "the good text was mangled: {out:?}");
    assert!(out.contains('\u{FFFD}'), "the damage should still show");
    assert!(!out.contains("â€"), "fell through to windows-1252: {out:?}");
}

#[test]
fn a_long_mostly_ascii_latin1_body_is_not_mistaken_for_damaged_utf8() {
    let mut bytes = "x".repeat(4000).into_bytes();
    bytes.extend_from_slice(b" caf\xe9");
    let out = fallback(&bytes);
    assert!(out.ends_with("café"), "{:?}", &out[out.len() - 20..]);
}

#[test]
fn an_unplaceable_label_is_decoded_here_rather_than_left_to_be_replaced() {
    for label in ["unknown-8bit", "x-unknown", "euc-tw", "viscii", "tcvn-5712"] {
        assert!(decodes_here(label), "{label} should be ours");
        assert_eq!(
            decode(label, b"caf\xe9").as_deref(),
            Some("café"),
            "{label} lost the byte"
        );
    }
}

// Further cases.

#[test]
fn an_alias_is_refused_for_a_label_the_standard_resolves() {
    // `x-uhc` is not a label the standard knows, `euc-kr` is: only the first
    // gets a table.
    assert_eq!(alias("x-uhc"), Some(Table::EucKr));
    assert_eq!(alias("euc-kr"), None);
    assert_eq!(alias("no-such-charset"), None);
}

#[test]
fn a_label_with_unicode_white_space_is_trimmed() {
    // U+3000 IDEOGRAPHIC SPACE and U+00A0 NO-BREAK SPACE around the name.
    assert_eq!(alias("\u{3000}CP932\u{a0}"), Some(Table::ShiftJis));
    assert!(resolvable("\u{3000}utf-8\u{a0}"));
}

#[test]
fn decode_answers_exactly_where_decodes_here_says_so() {
    for label in ["UTF-8", "ISO-2022-KR", "CP932", "x-unknown", "UTF-7", "iso-8859-1"] {
        assert_eq!(decode(label, b"abc").is_some(), decodes_here(label), "{label}");
    }
}

#[test]
fn damaged_utf8_needs_a_surviving_multibyte_character() {
    // One bad byte among plain ASCII: no multi-byte character survived, so
    // this was never UTF-8 and is read as windows-1252.
    assert_eq!(fallback(b"abc\x80def"), "abc\u{20ac}def");
    // The same damage beside a real multi-byte character stays UTF-8.
    let mut bytes = "é".repeat(60).into_bytes();
    bytes.push(0x80);
    let out = fallback(&bytes);
    assert!(out.ends_with('\u{FFFD}'), "{out:?}");
}

#[test]
fn too_much_damage_is_not_utf8() {
    // Two bad bytes in nine characters is far above one in fifty.
    let out = fallback(b"\xc3\xa9\x80\x80abcde");
    assert_eq!(out, "Ã©\u{20ac}\u{20ac}abcde");
}

fn windows_1252_point(b: u8) -> u32 {
    const HIGH: [u32; 32] = [
        0x20AC, 0x0081, 0x201A, 0x0192, 0x201E, 0x2026, 0x2020, 0x2021, 0x02C6, 0x2030, 0x0160,
        0x2039, 0x0152, 0x008D, 0x017D, 0x008F, 0x0090, 0x2018, 0x2019, 0x201C, 0x201D, 0x2022,
        0x2013, 0x2014, 0x02DC, 0x2122, 0x0161, 0x203A, 0x0153, 0x009D, 0x017E, 0x0178,
    ];
    if (0x80..0xA0).contains(&b) {
        HIGH[(b - 0x80) as usize]
    } else {
        b as u32
    }
}

#[test]
fn every_byte_reads_as_its_windows_1252_character() {
    // Not UTF-8 and no surviving multi-byte character: the windows-1252 reading.
    let bytes: Vec<u8> = (0u8..=255).collect();
    let text = fallback(&bytes);
    let chars: Vec<char> = text.chars().collect();
    assert_eq!(chars.len(), 256);
    for (b, c) in bytes.iter().zip(chars.iter()) {
        assert_eq!(*c as u32, windows_1252_point(*b), "byte {b:#04x}");
        assert_ne!(*c, '\u{FFFD}');
    }
}

#[test]
fn a_leading_utf16_byte_order_mark_is_read_as_windows_1252_too() {
    assert_eq!(fallback(b"\xff\xfeA"), "\u{ff}\u{fe}A");
    assert_eq!(fallback(b"\xfe\xff\x00A"), "\u{fe}\u{ff}\u{0}A");
}

#[test]
fn a_byte_order_mark_decides_the_encoding_under_an_alias() {
    // Read as Shift_JIS after all only when no UTF-8 or UTF-16 mark leads.
    assert_eq!(decode("CP932", b"\xef\xbb\xbfab").unwrap(), "ab");
    assert_eq!(decode("CP932", b"\xff\xfea\x00").unwrap(), "a");
    assert_eq!(decode("CP932", b"\x82\xb1\x82\xea").unwrap(), "これ");
}

#[test]
fn bytes_with_no_utf8_sequence_read_as_windows_1252() {
    assert_eq!(fallback(b"caf\xe9 cr\xe8me"), "café crème");
    assert_eq!(fallback(b"\x82\xb1\x82\xea"), "\u{201A}\u{b1}\u{201A}\u{ea}");
}
