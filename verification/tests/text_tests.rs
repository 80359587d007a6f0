use buzz_desktop::text::{
    decimal_string, eq_ignore_ascii_case, parse_u16, split_whitespace, str_eq, text_lt, trim,
};

#[test]
fn trim_matches_std() {
    let samples = [
        "",
        "   ",
        "  abc  ",
        "\t\nx y\r\n",
        "\u{3000}wide\u{2003}",
        "\u{85}next\u{a0}",
        "no-space",
        " \u{200b}zero-width\u{200b} ",
    ];
    for s in samples {
        assert_eq!(trim(s), s.trim(), "trim of {:?}", s);
    }
}

#[test]
fn split_whitespace_matches_std() {
    let samples = [
        "",
        "one",
        "  user-read-private   user-read-email ",
        "a\tb\nc\u{3000}d",
        "   ",
        "x\u{2028}y\u{205f}z",
    ];
    for s in samples {
        let expected: Vec<String> = s.split_whitespace().map(|w| w.to_string()).collect();
        assert_eq!(split_whitespace(s), expected, "split of {:?}", s);
    }
}

#[test]
fn decimal_string_writes_numbers() {
    for n in [0u64, 7, 10, 99, 100, 18202, 65535, 1234567890, u64::MAX] {
        assert_eq!(decimal_string(n), n.to_string());
    }
}

#[test]
fn parse_u16_matches_std() {
    let samples = [
        "", "+", "-", "0", "00080", "+80", "-1", "65535", "65536", "99999999", "12a", " 1",
        "+-1", "٣",
    ];
    for s in samples {
        assert_eq!(parse_u16(s), s.parse::<u16>().ok(), "parse of {:?}", s);
    }
}

#[test]
fn parse_reads_back_decimal() {
    for n in [0u16, 1, 9, 10, 18202, 65535] {
        assert_eq!(parse_u16(&decimal_string(n as u64)), Some(n));
    }
}

#[test]
fn ascii_case_comparison() {
    assert!(eq_ignore_ascii_case("Research Bot", "research bot"));
    assert!(!eq_ignore_ascii_case("Résumé", "RÉSUMÉ"));
    assert!(!eq_ignore_ascii_case("abc", "abcd"));
    assert_eq!(
        eq_ignore_ascii_case("Straße", "STRASSE"),
        "Straße".eq_ignore_ascii_case("STRASSE")
    );
}

#[test]
fn text_order_matches_str_order() {
    let samples = ["", "a", "A", "ab", "b", "é", "z", "ä", "\u{1f600}", "aa"];
    for a in samples {
        for b in samples {
            assert_eq!(text_lt(a, b), a < b, "{:?} < {:?}", a, b);
            assert_eq!(str_eq(a, b), a == b);
        }
    }
}
