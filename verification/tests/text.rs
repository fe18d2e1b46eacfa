use h7cad::text::{
    chars_of, decimal_chars, join_strings, parse_i16_chars, trim_chars, trim_whitespace,
    u64_to_decimal, version_label,
};

#[test]
fn decimal_matches_to_string() {
    for n in [0u64, 1, 9, 10, 99, 100, 256, 65535, 1234567890, u64::MAX] {
        assert_eq!(u64_to_decimal(n), n.to_string());
        assert_eq!(decimal_chars(n).into_iter().collect::<String>(), n.to_string());
    }
}

#[test]
fn parse_matches_std() {
    for s in [
        "", "0", "-0", "+0", "12", "+12", "-12", "32767", "32768", "-32768", "-32769", "+", "-",
        "+-1", "1_0", " 1", "1 ", "00000000000000000000000000012", "9999999999", "٣",
    ] {
        let v: Vec<char> = s.chars().collect();
        assert_eq!(parse_i16_chars(&v), s.parse::<i16>().ok(), "input {:?}", s);
    }
}

#[test]
fn trim_matches_std() {
    for s in [
        "", " ", "a", " a ", "\t\n a b \x0b\x0c\r", "\u{85}x\u{1680}", "\u{200b}x\u{200b}",
        "\u{3000}\u{a0}x", "x\u{2029}", "\u{feff}x",
    ] {
        assert_eq!(trim_whitespace(s), s.trim(), "input {:?}", s);
        let v: Vec<char> = s.chars().collect();
        assert_eq!(trim_chars(&v).into_iter().collect::<String>(), s.trim());
    }
}

#[test]
fn chars_in_order() {
    assert_eq!(chars_of("aß€𝄞"), vec!['a', 'ß', '€', '𝄞']);
}

#[test]
fn joins_with_separator() {
    let v: Vec<String> = vec![];
    assert_eq!(join_strings(&v, ", "), "");
    let v = vec!["LINE".to_string()];
    assert_eq!(join_strings(&v, ", "), "LINE");
    let v = vec!["A".to_string(), "B".to_string(), "C".to_string()];
    assert_eq!(join_strings(&v, ", "), "A, B, C");
}

#[test]
fn version_labels() {
    assert_eq!(version_label("0.1.0"), "v0.1.0");
    assert_eq!(version_label(""), "v");
}

#[test]
fn trimming_twice_changes_nothing() {
    for s in ["", "  a b  ", "\u{3000}x\u{3000}", "\n\n", "x"] {
        let once = trim_whitespace(s);
        assert_eq!(trim_whitespace(&once), once);
    }
}

#[test]
fn whitespace_set_matches_std_for_every_char() {
    for n in 0u32..=0x10ffff {
        if let Some(c) = char::from_u32(n) {
            assert_eq!(h7cad::text::char_is_whitespace(c), c.is_whitespace(), "U+{:04X}", n);
        }
    }
}
