use memsnap::text::{
    chars_equal, contains_chars, copy_range, dec_chars, hex_bytes_string, hex_chars, hex_string,
    is_whitespace, parse_radix_chars, split_whitespace_chars, str_chars, trim_chars,
    IntErrorKind,
};

fn chars(s: &str) -> Vec<char> {
    s.chars().collect()
}

#[test]
fn conversions() {
    assert_eq!(str_chars("aé中"), vec!['a', 'é', '中']);
    assert_eq!(copy_range(&chars("abcdef"), 1, 4), chars("bcd"));
    assert!(chars_equal(&chars("abc"), &chars("abc")));
    assert!(!chars_equal(&chars("abc"), &chars("abd")));
    assert!(!chars_equal(&chars("abc"), &chars("ab")));
}

#[test]
fn substring_search() {
    assert!(contains_chars(&chars("RW-|GUARD"), &chars("GUARD")));
    assert!(contains_chars(&chars("abc"), &chars("")));
    assert!(!contains_chars(&chars("ab"), &chars("abc")));
    assert!(!contains_chars(&chars("R-X"), &chars("RW")));
}

#[test]
fn whitespace_matches_std() {
    for u in 0u32..0x3100 {
        if let Some(c) = char::from_u32(u) {
            assert_eq!(is_whitespace(c), c.is_whitespace(), "U+{:04X}", u);
        }
    }
}

#[test]
fn trimming_and_splitting_match_std() {
    for s in ["", "  ", " a ", "\tab c\n", "a\u{2003}b", "x", "\u{85}y\u{85}"] {
        let t: String = trim_chars(&chars(s)).into_iter().collect();
        assert_eq!(t, s.trim());
        let words: Vec<String> =
            split_whitespace_chars(&chars(s)).into_iter().map(|w| w.into_iter().collect()).collect();
        let expected: Vec<String> = s.split_whitespace().map(|w| w.to_string()).collect();
        assert_eq!(words, expected);
    }
}

#[test]
fn digits() {
    assert_eq!(hex_chars(0), vec!['0']);
    assert_eq!(hex_string(0xBEEF), "BEEF");
    assert_eq!(dec_chars(1234), chars("1234"));
    assert_eq!(dec_chars(u64::MAX), chars(&u64::MAX.to_string()));
    assert_eq!(hex_bytes_string(&[0x00, 0xAB, 0x0F]), "00 AB 0F");
    assert_eq!(hex_bytes_string(&[]), "");
}

#[test]
fn radix_parsing_matches_std() {
    let cases = ["", "+", "-", "0", "+7", "-7", "12", "1a", "1A", "zz", "255", "256", "999999999999999999999"];
    for s in cases {
        let got = parse_radix_chars(&chars(s), 10, u64::MAX).ok();
        assert_eq!(got, s.parse::<u64>().ok(), "{:?}", s);
        let got8 = parse_radix_chars(&chars(s), 16, 255).ok();
        assert_eq!(got8, u8::from_str_radix(s, 16).ok().map(|b| b as u64), "{:?}", s);
    }
    assert_eq!(parse_radix_chars(&chars(""), 10, 9), Err(IntErrorKind::Empty));
    assert_eq!(parse_radix_chars(&chars("100"), 16, 255), Err(IntErrorKind::PosOverflow));
    assert_eq!(parse_radix_chars(&chars("1x"), 16, 255), Err(IntErrorKind::InvalidDigit));
}
