use memsnap::pattern::{
    match_at, parse_address, parse_hex_token, parse_pattern, parse_stored_address, search_pattern,
    PatternErrorKind,
};
use memsnap::text::{hex_bytes_string, IntErrorKind};

#[test]
fn parse_address_plain_hex() {
    assert_eq!(parse_address("1F").unwrap(), 0x1F);
    assert_eq!(parse_address("7ff6a2b0c000").unwrap(), 0x7FF6_A2B0_C000);
}

#[test]
fn parse_address_trims_and_strips_prefixes() {
    assert_eq!(parse_address("  0x1F \t").unwrap(), 0x1F);
    assert_eq!(parse_address("0X10").unwrap(), 0x10);
    assert_eq!(parse_address("0x0x10").unwrap(), 0x10);
    assert_eq!(parse_address("0x0X10").unwrap(), 0x10);
    assert_eq!(parse_address("\u{3000}ab\u{a0}").unwrap(), 0xAB);
}

#[test]
fn parse_address_lowercase_prefix_after_uppercase_is_not_stripped() {
    let e = parse_address("0X0x5").unwrap_err();
    assert_eq!(e.kind, IntErrorKind::InvalidDigit);
    assert_eq!(e.text, "0X0x5");
}

#[test]
fn parse_address_errors() {
    assert_eq!(parse_address("").unwrap_err().kind, IntErrorKind::Empty);
    assert_eq!(parse_address("   ").unwrap_err().kind, IntErrorKind::Empty);
    assert_eq!(parse_address("0x").unwrap_err().kind, IntErrorKind::Empty);
    assert_eq!(parse_address("xyz").unwrap_err().kind, IntErrorKind::InvalidDigit);
    assert_eq!(parse_address("+").unwrap_err().kind, IntErrorKind::InvalidDigit);
    assert_eq!(parse_address("-1").unwrap_err().kind, IntErrorKind::InvalidDigit);
    assert_eq!(
        parse_address("10000000000000000").unwrap_err().kind,
        IntErrorKind::PosOverflow
    );
    assert_eq!(
        parse_address("1FFFFFFFFFFFFFFFFG").unwrap_err().kind,
        IntErrorKind::PosOverflow
    );
}

#[test]
fn parse_address_accepts_plus_sign() {
    assert_eq!(parse_address("+A").unwrap(), 10);
    assert_eq!(parse_address("FFFFFFFFFFFFFFFF").unwrap(), u64::MAX);
}

#[test]
fn parse_address_matches_std() {
    for s in ["0", "ff", "FF", "+1", "12345", "deadBEEF", "0x1", "1 2", "0x", "g"] {
        let t = s.trim().trim_start_matches("0x").trim_start_matches("0X");
        let expected = u64::from_str_radix(t, 16).ok();
        assert_eq!(parse_address(s).ok(), expected, "input {:?}", s);
    }
}

#[test]
fn stored_address_defaults_to_zero() {
    assert_eq!(parse_stored_address(&"7FF000".to_string()), 0x7FF000);
    assert_eq!(parse_stored_address(&"0x10".to_string()), 0);
    assert_eq!(parse_stored_address(&"".to_string()), 0);
}

#[test]
fn hex_token_bytes_and_repeats() {
    let v = parse_hex_token("AB{2}cd").unwrap();
    assert_eq!(v, vec![Some(0xAB), None, None, Some(0xCD)]);
    let v = parse_hex_token("{3}").unwrap();
    assert_eq!(v, vec![None, None, None]);
    let v = parse_hex_token("{0}FF").unwrap();
    assert_eq!(v, vec![Some(0xFF)]);
    let v = parse_hex_token("+F").unwrap();
    assert_eq!(v, vec![Some(0x0F)]);
}

#[test]
fn hex_token_errors() {
    let e = parse_hex_token("A").unwrap_err();
    assert_eq!(e.kind, PatternErrorKind::IncompleteHex);
    assert_eq!(e.text, "A");
    let e = parse_hex_token("ABC").unwrap_err();
    assert_eq!(e.kind, PatternErrorKind::IncompleteHex);
    assert_eq!(e.text, "ABC");
    let e = parse_hex_token("ZZ").unwrap_err();
    assert_eq!(e.kind, PatternErrorKind::InvalidByte(IntErrorKind::InvalidDigit));
    assert_eq!(e.text, "ZZ");
    let e = parse_hex_token("{x}").unwrap_err();
    assert_eq!(e.kind, PatternErrorKind::InvalidByte(IntErrorKind::InvalidDigit));
    assert_eq!(e.text, "{x");
    let e = parse_hex_token("{}").unwrap_err();
    assert_eq!(e.text, "{}");
    let e = parse_hex_token("-1").unwrap_err();
    assert_eq!(e.kind, PatternErrorKind::InvalidByte(IntErrorKind::InvalidDigit));
}

#[test]
fn pattern_with_wildcards() {
    let v = parse_pattern("?? AB ** .. __").unwrap();
    assert_eq!(v, vec![None, Some(0xAB), None, None, None]);
    let v = parse_pattern("  12\t34\n56  ").unwrap();
    assert_eq!(v, vec![Some(0x12), Some(0x34), Some(0x56)]);
    let v = parse_pattern("4889{2}C3 ?").unwrap_err();
    assert_eq!(v.kind, PatternErrorKind::IncompleteHex);
    assert_eq!(v.text, "?");
}

#[test]
fn pattern_errors() {
    assert_eq!(parse_pattern("").unwrap_err().kind, PatternErrorKind::NoTokens);
    assert_eq!(parse_pattern(" \t ").unwrap_err().kind, PatternErrorKind::NoTokens);
    let e = parse_pattern("AA GG BB").unwrap_err();
    assert_eq!(e.kind, PatternErrorKind::InvalidByte(IntErrorKind::InvalidDigit));
    assert_eq!(e.text, "GG");
    assert_eq!(parse_pattern("{0}").unwrap(), Vec::<Option<u8>>::new());
}

#[test]
fn match_at_checks_fixed_bytes() {
    let data = [1u8, 2, 3, 4];
    assert!(match_at(&data, &[Some(2), None, Some(4)], 1));
    assert!(!match_at(&data, &[Some(2), None, Some(5)], 1));
    assert!(!match_at(&data, &[Some(3), Some(4), None], 2));
    assert!(match_at(&data, &[], 4));
}

#[test]
fn search_finds_fixed_pattern() {
    let data = b"xxABCDxxABxxABCD";
    let pat = [Some(b'A'), Some(b'B'), Some(b'C'), Some(b'D')];
    assert_eq!(search_pattern(data, &pat), vec![2, 12]);
    let pat = [Some(b'B'), None, Some(b'D')];
    assert_eq!(search_pattern(data, &pat), vec![3, 13]);
}

#[test]
fn search_aligns_on_first_fixed_byte() {
    let data = [9u8, 9, 7, 1, 9, 7, 2];
    let pat = [None, Some(7)];
    assert_eq!(search_pattern(&data, &pat), vec![1, 4]);
}

#[test]
fn search_quirk_near_end() {
    let data = [5u8, 5, 5];
    let pat = [None, Some(5)];
    assert_eq!(search_pattern(&data, &pat), vec![0, 0]);
}

#[test]
fn search_all_wildcards() {
    let data = [0u8; 10];
    assert_eq!(search_pattern(&data, &[None, None]), (0..9).collect::<Vec<usize>>());
    let big = vec![0u8; 6000];
    let hits = search_pattern(&big, &[None]);
    assert_eq!(hits.len(), 5000);
    assert_eq!(hits[4999], 4999);
}

#[test]
fn search_empty_and_short() {
    assert!(search_pattern(&[1, 2, 3], &[]).is_empty());
    assert!(search_pattern(&[1], &[Some(1), Some(2)]).is_empty());
    assert!(search_pattern(&[1, 2, 3], &[Some(9)]).is_empty());
}

#[test]
fn search_results_are_matches() {
    let data: Vec<u8> = (0..200u32).map(|i| (i * 7 % 13) as u8).collect();
    let pat = [Some(3), None, Some(4)];
    for &p in &search_pattern(&data, &pat) {
        assert!(match_at(&data, &pat, p));
    }
    let expected: Vec<usize> = (0..=data.len() - 3).filter(|&p| match_at(&data, &pat, p)).collect();
    assert_eq!(search_pattern(&data, &pat), expected);
}

#[test]
fn shown_context_parses_back_to_its_bytes() {
    let bytes: Vec<u8> = vec![0x00, 0x4D, 0x5A, 0x90, 0xFF, 0x0A];
    let shown = hex_bytes_string(&bytes);
    assert_eq!(shown, "00 4D 5A 90 FF 0A");
    let expected: Vec<Option<u8>> = bytes.iter().map(|b| Some(*b)).collect();
    assert_eq!(parse_pattern(&shown).unwrap(), expected);
    assert_eq!(search_pattern(&bytes, &expected), vec![0]);
}

#[test]
fn concatenated_tokens_parse_to_concatenation() {
    let pairs = [("AB{2}", "CD"), ("{1}", "{2}FF"), ("0102", "+F"), ("", "EE")];
    for (a, b) in pairs.iter() {
        let x = parse_hex_token(a).unwrap();
        let y = parse_hex_token(b).unwrap();
        let joined = parse_hex_token(&format!("{}{}", a, b)).unwrap();
        assert_eq!(joined, [x, y].concat());
    }
}

#[test]
fn leading_fixed_byte_reports_every_match_in_order() {
    let data: Vec<u8> = vec![0xAA, 0xAA, 0xAA, 0x01, 0xAA, 0xAA];
    let pattern = parse_pattern("AA AA").unwrap();
    assert_eq!(search_pattern(&data, &pattern), vec![0, 1, 4]);
    let pattern = parse_pattern("AA ??").unwrap();
    assert_eq!(search_pattern(&data, &pattern), vec![0, 1, 2, 4]);
}

#[test]
fn patterns_joined_by_whitespace_concatenate() {
    let pairs = [("AB ??", "{2} CD"), ("4D5A", "90"), ("..", "**")];
    for (a, b) in pairs.iter() {
        let x = parse_pattern(a).unwrap();
        let y = parse_pattern(b).unwrap();
        assert_eq!(parse_pattern(&format!("{} {}", a, b)).unwrap(), [x.clone(), y.clone()].concat());
        assert_eq!(parse_pattern(&format!("{}\t{}", a, b)).unwrap(), [x, y].concat());
    }
}

#[test]
fn formatted_addresses_read_back() {
    for a in [0u64, 0x1F, 0x7FF6_A2B0_C000, u64::MAX].iter() {
        assert_eq!(parse_address(&format!("{:X}", a)).unwrap(), *a);
        assert_eq!(parse_address(&format!("0x{:X}", a)).unwrap(), *a);
        assert_eq!(parse_address(&format!("0X{:X}", a)).unwrap(), *a);
        assert_eq!(parse_address(&format!("{:x}", a)).unwrap(), *a);
        assert_eq!(parse_address(&format!("0x{:x}", a)).unwrap(), *a);
        assert_eq!(parse_address(&format!("0X{:x}", a)).unwrap(), *a);
        assert_eq!(parse_stored_address(&format!("{:X}", a)), *a);
    }
}
