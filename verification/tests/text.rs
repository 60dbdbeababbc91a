use audio2face::text::{
    chars_of, decimal_text, find, find_char, joined, parse_number, same, skip_white, trim, white,
};

#[test]
fn white_space_is_that_of_unicode() {
    for n in 0u32..=0x10_ffff {
        if let Some(c) = char::from_u32(n) {
            assert_eq!(white(c), c.is_whitespace(), "{n:#x}");
        }
    }
}

#[test]
fn numbers_parse_like_the_standard_library() {
    for s in [
        "", "0", "7", "+7", "++7", "+", "-", "-1", "-0", "007", "12 ", " 12", "1_0", "4294967295",
        "4294967296", "18446744073709551615", "18446744073709551616", "18446744073709551620",
        "99999999999999999999999999", "000000000000000000000000000012", "x", "1x", "\u{664}",
    ] {
        let c = chars_of(s);
        assert_eq!(parse_number(&c, 0, c.len()), s.parse::<usize>().ok(), "{s:?}");
    }
    let c = chars_of("a+12b");
    assert_eq!(parse_number(&c, 1, 4), Some(12));
}

#[test]
fn decimal_texts_are_those_of_the_standard_library() {
    for n in [0u64, 1, 9, 10, 11, 99, 100, 101, 12_345_678_909, u64::MAX] {
        assert_eq!(decimal_text(n), n.to_string());
        let c = chars_of(&decimal_text(n));
        assert_eq!(parse_number(&c, 0, c.len()), Some(n as usize));
    }
}

#[test]
fn finding_finds_the_first() {
    let s = chars_of("ab'ab'é");
    assert_eq!(find(&s, &chars_of("ab"), 0), Some(0));
    assert_eq!(find(&s, &chars_of("ab"), 1), Some(3));
    assert_eq!(find(&s, &chars_of("é"), 0), Some(6));
    assert_eq!(find(&s, &chars_of("abc"), 0), None);
    assert_eq!(find(&s, &chars_of("ab'ab'é!"), 0), None);
    assert_eq!(find(&s, &chars_of(""), 7), Some(7));
    assert_eq!(find_char(&s, '\'', 0), 2);
    assert_eq!(find_char(&s, '\'', 3), 5);
    assert_eq!(find_char(&s, '\'', 6), 7);
}

#[test]
fn trimming_drops_padding_at_both_ends() {
    let s = chars_of(" (\t3, 4 )\n");
    assert_eq!(trim(&s, 0, s.len(), false), (1, 9));
    assert_eq!(trim(&s, 0, s.len(), true), (3, 7));
    let blank = chars_of(" \u{3000} ");
    let (lo, hi) = trim(&blank, 0, blank.len(), false);
    assert_eq!(lo, hi);
    assert_eq!(skip_white(&s, 0), 1);
    assert_eq!(skip_white(&blank, 0), 3);
}

#[test]
fn joining_and_comparing() {
    assert_eq!(joined("a", "é"), "aé");
    assert!(same("abc", "abc"));
    assert!(!same("abc", "abd"));
    assert!(!same("abc", "ab"));
}
