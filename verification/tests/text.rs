use hexyg_core::digits::{hex_value, is_hex_digit_char, upper_digit};
use hexyg_core::text::{chars_of, find_char, find_pair, is_whitespace_char, trim_bounds};

fn chars(s: &str) -> Vec<char> {
    s.chars().collect()
}

#[test]
fn hex_digits_in_both_cases() {
    for c in "0123456789abcdefABCDEF".chars() {
        assert!(is_hex_digit_char(c));
        assert_eq!(hex_value(c), c.to_digit(16).map(|v| v as u8));
    }
    for c in "gG/:@`[| \n+-x".chars() {
        assert!(!is_hex_digit_char(c));
        assert_eq!(hex_value(c), None);
    }
    assert_eq!(hex_value('0'), Some(0));
    assert_eq!(hex_value('9'), Some(9));
    assert_eq!(hex_value('a'), Some(10));
    assert_eq!(hex_value('F'), Some(15));
}

#[test]
fn hex_digit_agrees_with_the_standard_library_on_every_character() {
    for code in 0u32..0x11_0000 {
        if let Some(c) = char::from_u32(code) {
            assert_eq!(is_hex_digit_char(c), c.is_ascii_hexdigit());
        }
    }
}

#[test]
fn upper_digits() {
    let expected: Vec<char> = "0123456789ABCDEF".chars().collect();
    for value in 0u8..16 {
        assert_eq!(upper_digit(value), expected[value as usize]);
    }
}

#[test]
fn whitespace_agrees_with_the_standard_library_on_every_character() {
    for code in 0u32..0x11_0000 {
        if let Some(c) = char::from_u32(code) {
            assert_eq!(is_whitespace_char(c), c.is_whitespace());
        }
    }
}

#[test]
fn chars_of_gives_every_character() {
    assert_eq!(chars_of(""), Vec::<char>::new());
    assert_eq!(chars_of("aé€😀"), vec!['a', 'é', '€', '😀']);
}

#[test]
fn trim_bounds_agree_with_the_standard_library() {
    for text in [
        "",
        " ",
        "a",
        "  a b  ",
        "\t\r\nab",
        "ab\u{3000}",
        "\u{a0}a\u{2028}",
        " \u{85} ",
        "a \u{200b} ",
    ] {
        let all = chars(text);
        let (from, to) = trim_bounds(&all);
        let trimmed: String = all[from..to].iter().collect();
        assert_eq!(trimmed, text.trim());
    }
    assert_eq!(trim_bounds(&chars("  ab ")), (2, 4));
}

#[test]
fn find_char_gives_the_first_index_or_the_length() {
    assert_eq!(find_char(&chars("ab:cd:e"), ':'), 2);
    assert_eq!(find_char(&chars(":"), ':'), 0);
    assert_eq!(find_char(&chars("abc"), ':'), 3);
    assert_eq!(find_char(&chars(""), ':'), 0);
}

#[test]
fn find_pair_gives_the_first_index_or_the_length() {
    assert_eq!(find_pair(&chars("a//b//"), '/', '/'), 1);
    assert_eq!(find_pair(&chars("//"), '/', '/'), 0);
    assert_eq!(find_pair(&chars("a/b/"), '/', '/'), 4);
    assert_eq!(find_pair(&chars("/"), '/', '/'), 1);
    assert_eq!(find_pair(&chars(""), '/', '/'), 0);
    assert_eq!(find_pair(&chars("a/*b"), '/', '*'), 1);
    assert_eq!(find_pair(&chars("///"), '/', '/'), 0);
}
