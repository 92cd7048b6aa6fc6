use nufrost::order::{compare_strings, sort_strings};
use nufrost::text::{char_is_whitespace, chars_of, hex_digit_char, push_decimal, str_equal, string_from_chars, trim_str};

#[test]
fn trim_str_strips_unicode_whitespace() {
    assert_eq!(trim_str("  a b \t\n"), "a b");
    assert_eq!(trim_str("\u{3000}x\u{a0}"), "x");
    assert_eq!(trim_str("   "), "");
    assert_eq!(trim_str(""), "");
}

#[test]
fn whitespace_classes() {
    for c in [' ', '\t', '\n', '\r', '\u{b}', '\u{c}', '\u{85}', '\u{a0}', '\u{2028}', '\u{3000}'] {
        assert!(char_is_whitespace(c));
        assert_eq!(char_is_whitespace(c), c.is_whitespace());
    }
    for c in ['a', '0', '_', '\u{200b}', 'é'] {
        assert!(!char_is_whitespace(c));
    }
}

#[test]
fn string_helpers() {
    assert!(str_equal("abc", "abc"));
    assert!(!str_equal("abc", "abd"));
    assert_eq!(chars_of("aé"), vec!['a', 'é']);
    assert_eq!(string_from_chars(&vec!['x', 'ÿ']), "xÿ");
    assert_eq!(hex_digit_char(0), '0');
    assert_eq!(hex_digit_char(11), 'b');
    let mut s = String::from("n=");
    push_decimal(&mut s, 0);
    push_decimal(&mut s, 1234567890123456789012345);
    assert_eq!(s, "n=01234567890123456789012345");
}

#[test]
fn string_order_and_sort() {
    assert_eq!(compare_strings("a", "b"), -1);
    assert_eq!(compare_strings("b", "a"), 1);
    assert_eq!(compare_strings("ab", "a"), 1);
    assert_eq!(compare_strings("", ""), 0);
    let v: Vec<String> = ["pear", "apple", "fig", "apple"].iter().map(|s| s.to_string()).collect();
    let sorted = sort_strings(v);
    assert_eq!(sorted, vec!["apple", "apple", "fig", "pear"]);
}

#[test]
fn trimming_twice_is_trimming_once() {
    for s in ["  a b  ", "\t\n", "x", "", "\u{a0} y \u{3000}"] {
        let once = trim_str(s);
        assert_eq!(trim_str(once), once);
    }
}
