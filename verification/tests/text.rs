use ircd::text::{chars_of, is_whitespace_char, same_chars, split_whitespace, string_from_range};

#[test]
fn whitespace_matches_char_is_whitespace_everywhere() {
    for u in 0u32..0x110000 {
        if let Some(c) = char::from_u32(u) {
            assert_eq!(is_whitespace_char(c), c.is_whitespace(), "U+{:04X}", u);
        }
    }
}

#[test]
fn split_whitespace_matches_std() {
    for s in ["", "  a  b ", "a\tb\nc\r\n", "x\u{3000}y\u{85}z", "\u{a0}", "one"] {
        let ours = split_whitespace(s);
        let std: Vec<String> = s.split_whitespace().map(|w| w.to_string()).collect();
        assert_eq!(ours, std);
    }
}

#[test]
fn chars_and_ranges() {
    let v = chars_of("héllo");
    assert_eq!(v, vec!['h', 'é', 'l', 'l', 'o']);
    assert_eq!(string_from_range(&v, 1, 3), "él");
    assert!(same_chars(&v, &chars_of("héllo")));
    assert!(!same_chars(&v, &chars_of("hello")));
}
