use refdes::text::{
    char_code, char_is_ascii_alphabetic, char_is_ascii_digit, char_is_ascii_lowercase,
    char_is_whitespace, char_to_ascii_lowercase, char_to_ascii_uppercase, chars_precede,
    copy_chars, from_chars, push_chars, push_decimal, same_chars, to_chars, trimmed_chars,
};

fn chars(s: &str) -> Vec<char> {
    s.chars().collect()
}

#[test]
fn whitespace_is_what_the_standard_library_takes_for_it() {
    for code in 0..=0x10ffffu32 {
        if let Some(c) = char::from_u32(code) {
            assert_eq!(char_is_whitespace(c), c.is_whitespace(), "U+{:04X}", code);
        }
    }
}

#[test]
fn character_classes_are_those_of_the_standard_library() {
    for code in 0..=0x2ffu32 {
        let c = char::from_u32(code).unwrap();
        assert_eq!(char_is_ascii_digit(c), c.is_ascii_digit());
        assert_eq!(char_is_ascii_alphabetic(c), c.is_ascii_alphabetic());
        assert_eq!(char_is_ascii_lowercase(c), c.is_ascii_lowercase());
        assert_eq!(char_to_ascii_lowercase(c), c.to_ascii_lowercase());
        assert_eq!(char_to_ascii_uppercase(c), c.to_ascii_uppercase());
    }
    assert_eq!(char_to_ascii_lowercase('\u{c9}'), '\u{c9}');
    assert_eq!(char_to_ascii_uppercase('\u{e9}'), '\u{e9}');
}

#[test]
fn codes_of_characters() {
    assert_eq!(char_code('\0'), 0);
    assert_eq!(char_code('A'), 65);
    assert_eq!(char_code('\u{ff}'), 255);
}

#[test]
fn characters_and_strings() {
    assert_eq!(to_chars("R1\u{ff5e}"), vec!['R', '1', '\u{ff5e}']);
    assert_eq!(to_chars(""), Vec::<char>::new());
    assert_eq!(from_chars(&chars("R1\u{ff5e}")), "R1\u{ff5e}");
    assert_eq!(from_chars(&Vec::new()), "");
    assert_eq!(copy_chars(&chars("abc")), chars("abc"));
    let mut s = "x".to_string();
    push_chars(&mut s, &chars("abcdef"), 2, 4);
    assert_eq!(s, "xcd");
    push_chars(&mut s, &chars("abcdef"), 3, 3);
    assert_eq!(s, "xcd");
}

#[test]
fn equal_and_smaller_texts() {
    assert!(same_chars(&chars("abc"), &chars("abc")));
    assert!(same_chars(&chars(""), &chars("")));
    assert!(!same_chars(&chars("abc"), &chars("abd")));
    assert!(!same_chars(&chars("abc"), &chars("ab")));
    assert!(chars_precede(&chars("ab"), &chars("abc")));
    assert!(chars_precede(&chars(""), &chars("a")));
    assert!(chars_precede(&chars("abc"), &chars("abd")));
    assert!(chars_precede(&chars("B"), &chars("a")));
    assert!(!chars_precede(&chars("abc"), &chars("abc")));
    assert!(!chars_precede(&chars("b"), &chars("abc")));
    assert!(!chars_precede(&chars(""), &chars("")));
    for (a, b) in [("R", "r"), ("IC", "I"), ("z", "\u{e9}"), ("\u{ffff}", "\u{10000}")] {
        assert_eq!(chars_precede(&chars(a), &chars(b)), a < b);
        assert_eq!(chars_precede(&chars(b), &chars(a)), b < a);
    }
}

#[test]
fn trimming() {
    assert_eq!(trimmed_chars("  R1, R2 \n"), chars("R1, R2"));
    assert_eq!(trimmed_chars("R1"), chars("R1"));
    assert_eq!(trimmed_chars(" \t "), chars(""));
    assert_eq!(trimmed_chars(""), chars(""));
    assert_eq!(trimmed_chars("\u{3000}a\u{a0}"), chars("a"));
    for text in ["  a b  ", "\n\na", "a\r\n", " ", ""] {
        assert_eq!(trimmed_chars(text), chars(text.trim()));
    }
}

#[test]
fn decimal_numbers() {
    for n in [0usize, 1, 9, 10, 11, 99, 100, 101, 12345, 1000000, usize::MAX] {
        let mut s = "R".to_string();
        push_decimal(&mut s, n);
        assert_eq!(s, format!("R{}", n));
    }
}
