use trie::text::{chars_of, is_space, split_words, string_of, strings_of, to_lower};

#[test]
fn chars_and_back() {
    for s in ["", "a", "hello world", "naïve", "日本語", "don't"] {
        let v = chars_of(s);
        assert_eq!(v, s.chars().collect::<Vec<char>>());
        assert_eq!(string_of(&v), s);
    }
    let words = vec![chars_of("one"), chars_of(""), chars_of("trois")];
    assert_eq!(strings_of(&words), vec!["one".to_string(), String::new(), "trois".to_string()]);
}

#[test]
fn white_space_is_what_the_standard_library_says() {
    let mut n: u32 = 0;
    while n <= 0x10ffff {
        if let Some(c) = char::from_u32(n) {
            assert_eq!(is_space(c), c.is_whitespace(), "U+{:04X}", n);
        }
        n += 1;
    }
}

#[test]
fn some_white_space() {
    assert!(is_space(' '));
    assert!(is_space('\t'));
    assert!(is_space('\n'));
    assert!(is_space('\r'));
    assert!(is_space('\u{a0}'));
    assert!(is_space('\u{3000}'));
    assert!(!is_space('a'));
    assert!(!is_space('_'));
    assert!(!is_space('\u{200b}'));
}

#[test]
fn small_letters() {
    assert_eq!(to_lower('A'), 'a');
    assert_eq!(to_lower('Z'), 'z');
    assert_eq!(to_lower('M'), 'm');
    assert_eq!(to_lower('a'), 'a');
    assert_eq!(to_lower('z'), 'z');
    assert_eq!(to_lower('@'), '@');
    assert_eq!(to_lower('['), '[');
    assert_eq!(to_lower('0'), '0');
    assert_eq!(to_lower('É'), 'É');
    let mut n: u32 = 0;
    while n < 128 {
        let c = char::from_u32(n).unwrap();
        assert_eq!(to_lower(c), c.to_ascii_lowercase());
        assert_eq!(to_lower(c), c.to_lowercase().last().unwrap());
        n += 1;
    }
}

#[test]
fn tokens_of_a_text() {
    assert_eq!(split_words("The quick Br0wn fox"), vec!["The", "quick", "Br0wn", "fox"]);
    assert_eq!(split_words(""), Vec::<String>::new());
    assert_eq!(split_words("   \t\n "), Vec::<String>::new());
    assert_eq!(split_words("one"), vec!["one"]);
    assert_eq!(split_words("  lead and trail  "), vec!["lead", "and", "trail"]);
    assert_eq!(split_words("a\tb\nc\r\nd  e"), vec!["a", "b", "c", "d", "e"]);
    assert_eq!(split_words("don't stop, ever."), vec!["don't", "stop,", "ever."]);
    assert_eq!(split_words("x\u{a0}y\u{3000}z"), vec!["x", "y", "z"]);
}

#[test]
fn tokens_are_what_split_whitespace_gives() {
    let texts = [
        "",
        " ",
        "a",
        " a",
        "a ",
        "a b",
        "When using iterators, you'll often chain several of them together.",
        "tabs\tand\nnew\r\nlines \u{2003}and\u{2028}more\u{85}here",
        "  naïve   café  日本語 ",
    ];
    for t in texts {
        let expected: Vec<String> = t.trim().split_whitespace().map(|w| w.to_string()).collect();
        assert_eq!(split_words(t), expected, "{:?}", t);
    }
}
