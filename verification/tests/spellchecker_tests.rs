use trie::spellchecker::SpellChecker;

fn strings(words: &[&str]) -> Vec<String> {
    words.iter().map(|w| w.to_string()).collect()
}

fn checker(words: &[&str]) -> SpellChecker {
    SpellChecker::new(&strings(words))
}

#[test]
fn normalization() {
    assert_eq!(SpellChecker::normalize("Ever."), "ever");
    assert_eq!(SpellChecker::normalize("don't"), "dont");
    assert_eq!(SpellChecker::normalize(""), "");
}

#[test]
fn normalization_drops_all_but_letters() {
    assert_eq!(SpellChecker::normalize("Br0wn"), "brwn");
    assert_eq!(SpellChecker::normalize("1234"), "");
    assert_eq!(SpellChecker::normalize("...!?"), "");
    assert_eq!(SpellChecker::normalize("HELLO"), "hello");
    assert_eq!(SpellChecker::normalize("hello"), "hello");
    assert_eq!(SpellChecker::normalize("a-b_c d"), "abcd");
    assert_eq!(SpellChecker::normalize("[AZ]`az{@"), "azaz");
    assert_eq!(SpellChecker::normalize("naïve"), "nave");
    assert_eq!(SpellChecker::normalize("Édith"), "dith");
    assert_eq!(SpellChecker::normalize("日本語"), "");
    assert_eq!(SpellChecker::normalize("inspect()"), "inspect");
}

#[test]
fn normalization_of_every_ascii_character() {
    let mut n: u32 = 0;
    while n < 128 {
        let c = char::from_u32(n).unwrap();
        let expected: String = if c.is_ascii_alphabetic() {
            c.to_ascii_lowercase().to_string()
        } else {
            String::new()
        };
        assert_eq!(SpellChecker::normalize(&c.to_string()), expected);
        n += 1;
    }
}

#[test]
fn is_word_looks_the_word_up_as_given() {
    let sc = checker(&["the", "Quick"]);
    assert!(sc.is_word("the"));
    assert!(!sc.is_word("The"));
    assert!(sc.is_word("Quick"));
    assert!(!sc.is_word("quick"));
    assert!(!sc.is_word(""));
    assert!(!sc.is_word("th"));
}

#[test]
fn check_string_scenario() {
    let sc = checker(&["the", "quick", "brown", "fox"]);
    assert_eq!(sc.check_string("The quick Br0wn fox"), strings(&["brwn"]));
}

#[test]
fn check_string_keeps_the_order_of_the_text() {
    let sc = checker(&["the", "fox"]);
    assert_eq!(
        sc.check_string("  Zebra the Yak, fox; the zebra!\n apple "),
        strings(&["zebra", "yak", "zebra", "apple"])
    );
}

#[test]
fn check_string_without_misspellings() {
    let sc = checker(&["the", "quick", "brown", "fox"]);
    assert_eq!(sc.check_string("the QUICK, brown... fox!"), Vec::<String>::new());
    assert_eq!(sc.check_string(""), Vec::<String>::new());
    assert_eq!(sc.check_string(" \t \n"), Vec::<String>::new());
}

#[test]
fn empty_tokens_are_misspelled_unless_stored() {
    let sc = checker(&["the"]);
    assert_eq!(sc.check_string("the 123 ... the"), strings(&["", ""]));
    let with_empty = checker(&["the", ""]);
    assert_eq!(with_empty.check_string("the 123 ... the"), Vec::<String>::new());
}

#[test]
fn recommendation_scenario() {
    let dict = ["coolest", "cool", "coo", "cooling"];
    let sc = checker(&dict);
    let recs = sc.get_recommendations("coolestest", 5);
    assert_eq!(recs, strings(&["cool", "coolest"]));
    assert!(recs.len() <= 5);
    for r in &recs {
        assert!(dict.contains(&r.as_str()));
    }
    let mut sorted = recs.clone();
    sorted.sort();
    sorted.dedup();
    assert_eq!(recs, sorted);
}

#[test]
fn recommendations_with_room_for_all() {
    let sc = checker(&["coolest", "cool", "coo", "cooling"]);
    assert_eq!(
        sc.get_recommendations("coolestest", 100),
        strings(&["coo", "cool", "coolest", "cooling"])
    );
    assert_eq!(sc.get_recommendations("coolestest", 1), strings(&["coolest"]));
    assert_eq!(sc.get_recommendations("coolestest", 3), strings(&["coolest"]));
    assert_eq!(sc.get_recommendations("coolestest", 4), strings(&["cool", "coolest"]));
    assert_eq!(sc.get_recommendations("coolestest", 6), strings(&["cool", "coolest", "cooling"]));
    assert_eq!(sc.get_recommendations("coolestest", 7), strings(&["coo", "cool", "coolest", "cooling"]));
    assert_eq!(sc.get_recommendations("coolestest", 0), Vec::<String>::new());
}

#[test]
fn recommendations_may_be_fewer_than_asked_for() {
    let sc = checker(&["ab", "abc", "abd", "ax"]);
    assert_eq!(sc.get_recommendations("abq", 3), strings(&["ab", "abc", "abd"]));
    assert_eq!(sc.get_recommendations("abc", 3), strings(&["ab", "abc"]));
    assert_eq!(sc.get_recommendations("abc", 4), strings(&["ab", "abc", "abd"]));
    assert_eq!(sc.get_recommendations("abc", 8), strings(&["ab", "abc", "abd", "ax"]));
}

#[test]
fn no_empty_prefix_is_asked_for() {
    let sc = checker(&["a", "an", "and", "b", "be", ""]);
    assert_eq!(sc.get_recommendations("a", 5), strings(&["a", "an", "and"]));
    assert_eq!(sc.get_recommendations("z", 5), Vec::<String>::new());
    assert_eq!(sc.get_recommendations("zebra", 5), Vec::<String>::new());
    assert_eq!(sc.get_recommendations("", 5), Vec::<String>::new());
    let other = checker(&["b", "c"]);
    assert_eq!(other.get_recommendations("a", 5), Vec::<String>::new());
}

#[test]
fn recommendations_for_words_beyond_ascii() {
    let sc = checker(&["été", "étage", "es"]);
    assert_eq!(sc.get_recommendations("étéx", 10), strings(&["étage", "été"]));
    assert_eq!(sc.get_recommendations("日本", 10), Vec::<String>::new());
}

#[test]
fn vocabulary_with_repetitions() {
    let sc = checker(&["b", "a", "b", "a", "b"]);
    assert!(sc.is_word("a"));
    assert!(sc.is_word("b"));
    assert_eq!(sc.check_string("a b c"), strings(&["c"]));
    assert_eq!(sc.get_recommendations("bb", 5), strings(&["b"]));
}
