use trie::order::{insert_sorted, less, sort_dedup};

fn chars(s: &str) -> Vec<char> {
    s.chars().collect()
}

fn words(v: &[&str]) -> Vec<Vec<char>> {
    v.iter().map(|w| chars(w)).collect()
}

#[test]
fn less_is_the_order_of_strings() {
    let samples = [
        "", "a", "A", "aa", "ab", "b", "ba", "abc", "abd", "ab ", "é", "e", "ez", "日本", "日本語",
        "~", "\u{7f}", "\u{80}", "\u{10ffff}", "z", "Z",
    ];
    for a in samples {
        for b in samples {
            assert_eq!(less(&chars(a), &chars(b)), a < b, "{:?} < {:?}", a, b);
        }
    }
}

#[test]
fn less_on_given_words() {
    assert!(less(&chars("car"), &chars("cart")));
    assert!(less(&chars("cart"), &chars("cat")));
    assert!(!less(&chars("cat"), &chars("cat")));
    assert!(!less(&chars("cat"), &chars("car")));
    assert!(less(&chars(""), &chars("a")));
    assert!(!less(&chars(""), &chars("")));
}

#[test]
fn insert_sorted_keeps_the_order() {
    let mut v: Vec<Vec<char>> = Vec::new();
    for w in ["m", "a", "z", "m", "ab", "a", ""] {
        insert_sorted(&mut v, chars(w));
    }
    assert_eq!(v, words(&["", "a", "ab", "m", "z"]));
}

#[test]
fn sort_dedup_sorts_and_drops_repetitions() {
    let v = words(&["coolest", "coolest", "coolest", "cool", "coolest"]);
    assert_eq!(sort_dedup(v), words(&["cool", "coolest"]));
    assert_eq!(sort_dedup(Vec::new()), Vec::<Vec<char>>::new());
    assert_eq!(sort_dedup(words(&["b"])), words(&["b"]));
    assert_eq!(sort_dedup(words(&["b", "a", "c", "a", "b"])), words(&["a", "b", "c"]));
}

#[test]
fn sort_dedup_agrees_with_the_standard_sort() {
    let input = [
        "pear", "Apple", "apple", "fig", "pear", "", "Fig", "apple", "z", "é", "e", "日本", "fi",
        "figs", "",
    ];
    let mut expected: Vec<String> = input.iter().map(|w| w.to_string()).collect();
    expected.sort_unstable();
    expected.dedup();
    let got: Vec<String> =
        sort_dedup(words(&input)).iter().map(|w| w.iter().collect::<String>()).collect();
    assert_eq!(got, expected);
}
