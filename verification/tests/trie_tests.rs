use trie::data_structures::{Trie, TrieNode};

fn trie_of(words: &[&str]) -> Trie {
    let mut t = Trie::new();
    for w in words {
        t.add_word(w);
    }
    t
}

fn strings(words: &[&str]) -> Vec<String> {
    words.iter().map(|w| w.to_string()).collect()
}

#[test]
fn empty_trie_holds_nothing() {
    let t = Trie::new();
    assert!(!t.contains(""));
    assert!(!t.contains("a"));
    assert_eq!(t.get_words_with_prefix(String::new()), Vec::<String>::new());
}

#[test]
fn inserted_word_is_contained() {
    let mut t = Trie::new();
    t.add_word("hello");
    assert!(t.contains("hello"));
    t.add_word("world");
    t.add_word("help");
    t.add_word("he");
    assert!(t.contains("hello"));
    assert!(t.contains("world"));
    assert!(t.contains("help"));
    assert!(t.contains("he"));
}

#[test]
fn every_inserted_word_stays() {
    let words = ["delta", "alpha", "charlie", "bravo", "al", "alphabet", "b"];
    let mut t = Trie::new();
    for (i, w) in words.iter().enumerate() {
        t.add_word(w);
        for seen in &words[..=i] {
            assert!(t.contains(seen));
        }
        for unseen in &words[i + 1..] {
            assert!(!t.contains(unseen));
        }
    }
}

#[test]
fn negative_lookup() {
    let t = trie_of(&["cat", "car", "cart"]);
    assert!(!t.contains("ca"));
    assert!(!t.contains("care"));
    assert!(t.contains("cart"));
    assert!(t.contains("cat"));
    assert!(t.contains("car"));
    assert!(!t.contains(""));
    assert!(!t.contains("c"));
    assert!(!t.contains("carts"));
}

#[test]
fn prefix_enumeration() {
    let t = trie_of(&["cat", "car", "cart", "dog"]);
    assert_eq!(t.get_words_with_prefix("ca".to_string()), strings(&["car", "cart", "cat"]));
    assert_eq!(t.get_words_with_prefix("do".to_string()), strings(&["dog"]));
    assert_eq!(t.get_words_with_prefix("z".to_string()), Vec::<String>::new());
    assert_eq!(t.get_words_with_prefix("car".to_string()), strings(&["car", "cart"]));
    assert_eq!(t.get_words_with_prefix("cart".to_string()), strings(&["cart"]));
    assert_eq!(t.get_words_with_prefix("carts".to_string()), Vec::<String>::new());
    assert_eq!(
        t.get_words_with_prefix(String::new()),
        strings(&["car", "cart", "cat", "dog"])
    );
}

#[test]
fn enumeration_is_the_same_on_every_call() {
    let t = trie_of(&["b", "a", "ab", "abc", "c"]);
    let first = t.get_words_with_prefix("a".to_string());
    let second = t.get_words_with_prefix("a".to_string());
    assert_eq!(first, strings(&["a", "ab", "abc"]));
    assert_eq!(first, second);
}

#[test]
fn insertion_is_idempotent() {
    let once = trie_of(&["cat", "car", "dog"]);
    let twice = trie_of(&["cat", "car", "cat", "dog", "dog", "cat"]);
    for q in ["", "c", "ca", "cat", "car", "cart", "d", "do", "dog", "x"] {
        assert_eq!(once.contains(q), twice.contains(q));
        assert_eq!(
            once.get_words_with_prefix(q.to_string()),
            twice.get_words_with_prefix(q.to_string())
        );
    }
}

#[test]
fn insertion_order_does_not_matter() {
    let a = trie_of(&["one", "two", "three", "on", "tw"]);
    let b = trie_of(&["tw", "three", "on", "two", "one"]);
    for q in ["", "o", "on", "one", "t", "tw", "two", "th", "three", "x"] {
        assert_eq!(a.contains(q), b.contains(q));
        assert_eq!(
            a.get_words_with_prefix(q.to_string()),
            b.get_words_with_prefix(q.to_string())
        );
    }
}

#[test]
fn empty_word_marks_the_root() {
    let mut t = Trie::new();
    t.add_word("a");
    assert!(!t.contains(""));
    assert_eq!(t.get_words_with_prefix(String::new()), strings(&["a"]));
    t.add_word("");
    assert!(t.contains(""));
    assert!(t.contains("a"));
    assert_eq!(t.get_words_with_prefix(String::new()), strings(&["", "a"]));
    assert_eq!(t.get_words_with_prefix("a".to_string()), strings(&["a"]));
}

#[test]
fn words_are_kept_as_given() {
    let t = trie_of(&["Cat", "cat", "caT", "don't", "naïve", "日本語", "日本"]);
    assert!(t.contains("Cat"));
    assert!(t.contains("cat"));
    assert!(t.contains("caT"));
    assert!(!t.contains("CAT"));
    assert!(t.contains("don't"));
    assert!(!t.contains("dont"));
    assert!(t.contains("naïve"));
    assert!(!t.contains("naive"));
    assert_eq!(t.get_words_with_prefix("日".to_string()), strings(&["日本", "日本語"]));
    assert_eq!(t.get_words_with_prefix("ca".to_string()), strings(&["caT", "cat"]));
}

#[test]
fn enumeration_is_in_string_order() {
    let words = [
        "b", "a", "B", "A", "ab", "aB", "Ab", "a b", "a-b", "é", "e", "z", "zz", "Z", "~", "ñ", "n",
        "日本", "0", "10", "9", "",
    ];
    let t = trie_of(&words);
    let mut expected = strings(&words);
    expected.sort();
    expected.dedup();
    assert_eq!(t.get_words_with_prefix(String::new()), expected);
    let with_a: Vec<String> = expected.iter().filter(|w| w.starts_with('a')).cloned().collect();
    assert_eq!(t.get_words_with_prefix("a".to_string()), with_a);
}

#[test]
fn from_takes_every_word() {
    let words = strings(&["pear", "apple", "pea", "apple", ""]);
    let t = Trie::from(&words);
    assert!(t.contains("pear"));
    assert!(t.contains("pea"));
    assert!(t.contains("apple"));
    assert!(t.contains(""));
    assert!(!t.contains("pe"));
    assert_eq!(t.get_words_with_prefix("p".to_string()), strings(&["pea", "pear"]));
    assert_eq!(
        t.get_words_with_prefix(String::new()),
        strings(&["", "apple", "pea", "pear"])
    );
    let none = Trie::from(&Vec::new());
    assert_eq!(none.get_words_with_prefix(String::new()), Vec::<String>::new());
}

#[test]
fn many_children_are_found_again() {
    let mut t = Trie::new();
    let mut words: Vec<String> = Vec::new();
    for c in ('a'..='z').rev() {
        for d in ['m', 'a', 'z', 'q'] {
            words.push(format!("{}{}", c, d));
        }
    }
    for w in &words {
        t.add_word(w);
    }
    for w in &words {
        assert!(t.contains(w));
    }
    assert!(!t.contains("ab"));
    words.sort();
    assert_eq!(t.get_words_with_prefix(String::new()), words);
    assert_eq!(t.get_words_with_prefix("q".to_string()), strings(&["qa", "qm", "qq", "qz"]));
}

#[test]
fn node_children_can_be_added_in_any_order() {
    let mut node = TrieNode::new();
    node.add_child('m');
    node.add_child('a');
    node.add_child('z');
    let child = node.add_child('a');
    child.add_child('b').add_child('c');
    node.add_child('m').add_child('n');
}
