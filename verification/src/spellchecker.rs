//! A spell checker over a vocabulary held in a trie.
use crate::data_structures::{beginning_with, Trie};
use crate::order::{lists, sort_dedup, sorted_listing, strictly_sorted, words_of};
use crate::text::{chars_of, letters, lower, normalized, split_words, strings_of, to_lower, tokens};
use vstd::prelude::*;

verus! {

/// `Regex::replace_all` of the crate `regex`, with the pattern
/// `[[:^alpha:]]` and the empty replacement. The pattern matches one
/// character that is none of the letters `a` to `z` and `A` to `Z`, and every
/// match is replaced by nothing: the result is what is left of `token`, its
/// letters, in their order. The pattern is valid, so compiling it does not
/// fail.
#[verifier::external_body]
fn strip_non_letters(token: &str) -> (r: String)
    ensures
        r@ == letters(token@),
{
    let re = regex::Regex::new("[[:^alpha:]]").unwrap();
    re.replace_all(token, "").into_owned()
}

/// The words that a search for `word` looks at, before any is left out: the
/// words of `dict` that begin with the first `k` characters of `word`, then
/// those that begin with the first `k - 1`, and so on down to the first
/// character alone.
pub open spec fn candidates(dict: Set<Seq<char>>, word: Seq<char>, k: int) -> Seq<Seq<char>>
    decreases k,
{
    if k <= 0 {
        Seq::empty()
    } else {
        beginning_with(dict, word.take(k)) + candidates(dict, word, k - 1)
    }
}

/// The first `max_num` candidates for `word`, or all of them if they are
/// fewer.
pub open spec fn examined(dict: Set<Seq<char>>, word: Seq<char>, max_num: int) -> Seq<Seq<char>> {
    let all = candidates(dict, word, word.len() as int);
    if all.len() <= max_num {
        all
    } else {
        all.take(max_num)
    }
}

/// The words proposed for `word`: the examined candidates in increasing
/// order, each once.
pub open spec fn recommended(dict: Set<Seq<char>>, word: Seq<char>, max_num: int) -> Seq<
    Seq<char>,
> {
    sorted_listing(examined(dict, word, max_num).to_set())
}

/// The tokens of `text`, normalized, without those that `dict` holds.
pub open spec fn misspelled(dict: Set<Seq<char>>, text: Seq<char>) -> Seq<Seq<char>> {
    tokens(text).map_values(|t: Seq<char>| normalized(t)).filter(
        |w: Seq<char>| !dict.contains(w),
    )
}

/// A search never asks for the words that begin with nothing: for a word of
/// one character the candidates are the words that begin with it, and for
/// the empty word there is none.
pub proof fn lemma_candidates_floor(dict: Set<Seq<char>>, word: Seq<char>)
    ensures
        word.len() == 0 ==> candidates(dict, word, word.len() as int) == Seq::<Seq<char>>::empty(),
        word.len() == 1 ==> candidates(dict, word, word.len() as int) == beginning_with(
            dict,
            word,
        ),
{
    if word.len() == 1 {
        assert(word.take(1) =~= word);
        assert(candidates(dict, word, 0) == Seq::<Seq<char>>::empty());
        assert(beginning_with(dict, word) + Seq::<Seq<char>>::empty() =~= beginning_with(
            dict,
            word,
        ));
    }
}

/// A vocabulary, against which words and texts are checked.
pub struct SpellChecker {
    word_set: Trie,
}

impl View for SpellChecker {
    type V = Set<Seq<char>>;

    /// The vocabulary.
    closed spec fn view(&self) -> Set<Seq<char>> {
        self.word_set@
    }
}

impl SpellChecker {
    /// The trie that holds the vocabulary is well formed.
    pub closed spec fn wf(&self) -> bool {
        self.word_set.wf()
    }

    /// A spell checker whose vocabulary is `words`, each as it is given.
    pub fn new(words: &Vec<String>) -> (r: SpellChecker)
        ensures
            r.wf(),
            r@ == words.deep_view().to_set(),
    {
        SpellChecker { word_set: Trie::from(words) }
    }

    /// The letters of `token`, each as a small letter.
    pub fn normalize(token: &str) -> (r: String)
        ensures
            r@ == normalized(token@),
    {
        let stripped = strip_non_letters(token);
        let mut r = String::new();
        for c in it: stripped.as_str().chars()
            invariant
                it.seq() == stripped@,
                r@ == stripped@.take(it.index() as int).map_values(|c: char| lower(c)),
        {
            r.push(to_lower(c));
            proof {
                let i = it.index() as int;
                assert(stripped@.take(i + 1).map_values(|c: char| lower(c)) =~= stripped@.take(
                    i,
                ).map_values(|c: char| lower(c)).push(lower(c)));
            }
        }
        proof {
            assert(stripped@.take(stripped@.len() as int) =~= stripped@);
        }
        r
    }

    /// Tells whether `word`, as it is given, is in the vocabulary.
    pub fn is_word(&self, word: &str) -> (r: bool)
        requires
            self.wf(),
        ensures
            r == self@.contains(word@),
    {
        self.word_set.contains(word)
    }

    /// The tokens of `string` that are not in the vocabulary, normalized, in
    /// the order in which they stand in `string`.
    pub fn check_string(&self, string: &str) -> (r: Vec<String>)
        requires
            self.wf(),
        ensures
            r.deep_view() == misspelled(self@, string@),
    {
        let words = split_words(string);
        let ghost toks = tokens(string@);
        let ghost norm = |t: Seq<char>| normalized(t);
        let ghost unknown = |w: Seq<char>| !self@.contains(w);
        let mut r: Vec<String> = Vec::new();
        let mut i: usize = 0;
        assert(toks.take(0).map_values(norm).filter(unknown) =~= Seq::<Seq<char>>::empty()) by {
            assert(toks.take(0).map_values(norm) =~= Seq::<Seq<char>>::empty());
        }
        while i < words.len()
            invariant
                self.wf(),
                i <= words.len(),
                words.deep_view() == toks,
                norm == |t: Seq<char>| normalized(t),
                unknown == |w: Seq<char>| !self@.contains(w),
                r.deep_view() == toks.take(i as int).map_values(norm).filter(unknown),
            decreases words.len() - i,
        {
            let ghost held = r.deep_view();
            let word = Self::normalize(words[i].as_str());
            let ghost w = word@;
            proof {
                let seen = toks.take(i as int).map_values(norm);
                assert(words.deep_view()[i as int] == words@[i as int]@);
                assert(toks.take(i + 1).map_values(norm) =~= seen.push(w));
                seen.lemma_filter_push(w, unknown);
            }
            if !self.is_word(word.as_str()) {
                r.push(word);
                assert(r.deep_view() =~= held.push(w));
            }
            i += 1;
        }
        proof {
            assert(toks.take(words.len() as int) =~= toks);
        }
        r
    }

    /// Words of the vocabulary that begin as `word` does. The vocabulary is
    /// searched for the words that begin with all of `word`, then with `word`
    /// without its last character, and so on down to its first character
    /// alone; of what is found, in that order, at most `max_num` words are
    /// kept, and those are returned in increasing order, each once.
    pub fn get_recommendations(&self, word: &str, max_num: usize) -> (r: Vec<String>)
        requires
            self.wf(),
        ensures
            r.deep_view() == recommended(self@, word@, max_num as int),
            strictly_sorted(r.deep_view()),
            lists(r.deep_view(), examined(self@, word@, max_num as int).to_set()),
            r.len() <= max_num,
            forall|w: Seq<char>| #[trigger]
                r.deep_view().contains(w) ==> self@.contains(w) && word@.len() > 0 && w.len() > 0
                    && w[0] == word@[0],
    {
        let mut path = chars_of(word);
        let ghost all = candidates(self@, word@, word@.len() as int);
        let mut raw: Vec<Vec<char>> = Vec::new();
        assert(words_of(raw@) + all =~= all);
        while path.len() > 0 && raw.len() < max_num
            invariant
                self.wf(),
                path@.len() <= word@.len(),
                path@ == word@.take(path@.len() as int),
                all == candidates(self@, word@, word@.len() as int),
                raw@.len() <= max_num,
                raw@.len() <= all.len(),
                words_of(raw@) == all.take(raw@.len() as int),
                raw@.len() < max_num ==> words_of(raw@) + candidates(
                    self@,
                    word@,
                    path@.len() as int,
                ) == all,
                forall|j: int|
                    0 <= j < raw@.len() ==> self@.contains(#[trigger] raw@[j]@) && word@.len() > 0
                        && raw@[j]@.len() > 0 && raw@[j]@[0] == word@[0],
            decreases path@.len(),
        {
            let found = self.word_set.words_behind(&path);
            let ghost k = path@.len() as int;
            let ghost rest = candidates(self@, word@, k - 1);
            let ghost here = words_of(found@);
            assert(candidates(self@, word@, k) == here + rest);
            let mut j: usize = 0;
            assert(here.skip(0) =~= here);
            while j < found.len() && raw.len() < max_num
                invariant
                    j <= found.len(),
                    here == words_of(found@),
                    raw@.len() <= max_num,
                    raw@.len() <= all.len(),
                    words_of(raw@) == all.take(raw@.len() as int),
                    raw@.len() < max_num ==> words_of(raw@) + here.skip(j as int) + rest == all,
                    forall|w: Seq<char>| #[trigger]
                        here.contains(w) ==> self@.contains(w) && path@.is_prefix_of(w),
                    0 < path@.len() <= word@.len(),
                    path@ == word@.take(path@.len() as int),
                    forall|j: int|
                        0 <= j < raw@.len() ==> self@.contains(#[trigger] raw@[j]@) && word@.len()
                            > 0 && raw@[j]@.len() > 0 && raw@[j]@[0] == word@[0],
                decreases found.len() - j,
            {
                let ghost held = words_of(raw@);
                let item = found[j].clone();
                proof {
                    assert(item@ == here[j as int]);
                    assert(here.contains(item@));
                    assert(item@.subrange(0, path@.len() as int)[0] == path@[0]);
                    assert(here.skip(j as int) =~= seq![item@] + here.skip(j + 1));
                    assert(held + here.skip(j as int) + rest =~= held.push(item@) + here.skip(
                        j + 1,
                    ) + rest);
                    assert((held.push(item@) + here.skip(j + 1) + rest)[held.len() as int]
                        == item@);
                }
                raw.push(item);
                j += 1;
                proof {
                    assert(words_of(raw@) =~= held.push(item@));
                    assert(words_of(raw@) =~= all.take(raw@.len() as int));
                }
            }
            path.pop();
            proof {
                assert(path@ =~= word@.take(k - 1));
                if raw@.len() < max_num {
                    assert(here.skip(j as int) =~= Seq::<Seq<char>>::empty());
                    assert(words_of(raw@) + here.skip(j as int) + rest =~= words_of(raw@) + rest);
                }
            }
        }
        proof {
            let kept = words_of(raw@);
            if raw@.len() < max_num {
                assert(candidates(self@, word@, 0) =~= Seq::<Seq<char>>::empty());
                assert(kept + candidates(self@, word@, 0) =~= kept);
                assert(kept == all);
            } else if all.len() == max_num {
                assert(all.take(max_num as int) =~= all);
            }
            assert(kept == examined(self@, word@, max_num as int));
        }
        let ghost kept = words_of(raw@);
        let sorted = sort_dedup(raw);
        let r = strings_of(&sorted);
        proof {
            assert forall|w: Seq<char>| #[trigger]
                r.deep_view().contains(w) implies self@.contains(w) && word@.len() > 0 && w.len()
                > 0 && w[0] == word@[0] by {
                assert(kept.to_set().contains(w));
                assert(kept.contains(w));
                let j = choose|j: int| 0 <= j < kept.len() && kept[j] == w;
                assert(raw@[j]@ == w);
            }
        }
        r
    }
}

} // verus!
