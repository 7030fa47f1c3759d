//! Strings as sequences of characters.
use vstd::prelude::*;

verus! {

/// `String::push` of the standard library: the character is appended to the
/// end of the string, and nothing else changes.
pub assume_specification[ String::push ](s: &mut String, c: char)
    ensures
        final(s)@ == old(s)@.push(c),
;

/// The characters of `s`, in order.
pub fn chars_of(s: &str) -> (v: Vec<char>)
    ensures
        v@ == s@,
{
    let mut v: Vec<char> = Vec::new();
    for c in it: s.chars()
        invariant
            it.seq() == s@,
            v@ == s@.take(it.index() as int),
    {
        v.push(c);
    }
    v
}

/// The string made of the characters of `v`, in order.
pub fn string_of(v: &Vec<char>) -> (s: String)
    ensures
        s@ == v@,
{
    let mut s = String::new();
    let mut i: usize = 0;
    while i < v.len()
        invariant
            i <= v.len(),
            s@ == v@.take(i as int),
        decreases v.len() - i,
    {
        s.push(v[i]);
        i += 1;
    }
    s
}

/// The strings made of the words of `v`, in order.
pub fn strings_of(v: &Vec<Vec<char>>) -> (r: Vec<String>)
    ensures
        r.deep_view() == crate::order::words_of(v@),
{
    let mut r: Vec<String> = Vec::new();
    let mut i: usize = 0;
    while i < v.len()
        invariant
            i <= v.len(),
            r@.len() == i,
            forall|j: int| 0 <= j < i ==> r@[j]@ == v@[j]@,
        decreases v.len() - i,
    {
        r.push(string_of(&v[i]));
        i += 1;
    }
    assert(r.deep_view() =~= crate::order::words_of(v@));
    r
}

/// White space, as Unicode defines it (the property `White_Space`).
pub open spec fn is_whitespace(c: char) -> bool {
    let n = c as u32;
    ||| 0x09 <= n <= 0x0d
    ||| n == 0x20
    ||| n == 0x85
    ||| n == 0xa0
    ||| n == 0x1680
    ||| 0x2000 <= n <= 0x200a
    ||| n == 0x2028
    ||| n == 0x2029
    ||| n == 0x202f
    ||| n == 0x205f
    ||| n == 0x3000
}

/// One of the letters `a` to `z` and `A` to `Z`.
pub open spec fn is_letter(c: char) -> bool {
    ('a' <= c && c <= 'z') || ('A' <= c && c <= 'Z')
}

/// The small letter for a capital letter `A` to `Z`; every other character
/// is left as it is.
pub open spec fn lower(c: char) -> char {
    if 'A' <= c && c <= 'Z' {
        ((c as u8) + 32) as char
    } else {
        c
    }
}

/// Tells whether `c` is white space.
pub fn is_space(c: char) -> (r: bool)
    ensures
        r == is_whitespace(c),
{
    let n: u32 = c as u32;
    (0x09 <= n && n <= 0x0d) || n == 0x20 || n == 0x85 || n == 0xa0 || n == 0x1680 || (0x2000 <= n
        && n <= 0x200a) || n == 0x2028 || n == 0x2029 || n == 0x202f || n == 0x205f || n == 0x3000
}

/// Turns a capital letter `A` to `Z` into its small letter.
pub fn to_lower(c: char) -> (r: char)
    ensures
        r == lower(c),
{
    if 'A' <= c && c <= 'Z' {
        ((c as u8) + 32) as char
    } else {
        c
    }
}

/// The letters of `s`, in order: every other character is left out.
pub open spec fn letters(s: Seq<char>) -> Seq<char> {
    s.filter(|c: char| is_letter(c))
}

/// The letters of `s`, in order, each as a small letter.
pub open spec fn normalized(s: Seq<char>) -> Seq<char> {
    letters(s).map_values(|c: char| lower(c))
}

/// A normalized word holds small letters only.
pub proof fn lemma_normalized_small(s: Seq<char>)
    ensures
        forall|i: int|
            0 <= i < normalized(s).len() ==> 'a' <= #[trigger] normalized(s)[i] && normalized(
                s,
            )[i] <= 'z',
{
    s.filter_lemma(|c: char| is_letter(c));
}

/// Normalizing a normalized word changes nothing.
pub proof fn lemma_normalized_twice(s: Seq<char>)
    ensures
        normalized(normalized(s)) == normalized(s),
{
    let n = normalized(s);
    lemma_normalized_small(s);
    lemma_letters_all(n);
    assert(n.map_values(|c: char| lower(c)) =~= n);
}

/// A sequence of letters is left whole.
proof fn lemma_letters_all(s: Seq<char>)
    requires
        forall|i: int| 0 <= i < s.len() ==> is_letter(#[trigger] s[i]),
    ensures
        letters(s) == s,
    decreases s.len(),
{
    reveal(Seq::filter);
    if s.len() > 0 {
        lemma_letters_all(s.drop_last());
        assert(s.drop_last().push(s.last()) =~= s);
    } else {
        assert(s =~= Seq::<char>::empty());
    }
}

/// The tokens that have been read, with the one that is being read added to
/// them unless it is empty.
pub open spec fn with_token(done: Seq<Seq<char>>, cur: Seq<char>) -> Seq<Seq<char>> {
    if cur.len() == 0 {
        done
    } else {
        done.push(cur)
    }
}

/// Reading `s` from left to right: the tokens that white space has ended,
/// and the characters since the last white space.
pub open spec fn scanned(s: Seq<char>) -> (Seq<Seq<char>>, Seq<char>)
    decreases s.len(),
{
    if s.len() == 0 {
        (Seq::empty(), Seq::empty())
    } else {
        let before = scanned(s.drop_last());
        if is_whitespace(s.last()) {
            (with_token(before.0, before.1), Seq::empty())
        } else {
            (before.0, before.1.push(s.last()))
        }
    }
}

/// The tokens of `s`: its longest stretches without white space, from left
/// to right.
pub open spec fn tokens(s: Seq<char>) -> Seq<Seq<char>> {
    with_token(scanned(s).0, scanned(s).1)
}

/// No character of `s` is white space.
pub open spec fn solid(s: Seq<char>) -> bool {
    forall|i: int| 0 <= i < s.len() ==> !is_whitespace(#[trigger] s[i])
}

proof fn lemma_scanned_solid(t: Seq<char>)
    requires
        solid(t),
    ensures
        scanned(t) == (Seq::<Seq<char>>::empty(), t),
    decreases t.len(),
{
    if t.len() > 0 {
        lemma_scanned_solid(t.drop_last());
        assert(t.drop_last().push(t.last()) =~= t);
    } else {
        assert(t =~= Seq::<char>::empty());
    }
}

proof fn lemma_scanned_after_space(a: Seq<char>, c: char, b: Seq<char>)
    requires
        is_whitespace(c),
    ensures
        scanned(a.push(c) + b) == (tokens(a) + scanned(b).0, scanned(b).1),
    decreases b.len(),
{
    if b.len() == 0 {
        assert(a.push(c) + b =~= a.push(c));
        assert(a.push(c).drop_last() =~= a);
        assert(tokens(a) + scanned(b).0 =~= tokens(a));
    } else {
        let s = a.push(c) + b;
        assert(s.drop_last() =~= a.push(c) + b.drop_last());
        lemma_scanned_after_space(a, c, b.drop_last());
        let before = scanned(b.drop_last());
        if is_whitespace(b.last()) {
            assert(with_token(tokens(a) + before.0, before.1) =~= tokens(a) + with_token(
                before.0,
                before.1,
            ));
        }
    }
}

proof fn lemma_scanned_parts(s: Seq<char>)
    ensures
        solid(scanned(s).1),
        forall|i: int|
            0 <= i < scanned(s).0.len() ==> (#[trigger] scanned(s).0[i]).len() > 0 && solid(
                scanned(s).0[i],
            ),
    decreases s.len(),
{
    if s.len() > 0 {
        lemma_scanned_parts(s.drop_last());
    }
}

/// The empty text has no token.
pub proof fn lemma_tokens_empty()
    ensures
        tokens(Seq::<char>::empty()) == Seq::<Seq<char>>::empty(),
{
}

/// A stretch without white space is one token.
pub proof fn lemma_tokens_solid(t: Seq<char>)
    requires
        t.len() > 0,
        solid(t),
    ensures
        tokens(t) == seq![t],
{
    lemma_scanned_solid(t);
    assert(Seq::<Seq<char>>::empty().push(t) =~= seq![t]);
}

/// White space parts a text: the tokens of what is on its left, then the
/// tokens of what is on its right.
pub proof fn lemma_tokens_split(a: Seq<char>, c: char, b: Seq<char>)
    requires
        is_whitespace(c),
    ensures
        tokens(a.push(c) + b) == tokens(a) + tokens(b),
{
    lemma_scanned_after_space(a, c, b);
    assert(with_token(tokens(a) + scanned(b).0, scanned(b).1) =~= tokens(a) + tokens(b));
}

/// No token is empty, and none holds white space.
pub proof fn lemma_tokens_solid_parts(s: Seq<char>)
    ensures
        forall|i: int|
            0 <= i < tokens(s).len() ==> (#[trigger] tokens(s)[i]).len() > 0 && solid(
                tokens(s)[i],
            ),
{
    lemma_scanned_parts(s);
}

/// The tokens of `text`, from left to right.
pub fn split_words(text: &str) -> (r: Vec<String>)
    ensures
        r.deep_view() == tokens(text@),
{
    let mut done: Vec<String> = Vec::new();
    let mut cur = String::new();
    for c in it: text.chars()
        invariant
            it.seq() == text@,
            done.deep_view() == scanned(text@.take(it.index() as int)).0,
            cur@ == scanned(text@.take(it.index() as int)).1,
    {
        proof {
            let i = it.index() as int;
            assert(text@.take(i + 1).drop_last() =~= text@.take(i));
            assert(text@.take(i + 1).last() == c);
        }
        let ghost held = done.deep_view();
        if is_space(c) {
            if !cur.as_str().is_empty() {
                let ghost word = cur@;
                done.push(cur);
                cur = String::new();
                assert(done.deep_view() =~= held.push(word));
            }
        } else {
            cur.push(c);
        }
    }
    assert(text@.take(text@.len() as int) =~= text@);
    let ghost held = done.deep_view();
    if !cur.as_str().is_empty() {
        let ghost word = cur@;
        done.push(cur);
        assert(done.deep_view() =~= held.push(word));
    }
    done
}

} // verus!
