//! Lexicographic order on words, and sequences of words in increasing order.
//!
//! Words are compared character by character, by code point; a proper prefix
//! comes before each of its extensions. This is the order in which `String`
//! values compare.
use vstd::prelude::*;

verus! {

/// `a` and `b` agree on their first `k` characters, and `a` is the smaller
/// one at position `k`: it ends there while `b` goes on, or it holds the
/// smaller character.
pub open spec fn precedes_at(a: Seq<char>, b: Seq<char>, k: int) -> bool {
    &&& 0 <= k <= a.len()
    &&& k < b.len()
    &&& forall|i: int| 0 <= i < k ==> a[i] == b[i]
    &&& k < a.len() ==> a[k] < b[k]
}

/// `a` comes strictly before `b` in lexicographic order.
pub open spec fn lex_lt(a: Seq<char>, b: Seq<char>) -> bool {
    exists|k: int| precedes_at(a, b, k)
}

/// Every word of `s` comes strictly before each word that follows it: `s` is
/// in increasing order and holds no word twice.
pub open spec fn strictly_sorted(s: Seq<Seq<char>>) -> bool {
    forall|i: int, j: int| 0 <= i < j < s.len() ==> lex_lt(s[i], s[j])
}

/// `l` holds exactly the words of `s`.
pub open spec fn lists(l: Seq<Seq<char>>, s: Set<Seq<char>>) -> bool {
    forall|w: Seq<char>| l.contains(w) <==> s.contains(w)
}

/// The words of a finite set `s`, in increasing order.
pub open spec fn sorted_listing(s: Set<Seq<char>>) -> Seq<Seq<char>> {
    choose|l: Seq<Seq<char>>| strictly_sorted(l) && lists(l, s)
}

/// No word comes before itself.
pub proof fn lemma_lex_irreflexive(a: Seq<char>)
    ensures
        !lex_lt(a, a),
{
}

/// The order is transitive.
pub proof fn lemma_lex_transitive(a: Seq<char>, b: Seq<char>, c: Seq<char>)
    requires
        lex_lt(a, b),
        lex_lt(b, c),
    ensures
        lex_lt(a, c),
{
    let k1 = choose|k: int| precedes_at(a, b, k);
    let k2 = choose|k: int| precedes_at(b, c, k);
    let k = if k1 <= k2 { k1 } else { k2 };
    assert(precedes_at(a, c, k));
}

proof fn lemma_first_difference(a: Seq<char>, b: Seq<char>, k: int)
    requires
        0 <= k <= a.len(),
        k <= b.len(),
        forall|i: int| 0 <= i < k ==> a[i] == b[i],
    ensures
        lex_lt(a, b) || a == b || lex_lt(b, a),
    decreases a.len() - k,
{
    if k == a.len() {
        if k == b.len() {
            assert(a =~= b);
        } else {
            assert(precedes_at(a, b, k));
        }
    } else if k == b.len() {
        assert(precedes_at(b, a, k));
    } else if a[k] < b[k] {
        assert(precedes_at(a, b, k));
    } else if b[k] < a[k] {
        assert(precedes_at(b, a, k));
    } else {
        lemma_first_difference(a, b, k + 1);
    }
}

/// Of two different words, one comes before the other.
pub proof fn lemma_lex_total(a: Seq<char>, b: Seq<char>)
    ensures
        lex_lt(a, b) || a == b || lex_lt(b, a),
{
    lemma_first_difference(a, b, 0);
}

/// Two words never come before each other.
pub proof fn lemma_lex_asymmetric(a: Seq<char>, b: Seq<char>)
    requires
        lex_lt(a, b),
    ensures
        !lex_lt(b, a),
{
    if lex_lt(b, a) {
        lemma_lex_transitive(a, b, a);
        lemma_lex_irreflexive(a);
    }
}

/// A word comes before each of its proper extensions.
pub proof fn lemma_prefix_precedes(a: Seq<char>, b: Seq<char>)
    requires
        a.is_prefix_of(b),
        a.len() < b.len(),
    ensures
        lex_lt(a, b),
{
    assert(precedes_at(a, b, a.len() as int));
}

/// An increasing sequence is determined by the words it holds.
pub proof fn lemma_strictly_sorted_unique(a: Seq<Seq<char>>, b: Seq<Seq<char>>)
    requires
        strictly_sorted(a),
        strictly_sorted(b),
        forall|w: Seq<char>| a.contains(w) <==> b.contains(w),
    ensures
        a == b,
    decreases a.len(),
{
    if a.len() == 0 {
        if b.len() > 0 {
            assert(b.contains(b[0]));
        }
        assert(a =~= b);
    } else {
        assert(a.contains(a[0]));
        let j = choose|j: int| 0 <= j < b.len() && b[j] == a[0];
        assert(b.contains(b[0]));
        let i = choose|i: int| 0 <= i < a.len() && a[i] == b[0];
        if j > 0 {
            if i > 0 {
                lemma_lex_transitive(b[0], a[0], a[i]);
            }
            lemma_lex_irreflexive(b[0]);
        }
        assert(a[0] == b[0]);
        let a1 = a.drop_first();
        let b1 = b.drop_first();
        assert forall|w: Seq<char>| a1.contains(w) <==> b1.contains(w) by {
            if a1.contains(w) {
                let n = choose|n: int| 0 <= n < a1.len() && a1[n] == w;
                assert(a[n + 1] == w);
                assert(a.contains(w));
                let m = choose|m: int| 0 <= m < b.len() && b[m] == w;
                if m == 0 {
                    lemma_lex_irreflexive(w);
                }
                assert(b1[m - 1] == w);
            }
            if b1.contains(w) {
                let n = choose|n: int| 0 <= n < b1.len() && b1[n] == w;
                assert(b[n + 1] == w);
                assert(b.contains(w));
                let m = choose|m: int| 0 <= m < a.len() && a[m] == w;
                if m == 0 {
                    lemma_lex_irreflexive(w);
                }
                assert(a1[m - 1] == w);
            }
        }
        assert(strictly_sorted(a1)) by {
            assert forall|i: int, j: int| 0 <= i < j < a1.len() implies lex_lt(a1[i], a1[j]) by {
                assert(lex_lt(a[i + 1], a[j + 1]));
            }
        }
        assert(strictly_sorted(b1)) by {
            assert forall|i: int, j: int| 0 <= i < j < b1.len() implies lex_lt(b1[i], b1[j]) by {
                assert(lex_lt(b[i + 1], b[j + 1]));
            }
        }
        lemma_strictly_sorted_unique(a1, b1);
        assert(a =~= seq![a[0]] + a1);
        assert(b =~= seq![b[0]] + b1);
    }
}

/// Whatever increasing sequence holds exactly the words of `s` is the sorted
/// listing of `s`.
pub proof fn lemma_sorted_listing(s: Set<Seq<char>>, l: Seq<Seq<char>>)
    requires
        strictly_sorted(l),
        lists(l, s),
    ensures
        sorted_listing(s) == l,
{
    lemma_strictly_sorted_unique(sorted_listing(s), l);
}

/// Tells whether `a` comes strictly before `b`.
pub fn less(a: &Vec<char>, b: &Vec<char>) -> (r: bool)
    ensures
        r == lex_lt(a@, b@),
{
    let mut i: usize = 0;
    while i < a.len() && i < b.len()
        invariant
            i <= a.len(),
            i <= b.len(),
            forall|j: int| 0 <= j < i ==> a@[j] == b@[j],
        decreases a.len() - i,
    {
        if a[i] != b[i] {
            let r = a[i] < b[i];
            proof {
                if r {
                    assert(precedes_at(a@, b@, i as int));
                } else {
                    assert forall|k: int| !precedes_at(a@, b@, k) by {}
                }
            }
            return r;
        }
        i += 1;
    }
    let r = a.len() < b.len();
    proof {
        if r {
            assert(precedes_at(a@, b@, i as int));
        } else {
            assert forall|k: int| !precedes_at(a@, b@, k) by {}
        }
    }
    r
}

/// The words that a vector of character vectors holds, in the vector's order.
pub open spec fn words_of(v: Seq<Vec<char>>) -> Seq<Seq<char>> {
    Seq::new(v.len(), |i: int| v[i]@)
}

/// The position of the first word of `v` that does not come before `w`.
fn lower_bound(v: &Vec<Vec<char>>, w: &Vec<char>) -> (pos: usize)
    requires
        strictly_sorted(words_of(v@)),
    ensures
        pos <= v.len(),
        forall|i: int| 0 <= i < pos ==> lex_lt(v@[i]@, w@),
        forall|i: int| pos <= i < v.len() ==> !lex_lt(v@[i]@, w@),
{
    let mut lo: usize = 0;
    let mut hi: usize = v.len();
    while lo < hi
        invariant
            strictly_sorted(words_of(v@)),
            lo <= hi <= v.len(),
            forall|i: int| 0 <= i < lo ==> lex_lt(v@[i]@, w@),
            forall|i: int| hi <= i < v.len() ==> !lex_lt(v@[i]@, w@),
        decreases hi - lo,
    {
        let mid: usize = lo + (hi - lo) / 2;
        if less(&v[mid], w) {
            proof {
                assert forall|i: int| 0 <= i < mid implies lex_lt(v@[i]@, w@) by {
                    assert(lex_lt(words_of(v@)[i], words_of(v@)[mid as int]));
                    lemma_lex_transitive(v@[i]@, v@[mid as int]@, w@);
                }
            }
            lo = mid + 1;
        } else {
            proof {
                assert forall|i: int| mid < i < v.len() implies !lex_lt(v@[i]@, w@) by {
                    assert(lex_lt(words_of(v@)[mid as int], words_of(v@)[i]));
                    if lex_lt(v@[i]@, w@) {
                        lemma_lex_transitive(v@[mid as int]@, v@[i]@, w@);
                    }
                }
            }
            hi = mid;
        }
    }
    lo
}

/// Puts `w` in its place in an increasing vector, unless the vector holds it
/// already.
pub fn insert_sorted(v: &mut Vec<Vec<char>>, w: Vec<char>)
    requires
        strictly_sorted(words_of(old(v)@)),
    ensures
        strictly_sorted(words_of(final(v)@)),
        forall|x: Seq<char>|
            words_of(final(v)@).contains(x) <==> words_of(old(v)@).contains(x) || x == w@,
        final(v)@.len() <= old(v)@.len() + 1,
{
    let pos = lower_bound(v, &w);
    let ghost before = words_of(v@);
    let ghost word = w@;
    if pos < v.len() && !less(&w, &v[pos]) {
        proof {
            lemma_lex_total(v@[pos as int]@, w@);
            assert(before[pos as int] == word);
        }
    } else {
        v.insert(pos, w);
        proof {
            let after = words_of(v@);
            assert(after =~= before.insert(pos as int, word));
            assert forall|i: int, j: int| 0 <= i < j < after.len() implies lex_lt(
                after[i],
                after[j],
            ) by {
                if j < pos {
                    assert(lex_lt(before[i], before[j]));
                } else if j == pos {
                    assert(after[i] == old(v)@[i]@);
                } else if i < pos {
                    assert(lex_lt(before[i], before[j - 1]));
                } else if i == pos {
                    assert(after[j] == old(v)@[j - 1]@);
                    assert(lex_lt(before[pos as int], before[j - 1]) || j - 1 == pos);
                    if j - 1 > pos {
                        lemma_lex_transitive(word, before[pos as int], before[j - 1]);
                    }
                } else {
                    assert(lex_lt(before[i - 1], before[j - 1]));
                }
            }
            assert forall|x: Seq<char>| after.contains(x) <==> before.contains(x) || x
                == word by {
                if after.contains(x) {
                    let i = choose|i: int| 0 <= i < after.len() && after[i] == x;
                    if i < pos {
                        assert(before[i] == x);
                    } else if i > pos {
                        assert(before[i - 1] == x);
                    }
                }
                if before.contains(x) {
                    let i = choose|i: int| 0 <= i < before.len() && before[i] == x;
                    if i < pos {
                        assert(after[i] == x);
                    } else {
                        assert(after[i + 1] == x);
                    }
                }
                assert(after[pos as int] == word);
            }
        }
    }
}

/// Sorts the words of `v` and drops every repetition.
pub fn sort_dedup(v: Vec<Vec<char>>) -> (r: Vec<Vec<char>>)
    ensures
        strictly_sorted(words_of(r@)),
        lists(words_of(r@), words_of(v@).to_set()),
        words_of(r@) == sorted_listing(words_of(v@).to_set()),
        r@.len() <= v@.len(),
{
    let ghost all = words_of(v@);
    let mut rest = v;
    let mut out: Vec<Vec<char>> = Vec::new();
    while rest.len() > 0
        invariant
            strictly_sorted(words_of(out@)),
            rest@.len() <= all.len(),
            out@.len() + rest@.len() <= all.len(),
            words_of(rest@) == all.take(rest@.len() as int),
            forall|x: Seq<char>|
                words_of(out@).contains(x) <==> all.skip(rest@.len() as int).contains(x),
        decreases rest.len(),
    {
        let ghost n = rest@.len() as int;
        let ghost done = words_of(out@);
        let ghost held = rest@;
        let w = rest.pop().unwrap();
        insert_sorted(&mut out, w);
        proof {
            assert(w@ == words_of(held)[n - 1]);
            assert(words_of(rest@) =~= all.take(n - 1)) by {
                assert forall|i: int| 0 <= i < n - 1 implies words_of(rest@)[i] == all[i] by {
                    assert(words_of(held)[i] == all[i]);
                }
            }
            let seen = all.skip(n);
            let tail = all.skip(n - 1);
            assert forall|x: Seq<char>| words_of(out@).contains(x) <==> tail.contains(x) by {
                if seen.contains(x) {
                    let i = choose|i: int| 0 <= i < seen.len() && seen[i] == x;
                    assert(tail[i + 1] == x);
                }
                if tail.contains(x) {
                    let i = choose|i: int| 0 <= i < tail.len() && tail[i] == x;
                    if i > 0 {
                        assert(seen[i - 1] == x);
                    }
                }
                assert(tail[0] == w@);
            }
        }
    }
    proof {
        assert(all.skip(0) =~= all);
        assert(lists(words_of(out@), all.to_set()));
        lemma_sorted_listing(all.to_set(), words_of(out@));
    }
    out
}

} // verus!
