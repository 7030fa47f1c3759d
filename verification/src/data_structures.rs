//! A prefix tree of words.
//!
//! A [`Trie`] stands for a set of words, its view. Each node of the tree
//! stands for the words that have been followed down to it: it is marked if
//! the characters on the way to it spell a stored word, and it has one child
//! for each character with which a stored word goes on.
use crate::order::{lex_lt, precedes_at, sorted_listing, strictly_sorted, words_of};
use crate::text::{chars_of, strings_of};
use vstd::prelude::*;

verus! {

/// A node of the tree. The children stand in two vectors of one length, in
/// the increasing order of their characters: `children[i]` is the child for
/// `keys[i]`.
#[derive(Debug)]
pub struct TrieNode {
    keys: Vec<char>,
    children: Vec<TrieNode>,
    is_word: bool,
}

impl TrieNode {
    /// There is one child for each key, and the keys increase, so that none
    /// occurs twice.
    spec fn ordered(&self) -> bool {
        &&& self.keys.len() == self.children.len()
        &&& forall|i: int, j: int| 0 <= i < j < self.keys.len() ==> self.keys[i] < self.keys[j]
    }

    /// The node is well formed: no character has two children, every child
    /// is well formed, and below every child some word ends, so that no
    /// branch of the tree is dead.
    pub closed spec fn wf(&self) -> bool
        decreases self,
    {
        &&& self.ordered()
        &&& forall|i: int| 0 <= i < self.children.len() ==> (#[trigger] self.children[i]).wf()
        &&& forall|i: int| 0 <= i < self.children.len() ==> (#[trigger] self.children[i]).occupied()
    }

    /// Some word ends at this node or below it.
    pub open spec fn occupied(&self) -> bool {
        exists|w: Seq<char>| self.has(w)
    }

    spec fn has_key(&self, c: char) -> bool {
        exists|i: int| 0 <= i < self.keys.len() && self.keys[i] == c
    }

    spec fn key_index(&self, c: char) -> int {
        choose|i: int| 0 <= i < self.keys.len() && self.keys[i] == c
    }

    /// The child for the character `c`, if there is one.
    pub closed spec fn child(&self, c: char) -> Option<TrieNode> {
        if self.has_key(c) {
            Some(self.children[self.key_index(c)])
        } else {
            None
        }
    }

    /// A word ends at this node.
    pub closed spec fn marked(&self) -> bool {
        self.is_word
    }

    /// The word `w` is stored from this node on: following its characters
    /// from child to child leads to a marked node.
    pub open spec fn has(&self, w: Seq<char>) -> bool
        decreases w.len(),
    {
        if w.len() == 0 {
            self.marked()
        } else {
            match self.child(w[0]) {
                Some(n) => n.has(w.drop_first()),
                None => false,
            }
        }
    }

    /// The node is unmarked and has no child.
    pub closed spec fn is_fresh(&self) -> bool {
        &&& self.keys.len() == 0
        &&& self.children.len() == 0
        &&& !self.is_word
    }

    /// A node without children, at which no word ends.
    pub fn new() -> (r: TrieNode)
        ensures
            r.is_fresh(),
            r.wf(),
    {
        TrieNode { keys: Vec::new(), children: Vec::new(), is_word: false }
    }

    proof fn lemma_child_at(&self, i: int)
        requires
            self.ordered(),
            0 <= i < self.keys.len(),
        ensures
            self.child(self.keys[i]) == Some(self.children[i]),
    {
    }

    proof fn lemma_child_absent(&self, c: char)
        requires
            forall|i: int| 0 <= i < self.keys.len() ==> self.keys[i] != c,
        ensures
            self.child(c) is None,
    {
    }

    proof fn lemma_child_key(&self, c: char) -> (i: int)
        requires
            self.child(c) is Some,
        ensures
            0 <= i < self.keys.len(),
            self.keys[i] == c,
            self.child(c) == Some(self.children[i]),
    {
        self.key_index(c)
    }

    proof fn lemma_insert_child(a: TrieNode, b: TrieNode, pos: int, chr: char)
        requires
            a.wf(),
            0 <= pos <= a.keys.len(),
            forall|i: int| 0 <= i < pos ==> a.keys[i] < chr,
            forall|i: int| pos <= i < a.keys.len() ==> chr < a.keys[i],
            b.keys@ == a.keys@.insert(pos, chr),
            b.children@.len() == a.children@.len() + 1,
            forall|i: int| 0 <= i < pos ==> b.children[i] == a.children[i],
            forall|i: int| pos <= i < a.children.len() ==> b.children[i + 1] == a.children[i],
            b.children[pos].is_fresh(),
            b.is_word == a.is_word,
        ensures
            b.ordered(),
            forall|i: int| 0 <= i < b.children.len() ==> (#[trigger] b.children[i]).wf(),
            forall|i: int|
                0 <= i < b.children.len() && i != pos ==> (#[trigger] b.children[i]).occupied(),
            a.child(chr) is None,
            forall|c: char| c != chr ==> #[trigger] b.child(c) == a.child(c),
    {
        a.lemma_child_absent(chr);
        assert forall|i: int| 0 <= i < b.children.len() implies (#[trigger] b.children[i]).wf() by {
            if i < pos {
                assert(a.children[i].wf());
            } else if i > pos {
                assert(a.children[i - 1].wf());
            }
        }
        assert forall|i: int| 0 <= i < b.children.len() && i != pos implies (
        #[trigger] b.children[i]).occupied() by {
            if i < pos {
                assert(a.children[i].occupied());
            } else if i > pos {
                assert(a.children[i - 1].occupied());
            }
        }
        assert forall|c: char| c != chr implies #[trigger] b.child(c) == a.child(c) by {
            if a.child(c) is Some {
                let i = a.lemma_child_key(c);
                let j = if i < pos { i } else { i + 1 };
                assert(b.keys[j] == c);
                b.lemma_child_at(j);
            } else if b.child(c) is Some {
                let j = b.lemma_child_key(c);
                let i = if j < pos { j } else { j - 1 };
                assert(a.keys[i] == c);
            }
        }
    }

    proof fn lemma_replace_child(a: TrieNode, b: TrieNode, pos: int)
        requires
            a.ordered(),
            forall|i: int| 0 <= i < a.children.len() ==> (#[trigger] a.children[i]).wf(),
            forall|i: int|
                0 <= i < a.children.len() && i != pos ==> (#[trigger] a.children[i]).occupied(),
            0 <= pos < a.keys.len(),
            b.keys@ == a.keys@,
            b.children@ == a.children@.update(pos, b.children[pos]),
            b.is_word == a.is_word,
        ensures
            b.children[pos].wf() && b.children[pos].occupied() ==> b.wf(),
            b.child(a.keys[pos]) == Some(b.children[pos]),
            forall|c: char| c != a.keys[pos] ==> #[trigger] b.child(c) == a.child(c),
    {
        if b.children[pos].wf() && b.children[pos].occupied() {
            assert forall|i: int| 0 <= i < b.children.len() implies (#[trigger] b.children[i]).wf() by {
                if i != pos {
                    assert(a.children[i].wf());
                }
            }
            assert forall|i: int| 0 <= i < b.children.len() implies (
            #[trigger] b.children[i]).occupied() by {
                if i != pos {
                    assert(a.children[i].occupied());
                }
            }
        }
        assert(b.keys[pos] == a.keys[pos]);
        assert forall|c: char| c != a.keys[pos] implies #[trigger] b.child(c) == a.child(c) by {
            if a.child(c) is Some {
                let i = a.lemma_child_key(c);
                assert(b.keys[i] == c);
                let j = b.lemma_child_key(c);
            } else if b.child(c) is Some {
                let j = b.lemma_child_key(c);
                assert(a.keys[j] == c);
            }
        }
        let j = b.lemma_child_key(a.keys[pos]);
    }

    /// The position of `c` among the keys, or the one at which it would have
    /// to be put in.
    fn locate(&self, c: char) -> (pos: usize)
        requires
            self.wf(),
        ensures
            pos <= self.keys.len(),
            forall|i: int| 0 <= i < pos ==> self.keys[i] < c,
            forall|i: int| pos <= i < self.keys.len() ==> c <= self.keys[i],
    {
        let mut lo: usize = 0;
        let mut hi: usize = self.keys.len();
        while lo < hi
            invariant
                self.wf(),
                lo <= hi <= self.keys.len(),
                forall|i: int| 0 <= i < lo ==> self.keys[i] < c,
                forall|i: int| hi <= i < self.keys.len() ==> c <= self.keys[i],
            decreases hi - lo,
        {
            let mid: usize = lo + (hi - lo) / 2;
            if self.keys[mid] < c {
                lo = mid + 1;
            } else {
                hi = mid;
            }
        }
        lo
    }

    /// The child for `chr`, which is made if there is none. What the caller
    /// does to the child is done to this node's child for `chr`; nothing else
    /// of this node changes. The node is well formed again once a word ends
    /// at the child or below it.
    pub fn add_child(&mut self, chr: char) -> (ret: &mut TrieNode)
        requires
            old(self).wf(),
        ensures
            match old(self).child(chr) {
                Some(n) => *ret == n,
                None => ret.is_fresh(),
            },
            ret.wf(),
            final(ret).wf() && final(ret).occupied() ==> final(self).wf(),
            final(self).marked() == old(self).marked(),
            forall|c: char|
                #[trigger] final(self).child(c) == if c == chr {
                    Some(*final(ret))
                } else {
                    old(self).child(c)
                },
    {
        let pos = self.locate(chr);
        if pos == self.keys.len() || self.keys[pos] != chr {
            self.keys.insert(pos, chr);
            self.children.insert(pos, TrieNode::new());
            proof {
                Self::lemma_insert_child(*old(self), *self, pos as int, chr);
            }
        } else {
            proof {
                self.lemma_child_at(pos as int);
            }
        }
        proof {
            let mid = *self;
            assert forall|b: TrieNode|
                b.keys@ == mid.keys@ && b.children@ == mid.children@.update(
                    pos as int,
                    b.children[pos as int],
                ) && b.is_word == mid.is_word && b.children[pos as int].wf()
                    && b.children[pos as int].occupied() implies #[trigger] b.wf() by {
                Self::lemma_replace_child(mid, b, pos as int);
            }
            assert forall|b: TrieNode, c: char|
                b.keys@ == mid.keys@ && b.children@ == mid.children@.update(
                    pos as int,
                    b.children[pos as int],
                ) && b.is_word == mid.is_word implies #[trigger] b.child(c) == if c == chr {
                Some(b.children[pos as int])
            } else {
                mid.child(c)
            } by {
                Self::lemma_replace_child(mid, b, pos as int);
            }
        }
        &mut self.children[pos]
    }
}

impl TrieNode {
    /// The node that the characters of `p` lead to from this one, if there
    /// is one.
    pub open spec fn descend(&self, p: Seq<char>) -> Option<TrieNode>
        decreases p.len(),
    {
        if p.len() == 0 {
            Some(*self)
        } else {
            match self.child(p[0]) {
                Some(n) => n.descend(p.drop_first()),
                None => None,
            }
        }
    }

    /// A fresh node is well formed and stores nothing.
    pub proof fn lemma_fresh(&self)
        requires
            self.is_fresh(),
        ensures
            self.wf(),
            !self.marked(),
            forall|c: char| self.child(c) is None,
            forall|w: Seq<char>| !self.has(w),
    {
        assert forall|w: Seq<char>| !self.has(w) by {
            if w.len() > 0 {
                assert(self.child(w[0]) is None);
            }
        }
    }

    proof fn lemma_same_edges(a: TrieNode, b: TrieNode)
        requires
            a.keys@ == b.keys@,
            a.children@ == b.children@,
        ensures
            forall|c: char| a.child(c) == b.child(c),
    {
        assert forall|c: char| a.child(c) == b.child(c) by {
            if a.has_key(c) {
                let i = a.key_index(c);
                assert(b.keys[i] == c);
            }
            if b.has_key(c) {
                let i = b.key_index(c);
                assert(a.keys[i] == c);
            }
        }
    }

    /// Stores the characters of `word` from position `from` on.
    fn insert(&mut self, word: &Vec<char>, from: usize)
        requires
            old(self).wf(),
            from <= word.len(),
        ensures
            final(self).wf(),
            forall|w: Seq<char>|
                final(self).has(w) <==> old(self).has(w) || w == word@.skip(from as int),
        decreases word.len() - from,
    {
        if from == word.len() {
            self.is_word = true;
            proof {
                let a = *old(self);
                let b = *self;
                assert(word@.skip(from as int) =~= Seq::<char>::empty());
                Self::lemma_same_edges(a, b);
                assert(b.wf());
                assert forall|w: Seq<char>| b.has(w) <==> a.has(w) || w == word@.skip(
                    from as int,
                ) by {
                    if w.len() == 0 {
                        assert(w =~= Seq::<char>::empty());
                    } else {
                    }
                }
            }
        } else {
            let c = word[from];
            let child = self.add_child(c);
            let ghost before = *child;
            child.insert(word, from + 1);
            let ghost after = *child;
            proof {
                let a = *old(self);
                let b = *self;
                let rest = word@.skip(from as int);
                assert(rest.drop_first() =~= word@.skip(from + 1));
                assert(rest[0] == c);
                assert(after.has(rest.drop_first()));
                assert(b.child(c) == Some(after));
                if a.child(c) is None {
                    before.lemma_fresh();
                }
                assert forall|w: Seq<char>| b.has(w) <==> a.has(w) || w == rest by {
                    if w.len() == 0 {
                    } else if w[0] == c {
                        assert(b.has(w) == after.has(w.drop_first()));
                        assert(a.has(w) == before.has(w.drop_first()));
                        if w.drop_first() == rest.drop_first() {
                            assert(w =~= seq![c] + w.drop_first());
                            assert(rest =~= seq![c] + rest.drop_first());
                        }
                    } else {
                        assert(b.child(w[0]) == a.child(w[0]));
                    }
                }
            }
        }
    }
}

impl TrieNode {
    /// The words below this node, each behind `prefix`, in the order in
    /// which a walk through the children finds them.
    spec fn listing(&self, prefix: Seq<char>) -> Seq<Seq<char>>
        decreases self, self.children.len() + 1,
    {
        (if self.is_word {
            seq![prefix]
        } else {
            Seq::<Seq<char>>::empty()
        }) + self.listing_first(prefix, self.children.len() as int)
    }

    /// The part of the listing that the first `k` children give.
    spec fn listing_first(&self, prefix: Seq<char>, k: int) -> Seq<Seq<char>>
        decreases self, k,
    {
        if 0 < k <= self.children.len() {
            self.listing_first(prefix, k - 1) + self.children[k - 1].listing(
                prefix.push(self.keys[k - 1]),
            )
        } else {
            Seq::<Seq<char>>::empty()
        }
    }

    /// The child for `c`, if there is one.
    fn get_child(&self, c: char) -> (r: Option<&TrieNode>)
        requires
            self.wf(),
        ensures
            match r {
                Some(n) => self.child(c) == Some(*n) && n.wf(),
                None => self.child(c) is None,
            },
    {
        let pos = self.locate(c);
        if pos < self.keys.len() && self.keys[pos] == c {
            proof {
                self.lemma_child_at(pos as int);
            }
            Some(&self.children[pos])
        } else {
            proof {
                self.lemma_child_absent(c);
            }
            None
        }
    }

    /// Appends to `out` the words stored from this node on, each behind the
    /// characters of `path`.
    fn collect(&self, path: &mut Vec<char>, out: &mut Vec<Vec<char>>)
        requires
            self.wf(),
        ensures
            final(path)@ == old(path)@,
            words_of(final(out)@) == words_of(old(out)@) + self.listing(old(path)@),
        decreases self,
    {
        let ghost start = words_of(out@);
        let ghost prefix = path@;
        if self.is_word {
            out.push(path.clone());
        }
        let ghost own = if self.is_word {
            seq![prefix]
        } else {
            Seq::<Seq<char>>::empty()
        };
        assert(words_of(out@) =~= start + own);
        let mut i: usize = 0;
        while i < self.children.len()
            invariant
                self.wf(),
                i <= self.children.len(),
                path@ == prefix,
                words_of(out@) == start + own + self.listing_first(prefix, i as int),
            decreases self.children.len() - i,
        {
            let ghost held = words_of(out@);
            path.push(self.keys[i]);
            self.children[i].collect(path, out);
            path.pop();
            i += 1;
            proof {
                let sub = self.children[i - 1].listing(prefix.push(self.keys[i - 1]));
                assert(words_of(out@) == held + sub);
                assert(self.listing_first(prefix, i as int) == self.listing_first(
                    prefix,
                    i - 1,
                ) + sub);
                assert(held + sub =~= start + own + self.listing_first(prefix, i as int));
                assert(path@ =~= prefix);
            }
        }
        assert(words_of(out@) =~= start + self.listing(prefix));
    }
}

impl TrieNode {
    /// The suffix `s` is stored below this node exactly if one of the
    /// children stands for its first character and stores the rest.
    proof fn lemma_has_by_index(&self, s: Seq<char>)
        requires
            self.wf(),
            s.len() > 0,
        ensures
            self.has(s) <==> exists|i: int|
                0 <= i < self.keys.len() && self.keys[i] == s[0]
                    && (#[trigger] self.children[i]).has(s.drop_first()),
    {
        if self.has(s) {
            let i = self.lemma_child_key(s[0]);
            assert(self.children[i].has(s.drop_first()));
        }
        if exists|i: int|
            0 <= i < self.keys.len() && self.keys[i] == s[0] && (#[trigger] self.children[i]).has(
                s.drop_first(),
            ) {
            let i = choose|i: int|
                0 <= i < self.keys.len() && self.keys[i] == s[0]
                    && (#[trigger] self.children[i]).has(s.drop_first());
            self.lemma_child_at(i);
        }
    }

    proof fn lemma_listing_first(&self, p: Seq<char>, k: int)
        requires
            self.wf(),
            0 <= k <= self.children.len(),
        ensures
            strictly_sorted(self.listing_first(p, k)),
            forall|x: Seq<char>|
                #[trigger] self.listing_first(p, k).contains(x) <==> p.is_prefix_of(x) && x.len() > p.len()
                    && exists|i: int|
                    0 <= i < k && self.keys[i] == x[p.len() as int]
                        && (#[trigger] self.children[i]).has(x.skip(p.len() as int + 1)),
        decreases self, k,
    {
        if k > 0 {
            let key = self.keys[k - 1];
            let sub = self.children[k - 1];
            let q = p.push(key);
            let l1 = self.listing_first(p, k - 1);
            let l2 = sub.listing(q);
            let l = self.listing_first(p, k);
            assert(l == l1 + l2);
            self.lemma_listing_first(p, k - 1);
            assert(sub.wf());
            sub.lemma_listing(q);
            assert forall|x: Seq<char>| q.is_prefix_of(x) <==> p.is_prefix_of(x) && x.len()
                > p.len() && x[p.len() as int] == key by {
                if q.is_prefix_of(x) {
                    assert(x.subrange(0, p.len() as int) =~= q.subrange(0, q.len() as int).subrange(
                        0,
                        p.len() as int,
                    ));
                    assert(q.subrange(0, q.len() as int).subrange(0, p.len() as int) =~= p);
                    assert(x.subrange(0, q.len() as int)[p.len() as int] == key);
                }
                if p.is_prefix_of(x) && x.len() > p.len() && x[p.len() as int] == key {
                    assert(x.subrange(0, q.len() as int) =~= x.subrange(0, p.len() as int).push(
                        key,
                    ));
                }
            }
            assert forall|x: Seq<char>|
                #[trigger] l.contains(x) <==> p.is_prefix_of(x) && x.len() > p.len() && exists|i: int|
                    0 <= i < k && self.keys[i] == x[p.len() as int]
                        && (#[trigger] self.children[i]).has(x.skip(p.len() as int + 1)) by {
                if l.contains(x) {
                    let n = choose|n: int| 0 <= n < l.len() && l[n] == x;
                    if n < l1.len() {
                        assert(l1[n] == x);
                        assert(l1.contains(x));
                    } else {
                        assert(l2[n - l1.len()] == x);
                        assert(l2.contains(x));
                        assert(x.skip(q.len() as int) == x.skip(p.len() as int + 1));
                        assert(sub.has(x.skip(p.len() as int + 1)));
                    }
                }
                if p.is_prefix_of(x) && x.len() > p.len() && exists|i: int|
                    0 <= i < k && self.keys[i] == x[p.len() as int]
                        && (#[trigger] self.children[i]).has(x.skip(p.len() as int + 1)) {
                    let i = choose|i: int|
                        0 <= i < k && self.keys[i] == x[p.len() as int]
                            && (#[trigger] self.children[i]).has(x.skip(p.len() as int + 1));
                    if i < k - 1 {
                        assert(l1.contains(x));
                        let n = choose|n: int| 0 <= n < l1.len() && l1[n] == x;
                        assert(l[n] == x);
                    } else {
                        assert(x.skip(q.len() as int) == x.skip(p.len() as int + 1));
                        assert(l2.contains(x));
                        let n = choose|n: int| 0 <= n < l2.len() && l2[n] == x;
                        assert(l[l1.len() + n] == x);
                    }
                }
            }
            assert forall|i: int, j: int| 0 <= i < j < l.len() implies lex_lt(l[i], l[j]) by {
                if j < l1.len() {
                    assert(lex_lt(l1[i], l1[j]));
                } else if i >= l1.len() {
                    assert(lex_lt(l2[i - l1.len()], l2[j - l1.len()]));
                } else {
                    let x = l1[i];
                    let y = l2[j - l1.len()];
                    assert(l1.contains(x));
                    assert(l2.contains(y));
                    let m = choose|m: int|
                        0 <= m < k - 1 && self.keys[m] == x[p.len() as int]
                            && (#[trigger] self.children[m]).has(x.skip(p.len() as int + 1));
                    assert(self.keys[m] < key);
                    assert forall|n: int| 0 <= n < p.len() implies x[n] == y[n] by {
                        assert(x.subrange(0, p.len() as int)[n] == p[n]);
                        assert(y.subrange(0, p.len() as int)[n] == p[n]);
                    }
                    assert(precedes_at(x, y, p.len() as int));
                }
            }
        }
    }

    /// The listing is in increasing order and holds exactly the words that
    /// this node stores, each behind the prefix.
    proof fn lemma_listing(&self, p: Seq<char>)
        requires
            self.wf(),
        ensures
            strictly_sorted(self.listing(p)),
            forall|x: Seq<char>|
                #[trigger] self.listing(p).contains(x) <==> p.is_prefix_of(x) && self.has(
                    x.skip(p.len() as int),
                ),
        decreases self, self.children.len() + 1,
    {
        let k = self.children.len() as int;
        let own = if self.is_word {
            seq![p]
        } else {
            Seq::<Seq<char>>::empty()
        };
        let below = self.listing_first(p, k);
        let l = self.listing(p);
        assert(l == own + below);
        self.lemma_listing_first(p, k);
        assert forall|x: Seq<char>|
            #[trigger] l.contains(x) <==> p.is_prefix_of(x) && self.has(x.skip(p.len() as int)) by {
            let s = x.skip(p.len() as int);
            if p.is_prefix_of(x) && x.len() > p.len() {
                self.lemma_has_by_index(s);
                assert(s.drop_first() =~= x.skip(p.len() as int + 1));
                assert(s[0] == x[p.len() as int]);
            }
            if p.is_prefix_of(x) && x.len() == p.len() {
                assert(x =~= p);
            }
            if l.contains(x) {
                let n = choose|n: int| 0 <= n < l.len() && l[n] == x;
                if n < own.len() {
                    assert(x == p);
                    assert(s.len() == 0);
                } else {
                    assert(below[n - own.len()] == x);
                    assert(below.contains(x));
                }
            }
            if p.is_prefix_of(x) && self.has(s) {
                if x.len() == p.len() {
                    assert(l[0] == x);
                } else {
                    assert(below.contains(x));
                    let n = choose|n: int| 0 <= n < below.len() && below[n] == x;
                    assert(l[own.len() + n] == x);
                }
            }
        }
        assert forall|i: int, j: int| 0 <= i < j < l.len() implies lex_lt(l[i], l[j]) by {
            if i >= own.len() {
                assert(lex_lt(below[i - own.len()], below[j - own.len()]));
            } else {
                let y = below[j - own.len()];
                assert(below.contains(y));
                crate::order::lemma_prefix_precedes(p, y);
            }
        }
    }
}

impl TrieNode {
    /// A word is stored below a node exactly if its first part leads to a
    /// node that stores the rest.
    pub proof fn lemma_descend(&self, p: Seq<char>, s: Seq<char>)
        ensures
            self.has(p + s) <==> match self.descend(p) {
                Some(n) => n.has(s),
                None => false,
            },
        decreases p.len(),
    {
        if p.len() == 0 {
            assert(p + s =~= s);
        } else {
            assert((p + s).drop_first() =~= p.drop_first() + s);
            assert((p + s)[0] == p[0]);
            match self.child(p[0]) {
                Some(n) => {
                    n.lemma_descend(p.drop_first(), s);
                },
                None => {},
            }
        }
    }

    /// Every child of a well-formed node is well formed, and some word ends
    /// at it or below it.
    pub proof fn lemma_child(&self, c: char)
        requires
            self.wf(),
            self.child(c) is Some,
        ensures
            self.child(c)->0.wf(),
            self.child(c)->0.occupied(),
    {
        let i = self.lemma_child_key(c);
        assert(self.children[i].wf());
        assert(self.children[i].occupied());
    }

    /// The tree has a node for `p` exactly if `p` is empty or some stored
    /// word begins with `p`.
    pub proof fn lemma_reached(&self, p: Seq<char>)
        requires
            self.wf(),
        ensures
            self.descend(p) is Some <==> p.len() == 0 || exists|w: Seq<char>|
                self.has(w) && p.is_prefix_of(w),
        decreases p.len(),
    {
        if p.len() > 0 {
            if exists|w: Seq<char>| self.has(w) && p.is_prefix_of(w) {
                let w = choose|w: Seq<char>| self.has(w) && p.is_prefix_of(w);
                assert(w =~= p + w.skip(p.len() as int));
                self.lemma_descend(p, w.skip(p.len() as int));
            }
            if self.descend(p) is Some {
                let n = self.child(p[0])->0;
                let q = p.drop_first();
                self.lemma_child(p[0]);
                n.lemma_reached(q);
                let s = if q.len() == 0 {
                    choose|s: Seq<char>| n.has(s)
                } else {
                    choose|s: Seq<char>| n.has(s) && q.is_prefix_of(s)
                };
                let w = seq![p[0]] + s;
                assert(w.drop_first() =~= s);
                assert(self.has(w));
                assert(p.is_prefix_of(w)) by {
                    assert(p =~= seq![p[0]] + q);
                    if q.len() > 0 {
                        assert(s.subrange(0, q.len() as int) == q);
                    }
                    assert(w.subrange(0, p.len() as int) =~= p);
                }
            }
        }
    }

    /// The node that the characters of `path` lead to from this one, if
    /// there is one.
    fn find(&self, path: &Vec<char>) -> (r: Option<&TrieNode>)
        requires
            self.wf(),
        ensures
            match r {
                Some(n) => self.descend(path@) == Some(*n) && n.wf(),
                None => self.descend(path@) is None,
            },
    {
        let mut node = self;
        let mut i: usize = 0;
        assert(path@.skip(0) =~= path@);
        while i < path.len()
            invariant
                i <= path.len(),
                node.wf(),
                self.descend(path@) == node.descend(path@.skip(i as int)),
            decreases path.len() - i,
        {
            proof {
                assert(path@.skip(i as int).drop_first() =~= path@.skip(i + 1));
            }
            match node.get_child(path[i]) {
                Some(n) => {
                    node = n;
                },
                None => {
                    return None;
                },
            }
            i += 1;
        }
        Some(node)
    }
}

/// The words of `words` that begin with `p`, in increasing order.
pub open spec fn beginning_with(words: Set<Seq<char>>, p: Seq<char>) -> Seq<Seq<char>> {
    sorted_listing(words.filter(|w: Seq<char>| p.is_prefix_of(w)))
}

/// What a set of words becomes when the words of `more` are added to it one
/// after the other.
pub open spec fn added(words: Set<Seq<char>>, more: Seq<Seq<char>>) -> Set<Seq<char>>
    decreases more.len(),
{
    if more.len() == 0 {
        words
    } else {
        added(words, more.drop_last()).insert(more.last())
    }
}

/// Adding words one after the other gives the set that holds them all,
/// however often and in whatever order they come.
pub proof fn lemma_added(words: Set<Seq<char>>, more: Seq<Seq<char>>)
    ensures
        added(words, more) == words.union(more.to_set()),
    decreases more.len(),
{
    if more.len() == 0 {
        assert(more.to_set() =~= Set::<Seq<char>>::empty());
        assert(words.union(more.to_set()) =~= words);
    } else {
        let front = more.drop_last();
        lemma_added(words, front);
        assert forall|w: Seq<char>| more.contains(w) <==> front.contains(w) || w
            == more.last() by {
            if front.contains(w) {
                let j = choose|j: int| 0 <= j < front.len() && front[j] == w;
                assert(more[j] == w);
            }
            if more.contains(w) {
                let j = choose|j: int| 0 <= j < more.len() && more[j] == w;
                if j < more.len() - 1 {
                    assert(front[j] == w);
                }
            }
            assert(more[more.len() - 1] == more.last());
        }
        assert(added(words, more) =~= words.union(more.to_set()));
    }
}

/// A word that was added is stored at once, and stays stored whatever is
/// added after it.
pub proof fn lemma_added_word_stays(words: Set<Seq<char>>, w: Seq<char>, more: Seq<Seq<char>>)
    ensures
        words.insert(w).contains(w),
        added(words.insert(w), more).contains(w),
{
    lemma_added(words.insert(w), more);
}

/// Adding a word a second time changes nothing: the same words are stored,
/// and the same words begin with any prefix.
pub proof fn lemma_add_twice(words: Set<Seq<char>>, w: Seq<char>)
    ensures
        words.insert(w).insert(w) == words.insert(w),
        forall|x: Seq<char>| words.insert(w).insert(w).contains(x) == words.insert(w).contains(x),
        forall|p: Seq<char>|
            beginning_with(words.insert(w).insert(w), p) == beginning_with(words.insert(w), p),
{
    assert(words.insert(w).insert(w) =~= words.insert(w));
}

/// The order in which two words are added does not matter.
pub proof fn lemma_add_commutes(words: Set<Seq<char>>, a: Seq<char>, b: Seq<char>)
    ensures
        words.insert(a).insert(b) == words.insert(b).insert(a),
{
    assert(words.insert(a).insert(b) =~= words.insert(b).insert(a));
}

/// The words that begin with a prefix are listed in increasing order, each
/// once; the listing holds exactly those words, provided that an increasing
/// sequence of them exists (as it does for the words of a trie).
pub proof fn lemma_beginning_with(words: Set<Seq<char>>, p: Seq<char>, l: Seq<Seq<char>>)
    requires
        strictly_sorted(l),
        forall|w: Seq<char>| l.contains(w) <==> words.contains(w) && p.is_prefix_of(w),
    ensures
        beginning_with(words, p) == l,
{
    crate::order::lemma_sorted_listing(words.filter(|w: Seq<char>| p.is_prefix_of(w)), l);
}

/// A set of words, held as a prefix tree.
#[derive(Debug)]
pub struct Trie {
    root: TrieNode,
}

impl View for Trie {
    type V = Set<Seq<char>>;

    /// The words that are stored.
    closed spec fn view(&self) -> Set<Seq<char>> {
        Set::new(|w: Seq<char>| self.root.has(w))
    }
}

impl Trie {
    /// The tree is well formed, from its root down.
    pub closed spec fn wf(&self) -> bool {
        self.root.wf()
    }

    /// The tree has a node for the characters of `p`.
    pub closed spec fn reaches(&self, p: Seq<char>) -> bool {
        self.root.descend(p) is Some
    }

    /// Beside the root, the tree has a node exactly where a stored word
    /// passes: for every beginning of a stored word, and for nothing else.
    pub proof fn lemma_nodes(&self, p: Seq<char>)
        requires
            self.wf(),
        ensures
            self.reaches(p) <==> p.len() == 0 || exists|w: Seq<char>|
                self@.contains(w) && p.is_prefix_of(w),
    {
        self.root.lemma_reached(p);
        if exists|w: Seq<char>| self@.contains(w) && p.is_prefix_of(w) {
            let w = choose|w: Seq<char>| self@.contains(w) && p.is_prefix_of(w);
            assert(self.root.has(w) && p.is_prefix_of(w));
        }
        if exists|w: Seq<char>| self.root.has(w) && p.is_prefix_of(w) {
            let w = choose|w: Seq<char>| self.root.has(w) && p.is_prefix_of(w);
            assert(self@.contains(w) && p.is_prefix_of(w));
        }
    }

    /// A trie that stores no word.
    pub fn new() -> (r: Trie)
        ensures
            r.wf(),
            r@ == Set::<Seq<char>>::empty(),
    {
        let root = TrieNode::new();
        proof {
            root.lemma_fresh();
        }
        let r = Trie { root };
        assert(r@ =~= Set::<Seq<char>>::empty());
        r
    }

    /// The stored words that begin with `p`, in increasing order.
    pub open spec fn words_with_prefix(&self, p: Seq<char>) -> Seq<Seq<char>> {
        beginning_with(self@, p)
    }

    /// A trie that stores the words of `words`, each as it is given.
    pub fn from(words: &Vec<String>) -> (r: Trie)
        ensures
            r.wf(),
            r@ == words.deep_view().to_set(),
            r@ == added(Set::empty(), words.deep_view()),
    {
        let mut r = Trie::new();
        let mut i: usize = 0;
        let ghost all = words.deep_view();
        assert(all.take(0) =~= Seq::<Seq<char>>::empty());
        while i < words.len()
            invariant
                i <= words.len(),
                all == words.deep_view(),
                r.wf(),
                r@ == added(Set::empty(), all.take(i as int)),
            decreases words.len() - i,
        {
            r.add_word(words[i].as_str());
            proof {
                assert(all.take(i + 1).drop_last() =~= all.take(i as int));
            }
            i += 1;
        }
        proof {
            assert(all.take(words.len() as int) =~= all);
            lemma_added(Set::empty(), all);
            assert(Set::<Seq<char>>::empty().union(all.to_set()) =~= all.to_set());
        }
        r
    }

    /// Stores `word`. What was stored stays stored.
    pub fn add_word(&mut self, word: &str)
        requires
            old(self).wf(),
        ensures
            final(self).wf(),
            final(self)@ == old(self)@.insert(word@),
    {
        let chars = chars_of(word);
        self.root.insert(&chars, 0);
        proof {
            assert(chars@.skip(0) =~= word@);
            assert(self@ =~= old(self)@.insert(word@));
        }
    }

    /// Tells whether `word` is stored.
    pub fn contains(&self, word: &str) -> (r: bool)
        requires
            self.wf(),
        ensures
            r == self@.contains(word@),
    {
        proof {
            self.root.lemma_descend(word@, Seq::empty());
            assert(word@ + Seq::<char>::empty() =~= word@);
        }
        match self.get_prefix_node(word) {
            Some(v) => v.is_word,
            None => false,
        }
    }

    /// The stored words that begin with the characters of `prefix`, in
    /// increasing order.
    pub fn words_behind(&self, prefix: &Vec<char>) -> (r: Vec<Vec<char>>)
        requires
            self.wf(),
        ensures
            words_of(r@) == self.words_with_prefix(prefix@),
            strictly_sorted(words_of(r@)),
            forall|w: Seq<char>|
                #[trigger] words_of(r@).contains(w) <==> self@.contains(w) && prefix@.is_prefix_of(w),
    {
        let mut out: Vec<Vec<char>> = Vec::new();
        let ghost p = prefix@;
        match self.root.find(prefix) {
            Some(v) => {
                let mut path = prefix.clone();
                v.collect(&mut path, &mut out);
                proof {
                    assert(words_of(out@) =~= v.listing(p));
                    v.lemma_listing(p);
                    assert forall|w: Seq<char>| #[trigger]
                        words_of(out@).contains(w) <==> self@.contains(w) && p.is_prefix_of(
                            w,
                        ) by {
                        if p.is_prefix_of(w) {
                            assert(w =~= p + w.skip(p.len() as int));
                            self.root.lemma_descend(p, w.skip(p.len() as int));
                        }
                    }
                }
            },
            None => {
                proof {
                    assert forall|w: Seq<char>| #[trigger]
                        words_of(out@).contains(w) <==> self@.contains(w) && p.is_prefix_of(
                            w,
                        ) by {
                        if p.is_prefix_of(w) {
                            assert(w =~= p + w.skip(p.len() as int));
                            self.root.lemma_descend(p, w.skip(p.len() as int));
                        }
                    }
                }
            },
        }
        proof {
            crate::order::lemma_sorted_listing(
                self@.filter(|w: Seq<char>| p.is_prefix_of(w)),
                words_of(out@),
            );
            assert(words_of(out@) == beginning_with(self@, p));
        }
        out
    }

    /// The stored words that begin with `prefix`, in increasing order; the
    /// prefix itself comes first if it is stored.
    pub fn get_words_with_prefix(&self, prefix: String) -> (r: Vec<String>)
        requires
            self.wf(),
        ensures
            r.deep_view() == self.words_with_prefix(prefix@),
            strictly_sorted(r.deep_view()),
            forall|w: Seq<char>|
                #[trigger] r.deep_view().contains(w) <==> self@.contains(w) && prefix@.is_prefix_of(w),
    {
        let path = chars_of(prefix.as_str());
        let words = self.words_behind(&path);
        strings_of(&words)
    }

    /// The node that the characters of `prefix` lead to, if there is one.
    fn get_prefix_node(&self, prefix: &str) -> (r: Option<&TrieNode>)
        requires
            self.wf(),
        ensures
            match r {
                Some(n) => self.root.descend(prefix@) == Some(*n) && n.wf(),
                None => self.root.descend(prefix@) is None,
            },
    {
        let mut node = &self.root;
        assert(prefix@.skip(0) =~= prefix@);
        for c in it: prefix.chars()
            invariant
                it.seq() == prefix@,
                node.wf(),
                self.root.descend(prefix@) == node.descend(prefix@.skip(it.index() as int)),
        {
            proof {
                assert(prefix@.skip(it.index() as int).drop_first() =~= prefix@.skip(
                    it.index() + 1,
                ));
            }
            match node.get_child(c) {
                Some(n) => {
                    node = n;
                },
                None => {
                    return None;
                },
            }
        }
        Some(node)
    }
}

} // verus!
