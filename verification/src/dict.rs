//! The dictionary: a prefix tree over byte sequences.
//!
//! Each node has one child slot per possible byte value and a flag that
//! says whether a word ends at this node.  A word is a member exactly
//! when walking its bytes from the root ends on a flagged node.

use vstd::prelude::*;

verus! {

/// An owned copy of a byte vector.
fn clone_bytes(v: &Vec<u8>) -> (r: Vec<u8>)
    ensures
        r@ == v@,
{
    let mut r: Vec<u8> = Vec::new();
    let mut i: usize = 0;
    while i < v.len()
        invariant
            i <= v@.len(),
            r@ == v@.take(i as int),
        decreases v@.len() - i,
    {
        r.push(v[i]);
        proof {
            assert(v@.take(i as int).push(v@[i as int]) =~= v@.take(i + 1));
        }
        i += 1;
    }
    proof {
        assert(v@.take(v@.len() as int) =~= v@);
    }
    r
}

/// Strict byte-lexicographic order: a word precedes another when it is
/// a proper prefix of it, or when it holds the smaller byte at the
/// first position where the two differ.
pub open spec fn lex_less(a: Seq<u8>, b: Seq<u8>) -> bool
    decreases a.len(),
{
    if b.len() == 0 {
        false
    } else if a.len() == 0 {
        true
    } else if a[0] < b[0] {
        true
    } else if a[0] > b[0] {
        false
    } else {
        lex_less(a.drop_first(), b.drop_first())
    }
}

/// A proper prefix precedes every extension of itself.
proof fn lemma_lex_less_extension(a: Seq<u8>, b: Seq<u8>)
    requires
        a.len() < b.len(),
        forall|j: int| 0 <= j < a.len() ==> a[j] == b[j],
    ensures
        lex_less(a, b),
    decreases a.len(),
{
    if a.len() > 0 {
        assert(a[0] == b[0]);
        assert forall|j: int|
            0 <= j < a.drop_first().len() implies a.drop_first()[j] == b.drop_first()[j] by {
            assert(a[j + 1] == b[j + 1]);
        }
        lemma_lex_less_extension(a.drop_first(), b.drop_first());
    }
}

/// Words that agree before position `m` and differ there order by the
/// byte at `m`.
proof fn lemma_lex_less_diff(a: Seq<u8>, b: Seq<u8>, m: int)
    requires
        0 <= m < a.len(),
        m < b.len(),
        forall|j: int| 0 <= j < m ==> a[j] == b[j],
        a[m] < b[m],
    ensures
        lex_less(a, b),
    decreases m,
{
    if m > 0 {
        assert(a[0] == b[0]);
        assert forall|j: int|
            0 <= j < m - 1 implies a.drop_first()[j] == b.drop_first()[j] by {
            assert(a[j + 1] == b[j + 1]);
        }
        assert(a.drop_first()[m - 1] == a[m]);
        assert(b.drop_first()[m - 1] == b[m]);
        lemma_lex_less_diff(a.drop_first(), b.drop_first(), m - 1);
    }
}

/// Strictly ordered words are distinct.
proof fn lemma_lex_less_ne(a: Seq<u8>, b: Seq<u8>)
    requires
        lex_less(a, b),
    ensures
        a != b,
    decreases a.len(),
{
    if b.len() == 0 {
    } else if a.len() == 0 {
        assert(a.len() != b.len());
    } else if a[0] != b[0] {
    } else {
        lemma_lex_less_ne(a.drop_first(), b.drop_first());
        if a == b {
            assert(a.drop_first() == b.drop_first());
        }
    }
}

/// Within a node, a word through an earlier child slot, or ending at
/// the node itself, precedes every word through child slot `i`.
proof fn lemma_order_across_child(e1: Seq<u8>, e2: Seq<u8>, prefix: Seq<u8>, i: int)
    requires
        0 <= i < 256,
        prefix.is_prefix_of(e1),
        e1.len() > prefix.len() ==> e1[prefix.len() as int] < i,
        (prefix + seq![i as u8]).is_prefix_of(e2),
    ensures
        lex_less(e1, e2),
{
    let plen = prefix.len() as int;
    let np = prefix + seq![i as u8];
    assert(np.len() == plen + 1);
    assert(np =~= e2.subrange(0, plen + 1));
    assert forall|j: int| 0 <= j < plen implies e2[j] == prefix[j] by {
        assert(e2.subrange(0, plen + 1)[j] == np[j]);
    }
    assert(e2[plen] == e2.subrange(0, plen + 1)[plen]);
    assert(e2[plen] == i as u8);
    assert forall|j: int| 0 <= j < plen implies e1[j] == prefix[j] by {
        assert(e1.subrange(0, plen)[j] == prefix[j]);
    }
    if e1.len() > plen {
        lemma_lex_less_diff(e1, e2, plen);
    } else {
        assert(e1.len() == plen);
        lemma_lex_less_extension(e1, e2);
    }
}

/// One node of the prefix tree; the root node stands for the whole
/// dictionary.
pub struct Trie {
    /// Whether a stored word ends exactly at this node.
    pub is_end_of_word: bool,
    /// One slot per byte value; `children[b]` is the subtree of words
    /// that continue with byte `b`.
    pub children: Vec<Option<Box<Trie>>>,
}

impl Trie {
    /// Every node of the tree has exactly one child slot per byte value.
    pub open spec fn wf(self) -> bool
        decreases self,
    {
        &&& self.children@.len() == 256
        &&& forall|i: int|
            0 <= i < 256 ==> match #[trigger] self.children@[i] {
                Option::Some(c) => c.wf(),
                Option::None => true,
            }
    }

    /// Walking the bytes of `w` from this node ends on a node whose
    /// end-of-word flag is set.
    pub open spec fn has_word(self, w: Seq<u8>) -> bool
        decreases w.len(),
    {
        if w.len() == 0 {
            self.is_end_of_word
        } else {
            match self.children@[w[0] as int] {
                Option::Some(c) => c.has_word(w.drop_first()),
                Option::None => false,
            }
        }
    }

    /// The set of words this dictionary holds.
    pub open spec fn words(self) -> Set<Seq<u8>> {
        Set::new(|w: Seq<u8>| self.has_word(w))
    }

    /// A fresh, empty dictionary: no word ends at the root and all 256
    /// child slots are empty.
    pub fn new() -> (t: Trie)
        ensures
            t.wf(),
            t.is_end_of_word == false,
            forall|i: int| 0 <= i < 256 ==> t.children@[i] is None,
            t.words() == Set::<Seq<u8>>::empty(),
    {
        let mut children: Vec<Option<Box<Trie>>> = Vec::new();
        let mut i: usize = 0;
        while i < 256
            invariant
                i <= 256,
                children@.len() == i,
                forall|j: int| 0 <= j < i ==> children@[j] is None,
            decreases 256 - i,
        {
            children.push(None);
            i += 1;
        }
        let t = Trie { is_end_of_word: false, children };
        proof {
            assert forall|w: Seq<u8>| !t.has_word(w) by {
                if w.len() > 0 {
                    assert(t.children@[w[0] as int] is None);
                }
            }
            assert(t.words() =~= Set::<Seq<u8>>::empty());
        }
        t
    }

    /// Adds the word whose remaining bytes are `word[i..]` below this
    /// node, creating intermediate nodes as needed; every other word of
    /// the subtree is kept.
    fn insert_at(&mut self, word: &[u8], i: usize)
        requires
            old(self).wf(),
            i <= word@.len(),
        ensures
            final(self).wf(),
            forall|w: Seq<u8>|
                #[trigger] final(self).has_word(w) <==> (old(self).has_word(w) || w
                    == word@.skip(i as int)),
        decreases word@.len() - i,
    {
        if i == word.len() {
            self.is_end_of_word = true;
            proof {
                assert forall|w: Seq<u8>|
                    #[trigger] self.has_word(w) <==> (old(self).has_word(w) || w == word@.skip(
                        i as int,
                    )) by {
                    if w.len() == 0 {
                        assert(w =~= word@.skip(i as int));
                    } else {
                        assert(word@.skip(i as int).len() == 0);
                    }
                }
            }
        } else {
            let b = word[i] as usize;
            let taken = self.children[b].take();
            let ghost old_child: Option<Box<Trie>> = taken;
            let mut child: Box<Trie> = match taken {
                Some(c) => c,
                None => Box::new(Trie::new()),
            };
            let ghost child_before: Trie = *child;
            child.insert_at(word, i + 1);
            let ghost child_after: Trie = *child;
            self.children[b] = Some(child);
            proof {
                let suffix = word@.skip(i as int);
                assert(suffix.len() > 0);
                assert(suffix[0] == word@[i as int]);
                assert(suffix.drop_first() =~= word@.skip(i as int + 1));
                assert(self.children@[b as int] matches Some(c) && *c == child_after);
                assert(self.wf()) by {
                    assert forall|j: int|
                        0 <= j < 256 implies match #[trigger] self.children@[j] {
                        Option::Some(c) => c.wf(),
                        Option::None => true,
                    } by {
                        if j != b as int {
                            assert(self.children@[j] == old(self).children@[j]);
                        }
                    }
                }
                assert forall|w: Seq<u8>|
                    #[trigger] self.has_word(w) <==> (old(self).has_word(w) || w == suffix) by {
                    if w.len() == 0 {
                        assert(self.is_end_of_word == old(self).is_end_of_word);
                        assert(w.len() != suffix.len());
                    } else if w[0] as int != b as int {
                        assert(self.children@[w[0] as int] == old(self).children@[w[0] as int]);
                        assert(w[0] != suffix[0]);
                    } else {
                        // the updated child slot decides membership
                        assert(self.has_word(w) == child_after.has_word(w.drop_first()));
                        if old_child is None {
                            assert(old(self).children@[w[0] as int] is None);
                            assert(!old(self).has_word(w));
                            assert(!child_before.words().contains(w.drop_first()));
                            assert(!child_before.has_word(w.drop_first()));
                        } else {
                            assert(old(self).children@[w[0] as int] == old_child);
                            assert(old(self).has_word(w) == child_before.has_word(w.drop_first()));
                        }
                        if w.drop_first() == suffix.drop_first() {
                            assert(w.len() == suffix.len());
                            assert forall|k: int| 0 <= k < w.len() implies w[k] == suffix[k] by {
                                if k > 0 {
                                    assert(w.drop_first()[k - 1] == suffix.drop_first()[k - 1]);
                                }
                            }
                            assert(w =~= suffix);
                        }
                        if w == suffix {
                            assert(w.drop_first() == suffix.drop_first());
                        }
                    }
                }
            }
        }
    }

    /// Adds `word` to the dictionary.  Inserting a word that is already
    /// present changes nothing.
    pub fn insert(&mut self, word: &[u8])
        requires
            old(self).wf(),
        ensures
            final(self).wf(),
            final(self).words() == old(self).words().insert(word@),
    {
        self.insert_at(word, 0);
        proof {
            assert(word@.skip(0) =~= word@);
            assert(final(self).words() =~= old(self).words().insert(word@));
        }
    }

    /// Whether the bytes `word[i..]` form a stored word below this node.
    fn search_at(&self, word: &[u8], i: usize) -> (r: bool)
        requires
            self.wf(),
            i <= word@.len(),
        ensures
            r == self.has_word(word@.skip(i as int)),
        decreases word@.len() - i,
    {
        if i == word.len() {
            self.is_end_of_word
        } else {
            let b = word[i] as usize;
            proof {
                assert(word@.skip(i as int).len() > 0);
                assert(word@.skip(i as int)[0] == word@[i as int]);
                assert(word@.skip(i as int).drop_first() =~= word@.skip(i as int + 1));
            }
            match &self.children[b] {
                Some(c) => c.search_at(word, i + 1),
                None => false,
            }
        }
    }

    /// Depth-first traversal below this node, over the child slots in
    /// ascending edge order.  `prefix` is the path from the root to
    /// this node; every word of the subtree is appended to `words` as
    /// `prefix` plus the path to its flagged node, each exactly once,
    /// in strictly ascending byte-lexicographic order.
    #[verifier::rlimit(80)]
    pub fn traverse_and_collect(&self, prefix: Vec<u8>, words: &mut Vec<Vec<u8>>)
        requires
            self.wf(),
        ensures
            old(words)@.len() <= final(words)@.len(),
            forall|k: int| 0 <= k < old(words)@.len() ==> final(words)@[k] == old(words)@[k],
            forall|k: int|
                old(words)@.len() <= k < final(words)@.len() ==> prefix@.is_prefix_of(
                    (#[trigger] final(words)@[k])@,
                ) && self.has_word(final(words)@[k]@.skip(prefix@.len() as int)),
            forall|s: Seq<u8>|
                #[trigger] self.has_word(s) ==> exists|k: int|
                    old(words)@.len() <= k < final(words)@.len() && (final(words)@[k])@ == prefix@
                        + s,
            forall|k1: int, k2: int|
                old(words)@.len() <= k1 < k2 < final(words)@.len() ==> lex_less(
                    (#[trigger] final(words)@[k1])@,
                    (#[trigger] final(words)@[k2])@,
                ),
            forall|k1: int, k2: int|
                old(words)@.len() <= k1 < k2 < final(words)@.len() ==> (#[trigger] final(
                    words
                )@[k1])@ != (#[trigger] final(words)@[k2])@,
        decreases *self,
    {
        let ghost words0: Seq<Vec<u8>> = words@;
        let ghost plen: int = prefix@.len() as int;
        if self.is_end_of_word {
            let copy = clone_bytes(&prefix);
            words.push(copy);
            proof {
                assert(words@[words0.len() as int]@ =~= prefix@ + Seq::<u8>::empty());
                assert(prefix@.is_prefix_of(prefix@)) by {
                    assert(prefix@.take(plen) =~= prefix@);
                }
                assert(prefix@.skip(plen) =~= Seq::<u8>::empty());
            }
        }
        let mut i: usize = 0;
        while i < 256
            invariant
                i <= 256,
                self.wf(),
                plen == prefix@.len(),
                words0.len() <= words@.len(),
                forall|k: int| 0 <= k < words0.len() ==> words@[k] == words0[k],
                forall|k: int|
                    words0.len() <= k < words@.len() ==> prefix@.is_prefix_of(
                        (#[trigger] words@[k])@,
                    ) && self.has_word(words@[k]@.skip(plen)) && (words@[k]@.len() > plen
                        ==> words@[k]@[plen] < i),
                forall|s: Seq<u8>|
                    #[trigger] self.has_word(s) && (s.len() == 0 || s[0] < i) ==> exists|k: int|
                        words0.len() <= k < words@.len() && (words@[k])@ == prefix@ + s,
                forall|k1: int, k2: int|
                    words0.len() <= k1 < k2 < words@.len() ==> lex_less(
                        (#[trigger] words@[k1])@,
                        (#[trigger] words@[k2])@,
                    ),
            decreases 256 - i,
        {
            match &self.children[i] {
                Some(c) => {
                    let ghost words1: Seq<Vec<u8>> = words@;
                    let mut new_prefix = clone_bytes(&prefix);
                    new_prefix.push(i as u8);
                    let ghost np: Seq<u8> = new_prefix@;
                    proof {
                        assert(np =~= prefix@ + seq![i as u8]);
                        assert(np.len() == plen + 1);
                        assert(np[plen] == i as u8);
                    }
                    c.traverse_and_collect(new_prefix, words);
                    proof {
                        // every new entry fits below child slot i
                        assert forall|k: int|
                            words0.len() <= k < words@.len() implies prefix@.is_prefix_of(
                            (#[trigger] words@[k])@,
                        ) && self.has_word(words@[k]@.skip(plen)) && (words@[k]@.len() > plen
                            ==> words@[k]@[plen] < i + 1) by {
                            if k < words1.len() {
                                assert(words@[k] == words1[k]);
                            } else {
                                let e = words@[k]@;
                                assert(np.len() == plen + 1);
                                assert(np.is_prefix_of(e));
                                assert(np =~= e.subrange(0, plen + 1));
                                assert forall|j: int| 0 <= j < plen implies e[j] == prefix@[j] by {
                                    assert(e.subrange(0, plen + 1)[j] == np[j]);
                                }
                                assert(prefix@ =~= e.take(plen));
                                assert(prefix@.is_prefix_of(e));
                                assert(e[plen] == e.subrange(0, plen + 1)[plen]);
                                assert(e[plen] == np[plen]);
                                assert(e[plen] == i as u8);
                                let s = e.skip(plen);
                                assert(s.len() > 0);
                                assert(s[0] == e[plen]);
                                assert(s.drop_first() =~= e.skip(plen + 1));
                                assert(c.has_word(e.skip(plen + 1)));
                                assert(self.children@[s[0] as int] == Some(*c));
                                assert(self.has_word(s));
                            }
                        }
                        // every word whose first byte is at most i is listed
                        assert forall|s: Seq<u8>|
                            #[trigger] self.has_word(s) && (s.len() == 0 || s[0] < i + 1) implies
                            exists|k: int|
                                words0.len() <= k < words@.len() && (words@[k])@ == prefix@
                                    + s by {
                            if s.len() == 0 || s[0] < i {
                                let k = choose|k: int|
                                    words0.len() <= k < words1.len() && (words1[k])@ == prefix@
                                        + s;
                                assert(words@[k] == words1[k]);
                                assert(words0.len() <= k < words@.len() && (words@[k])@ == prefix@
                                    + s);
                            } else {
                                assert(s[0] == i as u8);
                                assert(c.has_word(s.drop_first()));
                                let k = choose|k: int|
                                    words1.len() <= k < words@.len() && (words@[k])@ == np
                                        + s.drop_first();
                                assert(np + s.drop_first() =~= prefix@ + s);
                                assert(words0.len() <= k < words@.len() && (words@[k])@ == prefix@
                                    + s);
                            }
                        }
                        // entries keep ascending byte-lexicographic order
                        assert forall|k1: int, k2: int|
                            words0.len() <= k1 < k2 < words@.len() implies lex_less(
                            (#[trigger] words@[k1])@,
                            (#[trigger] words@[k2])@,
                        ) by {
                            if k2 < words1.len() {
                                assert(words@[k1] == words1[k1]);
                                assert(words@[k2] == words1[k2]);
                            } else if k1 >= words1.len() {
                            } else {
                                assert(words@[k1] == words1[k1]);
                                assert(np.is_prefix_of(words@[k2]@));
                                lemma_order_across_child(
                                    words@[k1]@,
                                    words@[k2]@,
                                    prefix@,
                                    i as int,
                                );
                            }
                        }
                    }
                }
                None => {
                    proof {
                        assert forall|s: Seq<u8>|
                            #[trigger] self.has_word(s) && (s.len() == 0 || s[0] < i + 1) implies
                            exists|k: int|
                                words0.len() <= k < words@.len() && (words@[k])@ == prefix@
                                    + s by {
                            if s.len() > 0 && s[0] == i as u8 {
                                assert(self.children@[s[0] as int] is None);
                                assert(!self.has_word(s));
                            }
                        }
                    }
                }
            }
            i += 1;
        }
        proof {
            assert forall|s: Seq<u8>| #[trigger] self.has_word(s) implies exists|k: int|
                words0.len() <= k < words@.len() && (words@[k])@ == prefix@ + s by {
                if s.len() > 0 {
                    assert(s[0] < 256);
                }
            }
            assert forall|k1: int, k2: int|
                words0.len() <= k1 < k2 < words@.len() implies (#[trigger] words@[k1])@
                != (#[trigger] words@[k2])@ by {
                lemma_lex_less_ne(words@[k1]@, words@[k2]@);
            }
        }
    }

    /// Every word of the dictionary, reconstructed by depth-first
    /// traversal from the root: no duplicates, no omissions, listed in
    /// strictly ascending byte-lexicographic order.
    pub fn get_all_words(&self) -> (r: Vec<Vec<u8>>)
        requires
            self.wf(),
        ensures
            forall|k: int| 0 <= k < r@.len() ==> self.words().contains((#[trigger] r@[k])@),
            forall|s: Seq<u8>|
                self.words().contains(s) ==> exists|k: int| 0 <= k < r@.len() && (r@[k])@ == s,
            forall|k1: int, k2: int|
                0 <= k1 < k2 < r@.len() ==> lex_less((#[trigger] r@[k1])@, (#[trigger] r@[k2])@),
            forall|k1: int, k2: int|
                0 <= k1 < k2 < r@.len() ==> (#[trigger] r@[k1])@ != (#[trigger] r@[k2])@,
    {
        let mut r: Vec<Vec<u8>> = Vec::new();
        let prefix: Vec<u8> = Vec::new();
        self.traverse_and_collect(prefix, &mut r);
        proof {
            assert forall|k: int| 0 <= k < r@.len() implies self.words().contains(
                (#[trigger] r@[k])@,
            ) by {
                assert(r@[k]@.skip(0) =~= r@[k]@);
            }
            assert forall|s: Seq<u8>| self.words().contains(s) implies exists|k: int|
                0 <= k < r@.len() && (r@[k])@ == s by {
                let k = choose|k: int| 0 <= k < r@.len() && (r@[k])@ == Seq::<u8>::empty() + s;
                assert(Seq::<u8>::empty() + s =~= s);
                assert(0 <= k < r@.len() && (r@[k])@ == s);
            }
        }
        r
    }

    /// Returns whether `word` is a member of the dictionary.  The walk
    /// fails, and the answer is false, as soon as a byte has no edge.
    pub fn search(&self, word: &[u8]) -> (r: bool)
        requires
            self.wf(),
        ensures
            r == self.words().contains(word@),
    {
        let r = self.search_at(word, 0);
        proof {
            assert(word@.skip(0) =~= word@);
        }
        r
    }
}

/// Membership after insertion: once `w` joins the stored words, a
/// search for `w` succeeds, while a word never inserted stays outside,
/// however the word set was built up.
pub proof fn lemma_search_after_insert(s: Set<Seq<u8>>, w: Seq<u8>, w2: Seq<u8>)
    requires
        !s.contains(w2),
        w2 != w,
    ensures
        s.insert(w).contains(w),
        !s.insert(w).contains(w2),
{
}

/// The stored word set does not depend on the order of insertions:
/// adding two words in either order leaves the same dictionary
/// contents.
pub proof fn lemma_insert_order_irrelevant(s: Set<Seq<u8>>, a: Seq<u8>, b: Seq<u8>)
    ensures
        s.insert(a).insert(b) == s.insert(b).insert(a),
{
    assert(s.insert(a).insert(b) =~= s.insert(b).insert(a));
}

} // verus!
