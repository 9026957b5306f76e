//! The guess evaluator.
//!
//! One attempt is judged in a single left-to-right pass over the five
//! positions, walking the secret's letters: position `i` compares the
//! guess letter against the secret letter and, failing that, tests
//! whether the secret's letter occurs anywhere in the guess.  Feedback
//! is therefore reported in terms of the secret's letter at each index.
//! The containment test does not reserve matched occurrences, so a
//! secret with a duplicated letter is judged position by position,
//! without consuming earlier matches; this behaviour is kept as is.

use vstd::prelude::*;

verus! {

broadcast use vstd::seq_lib::group_seq_lib_default;

/// How one position of an attempt is judged.
pub enum LetterClass {
    /// The guess letter equals the secret letter at this position.
    Correct,
    /// The secret's letter occurs elsewhere in the guess.
    Misplaced,
    /// The secret's letter occurs nowhere in the guess.
    Absent,
}

/// The class of position `i`: correct when the guess matches the secret
/// there, misplaced when the secret's letter is findable anywhere in
/// the guess, absent otherwise.
pub open spec fn class_at(key: Seq<char>, word: Seq<char>, i: int) -> LetterClass {
    if word[i] == key[i] {
        LetterClass::Correct
    } else if word.contains(key[i]) {
        LetterClass::Misplaced
    } else {
        LetterClass::Absent
    }
}

/// The secret's letters over positions `0..n` whose class is `cls`, in
/// position order.
pub open spec fn classified(key: Seq<char>, word: Seq<char>, cls: LetterClass, n: int) -> Seq<char>
    decreases n,
{
    if n <= 0 {
        Seq::empty()
    } else {
        classified(key, word, cls, n - 1) + if class_at(key, word, n - 1) == cls {
            seq![key[n - 1]]
        } else {
            Seq::empty()
        }
    }
}

/// What remains of `alphabet` after the attempt: every letter of the
/// secret has been removed, each at most once.
pub open spec fn pruned(alphabet: Seq<char>, key: Seq<char>) -> Seq<char> {
    alphabet.filter(|c: char| !key.contains(c))
}

/// A filtered sequence holds exactly the elements of the original that
/// satisfy the predicate.
proof fn lemma_filter_membership(s: Seq<char>, p: spec_fn(char) -> bool)
    ensures
        forall|c: char| #[trigger] s.filter(p).contains(c) <==> s.contains(c) && p(c),
    decreases s.len(),
{
    reveal(Seq::filter);
    if s.len() > 0 {
        lemma_filter_membership(s.drop_last(), p);
        assert forall|c: char| #[trigger] s.filter(p).contains(c) <==> s.contains(c) && p(
            c,
        ) by {
            let t = s.drop_last();
            if s.filter(p).contains(c) {
                if p(s.last()) {
                    assert(s.filter(p) == t.filter(p).push(s.last()));
                    if c != s.last() {
                        let j = choose|j: int|
                            0 <= j < s.filter(p).len() && s.filter(p)[j] == c;
                        assert(t.filter(p)[j] == c);
                        assert(t.filter(p).contains(c));
                    }
                    if c == s.last() {
                        assert(s[s.len() - 1] == c);
                    }
                }
                if t.contains(c) {
                    let j = choose|j: int| 0 <= j < t.len() && t[j] == c;
                    assert(s[j] == c);
                }
            }
            if s.contains(c) && p(c) {
                let j = choose|j: int| 0 <= j < s.len() && s[j] == c;
                if j < s.len() - 1 {
                    assert(t[j] == c);
                    assert(t.filter(p).contains(c));
                    if p(s.last()) {
                        let jj = choose|jj: int|
                            0 <= jj < t.filter(p).len() && t.filter(p)[jj] == c;
                        assert(s.filter(p)[jj] == c);
                    }
                } else {
                    assert(s.last() == c);
                    assert(s.filter(p) == t.filter(p).push(c));
                    assert(s.filter(p)[s.filter(p).len() - 1] == c);
                }
            }
        }
    }
}

/// Every position of an attempt lands in exactly one of the three
/// classes: over the first `n` positions the three classes together
/// hold exactly `n` letters.
pub proof fn lemma_classification_total(key: Seq<char>, word: Seq<char>, n: int)
    requires
        0 <= n,
    ensures
        classified(key, word, LetterClass::Correct, n).len() + classified(
            key,
            word,
            LetterClass::Misplaced,
            n,
        ).len() + classified(key, word, LetterClass::Absent, n).len() == n,
    decreases n,
{
    if n > 0 {
        lemma_classification_total(key, word, n - 1);
    }
}

/// The correct class can hold at most one letter per position, and it
/// holds all `n` positions exactly when the guess matches the secret at
/// every one of them.
pub proof fn lemma_all_correct(key: Seq<char>, word: Seq<char>, n: int)
    requires
        0 <= n,
    ensures
        classified(key, word, LetterClass::Correct, n).len() <= n,
        classified(key, word, LetterClass::Correct, n).len() == n <==> (forall|i: int|
            0 <= i < n ==> word[i] == key[i]),
    decreases n,
{
    if n > 0 {
        lemma_all_correct(key, word, n - 1);
        if classified(key, word, LetterClass::Correct, n).len() == n {
            assert forall|i: int| 0 <= i < n implies word[i] == key[i] by {
                assert(classified(key, word, LetterClass::Correct, n - 1).len() == n - 1);
            }
        }
    }
}

/// When the guess is the secret itself, the first `n` positions all
/// classify as correct, reproducing the secret's letters in order.
pub proof fn lemma_self_guess(key: Seq<char>, n: int)
    requires
        0 <= n <= key.len(),
    ensures
        classified(key, key, LetterClass::Correct, n) == key.take(n),
    decreases n,
{
    if n > 0 {
        lemma_self_guess(key, n - 1);
        assert(key.take(n) =~= key.take(n - 1) + seq![key[n - 1]]);
    } else {
        assert(key.take(0) =~= Seq::<char>::empty());
    }
}

/// The remaining alphabet never regrows: every letter that survives an
/// attempt was already live before it, so the alphabet of attempt
/// `n + 1` is contained in the alphabet of attempt `n`.
pub proof fn lemma_alphabet_monotone(alphabet: Seq<char>, key: Seq<char>)
    ensures
        forall|c: char| #[trigger]
            pruned(alphabet, key).contains(c) ==> alphabet.contains(c),
{
    lemma_filter_membership(alphabet, |c: char| !key.contains(c));
}

/// Removal is idempotent: pruning a duplicate-free alphabet leaves it
/// duplicate-free.
pub proof fn lemma_pruned_no_duplicates(alphabet: Seq<char>, key: Seq<char>)
    requires
        alphabet.no_duplicates(),
    ensures
        pruned(alphabet, key).no_duplicates(),
{
    lemma_filter_no_duplicates(alphabet, |c: char| !key.contains(c));
}

/// Filtering keeps a duplicate-free sequence duplicate-free.
proof fn lemma_filter_no_duplicates(s: Seq<char>, p: spec_fn(char) -> bool)
    requires
        s.no_duplicates(),
    ensures
        s.filter(p).no_duplicates(),
    decreases s.len(),
{
    reveal(Seq::filter);
    if s.len() > 0 {
        let t = s.drop_last();
        assert(t.no_duplicates());
        lemma_filter_no_duplicates(t, p);
        if p(s.last()) {
            lemma_filter_membership(t, p);
            assert(!t.contains(s.last())) by {
                if t.contains(s.last()) {
                    let j = choose|j: int| 0 <= j < t.len() && t[j] == s.last();
                    assert(s[j] == s[s.len() - 1]);
                }
            }
            assert(s.filter(p) == t.filter(p).push(s.last()));
            assert forall|j1: int, j2: int|
                0 <= j1 < j2 < s.filter(p).len() implies s.filter(p)[j1] != s.filter(p)[j2] by {
                if j2 == s.filter(p).len() - 1 {
                    assert(s.filter(p)[j1] == t.filter(p)[j1]);
                    assert(t.filter(p).contains(t.filter(p)[j1]));
                }
            }
        }
    }
}

/// Whether `v` holds the letter `c`.
pub fn contains_char(v: &Vec<char>, c: char) -> (r: bool)
    ensures
        r == v@.contains(c),
{
    let mut i: usize = 0;
    while i < v.len()
        invariant
            i <= v@.len(),
            forall|j: int| 0 <= j < i ==> v@[j] != c,
        decreases v@.len() - i,
    {
        if v[i] == c {
            proof {
                assert(v@[i as int] == c);
            }
            return true;
        }
        i += 1;
    }
    false
}

/// One guess evaluated against the secret, as a pure function: returns
/// the four result rows `[correct, misplaced, absent, remaining
/// alphabet]`, leaving the caller's alphabet snapshot untouched.
pub fn validar_palavra(key: &Vec<char>, word: &Vec<char>, alphabet: &Vec<char>) -> (res: Vec<
    Vec<char>,
>)
    requires
        key@.len() == 5,
        word@.len() == 5,
    ensures
        res@.len() == 4,
        res@[0]@ == classified(key@, word@, LetterClass::Correct, 5),
        res@[1]@ == classified(key@, word@, LetterClass::Misplaced, 5),
        res@[2]@ == classified(key@, word@, LetterClass::Absent, 5),
        res@[3]@ == pruned(alphabet@, key@),
        res@[0]@.len() + res@[1]@.len() + res@[2]@.len() == 5,
        forall|c: char| #[trigger]
            res@[3]@.contains(c) <==> alphabet@.contains(c) && !key@.contains(c),
        res@[0]@.len() == 5 <==> word@ == key@,
        word@ == key@ ==> res@[0]@ == key@,
{
    let mut validos: Vec<char> = Vec::new();
    let mut fora_pos: Vec<char> = Vec::new();
    let mut invalidos: Vec<char> = Vec::new();
    let mut i: usize = 0;
    while i < 5
        invariant
            i <= 5,
            key@.len() == 5,
            word@.len() == 5,
            validos@ == classified(key@, word@, LetterClass::Correct, i as int),
            fora_pos@ == classified(key@, word@, LetterClass::Misplaced, i as int),
            invalidos@ == classified(key@, word@, LetterClass::Absent, i as int),
        decreases 5 - i,
    {
        let s = key[i];
        let g = word[i];
        if g == s {
            validos.push(s);
            proof {
                assert(class_at(key@, word@, i as int) == LetterClass::Correct);
                assert(validos@ =~= classified(key@, word@, LetterClass::Correct, i as int)
                    + seq![key@[i as int]]);
            }
        } else if contains_char(word, s) {
            fora_pos.push(s);
            proof {
                assert(class_at(key@, word@, i as int) == LetterClass::Misplaced);
                assert(fora_pos@ =~= classified(key@, word@, LetterClass::Misplaced, i as int)
                    + seq![key@[i as int]]);
            }
        } else {
            invalidos.push(s);
            proof {
                assert(class_at(key@, word@, i as int) == LetterClass::Absent);
                assert(invalidos@ =~= classified(key@, word@, LetterClass::Absent, i as int)
                    + seq![key@[i as int]]);
            }
        }
        i += 1;
    }
    let mut rem: Vec<char> = Vec::new();
    let mut j: usize = 0;
    while j < alphabet.len()
        invariant
            j <= alphabet@.len(),
            key@.len() == 5,
            rem@ == alphabet@.take(j as int).filter(|c: char| !key@.contains(c)),
        decreases alphabet@.len() - j,
    {
        let c = alphabet[j];
        let keep = !contains_char(key, c);
        proof {
            let p = |c: char| !key@.contains(c);
            assert(alphabet@.take(j + 1) =~= alphabet@.take(j as int) + seq![alphabet@[j as int]]);
            lemma_filter_singleton(alphabet@[j as int], p);
            if keep {
                assert(rem@.push(c) =~= rem@ + seq![c]);
            } else {
                assert(rem@ =~= rem@ + Seq::<char>::empty());
            }
        }
        if keep {
            rem.push(c);
        }
        j += 1;
    }
    proof {
        assert(alphabet@.take(alphabet@.len() as int) =~= alphabet@);
        lemma_filter_membership(alphabet@, |c: char| !key@.contains(c));
        lemma_classification_total(key@, word@, 5);
        lemma_all_correct(key@, word@, 5);
        if forall|i2: int| 0 <= i2 < 5 ==> word@[i2] == key@[i2] {
            assert(word@ =~= key@);
        }
        if word@ == key@ {
            lemma_self_guess(key@, 5);
            assert(key@.take(5) =~= key@);
        }
    }
    let mut res: Vec<Vec<char>> = Vec::new();
    res.push(validos);
    res.push(fora_pos);
    res.push(invalidos);
    res.push(rem);
    res
}

/// Filtering a one-letter sequence keeps or drops that letter alone.
proof fn lemma_filter_singleton(x: char, p: spec_fn(char) -> bool)
    ensures
        seq![x].filter(p) == if p(x) {
            seq![x]
        } else {
            Seq::<char>::empty()
        },
{
    reveal_with_fuel(Seq::<_>::filter, 2);
    assert(seq![x].drop_last() =~= Seq::<char>::empty());
    if p(x) {
        assert(Seq::<char>::empty().push(x) =~= seq![x]);
    }
}

} // verus!
