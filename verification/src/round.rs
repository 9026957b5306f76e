//! The round controller.
//!
//! One round plays up to six attempts against a single secret word.
//! Each validated guess is evaluated, its classification merged into
//! the cumulative feedback, and the remaining alphabet replaced by the
//! evaluator's shrunk snapshot; the round ends won when all five
//! positions match, or exhausted when the budget is spent.

use vstd::prelude::*;
use crate::eval::LetterClass;
use crate::eval::classified;
use crate::eval::pruned;
use crate::eval::contains_char;
use crate::eval::validar_palavra;
use crate::eval::lemma_pruned_no_duplicates;

verus! {

/// The attempt budget of a round.
pub const MAX_ATTEMPTS: u32 = 6;

/// Where a round stands.
#[derive(Clone, Copy, Debug, PartialEq, Eq, Structural)]
pub enum RoundState {
    /// The round accepts another guess.
    AwaitingGuess,
    /// All five positions matched within the budget.
    Won,
    /// The budget was spent without a full match.
    Exhausted,
}

/// The 26 lowercase letters in order.
pub open spec fn full_alphabet() -> Seq<char> {
    Seq::new(26, |i: int| ((97 + i) as u8) as char)
}

/// An owned copy of a letter vector.
fn clone_chars(v: &Vec<char>) -> (r: Vec<char>)
    ensures
        r@ == v@,
{
    let mut r: Vec<char> = Vec::new();
    let mut i: usize = 0;
    while i < v.len()
        invariant
            i <= v@.len(),
            r@ == v@.take(i as int),
        decreases v@.len() - i,
    {
        r.push(v[i]);
        proof {
            assert(v@.take(i as int).push(v@[i as int]) =~= v@.take(i + 1));
        }
        i += 1;
    }
    proof {
        assert(v@.take(v@.len() as int) =~= v@);
    }
    r
}

/// The full alphabet as a vector, `'a'` through `'z'`.
fn make_alphabet() -> (r: Vec<char>)
    ensures
        r@ == full_alphabet(),
{
    let mut r: Vec<char> = Vec::new();
    let mut b: u8 = 97;
    while b < 123
        invariant
            97 <= b <= 123,
            r@.len() == b - 97,
            forall|i: int| 0 <= i < r@.len() ==> r@[i] == (((97 + i) as u8) as char),
        decreases 123 - b,
    {
        r.push(b as char);
        b += 1;
    }
    proof {
        assert(r@ =~= full_alphabet());
    }
    r
}

/// The union of `acc` and `extra`, deduplicated: `acc` followed by the
/// first occurrence of every letter of `extra` not yet present.
pub open spec fn merged(acc: Seq<char>, extra: Seq<char>) -> Seq<char>
    decreases extra.len(),
{
    if extra.len() == 0 {
        acc
    } else {
        merged(
            if acc.contains(extra[0]) {
                acc
            } else {
                acc.push(extra[0])
            },
            extra.drop_first(),
        )
    }
}

/// Appends to `acc` every letter of `extra` not yet present: the
/// deduplicated union of the two.
fn merge_letters(acc: &mut Vec<char>, extra: &Vec<char>)
    requires
        old(acc)@.no_duplicates(),
    ensures
        final(acc)@ == merged(old(acc)@, extra@),
        final(acc)@.no_duplicates(),
        forall|c: char| #[trigger]
            final(acc)@.contains(c) <==> old(acc)@.contains(c) || extra@.contains(c),
{
    let mut i: usize = 0;
    proof {
        assert(extra@.skip(0) =~= extra@);
    }
    while i < extra.len()
        invariant
            i <= extra@.len(),
            acc@.no_duplicates(),
            merged(acc@, extra@.skip(i as int)) == merged(old(acc)@, extra@),
            forall|c: char| #[trigger]
                acc@.contains(c) <==> old(acc)@.contains(c) || extra@.take(i as int).contains(c),
        decreases extra@.len() - i,
    {
        proof {
            assert(extra@.skip(i as int).len() > 0);
            assert(extra@.skip(i as int)[0] == extra@[i as int]);
            assert(extra@.skip(i as int).drop_first() =~= extra@.skip(i + 1));
        }
        let c = extra[i];
        let present = contains_char(acc, c);
        proof {
            assert(extra@.take(i + 1) =~= extra@.take(i as int).push(extra@[i as int]));
            assert forall|c2: char|
                extra@.take(i + 1).contains(c2) <==> extra@.take(i as int).contains(c2) || c2
                    == c by {
                let t = extra@.take(i as int);
                if extra@.take(i + 1).contains(c2) {
                    let j = choose|j: int|
                        0 <= j < t.push(c).len() && t.push(c)[j] == c2;
                    if j < t.len() {
                        assert(t[j] == c2);
                    }
                }
                if t.contains(c2) {
                    let j = choose|j: int| 0 <= j < t.len() && t[j] == c2;
                    assert(t.push(c)[j] == c2);
                }
                if c2 == c {
                    assert(t.push(c)[t.len() as int] == c2);
                }
            }
        }
        if !present {
            let ghost prev = acc@;
            acc.push(c);
            proof {
                assert forall|c2: char| #[trigger]
                    acc@.contains(c2) <==> prev.contains(c2) || c2 == c by {
                    if acc@.contains(c2) {
                        let j = choose|j: int| 0 <= j < acc@.len() && acc@[j] == c2;
                        if j < prev.len() {
                            assert(prev[j] == c2);
                        }
                    }
                    if prev.contains(c2) {
                        let j = choose|j: int| 0 <= j < prev.len() && prev[j] == c2;
                        assert(acc@[j] == c2);
                    }
                    if c2 == c {
                        assert(acc@[prev.len() as int] == c2);
                    }
                }
                assert forall|j1: int, j2: int|
                    0 <= j1 < j2 < acc@.len() implies acc@[j1] != acc@[j2] by {
                    if j2 == prev.len() {
                        assert(acc@[j1] == prev[j1]);
                        assert(!prev.contains(c));
                    }
                }
            }
        }
        i += 1;
    }
    proof {
        assert(extra@.take(extra@.len() as int) =~= extra@);
        assert(extra@.skip(extra@.len() as int) =~= Seq::<char>::empty());
    }
}

/// Relies on rand's `thread_rng` and `Rng::gen_range`: the result is a
/// value drawn from `0..n`; `gen_range` panics only on an empty range,
/// which the precondition rules out.
#[verifier::external_body]
fn pick_index(n: usize) -> (r: usize)
    requires
        n > 0,
    ensures
        r < n,
{
    rand::Rng::gen_range(&mut rand::thread_rng(), 0..n)
}

/// One round of the game against a fixed secret word.
pub struct Round {
    /// The secret five-letter word of this round.
    pub secret: Vec<char>,
    /// The letters not yet touched by any attempt of this round.
    pub alphabet: Vec<char>,
    /// Letters known correct, accumulated over the attempts so far.
    pub validos: Vec<char>,
    /// Letters known misplaced, accumulated over the attempts so far.
    pub fora_pos: Vec<char>,
    /// Letters known absent, accumulated over the attempts so far.
    pub invalidos: Vec<char>,
    /// How many attempts have been evaluated.
    pub attempts_used: u32,
    /// On a won round, the attempt number (1 to 6) that matched.
    pub winning_attempt: u32,
    /// Where the round stands.
    pub state: RoundState,
}

impl Round {
    /// A round is well formed: a five-letter secret, a budget of six
    /// attempts, and deduplicated feedback sets.
    pub open spec fn wf(self) -> bool {
        &&& self.secret@.len() == 5
        &&& self.attempts_used <= MAX_ATTEMPTS
        &&& (self.state is AwaitingGuess ==> self.attempts_used < MAX_ATTEMPTS)
        &&& self.alphabet@.no_duplicates()
        &&& self.validos@.no_duplicates()
        &&& self.fora_pos@.no_duplicates()
        &&& self.invalidos@.no_duplicates()
        &&& (self.state is Won ==> 1 <= self.winning_attempt <= self.attempts_used)
    }

    /// A fresh round against `secret`: the full alphabet remains, the
    /// cumulative feedback is empty, and no attempt has been used.
    pub fn new(secret: Vec<char>) -> (r: Round)
        requires
            secret@.len() == 5,
        ensures
            r.wf(),
            r.secret@ == secret@,
            r.alphabet@ == full_alphabet(),
            r.validos@.len() == 0,
            r.fora_pos@.len() == 0,
            r.invalidos@.len() == 0,
            r.attempts_used == 0,
            r.state == RoundState::AwaitingGuess,
    {
        let alphabet = make_alphabet();
        proof {
            assert forall|i: int, j: int|
                0 <= i < j < full_alphabet().len() implies full_alphabet()[i]
                != full_alphabet()[j] by {
                assert((((97 + i) as u8) as char) as int == 97 + i);
                assert((((97 + j) as u8) as char) as int == 97 + j);
            }
        }
        Round {
            secret,
            alphabet,
            validos: Vec::new(),
            fora_pos: Vec::new(),
            invalidos: Vec::new(),
            attempts_used: 0,
            winning_attempt: 0,
            state: RoundState::AwaitingGuess,
        }
    }

    /// Evaluates one validated five-letter guess.  The attempt's own
    /// classification comes back as the four rows of the evaluator;
    /// the cumulative feedback takes their union, the remaining
    /// alphabet shrinks to the evaluator's snapshot, and the round
    /// moves to won on a full match, to exhausted when the budget is
    /// spent, and otherwise awaits the next guess.
    pub fn submit_guess(&mut self, guess: &Vec<char>) -> (res: Vec<Vec<char>>)
        requires
            old(self).wf(),
            old(self).state == RoundState::AwaitingGuess,
            guess@.len() == 5,
        ensures
            final(self).wf(),
            final(self).secret == old(self).secret,
            final(self).attempts_used == old(self).attempts_used + 1,
            res@.len() == 4,
            res@[0]@ == classified(old(self).secret@, guess@, LetterClass::Correct, 5),
            res@[1]@ == classified(old(self).secret@, guess@, LetterClass::Misplaced, 5),
            res@[2]@ == classified(old(self).secret@, guess@, LetterClass::Absent, 5),
            res@[0]@.len() + res@[1]@.len() + res@[2]@.len() == 5,
            final(self).alphabet@ == pruned(old(self).alphabet@, old(self).secret@),
            res@[3]@ == final(self).alphabet@,
            forall|c: char| #[trigger]
                final(self).alphabet@.contains(c) <==> old(self).alphabet@.contains(c)
                    && !old(self).secret@.contains(c),
            final(self).validos@ == merged(
                old(self).validos@,
                classified(old(self).secret@, guess@, LetterClass::Correct, 5),
            ),
            final(self).fora_pos@ == merged(
                old(self).fora_pos@,
                classified(old(self).secret@, guess@, LetterClass::Misplaced, 5),
            ),
            final(self).invalidos@ == merged(
                old(self).invalidos@,
                classified(old(self).secret@, guess@, LetterClass::Absent, 5),
            ),
            forall|c: char| #[trigger]
                final(self).validos@.contains(c) <==> old(self).validos@.contains(c) || classified(
                    old(self).secret@,
                    guess@,
                    LetterClass::Correct,
                    5,
                ).contains(c),
            forall|c: char| #[trigger]
                final(self).fora_pos@.contains(c) <==> old(self).fora_pos@.contains(c)
                    || classified(
                    old(self).secret@,
                    guess@,
                    LetterClass::Misplaced,
                    5,
                ).contains(c),
            forall|c: char| #[trigger]
                final(self).invalidos@.contains(c) <==> old(self).invalidos@.contains(c)
                    || classified(old(self).secret@, guess@, LetterClass::Absent, 5).contains(c),
            guess@ == old(self).secret@ <==> final(self).state == RoundState::Won,
            guess@ == old(self).secret@ ==> res@[0]@ == old(self).secret@ && res@[1]@.len() == 0
                && res@[2]@.len() == 0,
            final(self).state == RoundState::Won ==> final(self).winning_attempt == old(self).attempts_used + 1,
            guess@ != old(self).secret@ && old(self).attempts_used + 1 == MAX_ATTEMPTS
                ==> final(self).state == RoundState::Exhausted,
            guess@ != old(self).secret@ && old(self).attempts_used + 1 < MAX_ATTEMPTS
                ==> final(self).state == RoundState::AwaitingGuess,
    {
        let res = validar_palavra(&self.secret, guess, &self.alphabet);
        merge_letters(&mut self.validos, &res[0]);
        merge_letters(&mut self.fora_pos, &res[1]);
        merge_letters(&mut self.invalidos, &res[2]);
        proof {
            lemma_pruned_no_duplicates(self.alphabet@, self.secret@);
        }
        self.alphabet = clone_chars(&res[3]);
        self.attempts_used = self.attempts_used + 1;
        let won = res[0].len() == 5;
        if won {
            self.state = RoundState::Won;
            self.winning_attempt = self.attempts_used;
        } else if self.attempts_used == MAX_ATTEMPTS {
            self.state = RoundState::Exhausted;
        } else {
            self.state = RoundState::AwaitingGuess;
        }
        res
    }
}

/// Starts a round whose secret is drawn at random from the supplied
/// word list; the list must be non-empty and hold five-letter words.
pub fn start_round(words: &Vec<Vec<char>>) -> (r: Round)
    requires
        words@.len() > 0,
        forall|i: int| 0 <= i < words@.len() ==> (#[trigger] words@[i])@.len() == 5,
    ensures
        r.wf(),
        exists|i: int| 0 <= i < words@.len() && r.secret@ == (#[trigger] words@[i])@,
        r.alphabet@ == full_alphabet(),
        r.validos@.len() == 0,
        r.fora_pos@.len() == 0,
        r.invalidos@.len() == 0,
        r.attempts_used == 0,
        r.state == RoundState::AwaitingGuess,
{
    let idx = pick_index(words.len());
    let secret = clone_chars(&words[idx]);
    let r = Round::new(secret);
    proof {
        assert(r.secret@ == words@[idx as int]@);
    }
    r
}

} // verus!

