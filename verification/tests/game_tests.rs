use wordle::eval::validar_palavra;
use wordle::round::Round;
use wordle::round::RoundState;
use wordle::round::start_round;

fn chars(s: &str) -> Vec<char> {
    s.chars().collect()
}

fn full_alphabet() -> Vec<char> {
    ('a'..='z').collect()
}

#[test]
fn evaluate_mango_grape() {
    let key = chars("mango");
    let word = chars("grape");
    let alphabet = full_alphabet();
    let res = validar_palavra(&key, &word, &alphabet);
    assert_eq!(res.len(), 4);
    assert_eq!(res[0], Vec::<char>::new());
    assert_eq!(res[1], vec!['a', 'g']);
    assert_eq!(res[2], vec!['m', 'n', 'o']);
    assert_eq!(res[0].len() + res[1].len() + res[2].len(), 5);
    let expected_rem = chars("bcdefhijklpqrstuvwxyz");
    assert_eq!(res[3], expected_rem);
    assert_eq!(res[3].len(), 21);
}

#[test]
fn evaluate_counts_sum_to_five() {
    let cases = [
        ("apple", "apple"),
        ("mango", "grape"),
        ("mango", "mango"),
        ("abcde", "vwxyz"),
        ("aaaaa", "aabbb"),
    ];
    for (secret, guess) in cases.iter() {
        let res = validar_palavra(&chars(secret), &chars(guess), &full_alphabet());
        assert_eq!(res[0].len() + res[1].len() + res[2].len(), 5);
    }
}

#[test]
fn evaluate_duplicate_letters_not_reserved() {
    // the secret's repeated letter is tested by containment alone, so
    // a single echo in the guess satisfies every occurrence
    let res = validar_palavra(&chars("geese"), &chars("segue"), &full_alphabet());
    // position by position: g vs s, 'g' in "segue" -> misplaced g;
    // e vs e -> correct; e vs g, 'e' in guess -> misplaced e;
    // s vs u, 's' in guess -> misplaced s; e vs e -> correct
    assert_eq!(res[0], vec!['e', 'e']);
    assert_eq!(res[1], vec!['g', 'e', 's']);
    assert_eq!(res[2], Vec::<char>::new());
}

#[test]
fn win_on_first_attempt() {
    let mut round = Round::new(chars("apple"));
    let res = round.submit_guess(&chars("apple"));
    assert_eq!(res[0], vec!['a', 'p', 'p', 'l', 'e']);
    assert!(res[1].is_empty());
    assert!(res[2].is_empty());
    assert_eq!(round.state, RoundState::Won);
    assert_eq!(round.winning_attempt, 1);
    assert_eq!(round.attempts_used, 1);
}

#[test]
fn alphabet_shrinks_across_attempts() {
    let mut round = Round::new(chars("mango"));
    let guesses = ["grape", "flute", "brick"];
    let mut previous = round.alphabet.clone();
    for g in guesses.iter() {
        round.submit_guess(&chars(g));
        for c in round.alphabet.iter() {
            assert!(previous.contains(c));
        }
        assert!(round.alphabet.len() <= previous.len());
        previous = round.alphabet.clone();
    }
}

#[test]
fn exhausted_after_six_misses() {
    let mut round = Round::new(chars("mango"));
    for attempt in 1..=6u32 {
        assert_eq!(round.state, RoundState::AwaitingGuess);
        round.submit_guess(&chars("grape"));
        assert_eq!(round.attempts_used, attempt);
        if attempt < 6 {
            assert_eq!(round.state, RoundState::AwaitingGuess);
        }
    }
    assert_eq!(round.state, RoundState::Exhausted);
    assert_ne!(round.state, RoundState::Won);
}

#[test]
fn win_on_last_attempt() {
    let mut round = Round::new(chars("mango"));
    for _ in 0..5 {
        round.submit_guess(&chars("grape"));
    }
    assert_eq!(round.state, RoundState::AwaitingGuess);
    round.submit_guess(&chars("mango"));
    assert_eq!(round.state, RoundState::Won);
    assert_eq!(round.winning_attempt, 6);
}

#[test]
fn cumulative_feedback_is_deduplicated() {
    let mut round = Round::new(chars("mango"));
    round.submit_guess(&chars("grape"));
    round.submit_guess(&chars("grape"));
    // the same attempt twice adds nothing new
    assert_eq!(round.fora_pos, vec!['a', 'g']);
    assert_eq!(round.invalidos, vec!['m', 'n', 'o']);
    assert_eq!(round.validos, Vec::<char>::new());
}

#[test]
fn start_round_picks_from_list() {
    let words: Vec<Vec<char>> = vec![chars("apple")];
    let round = start_round(&words);
    assert_eq!(round.secret, words[0]);
    assert_eq!(round.attempts_used, 0);
    assert_eq!(round.state, RoundState::AwaitingGuess);
    assert_eq!(round.alphabet, full_alphabet());
}

#[test]
fn start_round_secret_is_a_listed_word() {
    let words: Vec<Vec<char>> = vec![chars("apple"), chars("mango"), chars("grape")];
    for _ in 0..20 {
        let round = start_round(&words);
        assert!(words.contains(&round.secret));
    }
}
