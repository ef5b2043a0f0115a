use wordle::word::{EngineError, Word, ABSENT, EXACT, PRESENT};

fn word(text: &str) -> Word {
    Word::new(text).unwrap()
}

#[test]
fn self_match_is_all_exact() {
    for text in ["SPEED", "ABCDE", "AAAAA", "ZZZZZ", "LEVEL"] {
        let w = word(text);
        assert_eq!(w.compare(&w), [EXACT; 5]);
    }
}

#[test]
fn duplicate_letters_are_limited_by_the_secret() {
    let pattern = word("SPEED").compare(&word("ERASE"));
    assert_eq!(pattern, [PRESENT, ABSENT, ABSENT, PRESENT, PRESENT]);
}

#[test]
fn disjoint_letters_are_all_absent() {
    let pattern = word("ABCDE").compare(&word("FGHIJ"));
    assert_eq!(pattern, [ABSENT; 5]);
}

#[test]
fn exact_matches_are_not_stolen_by_earlier_duplicates() {
    // The secret has one E, at the end; the guess has it there too and once before.
    let pattern = word("ABCDE").compare(&word("EXXXE"));
    assert_eq!(pattern, [ABSENT, ABSENT, ABSENT, ABSENT, EXACT]);
    // Two of three L are matched exactly, none is left for the third.
    let pattern = word("ALLOY").compare(&word("LLLAO"));
    assert_eq!(pattern, [ABSENT, EXACT, EXACT, PRESENT, PRESENT]);
}

#[test]
fn present_goes_to_the_leftmost_copies() {
    let pattern = word("BANAL").compare(&word("AAXAA"));
    // A stands at 1 and 3 in the secret: position 1 and 3 of the guess are exact, the others
    // find no A left.
    assert_eq!(pattern, [ABSENT, EXACT, ABSENT, EXACT, ABSENT]);
    let pattern = word("ABBBB").compare(&word("XAAXX"));
    assert_eq!(pattern, [ABSENT, PRESENT, ABSENT, ABSENT, ABSENT]);
}

#[test]
fn words_are_read_in_upper_case() {
    let w = word("speed");
    assert_eq!(w.origin().as_str(), "SPEED");
    assert!(w.same_as(&word("SpEeD")));
    assert_eq!(w.code(), word("SPEED").code());
}

#[test]
fn codes_follow_the_alphabet() {
    assert_eq!(word("AAAAA").code(), 0);
    assert_eq!(word("AAAAB").code(), 1);
    assert_eq!(word("AAABA").code(), 26);
    assert_eq!(word("ZZZZZ").code(), 11881375);
    assert!(word("ABOUT").code() < word("ABOVE").code());
}

#[test]
fn invalid_words_are_rejected() {
    for text in ["", "ABCD", "ABCDEF", "ABC E", "ABCD1", "ÄBCDE", "AB-DE"] {
        assert!(matches!(Word::new(text), Err(EngineError::InvalidWord)));
    }
}

#[test]
fn clone_keeps_the_word() {
    let w = word("CRANE");
    let copy = w.clone();
    assert!(copy.same_as(&w));
    assert_eq!(copy.compare(&word("REACT")), w.compare(&word("REACT")));
}

#[test]
fn no_letter_is_matched_more_often_than_the_secret_holds_it() {
    let texts = ["SPEED", "ERASE", "ALLOY", "LLLAO", "BANAL", "AAXAA", "EEEEE", "ABCDE", "LEVEL"];
    for secret in texts.iter() {
        for guess in texts.iter() {
            let pattern = word(secret).compare(&word(guess));
            assert!(pattern.iter().all(|s| (1..=3).contains(s)));
            for letter in 'A'..='Z' {
                let matched = guess
                    .chars()
                    .zip(pattern.iter())
                    .filter(|(c, s)| *c == letter && **s != ABSENT)
                    .count();
                let held = secret.chars().filter(|c| *c == letter).count();
                assert!(matched <= held, "{} against {}", guess, secret);
            }
            for (i, symbol) in pattern.iter().enumerate() {
                let same = secret.as_bytes()[i] == guess.as_bytes()[i];
                assert_eq!(*symbol == EXACT, same);
            }
        }
    }
}
