use std::cmp::Ordering;
use wordle::file::{normalize_words, tally_state, GameData, Round};
use wordle::order::{cmp_ref, cmp_val, comes_before};
use wordle::partition::count_texts;

fn list(texts: &[&str]) -> Vec<String> {
    texts.iter().map(|t| t.to_string()).collect()
}

fn round(answer: &str, guesses: &[&str]) -> Round {
    Round { answer: answer.to_string(), guesses: list(guesses) }
}

#[test]
fn word_list_is_upper_case_sorted_and_without_repeats() {
    let lines = list(&["crane", "about", "CRANE", "Above", "zebra", "about", "abou", "aboutx"]);
    let words = normalize_words(&lines);
    assert_eq!(words, list(&["ABOU", "ABOUT", "ABOUTX", "ABOVE", "CRANE", "ZEBRA"]));
    assert!(normalize_words(&Vec::new()).is_empty());
    // The same list as the standard library's sort gives.
    let mut expected: Vec<String> = lines.iter().map(|l| l.to_uppercase()).collect();
    expected.sort();
    expected.dedup();
    assert_eq!(words, expected);
}

#[test]
fn word_list_takes_letters_beyond_ascii_to_upper_case() {
    let lines = list(&["été", "ÉTÉ", "straße", "abc", "Été"]);
    let words = normalize_words(&lines);
    assert_eq!(words, list(&["ABC", "STRASSE", "ÉTÉ"]));
}

#[test]
fn texts_are_ordered_like_a_dictionary() {
    let before = |a: &str, b: &str| comes_before(&a.to_string(), &b.to_string());
    assert!(before("ABOUT", "ABOVE"));
    assert!(!before("ABOVE", "ABOUT"));
    assert!(!before("ABOUT", "ABOUT"));
    assert!(before("", "A"));
    assert!(!before("A", ""));
    assert!(before("ABOU", "ABOUT"));
    assert!(before("Z", "a"));
    assert!(before("z", "é"));
}

#[test]
fn counted_words_are_ordered_by_count_then_word() {
    let (about, above) = ("ABOUT".to_string(), "ABOVE".to_string());
    let (one, two) = (1i32, 2i32);
    assert_eq!(cmp_ref(&(&about, &one), &(&above, &two)), Ordering::Less);
    assert_eq!(cmp_ref(&(&about, &two), &(&above, &one)), Ordering::Greater);
    // Between equal counts the later word is the lesser one.
    assert_eq!(cmp_ref(&(&about, &one), &(&above, &one)), Ordering::Greater);
    assert_eq!(cmp_ref(&(&above, &one), &(&about, &one)), Ordering::Less);
    assert_eq!(cmp_ref(&(&about, &one), &(&about, &one)), Ordering::Equal);
    // As the statistics use it: most used first, ties in the order of the dictionary.
    let counts = vec![(about.clone(), 2), (above.clone(), 3), ("CRANE".to_string(), 2)];
    let mut refs: Vec<(&String, &i32)> = counts.iter().map(|e| (&e.0, &e.1)).collect();
    refs.sort_by(|a, b| cmp_ref(b, a));
    let order: Vec<&str> = refs.iter().map(|e| e.0.as_str()).collect();
    assert_eq!(order, ["ABOVE", "ABOUT", "CRANE"]);
}

#[test]
fn scored_items_are_ordered_by_descending_score() {
    assert_eq!(cmp_val(&("a", 1u64), &("b", 2u64)), Ordering::Greater);
    assert_eq!(cmp_val(&("a", 2u64), &("b", 1u64)), Ordering::Less);
    assert_eq!(cmp_val(&("a", 2u64), &("b", 2u64)), Ordering::Equal);
    assert_eq!(cmp_val(&("a", 1.5f64), &("b", 0.5f64)), Ordering::Less);
    assert_eq!(cmp_val(&("a", f64::NAN), &("b", 0.5f64)), Ordering::Greater);
}

#[test]
fn texts_are_counted_in_order_of_first_occurrence() {
    let counted = count_texts(&list(&["B", "A", "B", "C", "A", "B"]));
    assert_eq!(
        counted,
        vec![("B".to_string(), 3), ("A".to_string(), 2), ("C".to_string(), 1)]
    );
    assert!(count_texts(&Vec::new()).is_empty());
}

#[test]
fn state_adds_up() {
    let data = GameData {
        total_rounds: 3,
        games: vec![
            round("CRANE", &["ABOUT", "CRANE"]),
            round("ABOVE", &["ABOUT", "CRANE", "HOUSE", "MOUSE", "LIGHT", "NIGHT"]),
            round("ABOUT", &["ABOUT"]),
        ],
    };
    let stats = tally_state(&data).unwrap();
    assert_eq!(stats.success_round, 2);
    assert_eq!(stats.success_try, 3);
    assert_eq!(
        stats.total_word,
        vec![
            ("ABOUT".to_string(), 3),
            ("CRANE".to_string(), 2),
            ("HOUSE".to_string(), 1),
            ("MOUSE".to_string(), 1),
            ("LIGHT".to_string(), 1),
            ("NIGHT".to_string(), 1),
        ]
    );
    let empty = GameData { total_rounds: 0, games: Vec::new() };
    let stats = tally_state(&empty).unwrap();
    assert_eq!((stats.success_round, stats.success_try), (0, 0));
    assert!(stats.total_word.is_empty());
}

#[test]
fn unsound_states_are_rejected() {
    let invalid = |data: GameData| tally_state(&data).err() == Some("INVALID STATE".to_string());
    assert!(invalid(GameData { total_rounds: 1, games: Vec::new() }));
    assert!(invalid(GameData { total_rounds: -1, games: Vec::new() }));
    assert!(invalid(GameData { total_rounds: 1, games: vec![round("CRANE", &[])] }));
    assert!(invalid(GameData {
        total_rounds: 1,
        games: vec![round("CRANE", &["A", "B", "C", "D", "E", "F", "G"])],
    }));
    assert!(invalid(GameData {
        total_rounds: 2,
        games: vec![round("CRANE", &["CRANE"])],
    }));
}
