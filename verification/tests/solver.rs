use wordle::beam::{Beam, Path};
use wordle::partition::{count_groups, group_numbers};
use wordle::solver::{
    compute_entropy, emit, feedback_groups, help, is_possible, only_candidates, possible_answers,
    rank_scored, solve, was_tried,
};
use wordle::word::{EngineError, Word};

fn word(text: &str) -> Word {
    Word::new(text).unwrap()
}

fn words(texts: &[&str]) -> Vec<Word> {
    texts.iter().map(|t| word(t)).collect()
}

fn texts(list: &Vec<Word>) -> Vec<String> {
    list.iter().map(|w| w.origin().clone()).collect()
}

/// Shannon entropy of a split, in bits, as an ordered key: the bits of the double.
fn entropy(sizes: &Vec<usize>) -> u64 {
    let n: f64 = sizes.iter().sum::<usize>() as f64;
    let mut h: f64 = 0.0;
    for &c in sizes.iter() {
        let p: f64 = c as f64 / n;
        h += p * -(p.log2());
    }
    if h <= 0.0 {
        0
    } else {
        h.to_bits()
    }
}

fn bits(key: u64) -> f64 {
    f64::from_bits(key)
}

const VOCABULARY: [&str; 24] = [
    "ABOUT", "ABOVE", "ACTOR", "ADULT", "AFTER", "AGAIN", "ALLOW", "ALONE", "BEACH", "BEGIN",
    "BLACK", "BRING", "CHAIR", "CLEAN", "CRANE", "DREAM", "EARTH", "FIELD", "GRAPE", "HOUSE",
    "LIGHT", "MONEY", "PLANT", "SPEED",
];

#[test]
fn filter_keeps_what_agrees_with_the_history() {
    let secrets = words(&VOCABULARY);
    let secret = word("CRANE");
    let mut history: Vec<(Word, [u8; 5])> = Vec::new();
    for g in ["ABOUT", "CLEAN"] {
        let guess = word(g);
        let seen = secret.compare(&guess);
        history.push((guess, seen));
    }
    let left = possible_answers(&history, &secrets);
    assert!(texts(&left).contains(&"CRANE".to_string()));
    for w in left.iter() {
        for (g, f) in history.iter() {
            assert_eq!(w.compare(g), *f);
        }
        assert!(is_possible(w, &history));
    }
    // Everything that was dropped disagrees somewhere, and the order is that of the list.
    let kept = texts(&left);
    let mut expected: Vec<String> = Vec::new();
    for w in secrets.iter() {
        if history.iter().all(|(g, f)| w.compare(g) == *f) {
            expected.push(w.origin().clone());
        }
    }
    assert_eq!(kept, expected);
    assert!(kept.len() < secrets.len());
}

#[test]
fn empty_history_keeps_every_secret() {
    let secrets = words(&VOCABULARY);
    let history: Vec<(Word, [u8; 5])> = Vec::new();
    let left = possible_answers(&history, &secrets);
    assert_eq!(texts(&left), texts(&secrets));
}

#[test]
fn contradictory_history_leaves_nothing() {
    let secrets = words(&VOCABULARY);
    let history = vec![(word("ABOUT"), [3, 3, 3, 3, 3]), (word("ABOVE"), [3, 3, 3, 3, 3])];
    let left = possible_answers(&history, &secrets);
    assert!(left.is_empty());
    let guesses = words(&VOCABULARY);
    assert!(matches!(
        help(&history, &left, &guesses, &entropy),
        Err(EngineError::EmptyCandidateSet)
    ));
    assert!(matches!(
        solve(&history, &left, &guesses, 4, &entropy),
        Err(EngineError::EmptyCandidateSet)
    ));
    assert!(matches!(
        compute_entropy(&words(&["ABOUT"]), &left, &entropy),
        Err(EngineError::EmptyCandidateSet)
    ));
}

#[test]
fn groups_are_counted_in_order_of_first_occurrence() {
    assert_eq!(count_groups(&vec![7, 3, 7, 7, 9, 3]), vec![3, 2, 1]);
    assert_eq!(count_groups(&vec![]), Vec::<usize>::new());
    assert_eq!(count_groups(&vec![5, 5, 5]), vec![3]);
    assert_eq!(count_groups(&vec![1, 2, 3]), vec![1, 1, 1]);
}

#[test]
fn feedback_groups_split_the_candidates() {
    let candidates = words(&["ABCDE", "EDCBA", "ABCDF"]);
    // Against AXXXX the first and the third candidate answer alike.
    let sizes = feedback_groups(&words(&["AXXXX"]), &candidates);
    assert_eq!(sizes, vec![2, 1]);
    // A second guess that tells E from F at the end separates them.
    let sizes = feedback_groups(&words(&["AXXXX", "XXXXE"]), &candidates);
    assert_eq!(sizes, vec![1, 1, 1]);
    // A guess without any of the letters tells nothing.
    let sizes = feedback_groups(&words(&["ZZZZZ"]), &candidates);
    assert_eq!(sizes, vec![3]);
    assert_eq!(sizes.iter().sum::<usize>(), candidates.len());
    // No guess leaves all candidates in one group, and so do guesses that tell nothing.
    assert_eq!(feedback_groups(&Vec::new(), &candidates), vec![3]);
    assert_eq!(feedback_groups(&words(&["ZZZZZ", "YYYYY"]), &candidates), vec![3]);
    assert_eq!(feedback_groups(&words(&["AXXXX"]), &Vec::new()), Vec::<usize>::new());
}

#[test]
fn long_sequences_of_guesses_are_split_too() {
    let candidates = words(&VOCABULARY);
    let path = words(&VOCABULARY[..12]);
    let sizes = feedback_groups(&path, &candidates);
    assert_eq!(sizes.iter().sum::<usize>(), candidates.len());
    assert_eq!(sizes, joint_sizes(&VOCABULARY[..12], &candidates));
    // Twelve of the candidates are guessed themselves, which tells each of them from all.
    assert!(sizes.len() >= 12);
    let key = compute_entropy(&path, &candidates, &entropy).unwrap();
    assert_eq!(key, entropy(&sizes));
}

#[test]
fn group_numbers_tell_keys_apart() {
    let numbers = group_numbers(&vec![7, 3, 7, u128::MAX, 3, 0]);
    assert_eq!(numbers, vec![0, 1, 0, 2, 1, 3]);
    assert!(group_numbers(&Vec::new()).is_empty());
}

#[test]
fn two_candidate_split_scores_one_bit() {
    let candidates = words(&["ABCDE", "EDCBA"]);
    let guess = words(&["ABCDE"]);
    assert_ne!(candidates[0].compare(&guess[0]), candidates[1].compare(&guess[0]));
    let key = compute_entropy(&guess, &candidates, &entropy).unwrap();
    assert_eq!(bits(key), 1.0);
    // A guess that both answer alike scores nothing.
    let key = compute_entropy(&words(&["ZZCZZ"]), &candidates, &entropy).unwrap();
    assert_eq!(bits(key), 0.0);
}

#[test]
fn entropy_stays_within_its_bounds() {
    let candidates = words(&VOCABULARY);
    let n = candidates.len() as f64;
    for g in VOCABULARY.iter() {
        let sizes = feedback_groups(&words(&[g]), &candidates);
        assert!(sizes.iter().all(|&c| c >= 1));
        assert_eq!(sizes.iter().sum::<usize>(), candidates.len());
        let h = bits(entropy(&sizes));
        assert!(0.0 <= h && h <= n.log2() + 1e-12);
        if sizes.len() == 1 {
            assert_eq!(h, 0.0);
        }
        if sizes.len() == candidates.len() {
            assert!((h - n.log2()).abs() < 1e-12);
        }
    }
    // Four candidates that one guess tells apart completely: exactly two bits.
    let four = words(&["AAAAA", "ABAAA", "AABAA", "AAABA"]);
    let key = compute_entropy(&words(&["ABBBA"]), &four, &entropy).unwrap();
    assert_eq!(bits(key), 2.0);
}

#[test]
fn ranking_is_sorted_and_complete() {
    let candidates = words(&VOCABULARY);
    let guesses = words(&VOCABULARY);
    let history = vec![(word("HOUSE"), [1, 1, 1, 1, 1])];
    let (full, only) = help(&history, &candidates, &guesses, &entropy).unwrap();
    // Every guess but the one that was tried, once.
    assert_eq!(full.len(), VOCABULARY.len() - 1);
    let mut seen: Vec<String> = full.iter().map(|e| e.0.clone()).collect();
    seen.sort();
    let mut expected: Vec<String> =
        VOCABULARY.iter().filter(|t| **t != "HOUSE").map(|t| t.to_string()).collect();
    expected.sort();
    assert_eq!(seen, expected);
    // Higher score first; between equal scores the later word first.
    for pair in full.windows(2) {
        assert!(
            pair[0].1 > pair[1].1 || (pair[0].1 == pair[1].1 && pair[0].0 > pair[1].0),
            "{:?} before {:?}",
            pair[0],
            pair[1]
        );
    }
    // Each score is the entropy of the word's own split.
    for (text, key) in full.iter() {
        let expected = compute_entropy(&words(&[text]), &candidates, &entropy).unwrap();
        assert_eq!(*key, expected);
    }
    // All guesses are candidates here, so the second list is the first.
    assert_eq!(only, full);
}

#[test]
fn candidate_only_ranking_is_a_subsequence() {
    let candidates = words(&["ABOUT", "ABOVE", "ALONE"]);
    let guesses = words(&VOCABULARY);
    let history: Vec<(Word, [u8; 5])> = Vec::new();
    let (full, only) = help(&history, &candidates, &guesses, &entropy).unwrap();
    assert_eq!(full.len(), VOCABULARY.len());
    let expected: Vec<(String, u64)> = full
        .iter()
        .filter(|e| ["ABOUT", "ABOVE", "ALONE"].contains(&e.0.as_str()))
        .cloned()
        .collect();
    assert_eq!(only, expected);
    assert_eq!(only.len(), 3);
    assert_eq!(only_candidates(&full, &candidates), expected);
}

#[test]
fn ties_are_broken_in_reverse_alphabetical_order() {
    // No guess shares a letter with a candidate: every score is zero.
    let candidates = words(&["ZZZZZ", "YYYYY"]);
    let guesses = words(&["ABCDE", "BCDEF", "AACDE", "CDEFG"]);
    let history: Vec<(Word, [u8; 5])> = Vec::new();
    let (full, only) = help(&history, &candidates, &guesses, &entropy).unwrap();
    let order: Vec<&str> = full.iter().map(|e| e.0.as_str()).collect();
    assert_eq!(order, ["CDEFG", "BCDEF", "ABCDE", "AACDE"]);
    assert!(full.iter().all(|e| e.1 == 0));
    assert!(only.is_empty());
}

#[test]
fn tried_guesses_are_left_out() {
    let candidates = words(&["ABOUT", "ABOVE", "ALONE"]);
    let guesses = words(&["ABOUT", "ABOVE", "ALONE"]);
    let history = vec![(word("above"), [3, 3, 3, 1, 1])];
    assert!(was_tried(&history, &word("ABOVE")));
    assert!(!was_tried(&history, &word("ABOUT")));
    let (full, _) = help(&history, &candidates, &guesses, &entropy).unwrap();
    let order: Vec<&str> = full.iter().map(|e| e.0.as_str()).collect();
    assert!(!order.contains(&"ABOVE"));
    assert_eq!(order.len(), 2);
    // With every guess tried nothing is ranked.
    let history = vec![
        (word("ABOUT"), [1; 5]),
        (word("ABOVE"), [1; 5]),
        (word("ALONE"), [1; 5]),
    ];
    let (full, only) = help(&history, &candidates, &guesses, &entropy).unwrap();
    assert!(full.is_empty() && only.is_empty());
    assert!(solve(&history, &words(&VOCABULARY), &guesses, 6, &entropy).unwrap().is_empty());
}

#[test]
fn small_candidate_sets_skip_the_search() {
    let guesses = words(&VOCABULARY);
    let history: Vec<(Word, [u8; 5])> = Vec::new();
    for n in 1..=5 {
        let candidates = words(&VOCABULARY[..n]);
        let (full, _) = help(&history, &candidates, &guesses, &entropy).unwrap();
        for time in [0, 1, 2, 3, 6] {
            let found = solve(&history, &candidates, &guesses, time, &entropy).unwrap();
            assert_eq!(found, full);
        }
    }
}

#[test]
fn last_turn_skips_the_search() {
    let guesses = words(&VOCABULARY);
    let candidates = words(&VOCABULARY);
    let history: Vec<(Word, [u8; 5])> = Vec::new();
    let (full, _) = help(&history, &candidates, &guesses, &entropy).unwrap();
    for time in [-3, 0, 1] {
        let found = solve(&history, &candidates, &guesses, time, &entropy).unwrap();
        assert_eq!(found, full);
    }
}

/// The group sizes of a sequence of guesses, worked out without the library's grouping.
fn joint_sizes(path: &[&str], candidates: &Vec<Word>) -> Vec<usize> {
    let mut signatures: Vec<Vec<[u8; 5]>> = Vec::new();
    for c in candidates.iter() {
        signatures.push(path.iter().map(|g| c.compare(&word(g))).collect());
    }
    let mut distinct: Vec<Vec<[u8; 5]>> = Vec::new();
    let mut sizes: Vec<usize> = Vec::new();
    for s in signatures.iter() {
        match distinct.iter().position(|d| d == s) {
            Some(at) => sizes[at] += 1,
            None => {
                distinct.push(s.clone());
                sizes.push(1);
            }
        }
    }
    sizes
}

/// The joint entropy of a sequence of guesses, worked out without the library's grouping.
fn joint_entropy(path: &[&str], candidates: &Vec<Word>) -> u64 {
    entropy(&joint_sizes(path, candidates))
}

#[test]
fn search_keeps_the_ten_best_pairs() {
    let guesses = words(&VOCABULARY);
    let candidates = words(&VOCABULARY);
    let history: Vec<(Word, [u8; 5])> = Vec::new();
    let found = solve(&history, &candidates, &guesses, 2, &entropy).unwrap();
    assert_eq!(found.len(), 10);
    for pair in found.windows(2) {
        assert!(pair[0].1 >= pair[1].1);
    }
    // The best ten seeds, then every pair that starts with one of them.
    let (full, _) = help(&history, &candidates, &guesses, &entropy).unwrap();
    let seeds: Vec<&str> = full.iter().take(10).map(|e| e.0.as_str()).collect();
    let mut pairs: Vec<(u64, String, String)> = Vec::new();
    for first in seeds.iter() {
        for second in VOCABULARY.iter() {
            if second != first {
                let key = joint_entropy(&[first, second], &candidates);
                pairs.push((key, first.to_string(), second.to_string()));
            }
        }
    }
    pairs.sort_by(|a, b| b.cmp(a));
    let expected: Vec<(String, u64)> =
        pairs.iter().take(10).map(|p| (p.1.clone(), p.0)).collect();
    assert_eq!(found, expected);
    // Two guesses never tell less than the first of them alone.
    for (text, key) in found.iter() {
        let alone = full.iter().find(|e| e.0 == *text).unwrap().1;
        assert!(bits(*key) >= bits(alone) - 1e-12);
    }
}

#[test]
fn search_depth_is_capped_at_three() {
    let guesses = words(&VOCABULARY);
    let candidates = words(&VOCABULARY);
    let history = vec![(word("SPEED"), [1, 1, 1, 1, 1])];
    let three = solve(&history, &candidates, &guesses, 3, &entropy).unwrap();
    let six = solve(&history, &candidates, &guesses, 6, &entropy).unwrap();
    assert_eq!(three, six);
    assert!(three.len() <= 10);
    assert!(three.iter().all(|e| e.0 != "SPEED"));
    let log = (candidates.len() as f64).log2();
    assert!(three.iter().all(|e| bits(e.1) <= log + 1e-12));
}

#[test]
fn beam_keeps_the_best_in_order() {
    let mut beam = Beam::new(3);
    let offers = [("ABOUT", 5u64), ("ABOVE", 9), ("ACTOR", 1), ("ADULT", 9), ("AFTER", 7)];
    for (text, score) in offers.iter() {
        let path = Path::new(vec![word(text)], *score).unwrap();
        beam = beam.offer(path);
    }
    let kept = beam.into_paths();
    let shown = emit(&kept);
    let expected: Vec<(String, u64)> =
        vec![("ADULT".to_string(), 9), ("ABOVE".to_string(), 9), ("AFTER".to_string(), 7)];
    assert_eq!(shown, expected);
    assert_eq!(kept[0].entropy(), 9);
    assert!(kept[0].ranks_before(&kept[2]));
    assert!(!kept[2].ranks_before(&kept[0]));
    // A beam of no width keeps nothing.
    let empty = Beam::new(0).offer(Path::new(vec![word("ABOUT")], 3).unwrap());
    assert!(empty.into_paths().is_empty());
}

#[test]
fn paths_hold_one_to_three_words() {
    assert!(Path::new(Vec::new(), 0).is_none());
    assert!(Path::new(words(&["ABOUT", "ABOVE", "ACTOR", "ADULT"]), 0).is_none());
    let path = Path::new(words(&["ABOUT", "ABOVE", "ACTOR"]), 4).unwrap();
    assert_eq!(texts(path.words()), ["ABOUT", "ABOVE", "ACTOR"]);
    assert_eq!(path.entropy(), 4);
    // Between equal scores the first word decides first.
    let other = Path::new(words(&["ABOUT", "ABOVE", "ADULT"]), 4).unwrap();
    assert!(other.ranks_before(&path));
    let third = Path::new(words(&["ABOVE", "AAAAA", "AAAAA"]), 4).unwrap();
    assert!(third.ranks_before(&other));
}

#[test]
fn given_scores_are_ranked() {
    let candidates = words(&["ABOVE", "ALONE"]);
    let history = vec![(word("ADULT"), [3, 1, 1, 1, 1])];
    let scored: Vec<(Word, u64)> = vec![
        (word("ABOUT"), 4),
        (word("ADULT"), 9),
        (word("ABOVE"), 7),
        (word("ACTOR"), 4),
        (word("ALONE"), 0),
    ];
    let (full, only) = rank_scored(&history, &candidates, &scored);
    let expected: Vec<(String, u64)> = vec![
        ("ABOVE".to_string(), 7),
        ("ACTOR".to_string(), 4),
        ("ABOUT".to_string(), 4),
        ("ALONE".to_string(), 0),
    ];
    assert_eq!(full, expected);
    assert_eq!(only, vec![("ABOVE".to_string(), 7), ("ALONE".to_string(), 0)]);
    let (full, only) = rank_scored(&history, &candidates, &Vec::new());
    assert!(full.is_empty() && only.is_empty());
}

#[test]
fn ranking_of_given_scores_is_the_ranking_by_the_scorer() {
    let candidates = words(&VOCABULARY[..9]);
    let guesses = words(&VOCABULARY);
    let history = vec![(word("MONEY"), [1, 1, 1, 2, 1])];
    let scored: Vec<(Word, u64)> = guesses
        .iter()
        .map(|g| (g.clone(), compute_entropy(&vec![g.clone()], &candidates, &entropy).unwrap()))
        .collect();
    let given = rank_scored(&history, &candidates, &scored);
    let ranked = help(&history, &candidates, &guesses, &entropy).unwrap();
    assert_eq!(given, ranked);
}
