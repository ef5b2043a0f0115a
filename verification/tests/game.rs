use wordle::game::{
    answer_is_valid, edit_input, gen_answer, gen_guess, guess_is_valid, is_correct, obeys_hints,
    pick_answer, random_answer, read_marks, show_line, update_best, InputStep, Key,
};
use wordle::word::{upper_cased, Word};

fn list(texts: &[&str]) -> Vec<String> {
    texts.iter().map(|t| t.to_string()).collect()
}

fn word(text: &str) -> Word {
    Word::new(text).unwrap()
}

#[test]
fn guesses_are_checked_against_the_file_or_the_builtin_list() {
    let builtin = list(&["about", "above", "crane"]);
    let none: Vec<String> = Vec::new();
    assert_eq!(guess_is_valid("ABOUT", &none, &builtin), Ok("ABOUT".to_string()));
    assert_eq!(guess_is_valid("about", &none, &builtin), Err("INVALID".to_string()));
    assert_eq!(guess_is_valid("HOUSE", &none, &builtin), Err("INVALID".to_string()));
    let file = list(&["HOUSE", "MOUSE"]);
    assert_eq!(guess_is_valid("HOUSE", &file, &builtin), Ok("HOUSE".to_string()));
    assert_eq!(guess_is_valid("ABOUT", &file, &builtin), Err("INVALID".to_string()));
    assert_eq!(answer_is_valid("CRANE", &none, &builtin), Ok("CRANE".to_string()));
    assert_eq!(answer_is_valid("MOUSE", &file, &builtin), Ok("MOUSE".to_string()));
    assert_eq!(answer_is_valid("CRANE", &file, &builtin), Err("INVALID".to_string()));
}

#[test]
fn words_are_generated_in_upper_case() {
    let builtin = list(&["about", "above", "crane", "toolong", "ab1de"]);
    let none: Vec<String> = Vec::new();
    let made = gen_answer("crane", &none, &builtin).unwrap();
    assert_eq!(made.origin().as_str(), "CRANE");
    let made = gen_guess("AbOvE", &none, &builtin).unwrap();
    assert_eq!(made.origin().as_str(), "ABOVE");
    assert_eq!(gen_guess("house", &none, &builtin).err(), Some("INVALID".to_string()));
    // Listed, but not a word of five letters.
    assert_eq!(gen_guess("toolong", &none, &builtin).err(), Some("INVALID".to_string()));
    assert_eq!(gen_answer("ab1de", &none, &builtin).err(), Some("INVALID".to_string()));
    let file = list(&["HOUSE"]);
    assert!(gen_answer("house", &file, &builtin).is_ok());
    assert!(gen_answer("crane", &file, &builtin).is_err());
}

#[test]
fn hard_mode_keeps_what_was_shown() {
    let last = word("CRANE");
    // C exact, R present, the rest absent.
    let result = [3, 2, 1, 1, 1];
    assert!(obeys_hints("CHORD", &last, &result));
    assert!(obeys_hints("CHORD\n", &last, &result));
    assert!(!obeys_hints("BORED", &last, &result));
    assert!(!obeys_hints("CLOUD", &last, &result));
    assert!(!obeys_hints("", &last, &result));
    assert!(obeys_hints("", &last, &[1, 1, 1, 1, 0]));
    assert!(!obeys_hints("CRANE", &last, &[3, 3, 3, 3, 4]));
    // An exact mark beyond the end of what was typed is not kept.
    assert!(!obeys_hints("CRA", &last, &[3, 3, 3, 1, 3]));
}

#[test]
fn correct_means_all_exact() {
    assert!(is_correct(&[3, 3, 3, 3, 3]));
    assert!(!is_correct(&[3, 3, 3, 3, 2]));
    assert!(!is_correct(&[1, 3, 3, 3, 3]));
    assert!(!is_correct(&[0, 0, 0, 0, 0]));
}

#[test]
fn best_symbols_only_rise() {
    let mut best = [0u8; 26];
    update_best(&mut best, &word("SPEED"), &[2, 1, 1, 3, 2]);
    let at = |c: char| (c as u8 - b'A') as usize;
    assert_eq!(best[at('S')], 2);
    assert_eq!(best[at('P')], 1);
    assert_eq!(best[at('E')], 3);
    assert_eq!(best[at('D')], 2);
    assert_eq!(best[at('A')], 0);
    update_best(&mut best, &word("EASED"), &[1, 1, 3, 1, 1]);
    assert_eq!(best[at('S')], 3);
    assert_eq!(best[at('E')], 3);
    assert_eq!(best[at('A')], 1);
    assert_eq!(best[at('D')], 2);
}

#[test]
fn line_shows_feedback_and_alphabet() {
    let mut best = [0u8; 26];
    best[0] = 3;
    best[1] = 2;
    best[2] = 1;
    best[25] = 7;
    let line = show_line(&[3, 2, 1, 0, 3], &best);
    assert_eq!(line, "GYRXG GYRXXXXXXXXXXXXXXXXXXXXXXX");
    assert_eq!(line.len(), 5 + 1 + 26);
}

#[test]
fn input_takes_keys() {
    let mut input: Vec<char> = Vec::new();
    assert_eq!(edit_input(&mut input, Key::Backspace), InputStep::Edit);
    assert!(input.is_empty());
    for c in "CRANES".chars() {
        assert_eq!(edit_input(&mut input, Key::Char(c)), InputStep::Edit);
    }
    assert_eq!(input.iter().collect::<String>(), "CRANE");
    assert_eq!(edit_input(&mut input, Key::Other), InputStep::Edit);
    assert_eq!(edit_input(&mut input, Key::Backspace), InputStep::Edit);
    assert_eq!(input.iter().collect::<String>(), "CRAN");
    assert_eq!(edit_input(&mut input, Key::Enter), InputStep::Submit);
    assert_eq!(edit_input(&mut input, Key::Esc), InputStep::Quit);
    assert_eq!(input.iter().collect::<String>(), "CRAN");
    // Room is counted in bytes: two letters of two bytes leave room for one more character.
    let mut input: Vec<char> = vec!['é', 'é'];
    edit_input(&mut input, Key::Char('€'));
    assert_eq!(input, vec!['é', 'é', '€']);
    edit_input(&mut input, Key::Char('A'));
    assert_eq!(input, vec!['é', 'é', '€']);
}

const ANSWERS: [&str; 12] = [
    "ABOUT", "ABOVE", "ACTOR", "ADULT", "AFTER", "AGAIN", "ALLOW", "ALONE", "BEACH", "BEGIN",
    "BLACK", "BRING",
];

fn draw_all(file: &Vec<String>, builtin: &Vec<String>, seed: u64, n: u64) -> Vec<String> {
    let mut drawn: Vec<String> = Vec::new();
    for d in 1..=n {
        let mut day = d;
        let w = random_answer(file, builtin, &mut day, seed).unwrap();
        assert_eq!(day, (d + 1) % n);
        drawn.push(w.origin().clone());
    }
    drawn
}

#[test]
fn random_answers_are_a_shuffle_of_the_list() {
    let file = list(&ANSWERS);
    let builtin: Vec<String> = Vec::new();
    let drawn = draw_all(&file, &builtin, 20220123, 12);
    // Every word once, and not in the order of the list.
    let mut sorted = drawn.clone();
    sorted.sort();
    assert_eq!(sorted, file);
    assert_ne!(drawn, file);
    // The same seed gives the same order, another seed another one.
    assert_eq!(draw_all(&file, &builtin, 20220123, 12), drawn);
    assert_ne!(draw_all(&file, &builtin, 7, 12), drawn);
}

#[test]
fn random_answers_come_from_the_builtin_list_without_a_file() {
    let file: Vec<String> = Vec::new();
    let builtin: Vec<String> = ANSWERS.iter().map(|t| t.to_lowercase()).collect();
    let drawn = draw_all(&file, &builtin, 1, 12);
    let mut sorted = drawn.clone();
    sorted.sort();
    assert_eq!(sorted, list(&ANSWERS));
    // The order depends on the seed and the length alone.
    assert_eq!(drawn.len(), 12);
    let upper = draw_all(&list(&ANSWERS), &builtin, 1, 12);
    assert_eq!(upper, drawn);
}

#[test]
fn day_beyond_the_list_is_rejected() {
    let file = list(&ANSWERS);
    let builtin: Vec<String> = Vec::new();
    let mut day: u64 = 13;
    let made = random_answer(&file, &builtin, &mut day, 5);
    assert_eq!(made.err(), Some("INVALID COMMAND LINE: DAY".to_string()));
    assert_eq!(day, 13);
    let mut day: u64 = 12;
    assert!(random_answer(&file, &builtin, &mut day, 5).is_ok());
    assert_eq!(day, 1);
    let none: Vec<String> = Vec::new();
    let mut day: u64 = 1;
    let made = random_answer(&none, &none, &mut day, 5);
    assert_eq!(made.err(), Some("INVALID COMMAND LINE: DAY".to_string()));
}

#[test]
fn word_of_the_day_must_be_playable() {
    let file = list(&["TOOLONG"]);
    let builtin: Vec<String> = Vec::new();
    let mut day: u64 = 1;
    let made = random_answer(&file, &builtin, &mut day, 5);
    assert_eq!(made.err(), Some("INVALID".to_string()));
    assert_eq!(day, 0);
}

#[test]
fn written_feedback_is_read_back() {
    assert_eq!(read_marks("GYRRG"), Some([3, 2, 1, 1, 3]));
    assert_eq!(read_marks("RRRRR"), Some([1; 5]));
    for bad in ["", "GYR", "GYRRGG", "GYRXG", "gyrrg", "GYRR "] {
        assert_eq!(read_marks(bad), None);
    }
    // What a line shows of a feedback is read back as that feedback.
    let line = show_line(&[3, 1, 2, 2, 1], &[0u8; 26]);
    assert_eq!(read_marks(&line[..5]), Some([3, 1, 2, 2, 1]));
}

#[test]
fn answer_is_picked_from_a_shuffled_list() {
    let mixed = list(&["CRANE", "about", "ABOVE"]);
    let file = list(&["ABOUT", "ABOVE", "CRANE"]);
    let builtin: Vec<String> = Vec::new();
    let mut day: u64 = 1;
    assert_eq!(pick_answer(&mixed, &file, &builtin, &mut day).unwrap().origin(), "CRANE");
    assert_eq!(day, 2);
    assert_eq!(pick_answer(&mixed, &file, &builtin, &mut day).unwrap().origin(), "ABOUT");
    assert_eq!(day, 0);
    let mut day: u64 = 3;
    assert_eq!(pick_answer(&mixed, &file, &builtin, &mut day).unwrap().origin(), "ABOVE");
    assert_eq!(day, 1);
    let mut day: u64 = 4;
    let made = pick_answer(&mixed, &file, &builtin, &mut day);
    assert_eq!(made.err(), Some("INVALID COMMAND LINE: DAY".to_string()));
    assert_eq!(day, 4);
    // A word that the list of answers does not hold is no answer.
    let mut day: u64 = 1;
    let made = pick_answer(&list(&["HOUSE"]), &file, &builtin, &mut day);
    assert_eq!(made.err(), Some("INVALID".to_string()));
    assert_eq!(day, 0);
}

#[test]
fn texts_are_put_in_upper_case() {
    assert_eq!(upper_cased("crane"), "CRANE");
    assert_eq!(upper_cased("Ab-1 z"), "AB-1 Z");
    assert_eq!(upper_cased("été"), "ÉTÉ");
    assert_eq!(upper_cased("straße"), "STRASSE");
    assert_eq!(upper_cased(""), "");
}

#[test]
fn builtin_words_count_in_upper_case_beyond_ascii() {
    let builtin = list(&["été", "crane"]);
    let none: Vec<String> = Vec::new();
    assert_eq!(guess_is_valid("ÉTÉ", &none, &builtin), Ok("ÉTÉ".to_string()));
    assert_eq!(guess_is_valid("été", &none, &builtin), Err("INVALID".to_string()));
    // Listed, but not made of five letters of the alphabet.
    assert!(gen_guess("été", &none, &builtin).is_err());
    assert!(gen_guess("crane", &none, &builtin).is_ok());
}
