use wordle::arg::{
    arg_is_valid, holds_text, is_within, is_within_upper, names_text, Command,
};

fn list(texts: &[&str]) -> Vec<String> {
    texts.iter().map(|t| t.to_string()).collect()
}

fn command(mode: &[&str], info: &[(&str, &str)]) -> Command {
    Command {
        mode: list(mode),
        value: Vec::new(),
        info: info.iter().map(|(k, v)| (k.to_string(), v.to_string())).collect(),
        answer_file: Vec::new(),
        guess_file: Vec::new(),
    }
}

#[test]
fn plain_settings_are_valid() {
    let secrets = list(&["ABOUT"]);
    assert!(arg_is_valid(&command(&[], &[]), &secrets));
    assert!(arg_is_valid(&command(&["stats", "difficult"], &[]), &secrets));
    assert!(arg_is_valid(&command(&["word"], &[("word", "ABOUT")]), &secrets));
    assert!(arg_is_valid(&command(&["random", "day", "seed"], &[]), &secrets));
}

#[test]
fn files_must_be_named() {
    let secrets = list(&["ABOUT"]);
    assert!(!arg_is_valid(&command(&["final_set"], &[]), &secrets));
    assert!(arg_is_valid(&command(&["final_set"], &[("final_set", "f.txt")]), &secrets));
    assert!(!arg_is_valid(&command(&["state"], &[]), &secrets));
    assert!(arg_is_valid(&command(&["state"], &[("state", "s.json")]), &secrets));
    assert!(!arg_is_valid(&command(&["acceptable_set"], &[]), &secrets));
}

#[test]
fn random_excludes_word_and_is_needed_for_day_and_seed() {
    let secrets = list(&["ABOUT"]);
    assert!(!arg_is_valid(&command(&["random", "word"], &[]), &secrets));
    assert!(!arg_is_valid(&command(&["day"], &[]), &secrets));
    assert!(!arg_is_valid(&command(&["seed"], &[]), &secrets));
    assert!(arg_is_valid(&command(&["seed", "random"], &[]), &secrets));
}

#[test]
fn guesses_must_hold_every_answer() {
    let secrets = list(&["ABOUT", "ABOVE"]);
    let mut cmd = command(&["acceptable_set"], &[("acceptable_set", "a.txt")]);
    cmd.guess_file = list(&["ABOUT", "CRANE"]);
    assert!(!arg_is_valid(&cmd, &secrets));
    cmd.guess_file = list(&["ABOVE", "ABOUT", "CRANE"]);
    assert!(arg_is_valid(&cmd, &secrets));
    let mut cmd = command(
        &["acceptable_set", "final_set"],
        &[("acceptable_set", "a.txt"), ("final_set", "f.txt")],
    );
    cmd.guess_file = list(&["ABOUT", "CRANE"]);
    cmd.answer_file = list(&["CRANE"]);
    assert!(arg_is_valid(&cmd, &secrets));
    cmd.answer_file = list(&["CRANE", "ABOVE"]);
    assert!(!arg_is_valid(&cmd, &secrets));
    cmd.answer_file = Vec::new();
    assert!(arg_is_valid(&cmd, &secrets));
}

#[test]
fn lookups_find_texts_and_names() {
    let texts = list(&["ABOUT", "ABOVE"]);
    assert!(holds_text(&texts, "ABOVE"));
    assert!(!holds_text(&texts, "above"));
    assert!(is_within(&list(&["ABOVE"]), &texts));
    assert!(!is_within(&list(&["ABOVE", "CRANE"]), &texts));
    let info = vec![("word".to_string(), "ABOUT".to_string())];
    assert!(names_text(&info, "word"));
    assert!(!names_text(&info, "ABOUT"));
}

#[test]
fn builtin_answers_count_in_upper_case() {
    // Only the list of guesses is given: it must hold the built-in answers, however they are
    // written.
    let mut cmd = command(&["acceptable_set"], &[("acceptable_set", "a.txt")]);
    cmd.guess_file = list(&["APPLE", "CRANE"]);
    assert!(arg_is_valid(&cmd, &list(&["apple"])));
    assert!(arg_is_valid(&cmd, &list(&["apple", "Crane", "CRANE"])));
    assert!(!arg_is_valid(&cmd, &list(&["apple", "about"])));
    // The words of a file are taken as they are.
    cmd.guess_file = list(&["apple"]);
    assert!(!arg_is_valid(&cmd, &list(&["apple"])));
    assert!(is_within_upper(&list(&["abc", "Été"]), &list(&["ÉTÉ", "ABC"])));
    assert!(!is_within_upper(&list(&["abc"]), &list(&["abc"])));
}
