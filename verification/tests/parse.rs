use wordle::arg::{
    add_mode, apply_config, parse_flags, parse_number, put_info, put_value, read_flag,
    scan_configs, ArgError, Command, Flag,
};
use wordle::file::Config;

fn list(texts: &[&str]) -> Vec<String> {
    texts.iter().map(|t| t.to_string()).collect()
}

fn empty() -> Command {
    Command {
        mode: Vec::new(),
        value: Vec::new(),
        info: Vec::new(),
        answer_file: Vec::new(),
        guess_file: Vec::new(),
    }
}

fn named(name: &str, text: &str) -> (String, String) {
    (name.to_string(), text.to_string())
}

#[test]
fn numbers_are_read_like_the_standard_library_reads_them() {
    for text in ["0", "7", "007", "+5", "18446744073709551615", "20220123", "", "+", "-5", "5a",
        " 5", "5 ", "18446744073709551616", "99999999999999999999", "1_000", "٣"]
    {
        assert_eq!(parse_number(text), text.parse::<u64>().ok(), "{:?}", text);
    }
    assert_eq!(parse_number("42"), Some(42));
    assert_eq!(parse_number("18446744073709551615"), Some(u64::MAX));
    assert_eq!(parse_number("18446744073709551616"), None);
}

#[test]
fn flags_have_a_short_and_a_long_form() {
    let forms = [
        ("-w", "--word", Flag::Word),
        ("-r", "--random", Flag::Random),
        ("-D", "--difficult", Flag::Difficult),
        ("-t", "--stats", Flag::Stats),
        ("-d", "--day", Flag::Day),
        ("-s", "--seed", Flag::Seed),
        ("-f", "--final-set", Flag::FinalSet),
        ("-a", "--acceptable-set", Flag::AcceptableSet),
        ("-S", "--state", Flag::State),
    ];
    for (short, long, flag) in forms.iter() {
        assert_eq!(read_flag(short), Some(*flag));
        assert_eq!(read_flag(long), Some(*flag));
    }
    for other in ["", "-", "-x", "--Word", "word", "-c", "--config"] {
        assert_eq!(read_flag(other), None);
    }
}

#[test]
fn settings_are_kept_once() {
    let mut mode: Vec<String> = Vec::new();
    add_mode(&mut mode, "random");
    add_mode(&mut mode, "stats");
    add_mode(&mut mode, "random");
    assert_eq!(mode, list(&["random", "stats"]));
    let mut info: Vec<(String, String)> = Vec::new();
    put_info(&mut info, "word", "ABOUT".to_string());
    put_info(&mut info, "state", "s.json".to_string());
    put_info(&mut info, "word", "CRANE".to_string());
    assert_eq!(info, vec![named("word", "CRANE"), named("state", "s.json")]);
    let mut value: Vec<(String, u64)> = Vec::new();
    put_value(&mut value, "day", 3);
    put_value(&mut value, "seed", 9);
    put_value(&mut value, "day", 4);
    assert_eq!(value, vec![("day".to_string(), 4), ("seed".to_string(), 9)]);
}

#[test]
fn command_line_is_read_flag_by_flag() {
    let rest = list(&["-w", "crane", "--stats", "-D", "-r", "-d", "5", "--seed", "+77", "-S",
        "state.json", "-f", "final.txt", "-a", "guess.txt"]);
    let cmd = parse_flags(empty(), &rest).unwrap();
    assert_eq!(
        cmd.mode,
        list(&["word", "stats", "difficult", "random", "day", "seed", "state", "final_set",
            "acceptable_set"])
    );
    assert_eq!(cmd.value, vec![("day".to_string(), 5), ("seed".to_string(), 77)]);
    assert_eq!(
        cmd.info,
        vec![
            named("word", "crane"),
            named("state", "state.json"),
            named("final_set", "final.txt"),
            named("acceptable_set", "guess.txt"),
        ]
    );
    assert!(cmd.answer_file.is_empty() && cmd.guess_file.is_empty());
}

#[test]
fn word_day_and_seed_may_stand_alone() {
    let cmd = parse_flags(empty(), &list(&["-w", "-r"])).unwrap();
    assert_eq!(cmd.mode, list(&["word", "random"]));
    assert!(cmd.info.is_empty());
    let cmd = parse_flags(empty(), &list(&["-r", "-d"])).unwrap();
    assert_eq!(cmd.mode, list(&["random", "day"]));
    assert!(cmd.value.is_empty());
    let cmd = parse_flags(empty(), &list(&["-s", "-d", "3"])).unwrap();
    assert_eq!(cmd.mode, list(&["seed", "day"]));
    assert_eq!(cmd.value, vec![("day".to_string(), 3)]);
}

#[test]
fn bad_command_lines_are_rejected() {
    let fails = |args: &[&str]| parse_flags(empty(), &list(args)).err();
    assert_eq!(fails(&["crane"]), Some(ArgError::CommandLine));
    assert_eq!(fails(&["-x"]), Some(ArgError::CommandLine));
    assert_eq!(fails(&["-f"]), Some(ArgError::CommandLine));
    assert_eq!(fails(&["-a", "-r"]), Some(ArgError::CommandLine));
    assert_eq!(fails(&["--state"]), Some(ArgError::CommandLine));
    assert_eq!(fails(&["-w", "crane", "extra"]), Some(ArgError::CommandLine));
    // An empty argument is not taken as a value and is then no setting either.
    assert_eq!(fails(&["-w", ""]), Some(ArgError::CommandLine));
    assert_eq!(fails(&["-f", "", "-r"]), Some(ArgError::CommandLine));
    assert_eq!(fails(&["-d", "soon"]), Some(ArgError::Number));
    assert_eq!(fails(&["-s", "18446744073709551616"]), Some(ArgError::Number));
    // The first argument that cannot be read decides.
    assert_eq!(fails(&["-d", "x", "-q"]), Some(ArgError::Number));
    assert_eq!(fails(&["-q", "-d", "x"]), Some(ArgError::CommandLine));
}

#[test]
fn later_settings_replace_earlier_ones() {
    let mut start = empty();
    start.mode = list(&["word"]);
    start.info = vec![named("word", "about")];
    start.answer_file = list(&["ABOUT"]);
    let cmd = parse_flags(start, &list(&["-w", "crane", "-d", "1", "-d", "2"])).unwrap();
    assert_eq!(cmd.mode, list(&["word", "day"]));
    assert_eq!(cmd.info, vec![named("word", "crane")]);
    assert_eq!(cmd.value, vec![("day".to_string(), 2)]);
    assert_eq!(cmd.answer_file, list(&["ABOUT"]));
}

#[test]
fn configuration_files_are_taken_out_first() {
    let args = list(&["-r", "-c", "one.json", "-w", "crane", "--config", "two.json", "-t"]);
    let scan = scan_configs(&args);
    assert!(scan.complete);
    assert_eq!(scan.configs, list(&["one.json", "two.json"]));
    assert_eq!(scan.rest, list(&["-r", "-w", "crane", "-t"]));
    // An empty name is passed over.
    let scan = scan_configs(&list(&["-c", "", "-r"]));
    assert!(scan.complete);
    assert!(scan.configs.is_empty());
    assert_eq!(scan.rest, list(&["-r"]));
    let scan = scan_configs(&Vec::new());
    assert!(scan.complete && scan.configs.is_empty() && scan.rest.is_empty());
}

#[test]
fn scan_stops_where_a_file_name_is_missing() {
    let scan = scan_configs(&list(&["-c", "one.json", "-r", "-c"]));
    assert!(!scan.complete);
    assert_eq!(scan.configs, list(&["one.json"]));
    let scan = scan_configs(&list(&["-c", "one.json", "--config", "-r", "-c", "two.json"]));
    assert!(!scan.complete);
    assert_eq!(scan.configs, list(&["one.json"]));
}

#[test]
fn configuration_gives_settings() {
    let config = Config {
        random: Some(true),
        difficult: Some(false),
        stats: None,
        day: Some(4),
        seed: None,
        final_set: Some("final.txt".to_string()),
        acceptable_set: None,
        state: Some("state.json".to_string()),
        word: None,
    };
    let mut start = empty();
    start.mode = list(&["day"]);
    start.value = vec![("day".to_string(), 1)];
    start.guess_file = list(&["ABOUT"]);
    let cmd = apply_config(start, &config);
    assert_eq!(cmd.mode, list(&["day", "random", "final_set", "state"]));
    assert_eq!(cmd.value, vec![("day".to_string(), 4)]);
    assert_eq!(cmd.info, vec![named("final_set", "final.txt"), named("state", "state.json")]);
    assert_eq!(cmd.guess_file, list(&["ABOUT"]));
}
