//! The settings of a run, as the command line and configuration files give them.

use vstd::prelude::*;
use vstd::string::StringExecFns;
use crate::file::Config;
use crate::partition::texts_of;
use crate::word::{upper_case, upper_cased};

verus! {

/// What the command line and the configuration files ask for.
///
/// `mode` holds the names of the settings that were given, `value` the numbers and `info` the
/// texts that came with them, each under the name of its setting. `answer_file` and
/// `guess_file` hold the word lists that were read, and are empty where the built-in lists are
/// used.
pub struct Command {
    pub mode: Vec<String>,
    pub value: Vec<(String, u64)>,
    pub info: Vec<(String, String)>,
    pub answer_file: Vec<String>,
    pub guess_file: Vec<String>,
}

/// The names under which a list of texts holds something.
pub open spec fn info_names(list: Seq<(String, String)>) -> Seq<Seq<char>> {
    list.map_values(|e: (String, String)| e.0@)
}

/// The names under which a list of numbers holds something.
pub open spec fn value_names(list: Seq<(String, u64)>) -> Seq<Seq<char>> {
    list.map_values(|e: (String, u64)| e.0@)
}

/// Whether every text of `part` is one of `whole`.
pub open spec fn all_within(part: Seq<String>, whole: Seq<String>) -> bool {
    forall|i: int| 0 <= i < part.len() ==> texts_of(whole).contains(#[trigger] part[i]@)
}

/// Whether every text of `part`, put in upper case, is one of `whole`.
pub open spec fn all_within_upper(part: Seq<String>, whole: Seq<String>) -> bool {
    forall|i: int| 0 <= i < part.len() ==> texts_of(whole).contains(upper_case(#[trigger] part[i]@))
}

/// Whether the settings of `cmd` go together, `secrets` being the built-in list of answers.
///
/// A word list or a state file that is asked for must be named. The list of guesses must hold
/// every answer: those of the list of answers where one is asked for, and otherwise the
/// built-in ones, which count in upper case however they are written. A fixed word excludes a
/// random one, and a day or a seed needs the random mode.
pub open spec fn settings_agree(cmd: Command, secrets: Seq<String>) -> bool {
    let mode = texts_of(cmd.mode@);
    let info = info_names(cmd.info@);
    &&& mode.contains("final_set"@) ==> info.contains("final_set"@)
    &&& mode.contains("acceptable_set"@) ==> {
        &&& info.contains("acceptable_set"@)
        &&& if mode.contains("final_set"@) {
            all_within(cmd.answer_file@, cmd.guess_file@)
        } else {
            all_within_upper(secrets, cmd.guess_file@)
        }
    }
    &&& mode.contains("state"@) ==> info.contains("state"@)
    &&& !(mode.contains("random"@) && mode.contains("word"@))
    &&& mode.contains("day"@) ==> mode.contains("random"@)
    &&& mode.contains("seed"@) ==> mode.contains("random"@)
}

/// Whether `list` holds the text `text`.
pub fn holds_text(list: &Vec<String>, text: &str) -> (found: bool)
    ensures
        found == texts_of(list@).contains(text@),
{
    let wanted: String = String::from_str(text);
    let mut i: usize = 0;
    while i < list.len()
        invariant
            i <= list@.len(),
            wanted@ == text@,
            forall|j: int| 0 <= j < i ==> texts_of(list@)[j] != text@,
        decreases list@.len() - i,
    {
        if list[i] == wanted {
            assert(texts_of(list@)[i as int] == text@);
            return true;
        }
        i += 1;
    }
    false
}

/// Whether `list` holds a text under the name `name`.
pub fn names_text(list: &Vec<(String, String)>, name: &str) -> (found: bool)
    ensures
        found == info_names(list@).contains(name@),
{
    let wanted: String = String::from_str(name);
    let mut i: usize = 0;
    while i < list.len()
        invariant
            i <= list@.len(),
            wanted@ == name@,
            forall|j: int| 0 <= j < i ==> info_names(list@)[j] != name@,
        decreases list@.len() - i,
    {
        if list[i].0 == wanted {
            assert(info_names(list@)[i as int] == name@);
            return true;
        }
        i += 1;
    }
    false
}

/// Whether every text of `part` is one of `whole`.
pub fn is_within(part: &Vec<String>, whole: &Vec<String>) -> (within: bool)
    ensures
        within == all_within(part@, whole@),
{
    let mut i: usize = 0;
    while i < part.len()
        invariant
            i <= part@.len(),
            forall|j: int| 0 <= j < i ==> texts_of(whole@).contains(#[trigger] part@[j]@),
        decreases part@.len() - i,
    {
        if !holds_text(whole, part[i].as_str()) {
            return false;
        }
        i += 1;
    }
    true
}

/// Whether every text of `part`, put in upper case, is one of `whole`.
pub fn is_within_upper(part: &Vec<String>, whole: &Vec<String>) -> (within: bool)
    ensures
        within == all_within_upper(part@, whole@),
{
    let mut i: usize = 0;
    while i < part.len()
        invariant
            i <= part@.len(),
            forall|j: int| 0 <= j < i ==> texts_of(whole@).contains(upper_case(#[trigger] part@[j]@)),
        decreases part@.len() - i,
    {
        let upper: String = upper_cased(part[i].as_str());
        if !holds_text(whole, upper.as_str()) {
            return false;
        }
        i += 1;
    }
    true
}

/// Whether the settings of `cmd` go together, `secrets` being the built-in list of answers.
pub fn arg_is_valid(cmd: &Command, secrets: &Vec<String>) -> (valid: bool)
    ensures
        valid == settings_agree(*cmd, secrets@),
{
    let final_set: bool = holds_text(&cmd.mode, "final_set");
    let acceptable_set: bool = holds_text(&cmd.mode, "acceptable_set");
    let random: bool = holds_text(&cmd.mode, "random");
    if final_set && !names_text(&cmd.info, "final_set") {
        return false;
    }
    if acceptable_set {
        if !names_text(&cmd.info, "acceptable_set") {
            return false;
        }
        if final_set {
            if !is_within(&cmd.answer_file, &cmd.guess_file) {
                return false;
            }
        } else if !is_within_upper(secrets, &cmd.guess_file) {
            return false;
        }
    }
    if holds_text(&cmd.mode, "state") && !names_text(&cmd.info, "state") {
        return false;
    }
    if random && holds_text(&cmd.mode, "word") {
        return false;
    }
    if holds_text(&cmd.mode, "day") && !random {
        return false;
    }
    if holds_text(&cmd.mode, "seed") && !random {
        return false;
    }
    true
}

/// The settings of a command as plain values: the names that were given, and the numbers and
/// texts that are kept under a name.
pub struct Settings {
    pub mode: Seq<Seq<char>>,
    pub value: Seq<(Seq<char>, u64)>,
    pub info: Seq<(Seq<char>, Seq<char>)>,
}

/// A list of named texts as plain values.
pub open spec fn info_view(list: Seq<(String, String)>) -> Seq<(Seq<char>, Seq<char>)> {
    list.map_values(|e: (String, String)| (e.0@, e.1@))
}

/// A list of named numbers as plain values.
pub open spec fn value_view(list: Seq<(String, u64)>) -> Seq<(Seq<char>, u64)> {
    list.map_values(|e: (String, u64)| (e.0@, e.1))
}

impl Command {
    /// The settings that the command holds.
    pub open spec fn settings(self) -> Settings {
        Settings {
            mode: texts_of(self.mode@),
            value: value_view(self.value@),
            info: info_view(self.info@),
        }
    }
}

/// The names with `name` among them: added at the end if it was missing.
pub open spec fn with_mode(mode: Seq<Seq<char>>, name: Seq<char>) -> Seq<Seq<char>> {
    if mode.contains(name) {
        mode
    } else {
        mode.push(name)
    }
}

/// Whether `at` is the first place at which `entries` holds something under `name`.
pub open spec fn is_first_entry<V>(entries: Seq<(Seq<char>, V)>, name: Seq<char>, at: int) -> bool {
    &&& 0 <= at < entries.len()
    &&& entries[at].0 == name
    &&& forall|j: int| 0 <= j < at ==> (#[trigger] entries[j]).0 != name
}

/// The entries with `content` under `name`: in the place of what was first kept under that
/// name, or at the end if nothing was.
pub open spec fn with_entry<V>(entries: Seq<(Seq<char>, V)>, name: Seq<char>, content: V) -> Seq<
    (Seq<char>, V),
> {
    if exists|at: int| is_first_entry(entries, name, at) {
        entries.update(choose|at: int| is_first_entry(entries, name, at), (name, content))
    } else {
        entries.push((name, content))
    }
}

/// Puts the name `name` among `mode` unless it is there.
pub fn add_mode(mode: &mut Vec<String>, name: &str)
    ensures
        texts_of(final(mode)@) == with_mode(texts_of(old(mode)@), name@),
{
    if !holds_text(mode, name) {
        let ghost before = texts_of(mode@);
        mode.push(String::from_str(name));
        assert(texts_of(mode@) =~= before.push(name@));
    }
}

/// Keeps the text `content` under the name `name`, in the place of an earlier one if there is
/// one.
pub fn put_info(info: &mut Vec<(String, String)>, name: &str, content: String)
    ensures
        info_view(final(info)@) == with_entry(info_view(old(info)@), name@, content@),
{
    let ghost before = info_view(info@);
    let wanted: String = String::from_str(name);
    let mut i: usize = 0;
    while i < info.len()
        invariant
            i <= info@.len(),
            wanted@ == name@,
            before == info_view(info@),
            before == info_view(old(info)@),
            forall|j: int| 0 <= j < i ==> (#[trigger] before[j]).0 != name@,
        decreases info@.len() - i,
    {
        if info[i].0 == wanted {
            let entry: (String, String) = (wanted, content);
            info[i] = entry;
            proof {
                assert(is_first_entry(before, name@, i as int));
                let at = choose|at: int| is_first_entry(before, name@, at);
                assert(at == i) by {
                    if at < i {
                        assert(before[at].0 != name@);
                    }
                }
                assert(info_view(info@) =~= before.update(i as int, (name@, content@)));
            }
            return ;
        }
        i += 1;
    }
    let entry: (String, String) = (wanted, content);
    info.push(entry);
    proof {
        assert forall|at: int| !is_first_entry(before, name@, at) by {
            if 0 <= at < before.len() {
                assert(before[at].0 != name@);
            }
        }
        assert(info_view(info@) =~= before.push((name@, content@)));
    }
}

/// Keeps the number `content` under the name `name`, in the place of an earlier one if there
/// is one.
pub fn put_value(value: &mut Vec<(String, u64)>, name: &str, content: u64)
    ensures
        value_view(final(value)@) == with_entry(value_view(old(value)@), name@, content),
{
    let ghost before = value_view(value@);
    let wanted: String = String::from_str(name);
    let mut i: usize = 0;
    while i < value.len()
        invariant
            i <= value@.len(),
            wanted@ == name@,
            before == value_view(value@),
            before == value_view(old(value)@),
            forall|j: int| 0 <= j < i ==> (#[trigger] before[j]).0 != name@,
        decreases value@.len() - i,
    {
        if value[i].0 == wanted {
            let entry: (String, u64) = (wanted, content);
            value[i] = entry;
            proof {
                assert(is_first_entry(before, name@, i as int));
                let at = choose|at: int| is_first_entry(before, name@, at);
                assert(at == i) by {
                    if at < i {
                        assert(before[at].0 != name@);
                    }
                }
                assert(value_view(value@) =~= before.update(i as int, (name@, content)));
            }
            return ;
        }
        i += 1;
    }
    let entry: (String, u64) = (wanted, content);
    value.push(entry);
    proof {
        assert forall|at: int| !is_first_entry(before, name@, at) by {
            if 0 <= at < before.len() {
                assert(before[at].0 != name@);
            }
        }
        assert(value_view(value@) =~= before.push((name@, content)));
    }
}

/// Why a command line cannot be read.
#[derive(Debug, Clone, Copy, PartialEq, Eq, Structural)]
pub enum ArgError {
    /// An argument is unknown, or the file that a setting asks for is missing.
    CommandLine,
    /// The day or the seed is not written as a number.
    Number,
}

/// A setting that the command line can give.
#[derive(Debug, Clone, Copy, PartialEq, Eq, Structural)]
pub enum Flag {
    /// The answer is the word that follows.
    Word,
    /// The answer is drawn from the shuffled list of answers.
    Random,
    /// A guess must keep the hints of the guess before.
    Difficult,
    /// The statistics are shown after every round.
    Stats,
    /// The day from which the answers are drawn.
    Day,
    /// The seed with which the answers are shuffled.
    Seed,
    /// The file that holds the answers.
    FinalSet,
    /// The file that holds the guesses.
    AcceptableSet,
    /// The file that keeps the rounds between two runs.
    State,
}

/// The setting that an argument names, in its short or in its long form.
pub open spec fn flag_of(arg: Seq<char>) -> Option<Flag> {
    if arg == "-w"@ || arg == "--word"@ {
        Some(Flag::Word)
    } else if arg == "-r"@ || arg == "--random"@ {
        Some(Flag::Random)
    } else if arg == "-D"@ || arg == "--difficult"@ {
        Some(Flag::Difficult)
    } else if arg == "-t"@ || arg == "--stats"@ {
        Some(Flag::Stats)
    } else if arg == "-d"@ || arg == "--day"@ {
        Some(Flag::Day)
    } else if arg == "-s"@ || arg == "--seed"@ {
        Some(Flag::Seed)
    } else if arg == "-f"@ || arg == "--final-set"@ {
        Some(Flag::FinalSet)
    } else if arg == "-a"@ || arg == "--acceptable-set"@ {
        Some(Flag::AcceptableSet)
    } else if arg == "-S"@ || arg == "--state"@ {
        Some(Flag::State)
    } else {
        None
    }
}

/// The name under which a setting is kept.
pub open spec fn flag_name(flag: Flag) -> Seq<char> {
    match flag {
        Flag::Word => "word"@,
        Flag::Random => "random"@,
        Flag::Difficult => "difficult"@,
        Flag::Stats => "stats"@,
        Flag::Day => "day"@,
        Flag::Seed => "seed"@,
        Flag::FinalSet => "final_set"@,
        Flag::AcceptableSet => "acceptable_set"@,
        Flag::State => "state"@,
    }
}

/// Whether two texts are the same.
pub fn same_text(a: &str, b: &str) -> (same: bool)
    ensures
        same == (a@ == b@),
{
    String::from_str(a) == String::from_str(b)
}

/// The setting that an argument names.
pub fn read_flag(arg: &str) -> (flag: Option<Flag>)
    ensures
        flag == flag_of(arg@),
{
    if same_text(arg, "-w") || same_text(arg, "--word") {
        Some(Flag::Word)
    } else if same_text(arg, "-r") || same_text(arg, "--random") {
        Some(Flag::Random)
    } else if same_text(arg, "-D") || same_text(arg, "--difficult") {
        Some(Flag::Difficult)
    } else if same_text(arg, "-t") || same_text(arg, "--stats") {
        Some(Flag::Stats)
    } else if same_text(arg, "-d") || same_text(arg, "--day") {
        Some(Flag::Day)
    } else if same_text(arg, "-s") || same_text(arg, "--seed") {
        Some(Flag::Seed)
    } else if same_text(arg, "-f") || same_text(arg, "--final-set") {
        Some(Flag::FinalSet)
    } else if same_text(arg, "-a") || same_text(arg, "--acceptable-set") {
        Some(Flag::AcceptableSet)
    } else if same_text(arg, "-S") || same_text(arg, "--state") {
        Some(Flag::State)
    } else {
        None
    }
}

/// The name under which a setting is kept.
pub fn name_of(flag: Flag) -> (name: &'static str)
    ensures
        name@ == flag_name(flag),
{
    match flag {
        Flag::Word => "word",
        Flag::Random => "random",
        Flag::Difficult => "difficult",
        Flag::Stats => "stats",
        Flag::Day => "day",
        Flag::Seed => "seed",
        Flag::FinalSet => "final_set",
        Flag::AcceptableSet => "acceptable_set",
        Flag::State => "state",
    }
}

/// Whether `c` is one of the digits `0` to `9`.
pub open spec fn is_digit(c: char) -> bool {
    '0' <= c <= '9'
}

/// The number that the characters of `text` from `from` up to `upto` spell in base ten.
pub open spec fn digits_value(text: Seq<char>, from: int, upto: int) -> int
    decreases upto - from,
{
    if upto <= from {
        0
    } else {
        digits_value(text, from, upto - 1) * 10 + (text[upto - 1] as int - '0' as int)
    }
}

/// Where the digits of a number begin: behind a plus sign if there is one.
pub open spec fn digits_start(text: Seq<char>) -> int {
    if text.len() > 0 && text[0] == '+' {
        1
    } else {
        0
    }
}

/// The number that `text` spells: digits only, at least one, a plus sign allowed before them,
/// and the value no more than 64 bits hold.
pub open spec fn number_of(text: Seq<char>) -> Option<u64> {
    let from = digits_start(text);
    if from < text.len() && (forall|i: int| from <= i < text.len() ==> is_digit(#[trigger] text[i]))
        && digits_value(text, from, text.len() as int) <= u64::MAX {
        Some(digits_value(text, from, text.len() as int) as u64)
    } else {
        None
    }
}

/// More digits never spell a smaller number.
pub proof fn lemma_digits_grow(text: Seq<char>, from: int, mid: int, upto: int)
    requires
        0 <= from <= mid <= upto <= text.len(),
        forall|i: int| from <= i < upto ==> is_digit(#[trigger] text[i]),
    ensures
        0 <= digits_value(text, from, mid) <= digits_value(text, from, upto),
    decreases upto - mid,
{
    if mid < upto {
        lemma_digits_grow(text, from, mid, upto - 1);
        assert(is_digit(text[upto - 1]));
    } else {
        lemma_digits_nonnegative(text, from, mid);
    }
}

/// Digits spell a number that is not negative.
pub proof fn lemma_digits_nonnegative(text: Seq<char>, from: int, upto: int)
    requires
        0 <= from <= upto <= text.len(),
        forall|i: int| from <= i < upto ==> is_digit(#[trigger] text[i]),
    ensures
        0 <= digits_value(text, from, upto),
    decreases upto - from,
{
    if from < upto {
        lemma_digits_nonnegative(text, from, upto - 1);
        assert(is_digit(text[upto - 1]));
    }
}

/// The number that `text` spells, if it spells one.
pub fn parse_number(text: &str) -> (number: Option<u64>)
    ensures
        number == number_of(text@),
{
    let n: usize = text.unicode_len();
    let from: usize = if n > 0 && text.get_char(0) == '+' {
        1
    } else {
        0
    };
    if from >= n {
        return None;
    }
    let mut value: u64 = 0;
    let mut i: usize = from;
    while i < n
        invariant
            from <= i <= n,
            n == text@.len(),
            from == digits_start(text@),
            forall|j: int| from <= j < i ==> is_digit(#[trigger] text@[j]),
            value as int == digits_value(text@, from as int, i as int),
        decreases n - i,
    {
        let c: char = text.get_char(i);
        if !('0' <= c && c <= '9') {
            return None;
        }
        let digit: u64 = (c as u8 - 48) as u64;
        if value > (u64::MAX - digit) / 10 {
            proof {
                let more = digits_value(text@, from as int, i + 1);
                assert(more > u64::MAX);
                if forall|j: int| from <= j < n ==> is_digit(#[trigger] text@[j]) {
                    lemma_digits_grow(text@, from as int, i + 1, n as int);
                }
            }
            return None;
        }
        value = value * 10 + digit;
        i += 1;
    }
    Some(value)
}

/// Whether a text begins with a dash.
pub open spec fn begins_with_dash(text: Seq<char>) -> bool {
    text.len() > 0 && text[0] == '-'
}

/// Whether a text begins with a dash.
pub fn has_dash(text: &str) -> (dash: bool)
    ensures
        dash == begins_with_dash(text@),
{
    text.unicode_len() > 0 && text.get_char(0) == '-'
}

/// What reading one argument leads to: the settings so far and the place of the next argument,
/// or the reason why reading ends.
pub enum Step {
    /// Reading goes on with these settings at this place.
    Next(Settings, int),
    /// Reading ends with this error.
    Fail(ArgError),
}

/// The settings with the name of `flag` among those that were given.
pub open spec fn named(s: Settings, flag: Flag) -> Settings {
    Settings { mode: with_mode(s.mode, flag_name(flag)), value: s.value, info: s.info }
}

/// Reading the argument at `at`. It must name a setting. A setting that takes something takes
/// the argument behind it, unless that one is empty or begins with a dash. The word, the day
/// and the seed may stand alone; a file name must follow where a file is asked for.
pub open spec fn flag_step(s: Settings, args: Seq<Seq<char>>, at: int) -> Step {
    match flag_of(args[at]) {
        None => Step::Fail(ArgError::CommandLine),
        Some(flag) => {
            let given = named(s, flag);
            let alone = at + 1 >= args.len();
            let taken = !alone && args[at + 1].len() > 0 && !begins_with_dash(args[at + 1]);
            match flag {
                Flag::Random | Flag::Difficult | Flag::Stats => Step::Next(given, at + 1),
                Flag::Word => if taken {
                    Step::Next(
                        Settings {
                            mode: given.mode,
                            value: given.value,
                            info: with_entry(given.info, flag_name(flag), args[at + 1]),
                        },
                        at + 2,
                    )
                } else {
                    Step::Next(given, at + 1)
                },
                Flag::Day | Flag::Seed => if taken {
                    match number_of(args[at + 1]) {
                        Some(number) => Step::Next(
                            Settings {
                                mode: given.mode,
                                value: with_entry(given.value, flag_name(flag), number),
                                info: given.info,
                            },
                            at + 2,
                        ),
                        None => Step::Fail(ArgError::Number),
                    }
                } else {
                    Step::Next(given, at + 1)
                },
                Flag::FinalSet | Flag::AcceptableSet | Flag::State => if taken {
                    Step::Next(
                        Settings {
                            mode: given.mode,
                            value: given.value,
                            info: with_entry(given.info, flag_name(flag), args[at + 1]),
                        },
                        at + 2,
                    )
                } else if alone || begins_with_dash(args[at + 1]) {
                    Step::Fail(ArgError::CommandLine)
                } else {
                    Step::Next(given, at + 1)
                },
            }
        },
    }
}

/// The settings after the arguments from `at` on are read one after the other, or the reason
/// why the first of them that cannot be read fails.
pub open spec fn parsed(s: Settings, args: Seq<Seq<char>>, at: int) -> Result<Settings, ArgError>
    decreases args.len() - at,
{
    if at < 0 || at >= args.len() {
        Ok(s)
    } else {
        match flag_step(s, args, at) {
            Step::Next(after, next) => if next > at {
                parsed(after, args, next)
            } else {
                Ok(after)
            },
            Step::Fail(e) => Err(e),
        }
    }
}

/// Reads the arguments `rest` into the settings of `cmd`. The word lists stay as they are.
#[verifier::loop_isolation(false)]
pub fn parse_flags(cmd: Command, rest: &Vec<String>) -> (read: Result<Command, ArgError>)
    ensures
        match read {
            Ok(after) => {
                &&& parsed(cmd.settings(), texts_of(rest@), 0) == Ok::<Settings, ArgError>(
                    after.settings(),
                )
                &&& after.answer_file == cmd.answer_file
                &&& after.guess_file == cmd.guess_file
            },
            Err(e) => parsed(cmd.settings(), texts_of(rest@), 0) == Err::<Settings, ArgError>(e),
        },
{
    let ghost start = cmd.settings();
    let ghost args = texts_of(rest@);
    let Command { mode, value, info, answer_file, guess_file } = cmd;
    let mut mode: Vec<String> = mode;
    let mut value: Vec<(String, u64)> = value;
    let mut info: Vec<(String, String)> = info;
    let mut at: usize = 0;
    while at < rest.len()
        invariant
            at <= rest@.len(),
            args == texts_of(rest@),
            parsed(start, args, 0) == parsed(
                settings_of(texts_of(mode@), value_view(value@), info_view(info@)),
                args,
                at as int,
            ),
        decreases rest@.len() - at,
    {
        assert(args[at as int] == rest@[at as int]@);
        let flag: Flag = match read_flag(rest[at].as_str()) {
            Some(flag) => flag,
            None => {
                return Err(ArgError::CommandLine);
            },
        };
        add_mode(&mut mode, name_of(flag));
        let alone: bool = at + 1 >= rest.len();
        let mut taken: bool = false;
        if !alone {
            assert(args[at + 1] == rest@[at + 1]@);
            let next: &str = rest[at + 1].as_str();
            taken = next.unicode_len() > 0 && !has_dash(next);
        }
        match flag {
            Flag::Random | Flag::Difficult | Flag::Stats => {
                at += 1;
            },
            Flag::Word => {
                if taken {
                    put_info(&mut info, name_of(flag), rest[at + 1].clone());
                    at += 2;
                } else {
                    at += 1;
                }
            },
            Flag::Day | Flag::Seed => {
                if taken {
                    match parse_number(rest[at + 1].as_str()) {
                        Some(number) => {
                            put_value(&mut value, name_of(flag), number);
                            at += 2;
                        },
                        None => {
                            return Err(ArgError::Number);
                        },
                    }
                } else {
                    at += 1;
                }
            },
            Flag::FinalSet | Flag::AcceptableSet | Flag::State => {
                if taken {
                    put_info(&mut info, name_of(flag), rest[at + 1].clone());
                    at += 2;
                } else if alone || has_dash(rest[at + 1].as_str()) {
                    return Err(ArgError::CommandLine);
                } else {
                    at += 1;
                }
            },
        }
    }
    Ok(Command { mode, value, info, answer_file, guess_file })
}

/// What the first pass over a command line finds: the configuration files that are named, in
/// order, the arguments that are left for the second pass, and whether the pass came to the
/// end. It stops early where the name of a configuration file is missing or begins with a dash;
/// the files named before that place are still to be read first.
pub struct ConfigScan {
    pub configs: Vec<String>,
    pub rest: Vec<String>,
    pub complete: bool,
}

/// Whether an argument asks for a configuration file.
pub open spec fn is_config_flag(arg: Seq<char>) -> bool {
    arg == "-c"@ || arg == "--config"@
}

/// The outcome of the first pass from the argument at `at` on, when `configs` and `rest` were
/// found before it. An empty file name is passed over.
pub open spec fn scanned(
    args: Seq<Seq<char>>,
    at: int,
    configs: Seq<Seq<char>>,
    rest: Seq<Seq<char>>,
) -> (Seq<Seq<char>>, Seq<Seq<char>>, bool)
    decreases args.len() - at,
{
    if at < 0 || at >= args.len() {
        (configs, rest, true)
    } else if is_config_flag(args[at]) {
        if at + 1 >= args.len() {
            (configs, rest, false)
        } else if args[at + 1].len() == 0 {
            scanned(args, at + 2, configs, rest)
        } else if begins_with_dash(args[at + 1]) {
            (configs, rest, false)
        } else {
            scanned(args, at + 2, configs.push(args[at + 1]), rest)
        }
    } else {
        scanned(args, at + 1, configs, rest.push(args[at]))
    }
}

/// The first pass over the arguments of a command line, the program's own name left out:
/// takes the configuration files out of them.
#[verifier::loop_isolation(false)]
pub fn scan_configs(args: &Vec<String>) -> (scan: ConfigScan)
    ensures
        (texts_of(scan.configs@), texts_of(scan.rest@), scan.complete) == scanned(
            texts_of(args@),
            0,
            Seq::empty(),
            Seq::empty(),
        ),
{
    let ghost all = texts_of(args@);
    let mut configs: Vec<String> = Vec::new();
    let mut rest: Vec<String> = Vec::new();
    let mut at: usize = 0;
    assert(texts_of(configs@) =~= Seq::<Seq<char>>::empty());
    assert(texts_of(rest@) =~= Seq::<Seq<char>>::empty());
    while at < args.len()
        invariant
            at <= args@.len(),
            scanned(all, 0, Seq::empty(), Seq::empty()) == scanned(
                all,
                at as int,
                texts_of(configs@),
                texts_of(rest@),
            ),
        decreases args@.len() - at,
    {
        assert(all[at as int] == args@[at as int]@);
        let arg: &str = args[at].as_str();
        if same_text(arg, "-c") || same_text(arg, "--config") {
            if at + 1 >= args.len() {
                return ConfigScan { configs, rest, complete: false };
            }
            assert(all[at + 1] == args@[at + 1]@);
            let name: &str = args[at + 1].as_str();
            if name.unicode_len() == 0 {
                at += 2;
            } else if has_dash(name) {
                return ConfigScan { configs, rest, complete: false };
            } else {
                let ghost before = texts_of(configs@);
                configs.push(args[at + 1].clone());
                assert(texts_of(configs@) =~= before.push(all[at + 1]));
                at += 2;
            }
        } else {
            let ghost before = texts_of(rest@);
            rest.push(args[at].clone());
            assert(texts_of(rest@) =~= before.push(all[at as int]));
            at += 1;
        }
    }
    ConfigScan { configs, rest, complete: true }
}

/// The settings with a text kept under `name`, which is then among the names.
pub open spec fn with_text(s: Settings, name: Seq<char>, content: Option<String>) -> Settings {
    match content {
        Some(text) => Settings {
            mode: with_mode(s.mode, name),
            value: s.value,
            info: with_entry(s.info, name, text@),
        },
        None => s,
    }
}

/// The settings with a number kept under `name`, which is then among the names.
pub open spec fn with_number(s: Settings, name: Seq<char>, content: Option<u64>) -> Settings {
    match content {
        Some(number) => Settings {
            mode: with_mode(s.mode, name),
            value: with_entry(s.value, name, number),
            info: s.info,
        },
        None => s,
    }
}

/// The settings with `name` among the names if the switch is on.
pub open spec fn with_switch(s: Settings, name: Seq<char>, content: Option<bool>) -> Settings {
    if content == Some(true) {
        Settings { mode: with_mode(s.mode, name), value: s.value, info: s.info }
    } else {
        s
    }
}

/// The settings after a configuration file has been taken in: every setting that the file
/// gives is added, and what it gives replaces what was kept under the same name.
pub open spec fn configured(s: Settings, config: Config) -> Settings {
    let s = with_switch(s, "random"@, config.random);
    let s = with_switch(s, "difficult"@, config.difficult);
    let s = with_switch(s, "stats"@, config.stats);
    let s = with_number(s, "day"@, config.day);
    let s = with_number(s, "seed"@, config.seed);
    let s = with_text(s, "final_set"@, config.final_set);
    let s = with_text(s, "acceptable_set"@, config.acceptable_set);
    let s = with_text(s, "state"@, config.state);
    with_text(s, "word"@, config.word)
}

/// The settings made of the given names, numbers and texts.
pub open spec fn settings_of(
    mode: Seq<Seq<char>>,
    value: Seq<(Seq<char>, u64)>,
    info: Seq<(Seq<char>, Seq<char>)>,
) -> Settings {
    Settings { mode, value, info }
}

/// Takes the text `content`, if there is one, into the settings under `name`.
fn take_text(
    mode: &mut Vec<String>,
    info: &mut Vec<(String, String)>,
    name: &str,
    content: &Option<String>,
    Ghost(value): Ghost<Seq<(Seq<char>, u64)>>,
)
    ensures
        settings_of(texts_of(final(mode)@), value, info_view(final(info)@)) == with_text(
            settings_of(texts_of(old(mode)@), value, info_view(old(info)@)),
            name@,
            *content,
        ),
{
    match content {
        Some(text) => {
            add_mode(mode, name);
            put_info(info, name, text.clone());
        },
        None => {},
    }
}

/// Takes the number `content`, if there is one, into the settings under `name`.
fn take_number(
    mode: &mut Vec<String>,
    value: &mut Vec<(String, u64)>,
    name: &str,
    content: Option<u64>,
    Ghost(info): Ghost<Seq<(Seq<char>, Seq<char>)>>,
)
    ensures
        settings_of(texts_of(final(mode)@), value_view(final(value)@), info) == with_number(
            settings_of(texts_of(old(mode)@), value_view(old(value)@), info),
            name@,
            content,
        ),
{
    match content {
        Some(number) => {
            add_mode(mode, name);
            put_value(value, name, number);
        },
        None => {},
    }
}

/// Takes the switch `content` into the settings under `name` if it is on.
fn take_switch(
    mode: &mut Vec<String>,
    name: &str,
    content: Option<bool>,
    Ghost(value): Ghost<Seq<(Seq<char>, u64)>>,
    Ghost(info): Ghost<Seq<(Seq<char>, Seq<char>)>>,
)
    ensures
        settings_of(texts_of(final(mode)@), value, info) == with_switch(
            settings_of(texts_of(old(mode)@), value, info),
            name@,
            content,
        ),
{
    match content {
        Some(on) => {
            if on {
                add_mode(mode, name);
            }
        },
        None => {},
    }
}

/// Takes the settings of a configuration file into `cmd`. The word lists stay as they are.
pub fn apply_config(cmd: Command, config: &Config) -> (after: Command)
    ensures
        after.settings() == configured(cmd.settings(), *config),
        after.answer_file == cmd.answer_file,
        after.guess_file == cmd.guess_file,
{
    let Command { mode, value, info, answer_file, guess_file } = cmd;
    let mut mode: Vec<String> = mode;
    let mut value: Vec<(String, u64)> = value;
    let mut info: Vec<(String, String)> = info;
    take_switch(&mut mode, "random", config.random, Ghost(value_view(value@)), Ghost(info_view(info@)));
    take_switch(&mut mode, "difficult", config.difficult, Ghost(value_view(value@)), Ghost(info_view(info@)));
    take_switch(&mut mode, "stats", config.stats, Ghost(value_view(value@)), Ghost(info_view(info@)));
    take_number(&mut mode, &mut value, "day", config.day, Ghost(info_view(info@)));
    take_number(&mut mode, &mut value, "seed", config.seed, Ghost(info_view(info@)));
    take_text(&mut mode, &mut info, "final_set", &config.final_set, Ghost(value_view(value@)));
    take_text(&mut mode, &mut info, "acceptable_set", &config.acceptable_set, Ghost(value_view(value@)));
    take_text(&mut mode, &mut info, "state", &config.state, Ghost(value_view(value@)));
    take_text(&mut mode, &mut info, "word", &config.word, Ghost(value_view(value@)));
    Command { mode, value, info, answer_file, guess_file }
}

/// The text that is kept under `name`, if there is one.
pub fn find_info(info: &Vec<(String, String)>, name: &str) -> (found: Option<String>)
    ensures
        match found {
            Some(text) => exists|at: int|
                is_first_entry(info_view(info@), name@, at) && info_view(info@)[at].1 == text@,
            None => !info_names(info@).contains(name@),
        },
{
    let wanted: String = String::from_str(name);
    let mut i: usize = 0;
    while i < info.len()
        invariant
            i <= info@.len(),
            wanted@ == name@,
            forall|j: int| 0 <= j < i ==> (#[trigger] info_view(info@)[j]).0 != name@,
        decreases info@.len() - i,
    {
        if info[i].0 == wanted {
            assert(is_first_entry(info_view(info@), name@, i as int));
            return Some(info[i].1.clone());
        }
        i += 1;
    }
    assert forall|j: int| 0 <= j < info@.len() implies info_names(info@)[j] != name@ by {
        assert(info_view(info@)[j].0 == info_names(info@)[j]);
    }
    None
}

/// The number that is kept under `name`, if there is one.
pub fn find_value(value: &Vec<(String, u64)>, name: &str) -> (found: Option<u64>)
    ensures
        match found {
            Some(number) => exists|at: int|
                is_first_entry(value_view(value@), name@, at) && value_view(value@)[at].1
                    == number,
            None => !value_names(value@).contains(name@),
        },
{
    let wanted: String = String::from_str(name);
    let mut i: usize = 0;
    while i < value.len()
        invariant
            i <= value@.len(),
            wanted@ == name@,
            forall|j: int| 0 <= j < i ==> (#[trigger] value_view(value@)[j]).0 != name@,
        decreases value@.len() - i,
    {
        if value[i].0 == wanted {
            assert(is_first_entry(value_view(value@), name@, i as int));
            return Some(value[i].1);
        }
        i += 1;
    }
    assert forall|j: int| 0 <= j < value@.len() implies value_names(value@)[j] != name@ by {
        assert(value_view(value@)[j].0 == value_names(value@)[j]);
    }
    None
}

} // verus!
