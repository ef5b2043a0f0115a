//! The rules around a round: legal words, hard mode, what the keyboard shows, the word of
//! the day, and the editing of a typed word.

use rand::rngs::StdRng;
use rand::seq::SliceRandom;
use rand::SeedableRng;
use vstd::prelude::*;
use vstd::string::StringExecFns;
use crate::partition::texts_of;
use crate::word::{
    is_spelling, is_word, letter_rank, upper_case, upper_cased, upper_text, Word, ABSENT, EXACT,
    PRESENT,
};

verus! {

/// Whether `word` is a legal entry: one of the words of `file` where a file was given, and
/// otherwise one of the `builtin` words, read in upper case.
pub open spec fn listed(word: Seq<char>, file: Seq<String>, builtin: Seq<String>) -> bool {
    if file.len() > 0 {
        texts_of(file).contains(word)
    } else {
        exists|i: int| 0 <= i < builtin.len() && upper_case((#[trigger] builtin[i])@) == word
    }
}

/// Whether `word` is a legal entry of `file` or, without a file, of the `builtin` words.
fn is_listed(word: &str, file: &Vec<String>, builtin: &Vec<String>) -> (found: bool)
    ensures
        found == listed(word@, file@, builtin@),
{
    let wanted: String = String::from_str(word);
    if file.len() > 0 {
        let mut i: usize = 0;
        while i < file.len()
            invariant
                i <= file@.len(),
                wanted@ == word@,
                forall|j: int| 0 <= j < i ==> texts_of(file@)[j] != word@,
            decreases file@.len() - i,
        {
            if file[i] == wanted {
                assert(texts_of(file@)[i as int] == word@);
                return true;
            }
            i += 1;
        }
        return false;
    }
    let mut i: usize = 0;
    while i < builtin.len()
        invariant
            i <= builtin@.len(),
            file@.len() == 0,
            wanted@ == word@,
            forall|j: int| 0 <= j < i ==> upper_case((#[trigger] builtin@[j])@) != word@,
        decreases builtin@.len() - i,
    {
        let upper: String = upper_cased(builtin[i].as_str());
        if upper == wanted {
            assert(upper_case(builtin@[i as int]@) == word@);
            return true;
        }
        i += 1;
    }
    false
}

/// The guess as it was given if it is a legal guess, and `INVALID` otherwise. A guess is legal
/// if `guess_file` holds it or, where that list is empty, if it is one of the `acceptable`
/// words in upper case.
pub fn guess_is_valid(guess: &str, guess_file: &Vec<String>, acceptable: &Vec<String>) -> (checked:
    Result<String, String>)
    ensures
        match checked {
            Ok(word) => word@ == guess@ && listed(guess@, guess_file@, acceptable@),
            Err(e) => e@ == "INVALID"@ && !listed(guess@, guess_file@, acceptable@),
        },
{
    if is_listed(guess, guess_file, acceptable) {
        Ok(String::from_str(guess))
    } else {
        Err(String::from_str("INVALID"))
    }
}

/// The answer as it was given if it is a legal answer, and `INVALID` otherwise. An answer is
/// legal if `answer_file` holds it or, where that list is empty, if it is one of the `secrets`
/// in upper case.
pub fn answer_is_valid(answer: &str, answer_file: &Vec<String>, secrets: &Vec<String>) -> (checked:
    Result<String, String>)
    ensures
        match checked {
            Ok(word) => word@ == answer@ && listed(answer@, answer_file@, secrets@),
            Err(e) => e@ == "INVALID"@ && !listed(answer@, answer_file@, secrets@),
        },
{
    if is_listed(answer, answer_file, secrets) {
        Ok(String::from_str(answer))
    } else {
        Err(String::from_str("INVALID"))
    }
}

/// Whether `word`, put in upper case, is a legal entry that is made of five letters.
pub open spec fn is_playable(word: Seq<char>, file: Seq<String>, builtin: Seq<String>) -> bool {
    listed(upper_case(word), file, builtin) && is_spelling(upper_case(word))
}

/// The word for `text` read in upper case, if that is a legal entry of five letters.
fn gen_word(text: &str, file: &Vec<String>, builtin: &Vec<String>) -> (made: Result<Word, String>)
    ensures
        match made {
            Ok(w) => w@ == upper_text(upper_case(text@)) && is_playable(text@, file@, builtin@),
            Err(e) => e@ == "INVALID"@ && !is_playable(text@, file@, builtin@),
        },
{
    let upper: String = upper_cased(text);
    if !is_listed(upper.as_str(), file, builtin) {
        return Err(String::from_str("INVALID"));
    }
    match Word::new(upper.as_str()) {
        Ok(w) => Ok(w),
        Err(_) => Err(String::from_str("INVALID")),
    }
}

/// The answer for `word`, read in upper case: a word of the game if it is a legal answer of
/// five letters, and `INVALID` otherwise.
pub fn gen_answer(word: &str, answer_file: &Vec<String>, secrets: &Vec<String>) -> (made: Result<
    Word,
    String,
>)
    ensures
        match made {
            Ok(w) => w@ == upper_text(upper_case(word@)) && is_playable(
                word@,
                answer_file@,
                secrets@,
            ),
            Err(e) => e@ == "INVALID"@ && !is_playable(word@, answer_file@, secrets@),
        },
{
    gen_word(word, answer_file, secrets)
}

/// The guess for `word`, read in upper case: a word of the game if it is a legal guess of five
/// letters, and `INVALID` otherwise.
pub fn gen_guess(word: &str, guess_file: &Vec<String>, acceptable: &Vec<String>) -> (made: Result<
    Word,
    String,
>)
    ensures
        match made {
            Ok(w) => w@ == upper_text(upper_case(word@)) && is_playable(
                word@,
                guess_file@,
                acceptable@,
            ),
            Err(e) => e@ == "INVALID"@ && !is_playable(word@, guess_file@, acceptable@),
        },
{
    gen_word(word, guess_file, acceptable)
}

/// Whether the typed `word` keeps what the feedback `result` to the guess `last` has shown: a
/// letter marked exact stands at the same place, and a letter marked present occurs somewhere.
/// A mark that is none of the known symbols is never kept.
pub open spec fn keeps_hints(word: Seq<char>, last: Seq<char>, result: Seq<u8>) -> bool {
    forall|i: int| 0 <= i < 5 ==> keeps_hint(word, last, result, i)
}

/// Whether `word` keeps the hint at position `i` of the last guess.
pub open spec fn keeps_hint(word: Seq<char>, last: Seq<char>, result: Seq<u8>, i: int) -> bool {
    if result[i] == EXACT {
        i < word.len() && word[i] == last[i]
    } else if result[i] == PRESENT {
        word.contains(last[i])
    } else {
        result[i] == ABSENT || result[i] == 0
    }
}

/// Whether `text` holds the character `c`.
fn has_char(text: &str, c: char) -> (found: bool)
    ensures
        found == text@.contains(c),
{
    let n: usize = text.unicode_len();
    let mut i: usize = 0;
    while i < n
        invariant
            i <= n,
            n == text@.len(),
            forall|j: int| 0 <= j < i ==> text@[j] != c,
        decreases n - i,
    {
        if text.get_char(i) == c {
            return true;
        }
        i += 1;
    }
    false
}

/// Whether the typed `word` is a legal guess in hard mode after the guess `last` got the
/// feedback `result`.
pub fn obeys_hints(word: &str, last: &Word, result: &[u8; 5]) -> (kept: bool)
    ensures
        kept == keeps_hints(word@, last@, result@),
{
    let text: &String = last.origin();
    let n: usize = word.unicode_len();
    let mut i: usize = 0;
    while i < 5
        invariant
            i <= 5,
            n == word@.len(),
            text@ == last@,
            is_word(last@),
            forall|j: int| 0 <= j < i ==> keeps_hint(word@, last@, result@, j),
        decreases 5 - i,
    {
        let c: char = text.as_str().get_char(i);
        let mark: u8 = result[i];
        let kept: bool = if mark == EXACT {
            i < n && word.get_char(i) == c
        } else if mark == PRESENT {
            has_char(word, c)
        } else {
            mark == ABSENT || mark == 0
        };
        if !kept {
            assert(!keeps_hint(word@, last@, result@, i as int));
            return false;
        }
        i += 1;
    }
    true
}

/// Whether a feedback says that the guess was the answer: every symbol is `EXACT`.
pub fn is_correct(result: &[u8; 5]) -> (correct: bool)
    ensures
        correct == (forall|i: int| 0 <= i < 5 ==> result@[i] == EXACT),
{
    let mut i: usize = 0;
    while i < 5
        invariant
            i <= 5,
            forall|j: int| 0 <= j < i ==> result@[j] == EXACT,
        decreases 5 - i,
    {
        if result[i] != EXACT {
            return false;
        }
        i += 1;
    }
    true
}

/// The best symbol that the letter of rank `letter` has after the first `upto` positions of
/// `guess` got the feedback `result`, when it had `before`.
pub open spec fn best_after(before: u8, letter: int, guess: Seq<char>, result: Seq<u8>, upto: int) -> u8
    decreases upto,
{
    if upto <= 0 {
        before
    } else {
        let so_far = best_after(before, letter, guess, result, upto - 1);
        if letter_rank(guess[upto - 1]) == letter && result[upto - 1] > so_far {
            result[upto - 1]
        } else {
            so_far
        }
    }
}

/// Raises the best symbol known of each letter of `guess` to what `result` shows of it. `best`
/// holds one symbol for each letter of the alphabet, `A` first.
pub fn update_best(best: &mut [u8; 26], guess: &Word, result: &[u8; 5])
    ensures
        forall|k: int|
            0 <= k < 26 ==> (#[trigger] final(best)@[k]) == best_after(
                old(best)@[k],
                k,
                guess@,
                result@,
                5,
            ),
{
    let ghost before = best@;
    let text: &String = guess.origin();
    let mut i: usize = 0;
    while i < 5
        invariant
            i <= 5,
            text@ == guess@,
            is_word(guess@),
            forall|k: int|
                0 <= k < 26 ==> (#[trigger] best@[k]) == best_after(
                    before[k],
                    k,
                    guess@,
                    result@,
                    i as int,
                ),
        decreases 5 - i,
    {
        let c: char = text.as_str().get_char(i);
        let k: usize = (c as u8 - 65) as usize;
        if result[i] > best[k] {
            best[k] = result[i];
        }
        i += 1;
    }
}

/// The letter that shows a symbol: `G` for exact, `Y` for present, `R` for absent and `X` for
/// anything else.
pub open spec fn mark_of(symbol: u8) -> char {
    if symbol == EXACT {
        'G'
    } else if symbol == PRESENT {
        'Y'
    } else if symbol == ABSENT {
        'R'
    } else {
        'X'
    }
}

/// The letters that show a list of symbols.
pub open spec fn marks_of(symbols: Seq<u8>) -> Seq<char> {
    symbols.map_values(|s: u8| mark_of(s))
}

/// The symbol that a letter of a written feedback stands for: `R` for absent, `Y` for present
/// and `G` for exact. Other characters stand for none.
pub open spec fn symbol_of(mark: char) -> Option<u8> {
    if mark == 'G' {
        Some(EXACT)
    } else if mark == 'Y' {
        Some(PRESENT)
    } else if mark == 'R' {
        Some(ABSENT)
    } else {
        None
    }
}

/// Whether `marks` is a written feedback: five letters, each of them `R`, `Y` or `G`.
pub open spec fn is_written_feedback(marks: Seq<char>) -> bool {
    &&& marks.len() == 5
    &&& forall|i: int| 0 <= i < 5 ==> symbol_of(#[trigger] marks[i]) is Some
}

/// The feedback that `marks` writes down, if it is a written feedback.
pub fn read_marks(marks: &str) -> (read: Option<[u8; 5]>)
    ensures
        match read {
            Some(pattern) => is_written_feedback(marks@) && forall|i: int|
                0 <= i < 5 ==> symbol_of(marks@[i]) == Some(#[trigger] pattern@[i]),
            None => !is_written_feedback(marks@),
        },
{
    if marks.unicode_len() != 5 {
        return None;
    }
    let mut pattern: [u8; 5] = [0u8; 5];
    let mut i: usize = 0;
    while i < 5
        invariant
            i <= 5,
            marks@.len() == 5,
            forall|j: int| 0 <= j < i ==> symbol_of(marks@[j]) == Some(#[trigger] pattern@[j]),
        decreases 5 - i,
    {
        let mark: char = marks.get_char(i);
        let symbol: u8 = if mark == 'G' {
            EXACT
        } else if mark == 'Y' {
            PRESENT
        } else if mark == 'R' {
            ABSENT
        } else {
            assert(symbol_of(marks@[i as int]) is None);
            return None;
        };
        pattern[i] = symbol;
        i += 1;
    }
    assert forall|j: int| 0 <= j < 5 implies symbol_of(#[trigger] marks@[j]) is Some by {
        assert(symbol_of(marks@[j]) == Some(pattern@[j]));
    }
    Some(pattern)
}

/// Adds the letter that shows `symbol` to `line`.
fn push_mark(line: &mut String, symbol: u8)
    ensures
        final(line)@ == old(line)@.push(mark_of(symbol)),
{
    proof {
        reveal_strlit("G");
        reveal_strlit("Y");
        reveal_strlit("R");
        reveal_strlit("X");
    }
    let ghost before = line@;
    if symbol == EXACT {
        line.append("G");
        assert(line@ =~= before.push('G'));
    } else if symbol == PRESENT {
        line.append("Y");
        assert(line@ =~= before.push('Y'));
    } else if symbol == ABSENT {
        line.append("R");
        assert(line@ =~= before.push('R'));
    } else {
        line.append("X");
        assert(line@ =~= before.push('X'));
    }
}

/// The line that reports a turn: the five marks of the feedback, a blank, and the marks of the
/// best symbol of each letter of the alphabet.
pub fn show_line(result: &[u8; 5], best: &[u8; 26]) -> (line: String)
    ensures
        line@ == marks_of(result@) + seq![' '] + marks_of(best@),
{
    let mut line: String = String::new();
    let mut i: usize = 0;
    while i < 5
        invariant
            i <= 5,
            line@ == marks_of(result@).take(i as int),
        decreases 5 - i,
    {
        push_mark(&mut line, result[i]);
        assert(line@ =~= marks_of(result@).take(i + 1));
        i += 1;
    }
    proof {
        reveal_strlit(" ");
    }
    line.append(" ");
    let ghost head = marks_of(result@) + seq![' '];
    assert(line@ =~= head);
    i = 0;
    while i < 26
        invariant
            i <= 26,
            head == marks_of(result@) + seq![' '],
            line@ == head + marks_of(best@).take(i as int),
        decreases 26 - i,
    {
        push_mark(&mut line, best[i]);
        assert(line@ =~= head + marks_of(best@).take(i + 1));
        i += 1;
    }
    assert(marks_of(best@).take(26) =~= marks_of(best@));
    line
}

/// The order into which a generator seeded with `seed` shuffles a list of `len` items: the
/// item at place `i` of the shuffled list is the one that stood at place `shuffle_order(seed,
/// len)[i]`.
pub uninterp spec fn shuffle_order(seed: u64, len: nat) -> Seq<int>;

/// Whether `mixed` holds the items of `items` in the order `order`, which names every place of
/// `items` once.
pub open spec fn is_rearranged(items: Seq<String>, mixed: Seq<String>, order: Seq<int>) -> bool {
    &&& mixed.len() == items.len()
    &&& order.len() == items.len()
    &&& forall|i: int| 0 <= i < order.len() ==> 0 <= #[trigger] order[i] < items.len()
    &&& forall|i: int, j: int| 0 <= i < j < order.len() ==> order[i] != order[j]
    &&& forall|i: int| 0 <= i < mixed.len() ==> (#[trigger] mixed[i])@ == items[order[i]]@
}

/// The words of `items` shuffled by `rand`'s `SliceRandom::shuffle` with a `StdRng` that
/// `SeedableRng::seed_from_u64` makes from `seed`. The shuffle swaps items, so the result holds
/// every item once; which order it gives depends on the seed and the number of items alone.
#[verifier::external_body]
fn shuffled(items: &Vec<String>, seed: u64) -> (mixed: Vec<String>)
    ensures
        is_rearranged(items@, mixed@, shuffle_order(seed, items@.len())),
{
    let mut mixed: Vec<String> = items.clone();
    let mut rng: StdRng = StdRng::seed_from_u64(seed);
    mixed.shuffle(&mut rng);
    mixed
}

/// The list that answers are drawn from: `answer_file` where it holds words, the built-in
/// `secrets` otherwise.
pub open spec fn answer_source(answer_file: Seq<String>, secrets: Seq<String>) -> Seq<String> {
    if answer_file.len() == 0 {
        secrets
    } else {
        answer_file
    }
}

/// The word of day `day`, counted from 1, when `source` is shuffled with `seed`.
pub open spec fn word_of_day(source: Seq<String>, seed: u64, day: int) -> Seq<char> {
    source[shuffle_order(seed, source.len())[day - 1]]@
}

/// Whether `order` names every place of a list of `len` items once: it has `len` entries, each
/// of them a place of the list, and no two of them the same.
pub open spec fn is_order(order: Seq<int>, len: nat) -> bool {
    &&& order.len() == len
    &&& forall|i: int| 0 <= i < order.len() ==> 0 <= #[trigger] order[i] < len
    &&& forall|i: int, j: int| 0 <= i < j < order.len() ==> order[i] != order[j]
}

/// The answer of day `day`, counted from 1, from the shuffled list `mixed`: the word at place
/// `day - 1`, read in upper case. Afterwards `day` is the day after, starting again from 0
/// behind the last word.
///
/// Fails with `INVALID COMMAND LINE: DAY` exactly when there are fewer words than `day`, and
/// then leaves `day` as it is. Fails with `INVALID` exactly when there is a word of the day
/// and it is no legal answer of five letters.
pub fn pick_answer(
    mixed: &Vec<String>,
    answer_file: &Vec<String>,
    secrets: &Vec<String>,
    day: &mut u64,
) -> (made: Result<Word, String>)
    requires
        *old(day) >= 1,
    ensures
        if *old(day) > mixed@.len() {
            &&& made matches Err(e)
            &&& e@ == "INVALID COMMAND LINE: DAY"@
            &&& *final(day) == *old(day)
        } else {
            let picked = mixed@[*old(day) - 1]@;
            &&& *final(day) == (*old(day) + 1) % (mixed@.len() as int)
            &&& match made {
                Ok(w) => w@ == upper_text(upper_case(picked)) && is_playable(
                    picked,
                    answer_file@,
                    secrets@,
                ),
                Err(e) => e@ == "INVALID"@ && !is_playable(picked, answer_file@, secrets@),
            }
        },
{
    let count: u64 = mixed.len() as u64;
    if *day > count {
        return Err(String::from_str("INVALID COMMAND LINE: DAY"));
    }
    let at: usize = (*day - 1) as usize;
    let today: u64 = *day;
    let next: u64 = if today == count {
        if count == 1 {
            0
        } else {
            1
        }
    } else if today + 1 == count {
        0
    } else {
        today + 1
    };
    proof {
        let n = count as int;
        let d = today as int;
        assert((d + 1) % n == next as int) by (nonlinear_arith)
            requires
                1 <= d <= n,
                next as int == if d == n {
                    if n == 1 {
                        0int
                    } else {
                        1int
                    }
                } else if d + 1 == n {
                    0int
                } else {
                    d + 1
                },
        ;
    }
    *day = next;
    gen_word(mixed[at].as_str(), answer_file, secrets)
}

/// The answer of day `day`, counted from 1, when the answers are shuffled with `seed`: the
/// word at place `day - 1` of the shuffled list. The shuffle puts the words into an order that
/// names every place of the list once, so that a run of days over the whole list draws no
/// word twice. Afterwards `day` is the day after, starting again from 0 behind the last word.
///
/// Fails with `INVALID COMMAND LINE: DAY` exactly when there are fewer words than `day`, and
/// with `INVALID` exactly when the word of the day is no legal answer of five letters.
pub fn random_answer(
    answer_file: &Vec<String>,
    secrets: &Vec<String>,
    day: &mut u64,
    seed: u64,
) -> (made: Result<Word, String>)
    requires
        *old(day) >= 1,
    ensures
        ({
            let source = answer_source(answer_file@, secrets@);
            &&& is_order(shuffle_order(seed, source.len()), source.len())
            &&& if *old(day) > source.len() {
                &&& made matches Err(e)
                &&& e@ == "INVALID COMMAND LINE: DAY"@
                &&& *final(day) == *old(day)
            } else {
                let picked = word_of_day(source, seed, *old(day) as int);
                &&& *final(day) == (*old(day) + 1) % (source.len() as int)
                &&& match made {
                    Ok(w) => w@ == upper_text(upper_case(picked)) && is_playable(
                        picked,
                        answer_file@,
                        secrets@,
                    ),
                    Err(e) => e@ == "INVALID"@ && !is_playable(picked, answer_file@, secrets@),
                }
            }
        }),
{
    let source: &Vec<String> = if answer_file.len() == 0 {
        secrets
    } else {
        answer_file
    };
    let mixed: Vec<String> = shuffled(source, seed);
    pick_answer(&mixed, answer_file, secrets, day)
}

/// A key that was pressed while a word is typed.
#[derive(Debug, Clone, Copy, PartialEq, Eq, Structural)]
pub enum Key {
    /// A key that gives a character.
    Char(char),
    /// The key that takes the last character back.
    Backspace,
    /// The key that ends the input.
    Enter,
    /// The key that leaves the game.
    Esc,
    /// Any other key.
    Other,
}

/// What follows a key.
#[derive(Debug, Clone, Copy, PartialEq, Eq, Structural)]
pub enum InputStep {
    /// The input goes on.
    Edit,
    /// The input is complete.
    Submit,
    /// The game is left.
    Quit,
}

/// The number of bytes that a character takes in a text.
pub open spec fn char_bytes(c: char) -> nat {
    if (c as u32) < 0x80 {
        1
    } else if (c as u32) < 0x800 {
        2
    } else if (c as u32) < 0x10000 {
        3
    } else {
        4
    }
}

/// The number of bytes that the first `upto` characters take in a text.
pub open spec fn text_bytes(text: Seq<char>, upto: int) -> nat
    decreases upto,
{
    if upto <= 0 {
        0
    } else {
        text_bytes(text, upto - 1) + char_bytes(text[upto - 1])
    }
}

/// Whether the input has room for one more character: it takes fewer than five bytes.
pub open spec fn has_room(input: Seq<char>) -> bool {
    text_bytes(input, input.len() as int) < 5
}

/// A longer prefix of a text takes no fewer bytes.
pub proof fn lemma_text_bytes_grow(text: Seq<char>, from: int, upto: int)
    requires
        0 <= from <= upto,
    ensures
        text_bytes(text, from) <= text_bytes(text, upto),
    decreases upto,
{
    if from < upto {
        lemma_text_bytes_grow(text, from, upto - 1);
    }
}

/// Whether the input has room for one more character.
fn check_room(input: &Vec<char>) -> (room: bool)
    ensures
        room == has_room(input@),
{
    let mut bytes: usize = 0;
    let mut i: usize = 0;
    while i < input.len()
        invariant
            i <= input@.len(),
            bytes == text_bytes(input@, i as int),
            bytes < 5,
        decreases input@.len() - i,
    {
        let c: u32 = input[i] as u32;
        let width: usize = if c < 0x80 {
            1
        } else if c < 0x800 {
            2
        } else if c < 0x10000 {
            3
        } else {
            4
        };
        bytes = bytes + width;
        i += 1;
        if bytes >= 5 {
            proof {
                lemma_text_bytes_grow(input@, i as int, input@.len() as int);
            }
            return false;
        }
    }
    true
}

/// Takes one key into the input that is being typed, and says what follows. A character is
/// added while the input has room, the backspace key takes the last character away, and every
/// other key leaves the input as it is.
pub fn edit_input(input: &mut Vec<char>, key: Key) -> (step: InputStep)
    ensures
        match key {
            Key::Char(c) => step == InputStep::Edit && final(input)@ == if has_room(old(input)@) {
                old(input)@.push(c)
            } else {
                old(input)@
            },
            Key::Backspace => step == InputStep::Edit && final(input)@ == if old(input)@.len() > 0 {
                old(input)@.drop_last()
            } else {
                old(input)@
            },
            Key::Enter => step == InputStep::Submit && final(input)@ == old(input)@,
            Key::Esc => step == InputStep::Quit && final(input)@ == old(input)@,
            Key::Other => step == InputStep::Edit && final(input)@ == old(input)@,
        },
{
    match key {
        Key::Char(c) => {
            if check_room(input) {
                input.push(c);
            }
            InputStep::Edit
        },
        Key::Backspace => {
            if input.len() > 0 {
                input.pop();
            }
            InputStep::Edit
        },
        Key::Enter => InputStep::Submit,
        Key::Esc => InputStep::Quit,
        Key::Other => InputStep::Edit,
    }
}

} // verus!
