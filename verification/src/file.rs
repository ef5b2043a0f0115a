//! What is kept in files: word lists, settings and the rounds played so far.

use vstd::prelude::*;
use vstd::string::StringExecFns;
use crate::order::{
    comes_before, lemma_text_before_irreflexive, lemma_text_before_total,
    lemma_text_before_transitive, text_before,
};
use crate::partition::{count_texts, counts_match, texts_of};
use crate::word::{upper_case, upper_cased};

verus! {

/// One finished round of the game: the answer and the guesses that were made, in order.
#[derive(Debug)]
pub struct Round {
    pub answer: String,
    pub guesses: Vec<String>,
}

/// The rounds that were played so far, as they are kept between two runs.
#[derive(Debug)]
pub struct GameData {
    pub total_rounds: i32,
    pub games: Vec<Round>,
}

/// The settings that a configuration file can give. Each of them may be missing.
#[derive(Debug)]
pub struct Config {
    pub random: Option<bool>,
    pub difficult: Option<bool>,
    pub stats: Option<bool>,
    pub day: Option<u64>,
    pub seed: Option<u64>,
    pub final_set: Option<String>,
    pub acceptable_set: Option<String>,
    pub state: Option<String>,
    pub word: Option<String>,
}

/// Whether `words` is what a word list holds after reading `lines`: every line in upper case,
/// each text once, in the order of the dictionary.
pub open spec fn is_word_list(words: Seq<String>, lines: Seq<String>) -> bool {
    &&& forall|i: int, j: int|
        0 <= i < j < words.len() ==> !text_before(#[trigger] words[j]@, #[trigger] words[i]@)
    &&& forall|i: int, j: int|
        0 <= i < j < words.len() ==> (#[trigger] words[i])@ != (#[trigger] words[j])@
    &&& forall|i: int|
        0 <= i < words.len() ==> exists|k: int|
            0 <= k < lines.len() && upper_case((#[trigger] lines[k])@) == (#[trigger] words[i])@
    &&& forall|k: int|
        0 <= k < lines.len() ==> texts_of(words).contains(upper_case((#[trigger] lines[k])@))
}

/// The place at which `text` goes into the sorted `words`: behind every word that comes
/// before it.
fn place_in_order(words: &Vec<String>, text: &String) -> (place: usize)
    ensures
        place <= words@.len(),
        forall|i: int| 0 <= i < place ==> text_before(#[trigger] words@[i]@, text@),
        place < words@.len() ==> !text_before(words@[place as int]@, text@),
{
    let mut place: usize = 0;
    while place < words.len()
        invariant
            place <= words@.len(),
            forall|i: int| 0 <= i < place ==> text_before(#[trigger] words@[i]@, text@),
        decreases words@.len() - place,
    {
        if !comes_before(&words[place], text) {
            return place;
        }
        place += 1;
    }
    place
}

/// The word list that the lines of a file give: every line in upper case, each text once, in
/// the order of the dictionary.
pub fn normalize_words(lines: &Vec<String>) -> (words: Vec<String>)
    ensures
        is_word_list(words@, lines@),
{
    let mut words: Vec<String> = Vec::new();
    let mut n: usize = 0;
    while n < lines.len()
        invariant
            n <= lines@.len(),
            is_word_list(words@, lines@.take(n as int)),
        decreases lines@.len() - n,
    {
        let ghost before = words@;
        let ghost read = lines@.take(n as int);
        let ghost more = lines@.take(n + 1);
        let upper: String = upper_cased(lines[n].as_str());
        let ghost text = upper@;
        let place: usize = place_in_order(&words, &upper);
        let known: bool = place < words.len() && words[place] == upper;
        proof {
            assert(more[n as int] == lines@[n as int]);
            assert forall|k: int| 0 <= k < read.len() implies read[k] == more[k] by {}
        }
        if known {
            proof {
                assert forall|i: int| 0 <= i < words@.len() implies exists|k: int|
                    0 <= k < more.len() && upper_case((#[trigger] more[k])@) == (
                    #[trigger] words@[i])@ by {
                    let k = choose|k: int|
                        0 <= k < read.len() && upper_case((#[trigger] read[k])@) == words@[i]@;
                    assert(more[k] == read[k]);
                }
                assert forall|k: int| 0 <= k < more.len() implies texts_of(words@).contains(
                    upper_case((#[trigger] more[k])@),
                ) by {
                    if k < n {
                        assert(more[k] == read[k]);
                    } else {
                        assert(texts_of(words@)[place as int] == text);
                    }
                }
            }
        } else {
            words.insert(place, upper);
            proof {
                let after = words@;
                assert(after =~= before.insert(place as int, upper));
                assert forall|i: int| 0 <= i < before.len() implies text_before(
                    before[i]@,
                    text,
                ) || text_before(text, #[trigger] before[i]@) by {
                    lemma_text_before_total(before[i]@, text);
                    if before[i]@ == text {
                        if i < place {
                            lemma_text_before_irreflexive(text);
                        } else if i > place {
                            lemma_text_before_total(before[place as int]@, text);
                            assert(text_before(text, before[place as int]@));
                        }
                    }
                }
                assert forall|i: int| place <= i < before.len() implies text_before(
                    text,
                    #[trigger] before[i]@,
                ) by {
                    lemma_text_before_total(before[place as int]@, text);
                    assert(text_before(text, before[place as int]@));
                    if i > place {
                        lemma_text_before_total(before[i]@, text);
                        if text_before(before[i]@, text) {
                            lemma_text_before_transitive(
                                before[i]@,
                                text,
                                before[place as int]@,
                            );
                        }
                        if before[i]@ == text {
                        }
                    }
                }
                assert forall|i: int, j: int| 0 <= i < j < after.len() implies !text_before(
                    #[trigger] after[j]@,
                    #[trigger] after[i]@,
                ) && after[i]@ != after[j]@ by {
                    let a = if i < place { i } else { i - 1 };
                    let b = if j < place { j } else { j - 1 };
                    if i == place {
                        assert(after[j] == before[b]);
                        assert(text_before(text, before[b]@));
                        if text_before(before[b]@, text) {
                            lemma_text_before_transitive(text, before[b]@, text);
                        }
                        lemma_text_before_irreflexive(text);
                    } else if j == place {
                        assert(after[i] == before[a]);
                        assert(text_before(before[a]@, text));
                        if text_before(text, before[a]@) {
                            lemma_text_before_transitive(text, before[a]@, text);
                        }
                        lemma_text_before_irreflexive(text);
                    } else {
                        assert(after[i] == before[a]);
                        assert(after[j] == before[b]);
                    }
                }
                assert forall|i: int| 0 <= i < after.len() implies exists|k: int|
                    0 <= k < more.len() && upper_case((#[trigger] more[k])@) == (
                    #[trigger] after[i])@ by {
                    if i == place {
                        assert(upper_case(more[n as int]@) == after[i]@);
                    } else {
                        let a = if i < place { i } else { i - 1 };
                        assert(after[i] == before[a]);
                        let k = choose|k: int|
                            0 <= k < read.len() && upper_case((#[trigger] read[k])@)
                                == before[a]@;
                        assert(more[k] == read[k]);
                    }
                }
                assert forall|k: int| 0 <= k < more.len() implies texts_of(after).contains(
                    upper_case((#[trigger] more[k])@),
                ) by {
                    if k < n {
                        assert(more[k] == read[k]);
                        let w = upper_case(read[k]@);
                        assert(texts_of(before).contains(w));
                        let a = choose|a: int|
                            0 <= a < texts_of(before).len() && texts_of(before)[a] == w;
                        if a < place {
                            assert(texts_of(after)[a] == w);
                        } else {
                            assert(texts_of(after)[a + 1] == w);
                        }
                    } else {
                        assert(texts_of(after)[place as int] == text);
                    }
                }
            }
        }
        n += 1;
    }
    assert(lines@.take(lines@.len() as int) =~= lines@);
    words
}

/// What the rounds played so far add up to: the rounds that were won, the guesses that the won
/// rounds took together, and how often each word was guessed, the words in the order in which
/// they were first guessed.
#[derive(Debug)]
pub struct Stats {
    pub success_round: u64,
    pub success_try: u64,
    pub total_word: Vec<(String, usize)>,
}

/// Whether a round was won: its last guess is the answer.
pub open spec fn is_won(round: Round) -> bool {
    round.guesses@.len() > 0 && round.guesses@.last()@ == round.answer@
}

/// Whether the kept rounds can come from games that were played: the number of rounds is the
/// number that is kept with them, and every round has one to six guesses.
pub open spec fn is_sound_state(data: GameData) -> bool {
    &&& data.total_rounds == data.games@.len()
    &&& forall|i: int|
        0 <= i < data.games@.len() ==> 1 <= (#[trigger] data.games@[i]).guesses@.len() <= 6
}

/// The number of rounds among the first `upto` that were won.
pub open spec fn wins(games: Seq<Round>, upto: int) -> nat
    decreases upto,
{
    if upto <= 0 {
        0
    } else {
        wins(games, upto - 1) + if is_won(games[upto - 1]) {
            1nat
        } else {
            0nat
        }
    }
}

/// The number of guesses that the won rounds among the first `upto` took together.
pub open spec fn winning_tries(games: Seq<Round>, upto: int) -> nat
    decreases upto,
{
    if upto <= 0 {
        0
    } else {
        winning_tries(games, upto - 1) + if is_won(games[upto - 1]) {
            games[upto - 1].guesses@.len()
        } else {
            0nat
        }
    }
}

/// The guesses of the first `upto` rounds, one round after the other.
pub open spec fn all_guesses(games: Seq<Round>, upto: int) -> Seq<Seq<char>>
    decreases upto,
{
    if upto <= 0 {
        Seq::empty()
    } else {
        all_guesses(games, upto - 1) + texts_of(games[upto - 1].guesses@)
    }
}

/// Adds up the rounds that were played so far.
///
/// Fails with `INVALID STATE` exactly when the kept rounds cannot come from games that were
/// played.
pub fn tally_state(data: &GameData) -> (tally: Result<Stats, String>)
    ensures
        match tally {
            Ok(stats) => {
                &&& is_sound_state(*data)
                &&& stats.success_round == wins(data.games@, data.games@.len() as int)
                &&& stats.success_try == winning_tries(data.games@, data.games@.len() as int)
                &&& counts_match(
                    stats.total_word@,
                    all_guesses(data.games@, data.games@.len() as int),
                )
            },
            Err(e) => e@ == "INVALID STATE"@ && !is_sound_state(*data),
        },
{
    if data.total_rounds < 0 || data.total_rounds as usize != data.games.len() {
        return Err(String::from_str("INVALID STATE"));
    }
    let mut success_round: u64 = 0;
    let mut success_try: u64 = 0;
    let mut guessed: Vec<String> = Vec::new();
    let mut i: usize = 0;
    assert(texts_of(guessed@) =~= all_guesses(data.games@, 0));
    while i < data.games.len()
        invariant
            i <= data.games@.len() <= i32::MAX,
            data.total_rounds == data.games@.len(),
            forall|r: int| 0 <= r < i ==> 1 <= (#[trigger] data.games@[r]).guesses@.len() <= 6,
            success_round == wins(data.games@, i as int),
            success_round <= i,
            success_try == winning_tries(data.games@, i as int),
            success_try <= 6 * i,
            texts_of(guessed@) == all_guesses(data.games@, i as int),
        decreases data.games@.len() - i,
    {
        let round: &Round = &data.games[i];
        let count: usize = round.guesses.len();
        if count == 0 || count > 6 {
            return Err(String::from_str("INVALID STATE"));
        }
        if round.guesses[count - 1] == round.answer {
            success_round = success_round + 1;
            success_try = success_try + count as u64;
        }
        let ghost before = texts_of(guessed@);
        let mut j: usize = 0;
        while j < count
            invariant
                j <= count,
                count == round.guesses@.len(),
                texts_of(guessed@) == before + texts_of(round.guesses@).take(j as int),
            decreases count - j,
        {
            let ghost so_far = texts_of(guessed@);
            guessed.push(round.guesses[j].clone());
            assert(texts_of(guessed@) =~= so_far.push(round.guesses@[j as int]@));
            assert(texts_of(round.guesses@).take(j + 1) =~= texts_of(round.guesses@).take(
                j as int,
            ).push(round.guesses@[j as int]@));
            assert(texts_of(guessed@) =~= before + texts_of(round.guesses@).take(j + 1));
            j += 1;
        }
        assert(texts_of(round.guesses@).take(count as int) =~= texts_of(round.guesses@));
        i += 1;
    }
    let total_word: Vec<(String, usize)> = count_texts(&guessed);
    Ok(Stats { success_round, success_try, total_word })
}

} // verus!
