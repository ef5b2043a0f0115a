//! Words, and the feedback that a guess gets.

use vstd::prelude::*;
use vstd::string::*;

verus! {

/// Number of letters of every word of the game.
pub const WORD_LEN: usize = 5;

/// Number of letters of the alphabet.
pub const ALPHABET: usize = 26;

/// Feedback symbol of a position that has not been evaluated yet. It never occurs in a
/// completed pattern.
pub const PENDING: u8 = 0;

/// Feedback symbol for a guess letter that the secret has no unmatched occurrence left for.
pub const ABSENT: u8 = 1;

/// Feedback symbol for a guess letter that occurs in the secret at another position.
pub const PRESENT: u8 = 2;

/// Feedback symbol for a guess letter that stands at the same position in the secret.
pub const EXACT: u8 = 3;

/// What can go wrong in the engine.
#[derive(Debug, Clone, Copy, PartialEq, Eq, Structural)]
pub enum EngineError {
    /// A word is not made of exactly five letters of the alphabet.
    InvalidWord,
    /// A ranking was asked for although no secret is consistent with the history.
    EmptyCandidateSet,
}

/// Whether `c` is one of the letters `A` to `Z`.
pub open spec fn is_upper(c: char) -> bool {
    'A' <= c <= 'Z'
}

/// Whether `c` is one of the letters `a` to `z`.
pub open spec fn is_lower(c: char) -> bool {
    'a' <= c <= 'z'
}

/// The upper-case form of an ASCII letter; any other character is left as it is.
pub open spec fn upper(c: char) -> char {
    if is_lower(c) {
        ((c as u8) - 32) as char
    } else {
        c
    }
}

/// The upper-case form of a text, letter by letter.
pub open spec fn upper_text(s: Seq<char>) -> Seq<char> {
    Seq::new(s.len(), |i: int| upper(s[i]))
}

/// Whether every character of `s` is an ASCII character.
pub open spec fn is_ascii_text(s: Seq<char>) -> bool {
    forall|i: int| 0 <= i < s.len() ==> (#[trigger] s[i]) as u32 <= 127
}

/// The upper-case form that Unicode gives a text. A letter may have an upper-case form of more
/// than one character, so the result may be longer than the text.
pub uninterp spec fn unicode_upper(text: Seq<char>) -> Seq<char>;

/// A text in upper case: letter by letter where the text is ASCII, and as Unicode has it
/// otherwise.
pub open spec fn upper_case(text: Seq<char>) -> Seq<char> {
    if is_ascii_text(text) {
        upper_text(text)
    } else {
        unicode_upper(text)
    }
}

/// Whether `s` can be read as a word: five characters, each a letter of either case.
pub open spec fn is_spelling(s: Seq<char>) -> bool {
    &&& s.len() == WORD_LEN
    &&& forall|i: int| 0 <= i < s.len() ==> is_upper(#[trigger] s[i]) || is_lower(s[i])
}

/// Whether `s` is a word in normal form: five upper-case letters.
pub open spec fn is_word(s: Seq<char>) -> bool {
    &&& s.len() == WORD_LEN
    &&& forall|i: int| 0 <= i < s.len() ==> is_upper(#[trigger] s[i])
}

/// The place of an upper-case letter in the alphabet, from 0 for `A`.
pub open spec fn letter_rank(c: char) -> int {
    c as int - 'A' as int
}

/// Number of positions below `upto` at which `w` holds the letter `c`.
pub open spec fn occurrences(w: Seq<char>, c: char, upto: int) -> nat
    decreases upto,
{
    if upto <= 0 {
        0
    } else {
        occurrences(w, c, upto - 1) + if w[upto - 1] == c {
            1nat
        } else {
            0nat
        }
    }
}

/// Number of positions below `upto` at which both `secret` and `guess` hold the letter `c`.
pub open spec fn exact_hits(secret: Seq<char>, guess: Seq<char>, c: char, upto: int) -> nat
    decreases upto,
{
    if upto <= 0 {
        0
    } else {
        exact_hits(secret, guess, c, upto - 1) + if secret[upto - 1] == c && guess[upto - 1] == c {
            1nat
        } else {
            0nat
        }
    }
}

/// Number of positions below `upto` at which `guess` holds the letter `c` and `secret` holds
/// another letter.
pub open spec fn misplaced(secret: Seq<char>, guess: Seq<char>, c: char, upto: int) -> nat
    decreases upto,
{
    if upto <= 0 {
        0
    } else {
        misplaced(secret, guess, c, upto - 1) + if guess[upto - 1] == c && secret[upto - 1] != c {
            1nat
        } else {
            0nat
        }
    }
}

/// Number of occurrences of `c` in `secret` that `guess` does not match at their own position.
pub open spec fn unmatched(secret: Seq<char>, guess: Seq<char>, c: char) -> int {
    occurrences(secret, c, WORD_LEN as int) - exact_hits(secret, guess, c, WORD_LEN as int)
}

/// The feedback symbol at position `i` of `guess` when the hidden word is `secret`.
///
/// A letter at its own position in the secret is `EXACT`. Any other letter is `PRESENT` as
/// long as the secret has an unmatched occurrence left for it, counting the misplaced copies
/// of the letter from the left; after that it is `ABSENT`.
pub open spec fn symbol_at(secret: Seq<char>, guess: Seq<char>, i: int) -> u8 {
    if guess[i] == secret[i] {
        EXACT
    } else if misplaced(secret, guess, guess[i], i) < unmatched(secret, guess, guess[i]) {
        PRESENT
    } else {
        ABSENT
    }
}

/// The feedback pattern of `guess` when the hidden word is `secret`.
pub open spec fn feedback(secret: Seq<char>, guess: Seq<char>) -> Seq<u8> {
    Seq::new(WORD_LEN as nat, |i: int| symbol_at(secret, guess, i))
}

/// Number of unmatched occurrences of `c` in `secret` that are still to hand out when the
/// misplaced copies of `c` below position `upto` of `guess` have taken one each.
spec fn supply_left(secret: Seq<char>, guess: Seq<char>, c: char, upto: int) -> int {
    let left = unmatched(secret, guess, c) - misplaced(secret, guess, c, upto);
    if left < 0 {
        0
    } else {
        left
    }
}

/// The first `upto` letters of `w` read as a number in base 26, `A` being the digit 0.
pub open spec fn code_upto(w: Seq<char>, upto: int) -> int
    decreases upto,
{
    if upto <= 0 {
        0
    } else {
        code_upto(w, upto - 1) * 26 + letter_rank(w[upto - 1])
    }
}

/// The number of words of `upto` letters: 26 to the power of `upto`.
pub open spec fn code_limit(upto: int) -> int
    decreases upto,
{
    if upto <= 0 {
        1
    } else {
        code_limit(upto - 1) * 26
    }
}

/// The word read as a number in base 26. Among words, a larger code comes later in the
/// alphabet.
pub open spec fn word_code(w: Seq<char>) -> int {
    code_upto(w, WORD_LEN as int)
}

/// The upper-case letter at place `rank` of the alphabet.
spec fn letter_of(rank: int) -> char {
    (rank + 'A' as int) as char
}

/// What the list of remaining positions of the letter `c` holds once the first `done`
/// positions of `guess` have taken their exact matches out of the secret's occurrences.
spec fn remaining_positions(
    secret: Seq<char>,
    guess: Seq<char>,
    c: char,
    list: Seq<u8>,
    done: int,
) -> bool {
    &&& forall|a: int, b: int| 0 <= a < b < list.len() ==> list[a] < list[b]
    &&& forall|a: int|
        0 <= a < list.len() ==> {
            &&& (#[trigger] list[a]) < WORD_LEN
            &&& secret[list[a] as int] == c
            &&& !(list[a] < done && guess[list[a] as int] == c)
        }
    &&& forall|j: int|
        0 <= j < WORD_LEN && secret[j] == c && !(j < done && guess[j] == c) ==> list.contains(
            j as u8,
        )
    &&& list.len() == occurrences(secret, c, WORD_LEN as int) - exact_hits(secret, guess, c, done)
}

/// A word of the game: five upper-case letters, with the positions of each letter.
pub struct Word {
    origin: String,
    letters: Vec<u8>,
    code: u32,
    letter: Vec<Vec<u8>>,
}

impl View for Word {
    type V = Seq<char>;

    /// The five letters of the word.
    closed spec fn view(&self) -> Seq<char> {
        self.origin@
    }
}

impl Word {
    #[verifier::type_invariant]
    spec fn well_formed(self) -> bool {
        &&& is_word(self.origin@)
        &&& self.letters@.len() == WORD_LEN
        &&& forall|i: int|
            0 <= i < WORD_LEN ==> (#[trigger] self.letters@[i]) as int == letter_rank(
                self.origin@[i],
            )
        &&& self.code as int == word_code(self.origin@)
        &&& self.letter@.len() == ALPHABET
        &&& forall|k: int|
            0 <= k < ALPHABET ==> remaining_positions(
                self.origin@,
                self.origin@,
                letter_of(k),
                (#[trigger] self.letter@[k])@,
                0,
            )
    }

    /// Reads `word` as a word of the game, in upper case.
    ///
    /// Fails with `InvalidWord` exactly when `word` is not made of five letters.
    pub fn new(word: &str) -> (made: Result<Word, EngineError>)
        ensures
            match made {
                Ok(w) => is_spelling(word@) && w@ == upper_text(word@),
                Err(e) => e == EngineError::InvalidWord && !is_spelling(word@),
            },
    {
        if word.unicode_len() != WORD_LEN {
            return Err(EngineError::InvalidWord);
        }
        let mut letters: Vec<u8> = Vec::new();
        let mut i: usize = 0;
        while i < WORD_LEN
            invariant
                i <= WORD_LEN,
                word@.len() == WORD_LEN,
                letters@.len() == i,
                forall|j: int| 0 <= j < i ==> is_upper(#[trigger] word@[j]) || is_lower(word@[j]),
                forall|j: int|
                    0 <= j < i ==> (#[trigger] letters@[j]) as int == letter_rank(upper(word@[j])),
            decreases WORD_LEN - i,
        {
            let c: char = word.get_char(i);
            if 'A' <= c && c <= 'Z' {
                letters.push(c as u8 - 65);
            } else if 'a' <= c && c <= 'z' {
                letters.push(c as u8 - 97);
            } else {
                return Err(EngineError::InvalidWord);
            }
            i += 1;
        }
        assert(is_ascii_text(word@)) by {
            assert forall|j: int| 0 <= j < word@.len() implies (#[trigger] word@[j]) as u32
                <= 127 by {
                assert(is_upper(word@[j]) || is_lower(word@[j]));
            }
        }
        let origin: String = upper_cased(word);
        let letter: Vec<Vec<u8>> = occurrence_index(&letters, Ghost(origin@));
        let mut code: u32 = 0;
        i = 0;
        while i < WORD_LEN
            invariant
                i <= WORD_LEN,
                letters@.len() == WORD_LEN,
                forall|j: int| 0 <= j < WORD_LEN ==> (#[trigger] letters@[j]) < 26,
                code as int == code_upto(origin@, i as int),
                forall|j: int|
                    0 <= j < WORD_LEN ==> (#[trigger] letters@[j]) as int == letter_rank(
                        origin@[j],
                    ),
                code_upto(origin@, i as int) < code_limit(i as int),
            decreases WORD_LEN - i,
        {
            proof {
                reveal_with_fuel(code_limit, 6);
            }
            code = code * 26 + letters[i] as u32;
            i += 1;
        }
        Ok(Word { origin, letters, code, letter })
    }

    /// The feedback pattern that `guess` gets when this word is the secret.
    ///
    /// The pattern is worked out on a fresh copy of the secret's occurrence index. A first pass
    /// over the guess takes the exact matches out of the copy and marks every other letter that
    /// still has an occurrence as tentatively present. A second pass hands the occurrences that
    /// are left to the tentatively present letters from the left, one each, and marks the
    /// letters that get none as absent.
    pub fn compare(&self, guess: &Word) -> (pattern: [u8; 5])
        ensures
            pattern@ == feedback(self@, guess@),
    {
        proof {
            use_type_invariant(self);
            use_type_invariant(guess);
        }
        let ghost secret = self@;
        let ghost tried = guess@;
        let mut remaining: Vec<Vec<u8>> = copy_index(&self.letter);
        let mut pattern: [u8; 5] = [PENDING; 5];
        let mut i: usize = 0;
        while i < WORD_LEN
            invariant
                i <= WORD_LEN,
                secret == self@,
                tried == guess@,
                is_word(secret),
                is_word(tried),
                guess.letters@.len() == WORD_LEN,
                forall|j: int|
                    0 <= j < WORD_LEN ==> (#[trigger] guess.letters@[j]) as int == letter_rank(
                        tried[j],
                    ),
                remaining@.len() == ALPHABET,
                forall|k: int|
                    0 <= k < ALPHABET ==> remaining_positions(
                        secret,
                        tried,
                        letter_of(k),
                        (#[trigger] remaining@[k])@,
                        i as int,
                    ),
                forall|j: int|
                    0 <= j < i ==> {
                        &&& ((#[trigger] pattern@[j]) == EXACT <==> tried[j] == secret[j])
                        &&& (pattern@[j] == ABSENT || pattern@[j] == PRESENT || pattern@[j]
                            == EXACT)
                        &&& (pattern@[j] == ABSENT ==> occurrences(
                            secret,
                            tried[j],
                            WORD_LEN as int,
                        ) - exact_hits(secret, tried, tried[j], i as int) <= 0)
                    },
            decreases WORD_LEN - i,
        {
            let g: usize = guess.letters[i] as usize;
            let ghost c = tried[i as int];
            let ghost before = remaining@;
            let ghost list = remaining@[g as int]@;
            assert(c == letter_of(g as int));
            assert(remaining_positions(secret, tried, c, list, i as int));
            if remaining[g].len() == 0 {
                pattern[i] = ABSENT;
                assert(secret[i as int] != c) by {
                    if secret[i as int] == c {
                        assert(list.contains(i as u8));
                    }
                }
            } else {
                pattern[i] = PRESENT;
                let found: Option<usize> = position_in(&remaining[g], i as u8);
                match found {
                    Some(at) => {
                        remaining[g].remove(at);
                        pattern[i] = EXACT;
                        proof {
                            let after = remaining@[g as int]@;
                            assert(after == list.remove(at as int));
                            assert(secret[i as int] == c);
                            assert forall|j: int|
                                0 <= j < WORD_LEN && secret[j] == c && !(j < i + 1 && tried[j]
                                    == c) implies after.contains(j as u8) by {
                                assert(list.contains(j as u8));
                                let a = choose|a: int| 0 <= a < list.len() && list[a] == j as u8;
                                if a < at {
                                    assert(after[a] == j as u8);
                                } else {
                                    assert(a != at);
                                    assert(after[a - 1] == j as u8);
                                }
                            }
                            assert forall|a: int| 0 <= a < after.len() implies {
                                &&& (#[trigger] after[a]) < WORD_LEN
                                &&& secret[after[a] as int] == c
                                &&& !(after[a] < i + 1 && tried[after[a] as int] == c)
                            } by {
                                if a < at {
                                    assert(after[a] == list[a]);
                                } else {
                                    assert(after[a] == list[a + 1]);
                                }
                            }
                        }
                    },
                    None => {
                        assert(secret[i as int] != c) by {
                            if secret[i as int] == c {
                                assert(list.contains(i as u8));
                            }
                        }
                    },
                }
            }
            proof {
                assert forall|k: int| 0 <= k < ALPHABET implies remaining_positions(
                    secret,
                    tried,
                    letter_of(k),
                    (#[trigger] remaining@[k])@,
                    i + 1,
                ) by {
                    if k != g {
                        assert(remaining@[k] == before[k]);
                        assert(remaining_positions(secret, tried, letter_of(k), before[k]@, i as int));
                        assert(letter_of(k) != c);
                    }
                }
            }
            i += 1;
        }
        i = 0;
        while i < WORD_LEN
            invariant
                i <= WORD_LEN,
                secret == self@,
                tried == guess@,
                is_word(secret),
                is_word(tried),
                guess.letters@.len() == WORD_LEN,
                forall|j: int|
                    0 <= j < WORD_LEN ==> (#[trigger] guess.letters@[j]) as int == letter_rank(
                        tried[j],
                    ),
                remaining@.len() == ALPHABET,
                forall|k: int|
                    0 <= k < ALPHABET ==> (#[trigger] remaining@[k])@.len() == supply_left(
                        secret,
                        tried,
                        letter_of(k),
                        i as int,
                    ),
                forall|j: int| 0 <= j < i ==> (#[trigger] pattern@[j]) == symbol_at(secret, tried, j),
                forall|j: int|
                    i <= j < WORD_LEN ==> {
                        &&& ((#[trigger] pattern@[j]) == EXACT <==> tried[j] == secret[j])
                        &&& (pattern@[j] == ABSENT || pattern@[j] == PRESENT || pattern@[j]
                            == EXACT)
                        &&& (pattern@[j] == ABSENT ==> unmatched(secret, tried, tried[j]) <= 0)
                    },
            decreases WORD_LEN - i,
        {
            let g: usize = guess.letters[i] as usize;
            let ghost c = tried[i as int];
            let ghost before = remaining@;
            assert(c == letter_of(g as int));
            assert(before[g as int]@.len() == supply_left(secret, tried, c, i as int));
            if pattern[i] == PRESENT {
                if remaining[g].len() == 0 {
                    pattern[i] = ABSENT;
                } else {
                    remaining[g].pop();
                }
            }
            proof {
                assert forall|k: int| 0 <= k < ALPHABET implies (#[trigger] remaining@[k])@.len()
                    == supply_left(secret, tried, letter_of(k), i + 1) by {
                    if k != g {
                        assert(remaining@[k] == before[k]);
                        assert(letter_of(k) != c);
                    }
                }
            }
            i += 1;
        }
        assert(pattern@ =~= feedback(secret, tried));
        pattern
    }

    /// The word as a number: its letters read in base 26.
    pub fn code(&self) -> (code: u32)
        ensures
            code as int == word_code(self@),
            code < 11881376,
            is_word(self@),
    {
        proof {
            use_type_invariant(self);
            lemma_code_bound(self@, WORD_LEN as int);
            reveal_with_fuel(code_limit, 6);
        }
        self.code
    }

    /// Whether the two words have the same letters.
    pub fn same_as(&self, other: &Word) -> (same: bool)
        ensures
            same == (self@ == other@),
    {
        proof {
            use_type_invariant(self);
            use_type_invariant(other);
        }
        let mut i: usize = 0;
        while i < WORD_LEN
            invariant
                i <= WORD_LEN,
                is_word(self.origin@),
                is_word(other.origin@),
                self.letters@.len() == WORD_LEN,
                other.letters@.len() == WORD_LEN,
                forall|j: int|
                    0 <= j < WORD_LEN ==> (#[trigger] self.letters@[j]) as int == letter_rank(
                        self.origin@[j],
                    ),
                forall|j: int|
                    0 <= j < WORD_LEN ==> (#[trigger] other.letters@[j]) as int == letter_rank(
                        other.origin@[j],
                    ),
                forall|j: int| 0 <= j < i ==> self.origin@[j] == other.origin@[j],
            decreases WORD_LEN - i,
        {
            if self.letters[i] != other.letters[i] {
                assert(self.origin@[i as int] != other.origin@[i as int]);
                return false;
            }
            assert(self.origin@[i as int] == other.origin@[i as int]);
            i += 1;
        }
        assert(self.origin@ =~= other.origin@);
        true
    }

    /// The word as text.
    pub fn origin(&self) -> (text: &String)
        ensures
            text@ == self@,
            is_word(self@),
    {
        proof {
            use_type_invariant(self);
        }
        &self.origin
    }
}

/// The text in upper case, as `str::to_uppercase` gives it: the upper-case form that Unicode
/// gives the text, which for a text of ASCII characters turns the letters `a` to `z` into `A`
/// to `Z` and leaves every other character as it is.
#[verifier::external_body]
pub(crate) fn to_upper(text: &str) -> (up: String)
    ensures
        up@ == unicode_upper(text@),
        is_ascii_text(text@) ==> up@ == upper_text(text@),
{
    text.to_uppercase()
}

/// The text in upper case.
pub fn upper_cased(text: &str) -> (up: String)
    ensures
        up@ == upper_case(text@),
{
    to_upper(text)
}

/// The positions of each letter of the alphabet in a word, in ascending order.
fn occurrence_index(letters: &Vec<u8>, Ghost(w): Ghost<Seq<char>>) -> (index: Vec<Vec<u8>>)
    requires
        is_word(w),
        letters@.len() == WORD_LEN,
        forall|i: int| 0 <= i < WORD_LEN ==> (#[trigger] letters@[i]) as int == letter_rank(w[i]),
    ensures
        index@.len() == ALPHABET,
        forall|k: int|
            0 <= k < ALPHABET ==> remaining_positions(w, w, letter_of(k), (#[trigger] index@[k])@, 0),
{
    let mut index: Vec<Vec<u8>> = Vec::new();
    let mut k: u8 = 0;
    while k < 26
        invariant
            k <= 26,
            is_word(w),
            letters@.len() == WORD_LEN,
            forall|i: int|
                0 <= i < WORD_LEN ==> (#[trigger] letters@[i]) as int == letter_rank(w[i]),
            index@.len() == k,
            forall|r: int|
                0 <= r < k ==> remaining_positions(w, w, letter_of(r), (#[trigger] index@[r])@, 0),
        decreases 26 - k,
    {
        let ghost c = letter_of(k as int);
        let mut list: Vec<u8> = Vec::new();
        let mut p: u8 = 0;
        while p < 5
            invariant
                p <= 5,
                k < 26,
                c == letter_of(k as int),
                is_word(w),
                letters@.len() == WORD_LEN,
                forall|i: int|
                    0 <= i < WORD_LEN ==> (#[trigger] letters@[i]) as int == letter_rank(w[i]),
                forall|a: int, b: int| 0 <= a < b < list@.len() ==> list@[a] < list@[b],
                forall|a: int| 0 <= a < list@.len() ==> (#[trigger] list@[a]) < p && w[list@[a] as int] == c,
                forall|j: int| 0 <= j < p && w[j] == c ==> list@.contains(j as u8),
                list@.len() == occurrences(w, c, p as int),
            decreases 5 - p,
        {
            let ghost before = list@;
            if letters[p as usize] == k {
                list.push(p);
                assert(list@[before.len() as int] == p);
                assert forall|j: int| 0 <= j < p + 1 && w[j] == c implies list@.contains(
                    j as u8,
                ) by {
                    if j < p {
                        let a = choose|a: int| 0 <= a < before.len() && before[a] == j as u8;
                        assert(list@[a] == j as u8);
                    }
                }
            }
            p += 1;
        }
        index.push(list);
        k += 1;
    }
    index
}

/// A copy of an occurrence index, list by list.
fn copy_index(index: &Vec<Vec<u8>>) -> (copy: Vec<Vec<u8>>)
    ensures
        copy@.len() == index@.len(),
        forall|k: int| 0 <= k < index@.len() ==> (#[trigger] copy@[k])@ == index@[k]@,
{
    let mut copy: Vec<Vec<u8>> = Vec::new();
    let mut k: usize = 0;
    while k < index.len()
        invariant
            k <= index@.len(),
            copy@.len() == k,
            forall|r: int| 0 <= r < k ==> (#[trigger] copy@[r])@ == index@[r]@,
        decreases index@.len() - k,
    {
        let mut list: Vec<u8> = Vec::new();
        let mut a: usize = 0;
        while a < index[k].len()
            invariant
                k < index@.len(),
                a <= index@[k as int]@.len(),
                list@ == index@[k as int]@.take(a as int),
            decreases index@[k as int]@.len() - a,
        {
            list.push(index[k][a]);
            a += 1;
        }
        assert(list@ == index@[k as int]@);
        copy.push(list);
        k += 1;
    }
    copy
}

/// The place of `position` in `list`, if it is there.
fn position_in(list: &Vec<u8>, position: u8) -> (found: Option<usize>)
    ensures
        match found {
            Some(at) => at < list@.len() && list@[at as int] == position,
            None => !list@.contains(position),
        },
{
    let mut a: usize = 0;
    while a < list.len()
        invariant
            a <= list@.len(),
            forall|b: int| 0 <= b < a ==> list@[b] != position,
        decreases list@.len() - a,
    {
        if list[a] == position {
            return Some(a);
        }
        a += 1;
    }
    None
}

impl Clone for Word {
    /// A copy of the word, with the same letters.
    fn clone(&self) -> (copy: Self)
        ensures
            copy@ == self@,
            is_word(self@),
    {
        proof {
            use_type_invariant(self);
        }
        let letters: Vec<u8> = self.letters.clone();
        assert(letters@ =~= self.letters@);
        Word {
            origin: self.origin.clone(),
            letters,
            code: self.code,
            letter: copy_index(&self.letter),
        }
    }
}

/// A prefix of upper-case letters has a code below the number of words of that length.
pub proof fn lemma_code_bound(w: Seq<char>, upto: int)
    requires
        0 <= upto <= w.len(),
        forall|i: int| 0 <= i < upto ==> is_upper(#[trigger] w[i]),
    ensures
        0 <= code_upto(w, upto) < code_limit(upto),
    decreases upto,
{
    if upto > 0 {
        lemma_code_bound(w, upto - 1);
        assert(is_upper(w[upto - 1]));
    }
}

/// A word guessed against itself is exact at every position.
pub proof fn lemma_self_match(w: Seq<char>)
    ensures
        feedback(w, w) == seq![EXACT, EXACT, EXACT, EXACT, EXACT],
{
    assert(feedback(w, w) =~= seq![EXACT, EXACT, EXACT, EXACT, EXACT]);
}

/// Number of positions below `upto` at which `guess` holds the letter `c` and the feedback is
/// not `ABSENT`.
pub open spec fn matched(secret: Seq<char>, guess: Seq<char>, c: char, upto: int) -> nat
    decreases upto,
{
    if upto <= 0 {
        0
    } else {
        matched(secret, guess, c, upto - 1) + if guess[upto - 1] == c && symbol_at(
            secret,
            guess,
            upto - 1,
        ) != ABSENT {
            1nat
        } else {
            0nat
        }
    }
}

/// The exact matches of a letter below `upto` are among its occurrences in the secret.
pub proof fn lemma_exact_within_occurrences(
    secret: Seq<char>,
    guess: Seq<char>,
    c: char,
    from: int,
    upto: int,
)
    requires
        0 <= from <= upto,
    ensures
        exact_hits(secret, guess, c, upto) - exact_hits(secret, guess, c, from) <= occurrences(
            secret,
            c,
            upto,
        ) - occurrences(secret, c, from),
    decreases upto,
{
    if from < upto {
        lemma_exact_within_occurrences(secret, guess, c, from, upto - 1);
    }
}

/// Below `upto` a letter is matched at its exact hits and at as many misplaced copies as the
/// secret has unmatched occurrences for, and nowhere else.
pub proof fn lemma_matched_count(secret: Seq<char>, guess: Seq<char>, c: char, upto: int)
    requires
        0 <= upto,
    ensures
        matched(secret, guess, c, upto) == exact_hits(secret, guess, c, upto) + if misplaced(
            secret,
            guess,
            c,
            upto,
        ) < unmatched(secret, guess, c) {
            misplaced(secret, guess, c, upto) as int
        } else if unmatched(secret, guess, c) < 0 {
            0
        } else {
            unmatched(secret, guess, c)
        },
    decreases upto,
{
    if upto > 0 {
        lemma_matched_count(secret, guess, c, upto - 1);
    }
}

/// No letter is matched more often than it occurs in the secret: the positions at which the
/// guess holds a letter and the feedback is `PRESENT` or `EXACT` are at most as many as the
/// occurrences of the letter in the secret.
pub proof fn lemma_matches_bounded(secret: Seq<char>, guess: Seq<char>, c: char)
    ensures
        matched(secret, guess, c, WORD_LEN as int) <= occurrences(secret, c, WORD_LEN as int),
{
    lemma_matched_count(secret, guess, c, WORD_LEN as int);
    lemma_exact_within_occurrences(secret, guess, c, 0, WORD_LEN as int);
}

} // verus!
