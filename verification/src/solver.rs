//! The helper: filtering the secrets, ranking single guesses, and searching ahead.

use vstd::prelude::*;
use crate::beam::{
    is_top, lemma_top_unique, outranks, path_key, ranks_apart, selects, views, words_of, Beam,
    Path, Scored, MAX_DEPTH,
};
use crate::order::lemma_code_order;
use crate::partition::{
    count_groups, group_numbers, group_sizes, lemma_all_apart, lemma_same_grouping,
    lemma_single_group, lemma_sizes_partition, sizes_match, total,
};
use crate::word::{feedback, is_word, symbol_at, EngineError, Word, ABSENT, EXACT, PRESENT};

verus! {

/// Whether `secret` would have answered every guess of `history` as the history records it.
pub open spec fn consistent(secret: Seq<char>, history: Seq<(Word, [u8; 5])>) -> bool {
    forall|i: int|
        0 <= i < history.len() ==> feedback(secret, (#[trigger] history[i]).0@) == history[i].1@
}

/// Whether two patterns hold the same five symbols.
pub fn same_pattern(a: &[u8; 5], b: &[u8; 5]) -> (same: bool)
    ensures
        same == (a@ == b@),
{
    let mut i: usize = 0;
    while i < 5
        invariant
            i <= 5,
            forall|j: int| 0 <= j < i ==> a@[j] == b@[j],
        decreases 5 - i,
    {
        if a[i] != b[i] {
            return false;
        }
        i += 1;
    }
    assert(a@ =~= b@);
    true
}

/// Whether `secret` is consistent with every round of `history`.
pub fn is_possible(secret: &Word, history: &Vec<(Word, [u8; 5])>) -> (possible: bool)
    ensures
        possible == consistent(secret@, history@),
{
    let mut i: usize = 0;
    while i < history.len()
        invariant
            i <= history@.len(),
            forall|j: int|
                0 <= j < i ==> feedback(secret@, (#[trigger] history@[j]).0@) == history@[j].1@,
        decreases history@.len() - i,
    {
        let pattern: [u8; 5] = secret.compare(&history[i].0);
        if !same_pattern(&pattern, &history[i].1) {
            return false;
        }
        i += 1;
    }
    true
}

/// The secrets that are still possible after `history`, in the order of `secrets`.
///
/// A secret stays exactly when it would have given the observed feedback to every guess of the
/// history. With an empty history every secret stays.
pub fn possible_answers(history: &Vec<(Word, [u8; 5])>, secrets: &Vec<Word>) -> (candidates: Vec<
    Word,
>)
    ensures
        words_of(candidates@) == words_of(secrets@).filter(
            |w: Seq<char>| consistent(w, history@),
        ),
        forall|i: int| 0 <= i < candidates@.len() ==> consistent(#[trigger] candidates@[i]@, history@),
        history@.len() == 0 ==> words_of(candidates@) == words_of(secrets@),
{
    let ghost keep = |w: Seq<char>| consistent(w, history@);
    let mut candidates: Vec<Word> = Vec::new();
    let mut i: usize = 0;
    assert(words_of(secrets@).take(0) =~= Seq::<Seq<char>>::empty());
    proof {
        reveal(Seq::filter);
    }
    assert(words_of(candidates@) =~= words_of(secrets@).take(0).filter(keep));
    while i < secrets.len()
        invariant
            i <= secrets@.len(),
            keep == (|w: Seq<char>| consistent(w, history@)),
            words_of(candidates@) == words_of(secrets@).take(i as int).filter(keep),
            forall|j: int|
                0 <= j < candidates@.len() ==> consistent(#[trigger] candidates@[j]@, history@),
            history@.len() == 0 ==> words_of(candidates@) == words_of(secrets@).take(i as int),
        decreases secrets@.len() - i,
    {
        let ghost before = words_of(candidates@);
        let ghost prefix = words_of(secrets@).take(i + 1);
        proof {
            reveal(Seq::filter);
            assert(prefix.drop_last() =~= words_of(secrets@).take(i as int));
            assert(prefix.last() == secrets@[i as int]@);
        }
        if is_possible(&secrets[i], history) {
            candidates.push(secrets[i].clone());
            assert(words_of(candidates@) =~= before.push(secrets@[i as int]@));
            assert(history@.len() == 0 ==> words_of(candidates@) =~= prefix);
        }
        i += 1;
    }
    assert(words_of(secrets@).take(secrets@.len() as int) =~= words_of(secrets@));
    candidates
}

/// Whether `p` is a completed pattern: five symbols, none of them pending.
pub open spec fn is_pattern(p: Seq<u8>) -> bool {
    &&& p.len() == 5
    &&& forall|i: int|
        0 <= i < 5 ==> (#[trigger] p[i]) == ABSENT || p[i] == PRESENT || p[i] == EXACT
}

/// A completed pattern read as a number in base 3, `ABSENT` being the digit 0.
pub open spec fn pattern_code(p: Seq<u8>) -> int {
    ((((p[0] - 1) * 3 + (p[1] - 1)) * 3 + (p[2] - 1)) * 3 + (p[3] - 1)) * 3 + (p[4] - 1)
}

/// The patterns that `secret` answers to the guesses of `path`, one after the other.
pub open spec fn signature(secret: Seq<char>, path: Seq<Seq<char>>) -> Seq<Seq<u8>> {
    path.map_values(|guess: Seq<char>| feedback(secret, guess))
}

/// The signatures of all `candidates` under `path`, in the candidates' order.
pub open spec fn signatures(candidates: Seq<Word>, path: Seq<Seq<char>>) -> Seq<Seq<Seq<u8>>> {
    candidates.map_values(|c: Word| signature(c@, path))
}

/// Every feedback is a completed pattern.
pub proof fn lemma_feedback_is_pattern(secret: Seq<char>, guess: Seq<char>)
    ensures
        is_pattern(feedback(secret, guess)),
{
    assert forall|i: int| 0 <= i < 5 implies (#[trigger] feedback(secret, guess)[i]) == ABSENT
        || feedback(secret, guess)[i] == PRESENT || feedback(secret, guess)[i] == EXACT by {
        assert(feedback(secret, guess)[i] == symbol_at(secret, guess, i));
    }
}

/// Two completed patterns with the same code are the same pattern.
pub proof fn lemma_pattern_code_injective(p: Seq<u8>, q: Seq<u8>)
    requires
        is_pattern(p),
        is_pattern(q),
        pattern_code(p) == pattern_code(q),
    ensures
        p == q,
{
    assert(p[0] == q[0] && p[1] == q[1] && p[2] == q[2] && p[3] == q[3] && p[4] == q[4]);
    assert(p =~= q);
}

/// The code of a completed pattern is below 243.
pub proof fn lemma_pattern_code_bound(p: Seq<u8>)
    requires
        is_pattern(p),
    ensures
        0 <= pattern_code(p) < 243,
{
    assert(p[0] >= 1 && p[1] >= 1 && p[2] >= 1 && p[3] >= 1 && p[4] >= 1);
}

/// The sizes of the groups into which the guesses of `path` split the candidates.
pub open spec fn split_by(candidates: Seq<Word>, path: Seq<Seq<char>>) -> Seq<nat> {
    group_sizes(signatures(candidates, path))
}

/// The guesses of a path split the candidates into groups that are not empty and that hold
/// every candidate once: the sizes add up to the number of candidates. There is at least one
/// group when there is a candidate, and there are never more groups than candidates.
pub proof fn lemma_split_is_partition(candidates: Seq<Word>, path: Seq<Seq<char>>)
    ensures
        forall|g: int|
            0 <= g < split_by(candidates, path).len() ==> #[trigger] split_by(candidates, path)[g]
                >= 1,
        total(split_by(candidates, path)) == candidates.len(),
        split_by(candidates, path).len() <= candidates.len(),
        candidates.len() >= 1 ==> split_by(candidates, path).len() >= 1,
{
    lemma_sizes_partition(signatures(candidates, path));
}

/// The guesses of a path leave all candidates in one group if and only if all candidates
/// answer every guess of the path alike.
pub proof fn lemma_split_tells_nothing(candidates: Seq<Word>, path: Seq<Seq<char>>)
    requires
        candidates.len() >= 1,
    ensures
        split_by(candidates, path).len() == 1 <==> forall|i: int, j: int|
            0 <= i < candidates.len() && 0 <= j < candidates.len() ==> same_answers(
                candidates[i]@,
                candidates[j]@,
                path,
                path.len() as int,
            ),
{
    let sigs = signatures(candidates, path);
    lemma_single_group(sigs);
    assert forall|i: int, j: int| 0 <= i < candidates.len() && 0 <= j < candidates.len() implies (
    (sigs[i] == sigs[j]) <==> same_answers(
        candidates[i]@,
        candidates[j]@,
        path,
        path.len() as int,
    )) by {
        lemma_signature_equal(candidates[i]@, candidates[j]@, path);
    }
    if split_by(candidates, path).len() == 1 {
        assert forall|i: int, j: int|
            0 <= i < candidates.len() && 0 <= j < candidates.len() implies same_answers(
            candidates[i]@,
            candidates[j]@,
            path,
            path.len() as int,
        ) by {
            assert(sigs[i] == sigs[j]);
        }
    }
    if forall|i: int, j: int|
        0 <= i < candidates.len() && 0 <= j < candidates.len() ==> same_answers(
            candidates[i]@,
            candidates[j]@,
            path,
            path.len() as int,
        ) {
        assert forall|i: int, j: int| 0 <= i < sigs.len() && 0 <= j < sigs.len() implies sigs[i]
            == sigs[j] by {
            assert(same_answers(candidates[i]@, candidates[j]@, path, path.len() as int));
        }
    }
}

/// The guesses of a path put every candidate into a group of its own if and only if any two
/// candidates answer some guess of the path differently.
pub proof fn lemma_split_tells_all(candidates: Seq<Word>, path: Seq<Seq<char>>)
    ensures
        split_by(candidates, path).len() == candidates.len() <==> forall|i: int, j: int|
            0 <= i < j < candidates.len() ==> !same_answers(
                candidates[i]@,
                candidates[j]@,
                path,
                path.len() as int,
            ),
{
    let sigs = signatures(candidates, path);
    lemma_all_apart(sigs);
    assert forall|i: int, j: int| 0 <= i < j < candidates.len() implies ((sigs[i] == sigs[j])
        <==> same_answers(candidates[i]@, candidates[j]@, path, path.len() as int)) by {
        lemma_signature_equal(candidates[i]@, candidates[j]@, path);
    }
    if split_by(candidates, path).len() == candidates.len() {
        assert forall|i: int, j: int| 0 <= i < j < candidates.len() implies !same_answers(
            candidates[i]@,
            candidates[j]@,
            path,
            path.len() as int,
        ) by {
            assert(sigs[i] != sigs[j]);
        }
    }
    if forall|i: int, j: int|
        0 <= i < j < candidates.len() ==> !same_answers(
            candidates[i]@,
            candidates[j]@,
            path,
            path.len() as int,
        ) {
        assert forall|i: int, j: int| 0 <= i < j < sigs.len() implies sigs[i] != sigs[j] by {
            assert(!same_answers(candidates[i]@, candidates[j]@, path, path.len() as int));
        }
    }
}

/// The code of a completed pattern.
fn encode_pattern(p: &[u8; 5]) -> (code: u64)
    requires
        is_pattern(p@),
    ensures
        code as int == pattern_code(p@),
        code < 243,
{
    let mut code: u64 = 0;
    let mut i: usize = 0;
    assert(p@[0] >= 1 && p@[1] >= 1 && p@[2] >= 1 && p@[3] >= 1 && p@[4] >= 1);
    while i < 5
        invariant
            i <= 5,
            is_pattern(p@),
            i == 0 ==> code == 0,
            i == 1 ==> code as int == p@[0] - 1,
            i == 2 ==> code as int == (p@[0] - 1) * 3 + (p@[1] - 1),
            i == 3 ==> code as int == ((p@[0] - 1) * 3 + (p@[1] - 1)) * 3 + (p@[2] - 1),
            i == 4 ==> code as int == (((p@[0] - 1) * 3 + (p@[1] - 1)) * 3 + (p@[2] - 1)) * 3 + (
            p@[3] - 1),
            i == 5 ==> code as int == pattern_code(p@),
        decreases 5 - i,
    {
        assert(p@[i as int] >= 1);
        code = code * 3 + (p[i] - 1) as u64;
        i += 1;
    }
    code
}

/// Whether two secrets answer each of the first `upto` guesses of `path` with the same pattern.
pub open spec fn same_answers(a: Seq<char>, b: Seq<char>, path: Seq<Seq<char>>, upto: int) -> bool {
    forall|k: int| 0 <= k < upto ==> feedback(a, #[trigger] path[k]) == feedback(b, path[k])
}

/// Two secrets have the same signature exactly when they answer every guess of the path with
/// the same pattern.
pub proof fn lemma_signature_equal(a: Seq<char>, b: Seq<char>, path: Seq<Seq<char>>)
    ensures
        signature(a, path) == signature(b, path) <==> same_answers(a, b, path, path.len() as int),
{
    let x = signature(a, path);
    let y = signature(b, path);
    if x == y {
        assert forall|k: int| 0 <= k < path.len() implies feedback(a, #[trigger] path[k])
            == feedback(b, path[k]) by {
            assert(x[k] == feedback(a, path[k]));
            assert(y[k] == feedback(b, path[k]));
        }
    }
    if same_answers(a, b, path, path.len() as int) {
        assert forall|k: int| 0 <= k < path.len() implies x[k] == y[k] by {
            assert(feedback(a, path[k]) == feedback(b, path[k]));
        }
        assert(x =~= y);
    }
}

/// Splits the candidates into groups that the guesses `words` cannot tell apart, and returns
/// the size of each group. Two candidates are in one group exactly when they answer every
/// guess with the same pattern. The groups come in the order of their first candidate.
///
/// The candidates start in one group, and every guess splits each group by the patterns that
/// its candidates answer the guess with.
///
/// No group is empty, and the sizes add up to the number of candidates. There is one group
/// exactly when all candidates answer every guess alike, and there are as many groups as
/// candidates exactly when any two candidates answer some guess differently.
pub fn feedback_groups(words: &Vec<Word>, candidates: &Vec<Word>) -> (sizes: Vec<usize>)
    ensures
        sizes_match(sizes@, signatures(candidates@, words_of(words@))),
        forall|g: int| 0 <= g < sizes@.len() ==> (#[trigger] sizes@[g]) >= 1,
        total(split_by(candidates@, words_of(words@))) == candidates@.len(),
        candidates@.len() >= 1 ==> (sizes@.len() == 1 <==> forall|i: int, j: int|
            0 <= i < candidates@.len() && 0 <= j < candidates@.len() ==> same_answers(
                candidates@[i]@,
                candidates@[j]@,
                words_of(words@),
                words@.len() as int,
            )),
        sizes@.len() == candidates@.len() <==> forall|i: int, j: int|
            0 <= i < j < candidates@.len() ==> !same_answers(
                candidates@[i]@,
                candidates@[j]@,
                words_of(words@),
                words@.len() as int,
            ),
{
    let ghost path = words_of(words@);
    let ghost sigs = signatures(candidates@, path);
    let count: usize = candidates.len();
    let mut numbers: Vec<usize> = Vec::new();
    let mut i: usize = 0;
    while i < count
        invariant
            i <= count,
            numbers@.len() == i,
            forall|a: int| 0 <= a < i ==> (#[trigger] numbers@[a]) == 0,
        decreases count - i,
    {
        numbers.push(0);
        i += 1;
    }
    let mut j: usize = 0;
    while j < words.len()
        invariant
            j <= words@.len(),
            count == candidates@.len(),
            path == words_of(words@),
            numbers@.len() == count,
            forall|a: int, b: int|
                0 <= a < count && 0 <= b < count ==> ((#[trigger] numbers@[a]
                    == #[trigger] numbers@[b]) <==> same_answers(
                    candidates@[a]@,
                    candidates@[b]@,
                    path,
                    j as int,
                )),
        decreases words@.len() - j,
    {
        let ghost guess = path[j as int];
        let ghost before = numbers@;
        let mut keys: Vec<u128> = Vec::new();
        i = 0;
        while i < count
            invariant
                i <= count,
                j < words@.len(),
                count == candidates@.len(),
                numbers@.len() == count,
                guess == words@[j as int]@,
                keys@.len() == i,
                forall|a: int|
                    0 <= a < i ==> (#[trigger] keys@[a]) as int == numbers@[a] * 243
                        + pattern_code(feedback(candidates@[a]@, guess)),
            decreases count - i,
        {
            let pattern: [u8; 5] = candidates[i].compare(&words[j]);
            proof {
                lemma_feedback_is_pattern(candidates@[i as int]@, guess);
            }
            let code: u64 = encode_pattern(&pattern);
            let key: u128 = numbers[i] as u128 * 243 + code as u128;
            keys.push(key);
            i += 1;
        }
        numbers = group_numbers(&keys);
        proof {
            assert forall|a: int, b: int| 0 <= a < count && 0 <= b < count implies ((
            #[trigger] numbers@[a] == #[trigger] numbers@[b]) <==> same_answers(
                candidates@[a]@,
                candidates@[b]@,
                path,
                j + 1,
            )) by {
                let x = candidates@[a]@;
                let y = candidates@[b]@;
                lemma_feedback_is_pattern(x, guess);
                lemma_feedback_is_pattern(y, guess);
                lemma_pattern_code_bound(feedback(x, guess));
                lemma_pattern_code_bound(feedback(y, guess));
                assert((before[a] == before[b]) <==> same_answers(x, y, path, j as int));
                if keys@[a] == keys@[b] {
                    assert(before[a] == before[b]);
                    lemma_pattern_code_injective(feedback(x, guess), feedback(y, guess));
                    assert forall|k: int| 0 <= k < j + 1 implies feedback(x, #[trigger] path[k])
                        == feedback(y, path[k]) by {
                        if k < j {
                            assert(same_answers(x, y, path, j as int));
                        }
                    }
                }
                if same_answers(x, y, path, j + 1) {
                    assert(feedback(x, path[j as int]) == feedback(y, path[j as int]));
                    assert(same_answers(x, y, path, j as int));
                }
            }
        }
        j += 1;
    }
    let mut codes: Vec<u64> = Vec::new();
    i = 0;
    while i < count
        invariant
            i <= count,
            numbers@.len() == count,
            codes@.len() == i,
            forall|a: int| 0 <= a < i ==> (#[trigger] codes@[a]) as int == numbers@[a],
        decreases count - i,
    {
        codes.push(numbers[i] as u64);
        i += 1;
    }
    let sizes: Vec<usize> = count_groups(&codes);
    proof {
        assert forall|a: int, b: int|
            0 <= a < codes@.len() && 0 <= b < codes@.len() implies ((codes@[a] == codes@[b]) <==> (
        sigs[a] == sigs[b])) by {
            lemma_signature_equal(candidates@[a]@, candidates@[b]@, path);
            assert((numbers@[a] == numbers@[b]) <==> same_answers(
                candidates@[a]@,
                candidates@[b]@,
                path,
                path.len() as int,
            ));
        }
        lemma_same_grouping(codes@, sigs);
        lemma_split_is_partition(candidates@, path);
        lemma_split_tells_all(candidates@, path);
        if candidates@.len() >= 1 {
            lemma_split_tells_nothing(candidates@, path);
        }
    }
    sizes
}

/// Whether `sizes` can be the group sizes of a split of some candidates: there is a group, and
/// no group is empty.
pub open spec fn is_histogram(sizes: Seq<usize>) -> bool {
    &&& sizes.len() >= 1
    &&& forall|g: int| 0 <= g < sizes.len() ==> (#[trigger] sizes[g]) >= 1
}

/// Whether `scorer` accepts every histogram.
pub open spec fn takes_histograms<F: Fn(&Vec<usize>) -> u64>(scorer: &F) -> bool {
    forall|sizes: Vec<usize>| is_histogram(sizes@) ==> call_requires(scorer, (&sizes,))
}

/// Whether `score` is what `scorer` gives for the groups into which the guesses of `path` split
/// the `candidates`.
pub open spec fn scores<F: Fn(&Vec<usize>) -> u64>(
    scorer: &F,
    candidates: Seq<Word>,
    path: Seq<Seq<char>>,
    score: u64,
) -> bool {
    exists|sizes: Vec<usize>|
        sizes_match(sizes@, signatures(candidates, path)) && call_ensures(scorer, (&sizes,), score)
}

/// Whether `word` was guessed in `history`.
pub open spec fn tried(history: Seq<(Word, [u8; 5])>, word: Seq<char>) -> bool {
    exists|i: int| 0 <= i < history.len() && (#[trigger] history[i]).0@ == word
}

/// The paths that `path` can grow into by one of the first `upto` guesses: one for every guess
/// that was not tried in `history` and is not on the path, in the order of the guesses.
pub open spec fn extensions(
    path: Seq<Seq<char>>,
    history: Seq<(Word, [u8; 5])>,
    guesses: Seq<Word>,
    upto: int,
) -> Seq<Seq<Seq<char>>>
    decreases upto,
{
    if upto <= 0 {
        Seq::empty()
    } else {
        let word = guesses[upto - 1]@;
        let before = extensions(path, history, guesses, upto - 1);
        if tried(history, word) || path.contains(word) {
            before
        } else {
            before.push(path.push(word))
        }
    }
}

/// The paths that the first `upto` paths of `beam` can grow into by one guess, path after path.
pub open spec fn all_extensions(
    beam: Seq<Scored>,
    history: Seq<(Word, [u8; 5])>,
    guesses: Seq<Word>,
    upto: int,
) -> Seq<Seq<Seq<char>>>
    decreases upto,
{
    if upto <= 0 {
        Seq::empty()
    } else {
        all_extensions(beam, history, guesses, upto - 1) + extensions(
            beam[upto - 1].0,
            history,
            guesses,
            guesses.len() as int,
        )
    }
}

/// Whether `pool` holds the paths `paths`, in their order, each with a score that `scorer` gives
/// it on the `candidates`.
pub open spec fn is_scored_pool<F: Fn(&Vec<usize>) -> u64>(
    pool: Seq<Scored>,
    paths: Seq<Seq<Seq<char>>>,
    scorer: &F,
    candidates: Seq<Word>,
) -> bool {
    &&& pool.len() == paths.len()
    &&& forall|i: int|
        0 <= i < pool.len() ==> (#[trigger] pool[i]).0 == paths[i] && scores(
            scorer,
            candidates,
            pool[i].0,
            pool[i].1,
        )
}

/// The score that `scorer` gives the guesses `words` on the candidates `possible_answers`:
/// the candidates are split into the groups that the guesses cannot tell apart, and the scorer
/// is asked about the sizes of the groups.
///
/// Fails with `EmptyCandidateSet` exactly when there is no candidate.
pub fn compute_entropy<F: Fn(&Vec<usize>) -> u64>(
    words: &Vec<Word>,
    possible_answers: &Vec<Word>,
    scorer: &F,
) -> (entropy: Result<u64, EngineError>)
    requires
        takes_histograms(scorer),
    ensures
        match entropy {
            Ok(score) => possible_answers@.len() > 0 && scores(
                scorer,
                possible_answers@,
                words_of(words@),
                score,
            ),
            Err(e) => e == EngineError::EmptyCandidateSet && possible_answers@.len() == 0,
        },
{
    if possible_answers.len() == 0 {
        return Err(EngineError::EmptyCandidateSet);
    }
    let sizes: Vec<usize> = feedback_groups(words, possible_answers);
    proof {
        lemma_sizes_partition(signatures(possible_answers@, words_of(words@)));
    }
    let score: u64 = scorer(&sizes);
    Ok(score)
}

/// Whether `word` was guessed in `history`.
pub fn was_tried(history: &Vec<(Word, [u8; 5])>, word: &Word) -> (found: bool)
    ensures
        found == tried(history@, word@),
{
    let mut i: usize = 0;
    while i < history.len()
        invariant
            i <= history@.len(),
            forall|j: int| 0 <= j < i ==> (#[trigger] history@[j]).0@ != word@,
        decreases history@.len() - i,
    {
        if history[i].0.same_as(word) {
            return true;
        }
        i += 1;
    }
    false
}

/// Whether `word` is one of `words`.
pub fn is_among(words: &Vec<Word>, word: &Word) -> (found: bool)
    ensures
        found == words_of(words@).contains(word@),
{
    let mut i: usize = 0;
    while i < words.len()
        invariant
            i <= words@.len(),
            forall|j: int| 0 <= j < i ==> words_of(words@)[j] != word@,
        decreases words@.len() - i,
    {
        if words[i].same_as(word) {
            assert(words_of(words@)[i as int] == word@);
            return true;
        }
        i += 1;
    }
    false
}

/// The number of paths that survive each round of the search.
pub const BEAM_WIDTH: usize = 10;

/// The largest candidate set for which looking ahead is not worth its cost.
pub const SMALL_SET: usize = 5;

/// What a list of paths shows of itself: the first word of each path with the path's score.
pub open spec fn ranking_of(kept: Seq<Scored>) -> Seq<(Seq<char>, u64)> {
    kept.map_values(|p: Scored| (p.0[0], p.1))
}

/// A list of words with scores, each word as its letters.
pub open spec fn listing(list: Seq<(String, u64)>) -> Seq<(Seq<char>, u64)> {
    list.map_values(|e: (String, u64)| (e.0@, e.1))
}

/// The single-word paths that a search starts from: one for every guess that was not tried.
pub open spec fn seeds(history: Seq<(Word, [u8; 5])>, guesses: Seq<Word>) -> Seq<Seq<Seq<char>>> {
    extensions(Seq::empty(), history, guesses, guesses.len() as int)
}

/// Whether `full` ranks every guess that was not tried in `history`: each with a score that
/// `scorer` gives it alone on the `candidates`, the higher score first, and between equal
/// scores the word that comes later in the alphabet first. The guesses are words of the game.
pub open spec fn is_full_ranking<F: Fn(&Vec<usize>) -> u64>(
    full: Seq<(Seq<char>, u64)>,
    scorer: &F,
    history: Seq<(Word, [u8; 5])>,
    candidates: Seq<Word>,
    guesses: Seq<Word>,
) -> bool {
    &&& forall|k: int| 0 <= k < guesses.len() ==> is_word((#[trigger] guesses[k])@)
    &&& exists|pool: Seq<Scored>, kept: Seq<Scored>|
        #![trigger is_top(kept, pool, pool.len() as int)]
        {
            &&& is_scored_pool(pool, seeds(history, guesses), scorer, candidates)
            &&& is_top(kept, pool, pool.len() as int)
            &&& full == ranking_of(kept)
        }
}

/// Whether `kept` are the `BEAM_WIDTH` best of the scored seeds, best first.
pub open spec fn is_first_round<F: Fn(&Vec<usize>) -> u64>(
    kept: Seq<Scored>,
    scorer: &F,
    history: Seq<(Word, [u8; 5])>,
    candidates: Seq<Word>,
    guesses: Seq<Word>,
) -> bool {
    exists|pool: Seq<Scored>|
        #![trigger is_top(kept, pool, BEAM_WIDTH as int)]
        {
            &&& is_scored_pool(pool, seeds(history, guesses), scorer, candidates)
            &&& is_top(kept, pool, BEAM_WIDTH as int)
        }
}

/// Whether `kept` are the `BEAM_WIDTH` best, best first, of all the scored paths into which the
/// paths of `before` grow by one guess.
pub open spec fn is_next_round<F: Fn(&Vec<usize>) -> u64>(
    kept: Seq<Scored>,
    before: Seq<Scored>,
    scorer: &F,
    history: Seq<(Word, [u8; 5])>,
    candidates: Seq<Word>,
    guesses: Seq<Word>,
) -> bool {
    exists|pool: Seq<Scored>|
        #![trigger is_top(kept, pool, BEAM_WIDTH as int)]
        {
            &&& is_scored_pool(
                pool,
                all_extensions(before, history, guesses, before.len() as int),
                scorer,
                candidates,
            )
            &&& is_top(kept, pool, BEAM_WIDTH as int)
        }
}

/// Whether `kept` can be what the search holds after round `depth`: the outcome of the first
/// round, or the outcome of a next round on what the search can hold after round `depth - 1`.
pub open spec fn reachable<F: Fn(&Vec<usize>) -> u64>(
    kept: Seq<Scored>,
    depth: int,
    scorer: &F,
    history: Seq<(Word, [u8; 5])>,
    candidates: Seq<Word>,
    guesses: Seq<Word>,
) -> bool
    decreases depth,
{
    if depth <= 1 {
        is_first_round(kept, scorer, history, candidates, guesses)
    } else {
        exists|before: Seq<Scored>|
            {
                &&& #[trigger] is_next_round(kept, before, scorer, history, candidates, guesses)
                &&& reachable(before, depth - 1, scorer, history, candidates, guesses)
            }
    }
}

/// A path grows into at most one longer path for each guess, each of them one word longer.
pub proof fn lemma_extensions_shape(
    path: Seq<Seq<char>>,
    history: Seq<(Word, [u8; 5])>,
    guesses: Seq<Word>,
    upto: int,
)
    requires
        0 <= upto,
    ensures
        extensions(path, history, guesses, upto).len() <= upto,
        forall|i: int|
            0 <= i < extensions(path, history, guesses, upto).len() ==> (#[trigger] extensions(
                path,
                history,
                guesses,
                upto,
            )[i]).len() == path.len() + 1,
    decreases upto,
{
    if upto > 0 {
        lemma_extensions_shape(path, history, guesses, upto - 1);
    }
}

/// The paths that paths of `depth` words grow into have one word more.
pub proof fn lemma_all_extensions_shape(
    beam: Seq<Scored>,
    history: Seq<(Word, [u8; 5])>,
    guesses: Seq<Word>,
    upto: int,
    depth: int,
)
    requires
        0 <= upto <= beam.len(),
        forall|i: int| 0 <= i < beam.len() ==> (#[trigger] beam[i]).0.len() == depth,
    ensures
        forall|i: int|
            0 <= i < all_extensions(beam, history, guesses, upto).len() ==> (
            #[trigger] all_extensions(beam, history, guesses, upto)[i]).len() == depth + 1,
    decreases upto,
{
    if upto > 0 {
        lemma_all_extensions_shape(beam, history, guesses, upto - 1, depth);
        lemma_extensions_shape(beam[upto - 1].0, history, guesses, guesses.len() as int);
        let front = all_extensions(beam, history, guesses, upto - 1);
        let back = extensions(beam[upto - 1].0, history, guesses, guesses.len() as int);
        let all = all_extensions(beam, history, guesses, upto);
        assert(all == front + back);
        assert forall|i: int| 0 <= i < all.len() implies (#[trigger] all[i]).len() == depth
            + 1 by {
            if i < front.len() {
                assert(all[i] == front[i]);
            } else {
                assert(all[i] == back[i - front.len()]);
            }
        }
    }
}

/// The search stays within its bounds: after round `depth` it holds at most `BEAM_WIDTH` paths,
/// and each of them has exactly `depth` words.
pub proof fn lemma_search_bounded<F: Fn(&Vec<usize>) -> u64>(
    kept: Seq<Scored>,
    depth: int,
    scorer: &F,
    history: Seq<(Word, [u8; 5])>,
    candidates: Seq<Word>,
    guesses: Seq<Word>,
)
    requires
        depth >= 1,
        reachable(kept, depth, scorer, history, candidates, guesses),
    ensures
        kept.len() <= BEAM_WIDTH,
        forall|i: int| 0 <= i < kept.len() ==> (#[trigger] kept[i]).0.len() == depth,
    decreases depth,
{
    if depth <= 1 {
        let pool = choose|pool: Seq<Scored>|
            #![trigger is_top(kept, pool, BEAM_WIDTH as int)]
            {
                &&& is_scored_pool(pool, seeds(history, guesses), scorer, candidates)
                &&& is_top(kept, pool, BEAM_WIDTH as int)
            };
        lemma_extensions_shape(Seq::empty(), history, guesses, guesses.len() as int);
        let source = choose|source: Seq<int>| selects(kept, pool, source, BEAM_WIDTH as int);
        assert forall|i: int| 0 <= i < kept.len() implies (#[trigger] kept[i]).0.len() == depth by {
            assert(kept[i] == pool[source[i]]);
        }
    } else {
        let before = choose|before: Seq<Scored>|
            {
                &&& #[trigger] is_next_round(kept, before, scorer, history, candidates, guesses)
                &&& reachable(before, depth - 1, scorer, history, candidates, guesses)
            };
        let pool = choose|pool: Seq<Scored>|
            #![trigger is_top(kept, pool, BEAM_WIDTH as int)]
            {
                &&& is_scored_pool(
                    pool,
                    all_extensions(before, history, guesses, before.len() as int),
                    scorer,
                    candidates,
                )
                &&& is_top(kept, pool, BEAM_WIDTH as int)
            };
        lemma_search_bounded(before, depth - 1, scorer, history, candidates, guesses);
        lemma_all_extensions_shape(before, history, guesses, before.len() as int, depth - 1);
        let source = choose|source: Seq<int>| selects(kept, pool, source, BEAM_WIDTH as int);
        assert forall|i: int| 0 <= i < kept.len() implies (#[trigger] kept[i]).0.len() == depth by {
            assert(kept[i] == pool[source[i]]);
        }
    }
}

/// Whether `scorer` gives one score for one split: whenever it is asked about the same sizes
/// it answers with the same score.
pub open spec fn is_function<F: Fn(&Vec<usize>) -> u64>(scorer: &F) -> bool {
    forall|a: Vec<usize>, b: Vec<usize>, x: u64, y: u64|
        a@ == b@ && #[trigger] call_ensures(scorer, (&a,), x) && #[trigger] call_ensures(
            scorer,
            (&b,),
            y,
        ) ==> x == y
}

/// Every seed is a single guess.
pub proof fn lemma_seeds_are_guesses(
    history: Seq<(Word, [u8; 5])>,
    guesses: Seq<Word>,
    upto: int,
)
    requires
        0 <= upto <= guesses.len(),
    ensures
        forall|i: int|
            0 <= i < extensions(Seq::empty(), history, guesses, upto).len() ==> exists|k: int|
                0 <= k < upto && (#[trigger] extensions(Seq::empty(), history, guesses, upto)[i])
                    == seq![(#[trigger] guesses[k])@],
    decreases upto,
{
    if upto > 0 {
        lemma_seeds_are_guesses(history, guesses, upto - 1);
        let before = extensions(Seq::empty(), history, guesses, upto - 1);
        let all = extensions(Seq::empty(), history, guesses, upto);
        assert forall|i: int| 0 <= i < all.len() implies exists|k: int|
            0 <= k < upto && (#[trigger] all[i]) == seq![(#[trigger] guesses[k])@] by {
            if i < before.len() {
                assert(all[i] == before[i]);
                let k = choose|k: int|
                    0 <= k < upto - 1 && (#[trigger] before[i]) == seq![(#[trigger] guesses[k])@];
                assert(all[i] == seq![guesses[k]@]);
            } else {
                assert(all[i] =~= seq![guesses[upto - 1]@]);
            }
        }
    }
}

/// With a scorer that gives one score for one split, there is only one full ranking: two
/// rankings of the same guesses on the same candidates are the same, word by word and score by
/// score.
pub proof fn lemma_full_ranking_unique<F: Fn(&Vec<usize>) -> u64>(
    first: Seq<(Seq<char>, u64)>,
    second: Seq<(Seq<char>, u64)>,
    scorer: &F,
    history: Seq<(Word, [u8; 5])>,
    candidates: Seq<Word>,
    guesses: Seq<Word>,
)
    requires
        is_function(scorer),
        is_full_ranking(first, scorer, history, candidates, guesses),
        is_full_ranking(second, scorer, history, candidates, guesses),
    ensures
        first == second,
{
    let paths = seeds(history, guesses);
    let (pool, kept) = choose|pool: Seq<Scored>, kept: Seq<Scored>|
        #![trigger is_top(kept, pool, pool.len() as int)]
        {
            &&& is_scored_pool(pool, paths, scorer, candidates)
            &&& is_top(kept, pool, pool.len() as int)
            &&& first == ranking_of(kept)
        };
    let (other, held) = choose|pool: Seq<Scored>, kept: Seq<Scored>|
        #![trigger is_top(kept, pool, pool.len() as int)]
        {
            &&& is_scored_pool(pool, paths, scorer, candidates)
            &&& is_top(kept, pool, pool.len() as int)
            &&& second == ranking_of(kept)
        };
    assert forall|i: int| 0 <= i < pool.len() implies pool[i] == other[i] by {
        let path = paths[i];
        assert(pool[i].0 == path && other[i].0 == path);
        let a = choose|sizes: Vec<usize>|
            sizes_match(sizes@, signatures(candidates, path)) && call_ensures(
                scorer,
                (&sizes,),
                pool[i].1,
            );
        let b = choose|sizes: Vec<usize>|
            sizes_match(sizes@, signatures(candidates, path)) && call_ensures(
                scorer,
                (&sizes,),
                other[i].1,
            );
        assert(a@ =~= b@);
    }
    assert(pool =~= other);
    lemma_seeds_are_guesses(history, guesses, guesses.len() as int);
    assert forall|i: int, j: int|
        0 <= i < pool.len() && 0 <= j < pool.len() && !outranks(pool[i], pool[j]) && !outranks(
            pool[j],
            pool[i],
        ) implies pool[i] == pool[j] by {
        let k = choose|k: int|
            0 <= k < guesses.len() && (#[trigger] paths[i]) == seq![(#[trigger] guesses[k])@];
        let l = choose|l: int|
            0 <= l < guesses.len() && (#[trigger] paths[j]) == seq![(#[trigger] guesses[l])@];
        assert(pool[i].0 == paths[i] && pool[j].0 == paths[j]);
        reveal_with_fuel(path_key, 2);
        lemma_code_order(guesses[k]@, guesses[l]@);
    }
    lemma_top_unique(kept, held, pool);
}

/// Offers to `beam` every path that `stem` grows into by one guess, each with its score. With
/// no stem the paths are the seeds.
fn grow<F: Fn(&Vec<usize>) -> u64>(
    beam: Beam,
    stem: Option<&Path>,
    history: &Vec<(Word, [u8; 5])>,
    candidates: &Vec<Word>,
    guesses: &Vec<Word>,
    scorer: &F,
    Ghost(done): Ghost<Seq<Seq<Seq<char>>>>,
) -> (grown: Beam)
    requires
        candidates@.len() > 0,
        takes_histograms(scorer),
        stem matches Some(path) ==> path@.0.len() < MAX_DEPTH,
        is_scored_pool(beam.seen(), done, scorer, candidates@),
    ensures
        grown.width() == beam.width(),
        is_scored_pool(
            grown.seen(),
            done + extensions(
                match stem {
                    Some(path) => path@.0,
                    None => Seq::empty(),
                },
                history@,
                guesses@,
                guesses@.len() as int,
            ),
            scorer,
            candidates@,
        ),
{
    let ghost base: Seq<Seq<char>> = match stem {
        Some(path) => path@.0,
        None => Seq::empty(),
    };
    let ghost width = beam.width();
    let mut beam: Beam = beam;
    let mut i: usize = 0;
    assert(done + extensions(base, history@, guesses@, 0) =~= done);
    while i < guesses.len()
        invariant
            i <= guesses@.len(),
            candidates@.len() > 0,
            takes_histograms(scorer),
            base == match stem {
                Some(path) => path@.0,
                None => Seq::<Seq<char>>::empty(),
            },
            base.len() < MAX_DEPTH,
            beam.width() == width,
            is_scored_pool(
                beam.seen(),
                done + extensions(base, history@, guesses@, i as int),
                scorer,
                candidates@,
            ),
        decreases guesses@.len() - i,
    {
        let word: &Word = &guesses[i];
        let ghost so_far = done + extensions(base, history@, guesses@, i as int);
        let on_path: bool = match stem {
            Some(path) => is_among(path.words(), word),
            None => {
                assert(!base.contains(word@));
                false
            },
        };
        if !was_tried(history, word) && !on_path {
            let mut words: Vec<Word> = match stem {
                Some(path) => copy_words(path.words()),
                None => {
                    let none: Vec<Word> = Vec::new();
                    assert(words_of(none@) =~= base);
                    none
                },
            };
            words.push(word.clone());
            assert(words_of(words@) =~= base.push(word@));
            let score: u64 = match compute_entropy(&words, candidates, scorer) {
                Ok(score) => score,
                Err(_) => 0,
            };
            let ghost seen = beam.seen();
            match Path::new(words, score) {
                Some(path) => {
                    beam = beam.offer(path);
                    proof {
                        let next = done + extensions(base, history@, guesses@, i + 1);
                        assert(next =~= so_far.push(base.push(word@)));
                        assert forall|r: int| 0 <= r < beam.seen().len() implies (
                        #[trigger] beam.seen()[r]).0 == next[r] && scores(
                            scorer,
                            candidates@,
                            beam.seen()[r].0,
                            beam.seen()[r].1,
                        ) by {
                            if r < seen.len() {
                                assert(beam.seen()[r] == seen[r]);
                            }
                        }
                    }
                },
                None => {},
            }
        } else {
            assert(done + extensions(base, history@, guesses@, i + 1) =~= so_far);
        }
        i += 1;
    }
    beam
}

/// A copy of a list of words.
fn copy_words(words: &Vec<Word>) -> (copy: Vec<Word>)
    ensures
        words_of(copy@) == words_of(words@),
{
    let mut copy: Vec<Word> = Vec::new();
    let mut j: usize = 0;
    while j < words.len()
        invariant
            j <= words@.len(),
            words_of(copy@) == words_of(words@).take(j as int),
        decreases words@.len() - j,
    {
        let ghost before = words_of(copy@);
        copy.push(words[j].clone());
        assert(words_of(copy@) =~= before.push(words@[j as int]@));
        assert(words_of(words@).take(j + 1) =~= words_of(words@).take(j as int).push(
            words@[j as int]@,
        ));
        j += 1;
    }
    assert(words_of(words@).take(words@.len() as int) =~= words_of(words@));
    copy
}

/// The first word of each path with the path's score, in the order of the paths.
pub fn emit(kept: &Vec<Path>) -> (ranking: Vec<(String, u64)>)
    ensures
        listing(ranking@) == ranking_of(views(kept@)),
{
    let mut ranking: Vec<(String, u64)> = Vec::new();
    let mut i: usize = 0;
    while i < kept.len()
        invariant
            i <= kept@.len(),
            listing(ranking@) == ranking_of(views(kept@)).take(i as int),
        decreases kept@.len() - i,
    {
        let ghost before = listing(ranking@);
        let words: &Vec<Word> = kept[i].words();
        let first: String = words[0].origin().clone();
        let entry: (String, u64) = (first, kept[i].entropy());
        ranking.push(entry);
        proof {
            assert(words_of(words@)[0] == words@[0]@);
            assert(listing(ranking@) =~= before.push((kept@[i as int]@.0[0], kept@[i as int]@.1)));
            assert(ranking_of(views(kept@)).take(i + 1) =~= ranking_of(views(kept@)).take(
                i as int,
            ).push(ranking_of(views(kept@))[i as int]));
        }
        i += 1;
    }
    assert(ranking_of(views(kept@)).take(kept@.len() as int) =~= ranking_of(views(kept@)));
    ranking
}

/// The entries of `full` whose word is one of the `candidates`, in the order of `full`.
pub fn only_candidates(full: &Vec<(String, u64)>, candidates: &Vec<Word>) -> (only: Vec<
    (String, u64),
>)
    ensures
        listing(only@) == listing(full@).filter(
            |e: (Seq<char>, u64)| words_of(candidates@).contains(e.0),
        ),
{
    let ghost keep = |e: (Seq<char>, u64)| words_of(candidates@).contains(e.0);
    let mut only: Vec<(String, u64)> = Vec::new();
    let mut i: usize = 0;
    proof {
        reveal(Seq::filter);
        assert(listing(full@).take(0) =~= Seq::<(Seq<char>, u64)>::empty());
        assert(listing(only@) =~= listing(full@).take(0).filter(keep));
    }
    while i < full.len()
        invariant
            i <= full@.len(),
            keep == (|e: (Seq<char>, u64)| words_of(candidates@).contains(e.0)),
            listing(only@) == listing(full@).take(i as int).filter(keep),
        decreases full@.len() - i,
    {
        let ghost before = listing(only@);
        let ghost prefix = listing(full@).take(i + 1);
        proof {
            reveal(Seq::filter);
            assert(prefix.drop_last() =~= listing(full@).take(i as int));
            assert(prefix.last() == (full@[i as int].0@, full@[i as int].1));
        }
        if has_text(candidates, &full[i].0) {
            let entry: (String, u64) = (full[i].0.clone(), full[i].1);
            only.push(entry);
            assert(listing(only@) =~= before.push((full@[i as int].0@, full@[i as int].1)));
        }
        i += 1;
    }
    assert(listing(full@).take(full@.len() as int) =~= listing(full@));
    only
}

/// Whether one of `words` is spelled `text`.
fn has_text(words: &Vec<Word>, text: &String) -> (found: bool)
    ensures
        found == words_of(words@).contains(text@),
{
    let mut i: usize = 0;
    while i < words.len()
        invariant
            i <= words@.len(),
            forall|j: int| 0 <= j < i ==> words_of(words@)[j] != text@,
        decreases words@.len() - i,
    {
        if *words[i].origin() == *text {
            assert(words_of(words@)[i as int] == text@);
            return true;
        }
        i += 1;
    }
    false
}

/// The single guesses of `scored` that were not tried in `history`, each as a path with the
/// score that stands beside it, in the order of `scored` up to place `upto`.
pub open spec fn given_pool(
    history: Seq<(Word, [u8; 5])>,
    scored: Seq<(Word, u64)>,
    upto: int,
) -> Seq<Scored>
    decreases upto,
{
    if upto <= 0 {
        Seq::empty()
    } else {
        let before = given_pool(history, scored, upto - 1);
        let entry = scored[upto - 1];
        if tried(history, entry.0@) {
            before
        } else {
            before.push((seq![entry.0@], entry.1))
        }
    }
}

/// Whether `full` shows all paths of `pool` best first: the first word of each with its score.
pub open spec fn is_ranking_of(full: Seq<(Seq<char>, u64)>, pool: Seq<Scored>) -> bool {
    exists|kept: Seq<Scored>|
        #![trigger ranking_of(kept)]
        is_top(kept, pool, pool.len() as int) && full == ranking_of(kept)
}

/// No more guesses are taken into the pool than there are.
pub proof fn lemma_given_pool_len(
    history: Seq<(Word, [u8; 5])>,
    scored: Seq<(Word, u64)>,
    upto: int,
)
    requires
        0 <= upto,
    ensures
        given_pool(history, scored, upto).len() <= upto,
    decreases upto,
{
    if upto > 0 {
        lemma_given_pool_len(history, scored, upto - 1);
    }
}

/// Where every guess stands with a score that `scorer` gives it alone on the `candidates`, the
/// pool of the untried guesses is the scored pool of the seeds.
pub proof fn lemma_given_pool_scored<F: Fn(&Vec<usize>) -> u64>(
    scorer: &F,
    history: Seq<(Word, [u8; 5])>,
    candidates: Seq<Word>,
    guesses: Seq<Word>,
    scored: Seq<(Word, u64)>,
    upto: int,
)
    requires
        0 <= upto <= guesses.len(),
        scored.len() == guesses.len(),
        forall|i: int| 0 <= i < guesses.len() ==> (#[trigger] scored[i]).0@ == guesses[i]@,
        forall|i: int|
            0 <= i < guesses.len() && !tried(history, guesses[i]@) ==> scores(
                scorer,
                candidates,
                seq![guesses[i]@],
                (#[trigger] scored[i]).1,
            ),
    ensures
        is_scored_pool(
            given_pool(history, scored, upto),
            extensions(Seq::empty(), history, guesses, upto),
            scorer,
            candidates,
        ),
    decreases upto,
{
    if upto > 0 {
        lemma_given_pool_scored(scorer, history, candidates, guesses, scored, upto - 1);
        let pool = given_pool(history, scored, upto);
        let paths = extensions(Seq::empty(), history, guesses, upto);
        let before = given_pool(history, scored, upto - 1);
        let word = guesses[upto - 1]@;
        assert(scored[upto - 1].0@ == word);
        assert(!Seq::<Seq<char>>::empty().contains(word));
        assert(Seq::<Seq<char>>::empty().push(word) =~= seq![word]);
        assert forall|i: int| 0 <= i < pool.len() implies (#[trigger] pool[i]).0 == paths[i]
            && scores(scorer, candidates, pool[i].0, pool[i].1) by {
            if i < before.len() {
                assert(pool[i] == before[i]);
            } else {
                assert(pool[i] == (seq![word], scored[upto - 1].1));
            }
        }
    }
}

/// A ranking of guesses that stand with scores of `scorer` is a full ranking by `scorer`.
pub proof fn lemma_given_ranking_is_full<F: Fn(&Vec<usize>) -> u64>(
    full: Seq<(Seq<char>, u64)>,
    scorer: &F,
    history: Seq<(Word, [u8; 5])>,
    candidates: Seq<Word>,
    guesses: Seq<Word>,
    scored: Seq<(Word, u64)>,
)
    requires
        scored.len() == guesses.len(),
        forall|i: int| 0 <= i < guesses.len() ==> (#[trigger] scored[i]).0@ == guesses[i]@,
        forall|i: int|
            0 <= i < guesses.len() && !tried(history, guesses[i]@) ==> scores(
                scorer,
                candidates,
                seq![guesses[i]@],
                (#[trigger] scored[i]).1,
            ),
        forall|k: int| 0 <= k < guesses.len() ==> is_word((#[trigger] guesses[k])@),
        is_ranking_of(full, given_pool(history, scored, scored.len() as int)),
    ensures
        is_full_ranking(full, scorer, history, candidates, guesses),
{
    let pool = given_pool(history, scored, scored.len() as int);
    lemma_given_pool_scored(scorer, history, candidates, guesses, scored, guesses.len() as int);
    let kept = choose|kept: Seq<Scored>|
        #![trigger ranking_of(kept)]
        is_top(kept, pool, pool.len() as int) && full == ranking_of(kept);
    assert(is_top(kept, pool, pool.len() as int));
}

/// Ranks guesses whose scores are given: every guess of `scored` that was not tried in
/// `history`, with the score that stands beside it, the higher score first and between equal
/// scores the word that comes later in the alphabet first. The second list holds those entries
/// of the first whose word is one of the `candidates`, in the same order.
pub fn rank_scored(
    history: &Vec<(Word, [u8; 5])>,
    candidates: &Vec<Word>,
    scored: &Vec<(Word, u64)>,
) -> (ranked: (Vec<(String, u64)>, Vec<(String, u64)>))
    ensures
        is_ranking_of(listing(ranked.0@), given_pool(history@, scored@, scored@.len() as int)),
        listing(ranked.1@) == listing(ranked.0@).filter(
            |e: (Seq<char>, u64)| words_of(candidates@).contains(e.0),
        ),
{
    let mut beam: Beam = Beam::new(usize::MAX);
    let mut i: usize = 0;
    while i < scored.len()
        invariant
            i <= scored@.len(),
            beam.width() == usize::MAX,
            beam.seen() == given_pool(history@, scored@, i as int),
        decreases scored@.len() - i,
    {
        if !was_tried(history, &scored[i].0) {
            let mut words: Vec<Word> = Vec::new();
            words.push(scored[i].0.clone());
            assert(words_of(words@) =~= seq![scored@[i as int].0@]);
            match Path::new(words, scored[i].1) {
                Some(path) => {
                    beam = beam.offer(path);
                },
                None => {},
            }
        }
        i += 1;
    }
    let ghost pool = beam.seen();
    let kept: Vec<Path> = beam.into_paths();
    let full: Vec<(String, u64)> = emit(&kept);
    let only: Vec<(String, u64)> = only_candidates(&full, candidates);
    proof {
        lemma_given_pool_len(history@, scored@, scored@.len() as int);
        let source = choose|source: Seq<int>|
            selects(views(kept@), pool, source, usize::MAX as int);
        assert(selects(views(kept@), pool, source, pool.len() as int));
        assert(is_top(views(kept@), pool, pool.len() as int));
    }
    (full, only)
}

/// Ranks every guess that was not tried by what it alone tells about the candidates.
///
/// The first list holds every such guess with its score, the higher score first and between
/// equal scores the word that comes later in the alphabet first. The second list holds those
/// entries of the first whose word is itself a candidate, in the same order.
///
/// Fails with `EmptyCandidateSet` exactly when there is no candidate.
pub fn help<F: Fn(&Vec<usize>) -> u64>(
    history: &Vec<(Word, [u8; 5])>,
    candidates: &Vec<Word>,
    guesses: &Vec<Word>,
    scorer: &F,
) -> (ranked: Result<(Vec<(String, u64)>, Vec<(String, u64)>), EngineError>)
    requires
        takes_histograms(scorer),
    ensures
        match ranked {
            Ok((full, only)) => {
                &&& candidates@.len() > 0
                &&& is_full_ranking(listing(full@), scorer, history@, candidates@, guesses@)
                &&& listing(only@) == listing(full@).filter(
                    |e: (Seq<char>, u64)| words_of(candidates@).contains(e.0),
                )
            },
            Err(e) => e == EngineError::EmptyCandidateSet && candidates@.len() == 0,
        },
{
    if candidates.len() == 0 {
        return Err(EngineError::EmptyCandidateSet);
    }
    let mut scored: Vec<(Word, u64)> = Vec::new();
    let mut i: usize = 0;
    while i < guesses.len()
        invariant
            i <= guesses@.len(),
            candidates@.len() > 0,
            takes_histograms(scorer),
            scored@.len() == i,
            forall|r: int| 0 <= r < i ==> is_word((#[trigger] guesses@[r])@),
            forall|r: int| 0 <= r < i ==> (#[trigger] scored@[r]).0@ == guesses@[r]@,
            forall|r: int|
                0 <= r < i && !tried(history@, guesses@[r]@) ==> scores(
                    scorer,
                    candidates@,
                    seq![guesses@[r]@],
                    (#[trigger] scored@[r]).1,
                ),
        decreases guesses@.len() - i,
    {
        let mut score: u64 = 0;
        if !was_tried(history, &guesses[i]) {
            let mut alone: Vec<Word> = Vec::new();
            alone.push(guesses[i].clone());
            assert(words_of(alone@) =~= seq![guesses@[i as int]@]);
            score = match compute_entropy(&alone, candidates, scorer) {
                Ok(score) => score,
                Err(_) => 0,
            };
        }
        let entry: (Word, u64) = (guesses[i].clone(), score);
        scored.push(entry);
        i += 1;
    }
    let (full, only) = rank_scored(history, candidates, &scored);
    proof {
        lemma_given_ranking_is_full(
            listing(full@),
            scorer,
            history@,
            candidates@,
            guesses@,
            scored@,
        );
    }
    Ok((full, only))
}

/// Ranks first guesses by looking several turns ahead.
///
/// With at most `SMALL_SET` candidates, or with at most one turn left, the result is the full
/// ranking that `help` gives. Otherwise the search keeps the `BEAM_WIDTH` best seeds, lets the
/// kept paths grow by one guess in each further round, keeping the `BEAM_WIDTH` best again,
/// until the paths have as many words as there are turns left, three at most. The result shows
/// the first word of every path that is left with the path's score, best first.
///
/// Fails with `EmptyCandidateSet` exactly when there is no candidate.
pub fn solve<F: Fn(&Vec<usize>) -> u64>(
    history: &Vec<(Word, [u8; 5])>,
    candidates: &Vec<Word>,
    guesses: &Vec<Word>,
    time: i32,
    scorer: &F,
) -> (ranked: Result<Vec<(String, u64)>, EngineError>)
    requires
        takes_histograms(scorer),
    ensures
        match ranked {
            Ok(ranking) => {
                &&& candidates@.len() > 0
                &&& (candidates@.len() <= SMALL_SET || time <= 1) ==> is_full_ranking(
                    listing(ranking@),
                    scorer,
                    history@,
                    candidates@,
                    guesses@,
                )
                &&& !(candidates@.len() <= SMALL_SET || time <= 1) ==> {
                    &&& ranking@.len() <= BEAM_WIDTH
                    &&& exists|kept: Seq<Scored>|
                        #![trigger ranking_of(kept)]
                        {
                            &&& reachable(
                                kept,
                                if time < MAX_DEPTH {
                                    time as int
                                } else {
                                    MAX_DEPTH as int
                                },
                                scorer,
                                history@,
                                candidates@,
                                guesses@,
                            )
                            &&& listing(ranking@) == ranking_of(kept)
                        }
                }
            },
            Err(e) => e == EngineError::EmptyCandidateSet && candidates@.len() == 0,
        },
{
    if candidates.len() == 0 {
        return Err(EngineError::EmptyCandidateSet);
    }
    if candidates.len() <= SMALL_SET || time <= 1 {
        return match help(history, candidates, guesses, scorer) {
            Ok((full, _)) => Ok(full),
            Err(e) => Err(e),
        };
    }
    let depth: i32 = if time < 3 {
        time
    } else {
        3
    };
    let first: Beam = grow(
        Beam::new(BEAM_WIDTH),
        None,
        history,
        candidates,
        guesses,
        scorer,
        Ghost(Seq::empty()),
    );
    proof {
        assert(Seq::<Seq<Seq<char>>>::empty() + seeds(history@, guesses@) =~= seeds(
            history@,
            guesses@,
        ));
    }
    let mut kept: Vec<Path> = first.into_paths();
    let mut round: i32 = 1;
    while round < depth
        invariant
            1 <= round <= depth <= 3,
            candidates@.len() > 0,
            takes_histograms(scorer),
            kept@.len() <= BEAM_WIDTH,
            reachable(views(kept@), round as int, scorer, history@, candidates@, guesses@),
        decreases depth - round,
    {
        let ghost before = views(kept@);
        proof {
            lemma_search_bounded(before, round as int, scorer, history@, candidates@, guesses@);
        }
        let mut beam: Beam = Beam::new(BEAM_WIDTH);
        let mut i: usize = 0;
        while i < kept.len()
            invariant
                i <= kept@.len(),
                1 <= round < 3,
                candidates@.len() > 0,
                takes_histograms(scorer),
                before == views(kept@),
                forall|r: int| 0 <= r < before.len() ==> (#[trigger] before[r]).0.len() == round,
                beam.width() == BEAM_WIDTH,
                is_scored_pool(
                    beam.seen(),
                    all_extensions(before, history@, guesses@, i as int),
                    scorer,
                    candidates@,
                ),
            decreases kept@.len() - i,
        {
            assert(kept@[i as int]@ == before[i as int]);
            beam =
            grow(
                beam,
                Some(&kept[i]),
                history,
                candidates,
                guesses,
                scorer,
                Ghost(all_extensions(before, history@, guesses@, i as int)),
            );
            i += 1;
        }
        let ghost pool = beam.seen();
        kept = beam.into_paths();
        round += 1;
        proof {
            assert(reachable(before, round - 1, scorer, history@, candidates@, guesses@));
            assert(is_top(views(kept@), pool, BEAM_WIDTH as int));
            assert(is_next_round(views(kept@), before, scorer, history@, candidates@, guesses@));
            assert(reachable(views(kept@), round as int, scorer, history@, candidates@, guesses@));
        }
    }
    let ranking: Vec<(String, u64)> = emit(&kept);
    proof {
        assert(listing(ranking@).len() == ranking@.len());
        assert(ranking_of(views(kept@)).len() == kept@.len());
    }
    Ok(ranking)
}

} // verus!
