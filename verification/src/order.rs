//! The order of texts in a dictionary, and the orders that rankings use.

use std::cmp::Ordering;
use vstd::std_specs::cmp::{OrdSpec, PartialEqSpec, PartialOrdSpec};
use crate::word::{code_upto, is_upper, is_word, letter_rank, word_code};
use vstd::prelude::*;

verus! {

/// Whether the text `a` comes before the text `b` in the order of a dictionary that goes by
/// the characters' code points: at the first place where the two differ `a` has the smaller
/// character, or `a` ends there and `b` goes on.
pub open spec fn text_before(a: Seq<char>, b: Seq<char>) -> bool
    decreases a.len(),
{
    if b.len() == 0 {
        false
    } else if a.len() == 0 {
        true
    } else if a[0] != b[0] {
        a[0] < b[0]
    } else {
        text_before(a.drop_first(), b.drop_first())
    }
}

/// How the text `a` stands to the text `b` in that order.
pub open spec fn text_order(a: Seq<char>, b: Seq<char>) -> Ordering {
    if text_before(a, b) {
        Ordering::Less
    } else if a == b {
        Ordering::Equal
    } else {
        Ordering::Greater
    }
}

/// No text comes before itself.
pub proof fn lemma_text_before_irreflexive(a: Seq<char>)
    ensures
        !text_before(a, a),
    decreases a.len(),
{
    if a.len() > 0 {
        lemma_text_before_irreflexive(a.drop_first());
    }
}

/// A text that comes before a second one comes before every text that the second one comes
/// before.
pub proof fn lemma_text_before_transitive(a: Seq<char>, b: Seq<char>, c: Seq<char>)
    requires
        text_before(a, b),
        text_before(b, c),
    ensures
        text_before(a, c),
    decreases a.len(),
{
    if a.len() > 0 && b.len() > 0 && c.len() > 0 {
        if a[0] == b[0] && b[0] == c[0] {
            lemma_text_before_transitive(a.drop_first(), b.drop_first(), c.drop_first());
        }
    }
}

/// Of two different texts one comes before the other.
pub proof fn lemma_text_before_total(a: Seq<char>, b: Seq<char>)
    ensures
        text_before(a, b) || a == b || text_before(b, a),
    decreases a.len(),
{
    if a.len() > 0 && b.len() > 0 {
        if a[0] == b[0] {
            lemma_text_before_total(a.drop_first(), b.drop_first());
            if a.drop_first() == b.drop_first() {
                assert(a =~= seq![a[0]] + a.drop_first());
                assert(b =~= seq![b[0]] + b.drop_first());
            }
        }
    } else if a.len() == 0 && b.len() == 0 {
        assert(a =~= b);
    }
}

/// How `a` stands to `b`, as `Ord::cmp` of `String` gives it: texts are ordered by their bytes,
/// which puts them in the order of their characters' code points, place by place.
#[verifier::external_body]
pub(crate) fn compare_text(a: &String, b: &String) -> (order: Ordering)
    ensures
        order == text_order(a@, b@),
{
    a.cmp(b)
}

/// Whether the text `a` comes before the text `b` in the dictionary.
pub fn comes_before(a: &String, b: &String) -> (before: bool)
    ensures
        before == text_before(a@, b@),
{
    match compare_text(a, b) {
        Ordering::Less => true,
        Ordering::Equal => false,
        Ordering::Greater => false,
    }
}

/// Orders two counted words: the one with the lower count is the lesser one, and between equal
/// counts the one whose word comes later in the dictionary.
pub fn cmp_ref<T: Ord>(a: &(&String, &T), b: &(&String, &T)) -> (order: Ordering)
    ensures
        T::obeys_eq_spec() && T::obeys_cmp_spec() ==> order == if a.1.eq_spec(b.1) {
            text_order(b.0@, a.0@)
        } else {
            a.1.cmp_spec(b.1)
        },
{
    if *a.1 == *b.1 {
        compare_text(b.0, a.0)
    } else {
        a.1.cmp(b.1)
    }
}

/// Orders two scored items: the one with the higher score is the lesser one. Where the scores
/// cannot be compared the first item counts as the greater one.
pub fn cmp_val<X, T: PartialOrd>(a: &(X, T), b: &(X, T)) -> (order: Ordering)
    ensures
        T::obeys_partial_cmp_spec() ==> order == match b.1.partial_cmp_spec(&a.1) {
            Some(o) => o,
            None => Ordering::Greater,
        },
{
    if let Some(order) = b.1.partial_cmp(&a.1) {
        order
    } else {
        Ordering::Greater
    }
}

/// Texts of upper-case letters that agree up to a place are ordered like what follows.
proof fn lemma_code_step(a: Seq<char>, b: Seq<char>, upto: int)
    requires
        0 <= upto <= a.len(),
        a.len() == b.len(),
        forall|i: int| 0 <= i < a.len() ==> is_upper(#[trigger] a[i]),
        forall|i: int| 0 <= i < b.len() ==> is_upper(#[trigger] b[i]),
    ensures
        code_upto(a, upto) < code_upto(b, upto) <==> text_before(a.take(upto), b.take(upto)),
        code_upto(a, upto) == code_upto(b, upto) <==> a.take(upto) == b.take(upto),
    decreases upto,
{
    if upto == 0 {
        assert(a.take(0) =~= b.take(0));
    } else {
        lemma_code_step(a, b, upto - 1);
        lemma_text_before_last(a.take(upto), b.take(upto));
        assert(a.take(upto).drop_last() =~= a.take(upto - 1));
        assert(b.take(upto).drop_last() =~= b.take(upto - 1));
        assert(is_upper(a[upto - 1]) && is_upper(b[upto - 1]));
        let x = code_upto(a, upto - 1);
        let y = code_upto(b, upto - 1);
        if a.take(upto - 1) == b.take(upto - 1) && a[upto - 1] == b[upto - 1] {
            assert(a.take(upto) =~= b.take(upto));
        }
        if a.take(upto) == b.take(upto) {
            assert(a.take(upto)[upto - 1] == b.take(upto)[upto - 1]);
        }
    }
}

/// Between two texts of one length the order is decided by all but the last characters, and
/// by the last characters where those agree.
proof fn lemma_text_before_last(a: Seq<char>, b: Seq<char>)
    requires
        a.len() == b.len(),
        a.len() > 0,
    ensures
        text_before(a, b) <==> text_before(a.drop_last(), b.drop_last()) || (a.drop_last()
            == b.drop_last() && a.last() < b.last()),
    decreases a.len(),
{
    let front_a = a.drop_last();
    let front_b = b.drop_last();
    if a.len() == 1 {
        reveal_with_fuel(text_before, 3);
        assert(front_a =~= front_b);
        assert(a.drop_first().len() == 0);
        assert(b.drop_first().len() == 0);
    } else {
        let x = a.drop_first();
        let y = b.drop_first();
        lemma_text_before_last(x, y);
        assert(front_a.drop_first() =~= x.drop_last());
        assert(front_b.drop_first() =~= y.drop_last());
        assert(front_a[0] == a[0] && front_b[0] == b[0]);
        assert(x.last() == a.last() && y.last() == b.last());
        if a[0] == b[0] {
            if x.drop_last() == y.drop_last() {
                assert forall|i: int| 0 <= i < front_a.len() implies front_a[i] == front_b[i] by {
                    if i > 0 {
                        assert(front_a[i] == x.drop_last()[i - 1]);
                        assert(front_b[i] == y.drop_last()[i - 1]);
                    }
                }
                assert(front_a =~= front_b);
            }
            if front_a == front_b {
                assert(x.drop_last() =~= y.drop_last());
            }
        } else {
            assert(front_a != front_b);
        }
    }
}

/// The codes of words follow the dictionary: a word has the smaller code exactly when it comes
/// before the other, and the same code only when it is the same word.
pub proof fn lemma_code_order(a: Seq<char>, b: Seq<char>)
    requires
        is_word(a),
        is_word(b),
    ensures
        word_code(a) < word_code(b) <==> text_before(a, b),
        word_code(a) == word_code(b) <==> a == b,
{
    lemma_code_step(a, b, 5);
    assert(a.take(5) =~= a);
    assert(b.take(5) =~= b);
}

} // verus!
