//! Splitting a list into groups of equal items and counting the groups.

use std::collections::HashMap;
use vstd::prelude::*;

verus! {

broadcast use vstd::std_specs::hash::group_hash_axioms;

/// Whether position `i` is the first one at which its key occurs in `keys`.
pub open spec fn is_leader<K>(keys: Seq<K>, i: int) -> bool {
    forall|j: int| 0 <= j < i ==> keys[j] != keys[i]
}

/// The positions below `upto` at which a key occurs for the first time, in ascending order.
/// Each stands for one group of equal keys.
pub open spec fn leaders<K>(keys: Seq<K>, upto: int) -> Seq<int>
    decreases upto,
{
    if upto <= 0 {
        Seq::empty()
    } else if is_leader(keys, upto - 1) {
        leaders(keys, upto - 1).push(upto - 1)
    } else {
        leaders(keys, upto - 1)
    }
}

/// Number of positions below `upto` at which `keys` holds `key`.
pub open spec fn times<K>(keys: Seq<K>, key: K, upto: int) -> nat
    decreases upto,
{
    if upto <= 0 {
        0
    } else {
        times(keys, key, upto - 1) + if keys[upto - 1] == key {
            1nat
        } else {
            0nat
        }
    }
}

/// The sizes of the groups of equal keys, the groups in the order in which their keys first
/// occur.
pub open spec fn group_sizes<K>(keys: Seq<K>) -> Seq<nat> {
    let firsts = leaders(keys, keys.len() as int);
    Seq::new(firsts.len(), |g: int| times(keys, keys[firsts[g]], keys.len() as int))
}

/// Whether `sizes` are the group sizes of `keys`, group by group.
pub open spec fn sizes_match<K>(sizes: Seq<usize>, keys: Seq<K>) -> bool {
    &&& sizes.len() == group_sizes(keys).len()
    &&& forall|g: int| 0 <= g < sizes.len() ==> (#[trigger] sizes[g]) as nat == group_sizes(keys)[g]
}

/// A key that does not occur below `upto` is counted zero times there.
pub proof fn lemma_times_absent<K>(keys: Seq<K>, key: K, upto: int)
    requires
        0 <= upto <= keys.len(),
        forall|j: int| 0 <= j < upto ==> keys[j] != key,
    ensures
        times(keys, key, upto) == 0,
    decreases upto,
{
    if upto > 0 {
        lemma_times_absent(keys, key, upto - 1);
    }
}

/// No key is counted more often than there are positions.
pub proof fn lemma_times_bound<K>(keys: Seq<K>, key: K, upto: int)
    requires
        0 <= upto,
    ensures
        times(keys, key, upto) <= upto,
    decreases upto,
{
    if upto > 0 {
        lemma_times_bound(keys, key, upto - 1);
    }
}

/// Every leader is a position below `upto`, and there are at most `upto` of them.
pub proof fn lemma_leaders_range<K>(keys: Seq<K>, upto: int)
    requires
        0 <= upto,
    ensures
        leaders(keys, upto).len() <= upto,
        forall|g: int| 0 <= g < leaders(keys, upto).len() ==> 0 <= #[trigger] leaders(keys, upto)[g] < upto,
    decreases upto,
{
    if upto > 0 {
        lemma_leaders_range(keys, upto - 1);
    }
}

/// Counts the groups of equal codes: one size for each distinct code, in the order in which
/// the codes first occur.
pub fn count_groups(codes: &Vec<u64>) -> (sizes: Vec<usize>)
    ensures
        sizes_match(sizes@, codes@),
{
    let mut group_of: HashMap<u64, usize> = HashMap::new();
    let mut sizes: Vec<usize> = Vec::new();
    let mut n: usize = 0;
    while n < codes.len()
        invariant
            n <= codes@.len(),
            sizes@.len() == leaders(codes@, n as int).len(),
            forall|g: int|
                0 <= g < sizes@.len() ==> (#[trigger] sizes@[g]) as nat == times(
                    codes@,
                    codes@[leaders(codes@, n as int)[g]],
                    n as int,
                ),
            forall|g: int|
                0 <= g < sizes@.len() ==> 0 <= #[trigger] leaders(codes@, n as int)[g] < n,
            forall|g: int|
                0 <= g < sizes@.len() ==> {
                    &&& group_of@.contains_key(codes@[#[trigger] leaders(codes@, n as int)[g]])
                    &&& group_of@[codes@[leaders(codes@, n as int)[g]]] == g
                },
            forall|code: u64| #[trigger]
                group_of@.contains_key(code) ==> {
                    &&& group_of@[code] < sizes@.len()
                    &&& codes@[leaders(codes@, n as int)[group_of@[code] as int]] == code
                },
            forall|j: int| 0 <= j < n ==> group_of@.contains_key(#[trigger] codes@[j]),
        decreases codes@.len() - n,
    {
        let code: u64 = codes[n];
        let ghost firsts = leaders(codes@, n as int);
        let ghost old_sizes = sizes@;
        let ghost old_groups = group_of@;
        let seen: Option<usize> = match group_of.get(&code) {
            Some(g) => Some(*g),
            None => None,
        };
        match seen {
            Some(g) => {
                proof {
                    lemma_times_bound(codes@, code, n as int);
                    assert(!is_leader(codes@, n as int)) by {
                        assert(codes@[firsts[g as int]] == code);
                    }
                }
                let grown: usize = sizes[g] + 1;
                sizes[g] = grown;
                proof {
                    assert forall|h: int| 0 <= h < sizes@.len() implies (#[trigger] sizes@[h])
                        as nat == times(codes@, codes@[firsts[h]], n + 1) by {
                        if h != g {
                            assert(sizes@[h] == old_sizes[h]);
                            assert(old_groups[codes@[firsts[h]]] == h);
                        }
                    }
                }
            },
            None => {
                proof {
                    assert(is_leader(codes@, n as int));
                    lemma_times_absent(codes@, code, n as int);
                }
                group_of.insert(code, sizes.len());
                sizes.push(1);
                proof {
                    let grown = leaders(codes@, n + 1);
                    assert(grown == firsts.push(n as int));
                    assert forall|h: int| 0 <= h < sizes@.len() implies (#[trigger] sizes@[h])
                        as nat == times(codes@, codes@[grown[h]], n + 1) by {
                        if h < old_sizes.len() {
                            assert(sizes@[h] == old_sizes[h]);
                            assert(old_groups.contains_key(codes@[firsts[h]]));
                        }
                    }
                    assert forall|h: int| 0 <= h < sizes@.len() implies {
                        &&& group_of@.contains_key(codes@[#[trigger] grown[h]])
                        &&& group_of@[codes@[grown[h]]] == h
                    } by {
                        if h < old_sizes.len() {
                            assert(old_groups.contains_key(codes@[firsts[h]]));
                        }
                    }
                    assert forall|c: u64| #[trigger] group_of@.contains_key(c) implies {
                        &&& group_of@[c] < sizes@.len()
                        &&& codes@[grown[group_of@[c] as int]] == c
                    } by {
                        if c != code {
                            assert(old_groups.contains_key(c));
                        }
                    }
                }
            },
        }
        n += 1;
    }
    sizes
}

/// Numbers the groups of equal keys: two positions get the same number exactly when they hold
/// the same key, and every number is below the number of keys.
pub fn group_numbers(keys: &Vec<u128>) -> (numbers: Vec<usize>)
    ensures
        numbers@.len() == keys@.len(),
        forall|a: int, b: int|
            0 <= a < keys@.len() && 0 <= b < keys@.len() ==> ((#[trigger] numbers@[a]
                == #[trigger] numbers@[b]) <==> keys@[a] == keys@[b]),
        forall|a: int| 0 <= a < keys@.len() ==> (#[trigger] numbers@[a]) < keys@.len(),
{
    let mut number_of: HashMap<u128, usize> = HashMap::new();
    let mut numbers: Vec<usize> = Vec::new();
    let mut next: usize = 0;
    let mut n: usize = 0;
    while n < keys.len()
        invariant
            n <= keys@.len(),
            numbers@.len() == n,
            next <= n,
            forall|a: int| 0 <= a < n ==> (#[trigger] numbers@[a]) < next,
            forall|a: int|
                0 <= a < n ==> number_of@.contains_key(#[trigger] keys@[a]) && number_of@[keys@[a]]
                    == numbers@[a],
            forall|k: u128| #[trigger] number_of@.contains_key(k) ==> number_of@[k] < next,
            forall|k: u128, l: u128|
                #[trigger] number_of@.contains_key(k) && #[trigger] number_of@.contains_key(l)
                    && number_of@[k] == number_of@[l] ==> k == l,
        decreases keys@.len() - n,
    {
        let key: u128 = keys[n];
        let ghost before = number_of@;
        let known: Option<usize> = match number_of.get(&key) {
            Some(number) => Some(*number),
            None => None,
        };
        match known {
            Some(number) => {
                numbers.push(number);
            },
            None => {
                number_of.insert(key, next);
                numbers.push(next);
                proof {
                    assert forall|a: int| 0 <= a < n + 1 implies number_of@.contains_key(
                        #[trigger] keys@[a],
                    ) && number_of@[keys@[a]] == numbers@[a] by {
                        if a < n {
                            assert(before.contains_key(keys@[a]));
                        }
                    }
                    assert forall|k: u128, l: u128|
                        #[trigger] number_of@.contains_key(k) && #[trigger] number_of@.contains_key(
                            l,
                        ) && number_of@[k] == number_of@[l] implies k == l by {
                        if k != key {
                            assert(before.contains_key(k));
                        }
                        if l != key {
                            assert(before.contains_key(l));
                        }
                    }
                    assert forall|k: u128| #[trigger]
                        number_of@.contains_key(k) implies number_of@[k] < next + 1 by {
                        if k != key {
                            assert(before.contains_key(k));
                        }
                    }
                }
                next = next + 1;
            },
        }
        n += 1;
    }
    numbers
}

/// Two lists that agree on which positions hold equal keys fall into groups of the same sizes.
pub proof fn lemma_same_grouping<A, B>(a: Seq<A>, b: Seq<B>)
    requires
        a.len() == b.len(),
        forall|i: int, j: int|
            0 <= i < a.len() && 0 <= j < a.len() ==> ((a[i] == a[j]) <==> (b[i] == b[j])),
    ensures
        group_sizes(a) == group_sizes(b),
{
    let n = a.len() as int;
    lemma_same_leaders(a, b, n);
    lemma_leaders_range(a, n);
    assert forall|g: int| 0 <= g < leaders(a, n).len() implies group_sizes(a)[g] == group_sizes(
        b,
    )[g] by {
        lemma_same_times(a, b, leaders(a, n)[g], n);
    }
    assert(group_sizes(a) =~= group_sizes(b));
}

/// Part of `lemma_same_grouping`: the same positions lead.
pub proof fn lemma_same_leaders<A, B>(a: Seq<A>, b: Seq<B>, upto: int)
    requires
        a.len() == b.len(),
        0 <= upto <= a.len(),
        forall|i: int, j: int|
            0 <= i < a.len() && 0 <= j < a.len() ==> ((a[i] == a[j]) <==> (b[i] == b[j])),
    ensures
        leaders(a, upto) == leaders(b, upto),
    decreases upto,
{
    if upto > 0 {
        lemma_same_leaders(a, b, upto - 1);
        assert(is_leader(a, upto - 1) == is_leader(b, upto - 1));
    }
}

/// Part of `lemma_same_grouping`: the key at `at` is counted equally often in both lists.
pub proof fn lemma_same_times<A, B>(a: Seq<A>, b: Seq<B>, at: int, upto: int)
    requires
        a.len() == b.len(),
        0 <= upto <= a.len(),
        0 <= at < a.len(),
        forall|i: int, j: int|
            0 <= i < a.len() && 0 <= j < a.len() ==> ((a[i] == a[j]) <==> (b[i] == b[j])),
    ensures
        times(a, a[at], upto) == times(b, b[at], upto),
    decreases upto,
{
    if upto > 0 {
        lemma_same_times(a, b, at, upto - 1);
    }
}

/// The sum of a list of sizes.
pub open spec fn total(sizes: Seq<nat>) -> nat
    decreases sizes.len(),
{
    if sizes.len() == 0 {
        0
    } else {
        total(sizes.drop_last()) + sizes.last()
    }
}

/// The group sizes when only the positions below `upto` are counted.
pub open spec fn sizes_upto<K>(keys: Seq<K>, upto: int) -> Seq<nat> {
    let firsts = leaders(keys, upto);
    Seq::new(firsts.len(), |g: int| times(keys, keys[firsts[g]], upto))
}

/// A key that occurs below `upto` is counted at least once there.
pub proof fn lemma_times_present<K>(keys: Seq<K>, at: int, upto: int)
    requires
        0 <= at < upto,
    ensures
        times(keys, keys[at], upto) >= 1,
    decreases upto,
{
    if at < upto - 1 {
        lemma_times_present(keys, at, upto - 1);
    }
}

/// Leaders come in ascending order and hold pairwise different keys.
pub proof fn lemma_leaders_distinct<K>(keys: Seq<K>, upto: int)
    requires
        0 <= upto,
    ensures
        forall|g: int, h: int|
            0 <= g < h < leaders(keys, upto).len() ==> {
                &&& leaders(keys, upto)[g] < leaders(keys, upto)[h]
                &&& keys[leaders(keys, upto)[g]] != keys[leaders(keys, upto)[h]]
            },
    decreases upto,
{
    if upto > 0 {
        lemma_leaders_distinct(keys, upto - 1);
        lemma_leaders_range(keys, upto - 1);
    }
}

/// Every position below `upto` holds the key of one of the leaders.
pub proof fn lemma_has_leader<K>(keys: Seq<K>, at: int, upto: int) -> (g: int)
    requires
        0 <= at < upto,
    ensures
        0 <= g < leaders(keys, upto).len(),
        keys[leaders(keys, upto)[g]] == keys[at],
    decreases upto, at,
{
    let before = leaders(keys, upto - 1);
    if at < upto - 1 {
        let g = lemma_has_leader(keys, at, upto - 1);
        assert(leaders(keys, upto)[g] == before[g]);
        g
    } else if is_leader(keys, upto - 1) {
        before.len() as int
    } else {
        let j = choose|j: int| 0 <= j < upto - 1 && #[trigger] keys[j] == keys[upto - 1];
        let g = lemma_has_leader(keys, j, upto - 1);
        assert(leaders(keys, upto)[g] == before[g]);
        g
    }
}

/// Changing one size changes the sum by as much.
pub proof fn lemma_total_update(sizes: Seq<nat>, g: int, size: nat)
    requires
        0 <= g < sizes.len(),
    ensures
        total(sizes.update(g, size)) == total(sizes) - sizes[g] + size,
    decreases sizes.len(),
{
    let changed = sizes.update(g, size);
    if g == sizes.len() - 1 {
        assert(changed.drop_last() =~= sizes.drop_last());
    } else {
        lemma_total_update(sizes.drop_last(), g, size);
        assert(changed.drop_last() =~= sizes.drop_last().update(g, size));
    }
}

/// The groups counted below `upto` hold `upto` positions in all.
pub proof fn lemma_sizes_upto_total<K>(keys: Seq<K>, upto: int)
    requires
        0 <= upto <= keys.len(),
    ensures
        total(sizes_upto(keys, upto)) == upto,
    decreases upto,
{
    if upto > 0 {
        let n = upto - 1;
        lemma_sizes_upto_total(keys, n);
        lemma_leaders_range(keys, n);
        lemma_leaders_distinct(keys, n);
        let firsts = leaders(keys, n);
        let before = sizes_upto(keys, n);
        let after = sizes_upto(keys, upto);
        if is_leader(keys, n) {
            lemma_times_absent(keys, keys[n], n);
            assert(after =~= before.push(1nat));
            assert(after.drop_last() =~= before);
        } else {
            let j = choose|j: int| 0 <= j < n && #[trigger] keys[j] == keys[n];
            let g = lemma_has_leader(keys, j, n);
            assert forall|h: int| 0 <= h < firsts.len() && h != g implies keys[firsts[h]]
                != keys[n] by {
                if h < g {
                    assert(keys[firsts[h]] != keys[firsts[g]]);
                } else {
                    assert(keys[firsts[g]] != keys[firsts[h]]);
                }
            }
            assert(after =~= before.update(g, before[g] + 1));
            lemma_total_update(before, g, before[g] + 1);
        }
    }
}

/// Every group holds at least one position, and all groups together hold every position once:
/// the sizes sum to the number of keys. With at least one key there is at least one group, and
/// never more groups than keys.
pub proof fn lemma_sizes_partition<K>(keys: Seq<K>)
    ensures
        forall|g: int| 0 <= g < group_sizes(keys).len() ==> #[trigger] group_sizes(keys)[g] >= 1,
        total(group_sizes(keys)) == keys.len(),
        group_sizes(keys).len() <= keys.len(),
        keys.len() >= 1 ==> group_sizes(keys).len() >= 1,
{
    let n = keys.len() as int;
    lemma_leaders_range(keys, n);
    assert forall|g: int| 0 <= g < group_sizes(keys).len() implies #[trigger] group_sizes(keys)[g]
        >= 1 by {
        lemma_times_present(keys, leaders(keys, n)[g], n);
    }
    lemma_sizes_upto_total(keys, n);
    assert(group_sizes(keys) =~= sizes_upto(keys, n));
    if n >= 1 {
        let g = lemma_has_leader(keys, 0, n);
    }
}

/// There is exactly one group if and only if all keys are equal.
pub proof fn lemma_single_group<K>(keys: Seq<K>)
    requires
        keys.len() >= 1,
    ensures
        group_sizes(keys).len() == 1 <==> forall|i: int, j: int|
            0 <= i < keys.len() && 0 <= j < keys.len() ==> keys[i] == keys[j],
{
    let n = keys.len() as int;
    let firsts = leaders(keys, n);
    lemma_leaders_range(keys, n);
    lemma_leaders_distinct(keys, n);
    if firsts.len() == 1 {
        assert forall|i: int, j: int| 0 <= i < n && 0 <= j < n implies keys[i] == keys[j] by {
            let g = lemma_has_leader(keys, i, n);
            let h = lemma_has_leader(keys, j, n);
        }
    }
    if forall|i: int, j: int| 0 <= i < n && 0 <= j < n ==> keys[i] == keys[j] {
        let g = lemma_has_leader(keys, 0, n);
        if firsts.len() >= 2 {
            assert(keys[firsts[0]] != keys[firsts[1]]);
        }
    }
}

/// Going on from `from` to `upto` adds at most one leader for each position.
pub proof fn lemma_leaders_growth<K>(keys: Seq<K>, from: int, upto: int)
    requires
        0 <= from <= upto,
    ensures
        leaders(keys, upto).len() <= leaders(keys, from).len() + (upto - from),
    decreases upto,
{
    if from < upto {
        lemma_leaders_growth(keys, from, upto - 1);
    }
}

/// Distinct keys all lead.
pub proof fn lemma_all_lead<K>(keys: Seq<K>, upto: int)
    requires
        0 <= upto <= keys.len(),
        forall|i: int, j: int| 0 <= i < j < keys.len() ==> keys[i] != keys[j],
    ensures
        leaders(keys, upto).len() == upto,
    decreases upto,
{
    if upto > 0 {
        lemma_all_lead(keys, upto - 1);
        assert(is_leader(keys, upto - 1));
    }
}

/// There are as many groups as keys if and only if no two keys are equal.
pub proof fn lemma_all_apart<K>(keys: Seq<K>)
    ensures
        group_sizes(keys).len() == keys.len() <==> forall|i: int, j: int|
            0 <= i < j < keys.len() ==> keys[i] != keys[j],
{
    let n = keys.len() as int;
    if forall|i: int, j: int| 0 <= i < j < keys.len() ==> keys[i] != keys[j] {
        lemma_all_lead(keys, n);
    }
    if leaders(keys, n).len() == n {
        assert forall|i: int, j: int| 0 <= i < j < n implies keys[i] != keys[j] by {
            if keys[i] == keys[j] {
                assert(!is_leader(keys, j));
                lemma_leaders_range(keys, j);
                assert(leaders(keys, j + 1) == leaders(keys, j));
                lemma_leaders_growth(keys, j + 1, n);
            }
        }
    }
}

/// The texts of a list.
pub open spec fn texts_of(list: Seq<String>) -> Seq<Seq<char>> {
    list.map_values(|s: String| s@)
}

/// Whether `counted` tells how often each text occurs in `texts`: one entry for each distinct
/// text, in the order in which the texts first occur, with the number of its occurrences.
pub open spec fn counts_match(counted: Seq<(String, usize)>, texts: Seq<Seq<char>>) -> bool {
    &&& counted.len() == group_sizes(texts).len()
    &&& forall|g: int|
        0 <= g < counted.len() ==> {
            &&& (#[trigger] counted[g]).0@ == texts[leaders(texts, texts.len() as int)[g]]
            &&& counted[g].1 as nat == group_sizes(texts)[g]
        }
}

/// The place of the entry for `text` in `counted`, if there is one.
fn place_of_text(counted: &Vec<(String, usize)>, text: &String) -> (place: Option<usize>)
    ensures
        match place {
            Some(g) => g < counted@.len() && counted@[g as int].0@ == text@,
            None => forall|h: int| 0 <= h < counted@.len() ==> (#[trigger] counted@[h]).0@ != text@,
        },
{
    let mut g: usize = 0;
    while g < counted.len()
        invariant
            g <= counted@.len(),
            forall|h: int| 0 <= h < g ==> (#[trigger] counted@[h]).0@ != text@,
        decreases counted@.len() - g,
    {
        if counted[g].0 == *text {
            return Some(g);
        }
        g += 1;
    }
    None
}

/// Counts how often each text occurs in `texts`.
pub fn count_texts(texts: &Vec<String>) -> (counted: Vec<(String, usize)>)
    ensures
        counts_match(counted@, texts_of(texts@)),
{
    let ghost keys = texts_of(texts@);
    let mut counted: Vec<(String, usize)> = Vec::new();
    let mut n: usize = 0;
    while n < texts.len()
        invariant
            n <= texts@.len(),
            keys == texts_of(texts@),
            counted@.len() == leaders(keys, n as int).len(),
            forall|g: int|
                0 <= g < counted@.len() ==> {
                    &&& 0 <= #[trigger] leaders(keys, n as int)[g] < n
                    &&& counted@[g].0@ == keys[leaders(keys, n as int)[g]]
                    &&& counted@[g].1 as nat == times(
                        keys,
                        keys[leaders(keys, n as int)[g]],
                        n as int,
                    )
                },
        decreases texts@.len() - n,
    {
        let ghost firsts = leaders(keys, n as int);
        let ghost before = counted@;
        assert(keys[n as int] == texts@[n as int]@);
        let place: Option<usize> = place_of_text(&counted, &texts[n]);
        if let Some(g) = place {
            proof {
                lemma_times_bound(keys, keys[n as int], n as int);
                lemma_leaders_distinct(keys, n as int);
                assert(keys[firsts[g as int]] == keys[n as int]);
                assert(!is_leader(keys, n as int));
            }
            let entry: (String, usize) = (texts[n].clone(), counted[g].1 + 1);
            counted[g] = entry;
            proof {
                assert forall|h: int| 0 <= h < counted@.len() implies {
                    &&& 0 <= #[trigger] leaders(keys, n + 1)[h] < n + 1
                    &&& counted@[h].0@ == keys[leaders(keys, n + 1)[h]]
                    &&& counted@[h].1 as nat == times(keys, keys[leaders(keys, n + 1)[h]], n + 1)
                } by {
                    assert(0 <= firsts[h] < n);
                    if h != g {
                        assert(counted@[h] == before[h]);
                        if h < g {
                            assert(keys[firsts[h]] != keys[firsts[g as int]]);
                        } else {
                            assert(keys[firsts[g as int]] != keys[firsts[h]]);
                        }
                    }
                }
            }
        } else {
            proof {
                assert forall|j: int| 0 <= j < n implies keys[j] != keys[n as int] by {
                    let h = lemma_has_leader(keys, j, n as int);
                    assert(before[h].0@ == keys[firsts[h]]);
                }
                assert(is_leader(keys, n as int));
                lemma_times_absent(keys, keys[n as int], n as int);
            }
            let entry: (String, usize) = (texts[n].clone(), 1);
            counted.push(entry);
            proof {
                let grown = leaders(keys, n + 1);
                assert(grown == firsts.push(n as int));
                assert forall|h: int| 0 <= h < counted@.len() implies {
                    &&& 0 <= #[trigger] grown[h] < n + 1
                    &&& counted@[h].0@ == keys[grown[h]]
                    &&& counted@[h].1 as nat == times(keys, keys[grown[h]], n + 1)
                } by {
                    if h < before.len() {
                        assert(counted@[h] == before[h]);
                        assert(0 <= firsts[h] < n);
                        assert(before[h].0@ == keys[firsts[h]]);
                    }
                }
            }
        }
        n += 1;
    }
    counted
}

} // verus!
