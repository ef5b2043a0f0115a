//! Sequences of guesses with their scores, and the selection of the best of them.

use vstd::prelude::*;
use crate::word::{code_limit, is_word, lemma_code_bound, word_code, Word};

verus! {

/// The longest sequence of guesses that the search looks at.
pub const MAX_DEPTH: usize = 3;

/// The words of a list, each as its letters.
pub open spec fn words_of(list: Seq<Word>) -> Seq<Seq<char>> {
    list.map_values(|w: Word| w@)
}

/// The first `upto` words of a path read as one number: each word is a digit, its code, in
/// base 26 to the power of 5. Among paths of one length, a larger key comes later in the
/// alphabet, the first word counting most.
pub open spec fn path_key(words: Seq<Seq<char>>, upto: int) -> int
    decreases upto,
{
    if upto <= 0 {
        0
    } else {
        path_key(words, upto - 1) * 11881376 + word_code(words[upto - 1])
    }
}

/// The number of paths of `upto` words.
pub open spec fn key_limit(upto: int) -> int
    decreases upto,
{
    if upto <= 0 {
        1
    } else {
        key_limit(upto - 1) * 11881376
    }
}

/// A path as the search sees it: its words and its score.
pub type Scored = (Seq<Seq<char>>, u64);

/// Whether path `a` ranks strictly before path `b`: by the higher score, and between equal
/// scores by the larger key, which for single words is reverse alphabetical order.
pub open spec fn outranks(a: Scored, b: Scored) -> bool {
    a.1 > b.1 || (a.1 == b.1 && path_key(a.0, a.0.len() as int) > path_key(b.0, b.0.len() as int))
}

/// A sequence of guesses with the score of the whole sequence.
pub struct Path {
    words: Vec<Word>,
    key: u128,
    entropy: u64,
}

impl View for Path {
    type V = Scored;

    /// The words of the path and its score.
    closed spec fn view(&self) -> Scored {
        (words_of(self.words@), self.entropy)
    }
}

/// The paths of a list as the search sees them.
pub open spec fn views(paths: Seq<Path>) -> Seq<Scored> {
    paths.map_values(|p: Path| p@)
}

/// The key of a path of words is below the number of paths of its length.
pub proof fn lemma_key_bound(words: Seq<Seq<char>>, upto: int)
    requires
        0 <= upto <= words.len(),
        forall|j: int| 0 <= j < words.len() ==> is_word(#[trigger] words[j]),
    ensures
        0 <= path_key(words, upto) < key_limit(upto),
    decreases upto,
{
    if upto > 0 {
        lemma_key_bound(words, upto - 1);
        lemma_code_bound(words[upto - 1], 5);
        reveal_with_fuel(code_limit, 6);
        let below = path_key(words, upto - 1);
        let limit = key_limit(upto - 1);
        assert(below * 11881376 + word_code(words[upto - 1]) < limit * 11881376) by {
            assert(below + 1 <= limit);
            assert((below + 1) * 11881376 <= limit * 11881376) by (nonlinear_arith)
                requires
                    below + 1 <= limit,
            ;
        }
        assert(0 <= below * 11881376) by (nonlinear_arith)
            requires
                0 <= below,
        ;
    }
}

/// The key of a path does not depend on the words after `upto`.
pub proof fn lemma_key_prefix(words: Seq<Seq<char>>, longer: Seq<Seq<char>>, upto: int)
    requires
        0 <= upto <= words.len() <= longer.len(),
        forall|j: int| 0 <= j < words.len() ==> words[j] == longer[j],
    ensures
        path_key(words, upto) == path_key(longer, upto),
    decreases upto,
{
    if upto > 0 {
        lemma_key_prefix(words, longer, upto - 1);
    }
}

impl Path {
    #[verifier::type_invariant]
    spec fn well_formed(self) -> bool {
        &&& 1 <= self.words@.len() <= MAX_DEPTH
        &&& self.key as int == path_key(words_of(self.words@), self.words@.len() as int)
    }

    /// The path of the guesses `words`, with its score. There is none when `words` is empty or
    /// longer than `MAX_DEPTH`.
    pub fn new(words: Vec<Word>, entropy: u64) -> (made: Option<Path>)
        ensures
            match made {
                Some(path) => 1 <= words@.len() <= MAX_DEPTH && path@ == (
                    words_of(words@),
                    entropy,
                ),
                None => words@.len() == 0 || words@.len() > MAX_DEPTH,
            },
    {
        if words.len() == 0 || words.len() > MAX_DEPTH {
            return None;
        }
        let ghost all = words_of(words@);
        let mut key: u128 = 0;
        let mut j: usize = 0;
        while j < words.len()
            invariant
                j <= words@.len() <= MAX_DEPTH,
                all == words_of(words@),
                key as int == path_key(all, j as int),
                forall|r: int| 0 <= r < j ==> is_word(#[trigger] all[r]),
            decreases words@.len() - j,
        {
            let code: u32 = words[j].code();
            proof {
                assert(all[j as int] == words@[j as int]@);
                lemma_key_bound(all.take(j as int), j as int);
                lemma_key_prefix(all.take(j as int), all, j as int);
                reveal_with_fuel(key_limit, 4);
            }
            key = key * 11881376 + code as u128;
            j += 1;
        }
        Some(Path { words, key, entropy })
    }

    /// The guesses of the path, in order.
    pub fn words(&self) -> (words: &Vec<Word>)
        ensures
            words_of(words@) == self@.0,
            1 <= words@.len() <= MAX_DEPTH,
    {
        proof {
            use_type_invariant(self);
        }
        &self.words
    }

    /// The score of the path.
    pub fn entropy(&self) -> (entropy: u64)
        ensures
            entropy == self@.1,
    {
        self.entropy
    }

    /// Whether this path ranks strictly before `other`.
    pub fn ranks_before(&self, other: &Path) -> (before: bool)
        ensures
            before == outranks(self@, other@),
    {
        proof {
            use_type_invariant(self);
            use_type_invariant(other);
        }
        self.entropy > other.entropy || (self.entropy == other.entropy && self.key > other.key)
    }
}

/// Whether `kept` holds the best of `pool`, as many as `width` allows, best first, where
/// `source` says at which position of the pool each kept path stands. No path that was left out
/// ranks before a kept one.
pub open spec fn selects(kept: Seq<Scored>, pool: Seq<Scored>, source: Seq<int>, width: int) -> bool {
    &&& source.len() == kept.len()
    &&& kept.len() == if pool.len() < width {
        pool.len() as int
    } else {
        width
    }
    &&& forall|i: int|
        0 <= i < kept.len() ==> 0 <= #[trigger] source[i] < pool.len() && pool[source[i]] == kept[i]
    &&& forall|i: int, j: int| 0 <= i < j < kept.len() ==> source[i] != source[j]
    &&& forall|i: int, j: int| 0 <= i < j < kept.len() ==> !outranks(kept[j], kept[i])
    &&& forall|p: int, i: int|
        0 <= p < pool.len() && 0 <= i < kept.len() && !source.contains(p) ==> !outranks(
            #[trigger] pool[p],
            #[trigger] kept[i],
        )
    &&& pool.len() <= width ==> forall|p: int| 0 <= p < pool.len() ==> source.contains(p)
}

/// Whether `kept` holds the `width` best paths of `pool`, or all of them if there are fewer,
/// best first.
pub open spec fn is_top(kept: Seq<Scored>, pool: Seq<Scored>, width: int) -> bool {
    exists|source: Seq<int>| selects(kept, pool, source, width)
}

/// The place at which `path` goes into `paths`: behind every path that it does not rank before.
fn place_of(paths: &Vec<Path>, path: &Path) -> (place: usize)
    ensures
        place <= paths@.len(),
        forall|i: int| 0 <= i < place ==> !outranks(path@, #[trigger] paths@[i]@),
        place < paths@.len() ==> outranks(path@, paths@[place as int]@),
{
    let mut place: usize = 0;
    while place < paths.len()
        invariant
            place <= paths@.len(),
            forall|i: int| 0 <= i < place ==> !outranks(path@, #[trigger] paths@[i]@),
        decreases paths@.len() - place,
    {
        if path.ranks_before(&paths[place]) {
            return place;
        }
        place += 1;
    }
    place
}

/// The best paths seen so far, at most `width` of them, best first.
pub struct Beam {
    paths: Vec<Path>,
    width: usize,
    seen: Ghost<Seq<Scored>>,
    source: Ghost<Seq<int>>,
}

impl Beam {
    #[verifier::type_invariant]
    spec fn well_formed(self) -> bool {
        selects(views(self.paths@), self.seen@, self.source@, self.width as int)
    }

    /// Every path that was offered, in the order of the offers.
    pub closed spec fn seen(self) -> Seq<Scored> {
        self.seen@
    }

    /// The number of paths that the beam keeps at most.
    pub closed spec fn width(self) -> int {
        self.width as int
    }

    /// The paths that the beam holds, best first.
    pub closed spec fn kept(self) -> Seq<Scored> {
        views(self.paths@)
    }

    /// A beam that has seen nothing and keeps at most `width` paths.
    pub fn new(width: usize) -> (beam: Beam)
        ensures
            beam.seen() == Seq::<Scored>::empty(),
            beam.kept() == Seq::<Scored>::empty(),
            beam.width() == width,
    {
        let paths: Vec<Path> = Vec::new();
        assert(views(paths@) =~= Seq::<Scored>::empty());
        Beam { paths, width, seen: Ghost(Seq::empty()), source: Ghost(Seq::empty()) }
    }

    /// The beam after it has seen `path` too. The path is kept if fewer than `width` paths are
    /// held or if it ranks before one of them; the last of the held paths then leaves when
    /// there is one too many.
    pub fn offer(self, path: Path) -> (beam: Beam)
        ensures
            beam.seen() == self.seen().push(path@),
            beam.width() == self.width(),
            is_top(beam.kept(), beam.seen(), beam.width()),
            beam.kept().len() <= beam.width(),
    {
        proof {
            use_type_invariant(&self);
        }
        let Beam { paths, width, seen, source } = self;
        let mut paths = paths;
        let ghost before = paths@;
        let ghost held = views(paths@);
        let ghost pool = seen@;
        let ghost from = source@;
        let ghost offered = path@;
        let ghost grown = pool.push(offered);
        let place: usize = place_of(&paths, &path);
        if place == paths.len() && paths.len() >= width {
            proof {
                assert forall|p: int, i: int|
                    0 <= p < grown.len() && 0 <= i < held.len() && !from.contains(
                        p,
                    ) implies !outranks(#[trigger] grown[p], #[trigger] held[i]) by {
                    if p < pool.len() {
                        assert(grown[p] == pool[p]);
                    } else {
                        assert(held[i] == before[i]@);
                    }
                }
                assert(selects(held, grown, from, width as int));
            }
            return Beam { paths, width, seen: Ghost(grown), source };
        }
        paths.insert(place, path);
        let ghost longer = views(paths@);
        let ghost wider = from.insert(place as int, pool.len() as int);
        proof {
            assert(longer =~= held.insert(place as int, offered));
            assert forall|i: int| 0 <= i < held.len() implies #[trigger] held[i] == before[i]@ by {}
            assert forall|i: int|
                0 <= i < longer.len() implies 0 <= #[trigger] wider[i] < grown.len()
                && grown[wider[i]] == longer[i] by {
                if i < place {
                    assert(wider[i] == from[i]);
                } else if i > place {
                    assert(wider[i] == from[i - 1]);
                    assert(longer[i] == held[i - 1]);
                }
            }
            assert forall|i: int, j: int| 0 <= i < j < longer.len() implies wider[i]
                != wider[j] by {
                let a = if i < place { i } else { i - 1 };
                let b = if j < place { j } else { j - 1 };
                if i != place && j != place {
                    assert(wider[i] == from[a] && wider[j] == from[b]);
                }
            }
            assert forall|i: int, j: int| 0 <= i < j < longer.len() implies !outranks(
                longer[j],
                longer[i],
            ) by {
                let a = if i < place { i } else { i - 1 };
                let b = if j < place { j } else { j - 1 };
                if i != place && j != place {
                    assert(longer[i] == held[a] && longer[j] == held[b]);
                } else if i == place {
                    assert(longer[i] == offered);
                    assert(longer[j] == held[j - 1]);
                    assert(held[place as int] == before[place as int]@);
                    assert(outranks(offered, held[place as int]));
                    if place < j - 1 {
                        assert(!outranks(held[j - 1], held[place as int]));
                    }
                } else {
                    assert(longer[j] == offered);
                    assert(longer[i] == held[i]);
                    assert(held[i] == before[i]@);
                    assert(!outranks(offered, before[i]@));
                }
            }
            assert forall|p: int| 0 <= p < pool.len() && from.contains(p) implies wider.contains(
                p,
            ) by {
                let a = choose|a: int| 0 <= a < from.len() && from[a] == p;
                if a < place {
                    assert(wider[a] == p);
                } else {
                    assert(wider[a + 1] == p);
                }
            }
            assert(wider[place as int] == pool.len());
            assert forall|p: int, i: int|
                0 <= p < grown.len() && 0 <= i < longer.len() && !wider.contains(
                    p,
                ) implies !outranks(#[trigger] grown[p], #[trigger] longer[i]) by {
                assert(p < pool.len());
                assert(!from.contains(p));
                assert(pool.len() > width);
                assert(held.len() == width);
                if i < place {
                    assert(longer[i] == held[i]);
                } else if i > place {
                    assert(longer[i] == held[i - 1]);
                } else {
                    assert(place < held.len());
                    assert(held[place as int] == before[place as int]@);
                    assert(!outranks(pool[p], held[place as int]));
                    assert(outranks(offered, held[place as int]));
                }
            }
        }
        if paths.len() > width {
            let ghost last = longer.len() - 1;
            paths.pop();
            let ghost cut = views(paths@);
            let ghost fewer = wider.drop_last();
            proof {
                assert(cut =~= longer.drop_last());
                assert forall|p: int, i: int|
                    0 <= p < grown.len() && 0 <= i < cut.len() && !fewer.contains(
                        p,
                    ) implies !outranks(#[trigger] grown[p], #[trigger] cut[i]) by {
                    assert(cut[i] == longer[i]);
                    if wider.contains(p) {
                        let a = choose|a: int| 0 <= a < wider.len() && wider[a] == p;
                        if a < last {
                            assert(fewer[a] == p);
                        }
                        assert(a == last);
                        assert(grown[p] == longer[last]);
                    }
                }
                assert(selects(cut, grown, fewer, width as int));
            }
            Beam { paths, width, seen: Ghost(grown), source: Ghost(fewer) }
        } else {
            proof {
                assert(grown.len() <= width ==> forall|p: int|
                    0 <= p < grown.len() ==> wider.contains(p)) by {
                    if grown.len() <= width {
                        assert forall|p: int| 0 <= p < grown.len() implies wider.contains(p) by {
                            if p < pool.len() {
                                assert(from.contains(p));
                            }
                        }
                    }
                }
                assert(selects(longer, grown, wider, width as int));
            }
            Beam { paths, width, seen: Ghost(grown), source: Ghost(wider) }
        }
    }

    /// The paths that the beam holds, best first.
    pub fn into_paths(self) -> (paths: Vec<Path>)
        ensures
            views(paths@) == self.kept(),
            is_top(views(paths@), self.seen(), self.width()),
            paths@.len() <= self.width(),
    {
        proof {
            use_type_invariant(&self);
        }
        self.paths
    }
}

/// Whether the paths of `list` stand best first.
pub open spec fn is_ranked(list: Seq<Scored>) -> bool {
    forall|i: int, j: int| 0 <= i < j < list.len() ==> !outranks(list[j], list[i])
}

/// Whether any two paths of `list` of which neither ranks before the other are the same.
pub open spec fn ranks_apart(list: Seq<Scored>) -> bool {
    forall|i: int, j: int|
        0 <= i < list.len() && 0 <= j < list.len() && !outranks(list[i], list[j]) && !outranks(
            list[j],
            list[i],
        ) ==> list[i] == list[j]
}

/// Whether `a` holds the paths of `b` in another order: the path at place `i` of `a` stands at
/// place `to[i]` of `b`, and the path at place `j` of `b` at place `back[j]` of `a`.
pub open spec fn rearranges(a: Seq<Scored>, b: Seq<Scored>, to: Seq<int>, back: Seq<int>) -> bool {
    &&& a.len() == b.len()
    &&& to.len() == a.len()
    &&& back.len() == a.len()
    &&& forall|i: int|
        0 <= i < a.len() ==> 0 <= #[trigger] to[i] < a.len() && a[i] == b[to[i]] && back[to[i]]
            == i
    &&& forall|j: int| 0 <= j < a.len() ==> 0 <= #[trigger] back[j] < a.len() && to[back[j]] == j
}

/// Two lists that hold the same paths best first are the same list, when the paths rank apart.
pub proof fn lemma_ranked_unique(a: Seq<Scored>, b: Seq<Scored>, to: Seq<int>, back: Seq<int>)
    requires
        is_ranked(a),
        is_ranked(b),
        ranks_apart(a),
        rearranges(a, b, to, back),
    ensures
        a == b,
    decreases a.len(),
{
    let n = a.len() as int;
    if n == 0 {
        assert(a =~= b);
    } else {
        let j0 = to[n - 1];
        let i0 = back[n - 1];
        assert(to[i0] == n - 1);
        assert(a[i0] == b[n - 1]);
        assert(a[n - 1] == b[j0]);
        assert(!outranks(a[n - 1], a[i0]));
        assert(!outranks(b[n - 1], b[j0]));
        assert(a[n - 1] == a[i0]);
        let short_a = a.drop_last();
        let short_b = b.drop_last();
        let to2 = Seq::new((n - 1) as nat, |i: int| if to[i] == n - 1 { j0 } else { to[i] });
        let back2 = Seq::new(
            (n - 1) as nat,
            |j: int| if back[j] == n - 1 { i0 } else { back[j] },
        );
        assert forall|i: int| 0 <= i < n - 1 implies 0 <= #[trigger] to2[i] < n - 1 && short_a[i]
            == short_b[to2[i]] && back2[to2[i]] == i by {
            assert(back[to[i]] == i);
            if to[i] == n - 1 {
                assert(i == i0);
                assert(back[j0] == n - 1);
                if j0 == n - 1 {
                    assert(back[to[n - 1]] == n - 1);
                }
            } else {
                assert(back[to[i]] != n - 1);
            }
        }
        assert forall|j: int| 0 <= j < n - 1 implies 0 <= #[trigger] back2[j] < n - 1
            && to2[back2[j]] == j by {
            assert(to[back[j]] == j);
            if back[j] == n - 1 {
                assert(j == j0);
                assert(to[i0] == n - 1);
                if i0 == n - 1 {
                    assert(to[back[n - 1]] == n - 1);
                }
            } else {
                assert(to[back[j]] != n - 1);
            }
        }
        assert forall|i: int, j: int|
            0 <= i < short_a.len() && 0 <= j < short_a.len() && !outranks(short_a[i], short_a[j])
                && !outranks(short_a[j], short_a[i]) implies short_a[i] == short_a[j] by {
            assert(short_a[i] == a[i] && short_a[j] == a[j]);
        }
        lemma_ranked_unique(short_a, short_b, to2, back2);
        assert(a =~= short_a.push(a[n - 1]));
        assert(b =~= short_b.push(b[n - 1]));
    }
}

/// A pool of paths that rank apart has only one order best first: two lists that both hold all
/// of the pool best first are the same list.
pub proof fn lemma_top_unique(first: Seq<Scored>, second: Seq<Scored>, pool: Seq<Scored>)
    requires
        is_top(first, pool, pool.len() as int),
        is_top(second, pool, pool.len() as int),
        ranks_apart(pool),
    ensures
        first == second,
{
    let n = pool.len() as int;
    let from = choose|source: Seq<int>| selects(first, pool, source, n);
    let other = choose|source: Seq<int>| selects(second, pool, source, n);
    let to = Seq::new(n as nat, |i: int| choose|j: int| 0 <= j < n && other[j] == from[i]);
    let back = Seq::new(n as nat, |j: int| choose|i: int| 0 <= i < n && from[i] == other[j]);
    assert forall|i: int| 0 <= i < n implies 0 <= #[trigger] to[i] < n && other[to[i]]
        == from[i] by {
        assert(other.contains(from[i]));
    }
    assert forall|j: int| 0 <= j < n implies 0 <= #[trigger] back[j] < n && from[back[j]]
        == other[j] by {
        assert(from.contains(other[j]));
    }
    assert forall|i: int| 0 <= i < n implies first[i] == second[to[i]] && #[trigger] back[to[i]]
        == i by {
        assert(other[to[i]] == from[i]);
        assert(from[back[to[i]]] == other[to[i]]);
        if back[to[i]] < i {
            assert(from[back[to[i]]] != from[i]);
        } else if back[to[i]] > i {
            assert(from[i] != from[back[to[i]]]);
        }
    }
    assert forall|j: int| 0 <= j < n implies #[trigger] to[back[j]] == j by {
        assert(from[back[j]] == other[j]);
        assert(other[to[back[j]]] == from[back[j]]);
        if to[back[j]] < j {
            assert(other[to[back[j]]] != other[j]);
        } else if to[back[j]] > j {
            assert(other[j] != other[to[back[j]]]);
        }
    }
    assert forall|i: int, j: int|
        0 <= i < first.len() && 0 <= j < first.len() && !outranks(first[i], first[j]) && !outranks(
            first[j],
            first[i],
        ) implies first[i] == first[j] by {
        assert(first[i] == pool[from[i]] && first[j] == pool[from[j]]);
    }
    lemma_ranked_unique(first, second, to, back);
}

} // verus!
