//! The search, stated as a mathematical function from a puzzle to the chains
//! it finds.
//!
//! The search keeps a frontier of chains, ordered by the number of their
//! words plus the number of letters they still miss. For the depths one to
//! six in turn it empties the frontier: a chain longer than the depth is set
//! aside, a chain that misses no letter is a solution, and any other chain is
//! replaced by the chains that add one more word to it. The first depth at
//! which a solution turns up ends the search. Between two depths every chain
//! that was taken out goes back into the frontier.

use vstd::prelude::*;
use crate::chain::{covered, covers, lemma_nothing_missing, linked, missing};
use crate::index::starting_with;
use crate::queue::{is_empty, lemma_lowest_from, lowest, next, put, widen, without_next};

verus! {

/// A word: its letters in order.
pub type Word = Seq<char>;

/// A chain: its words in order.
pub type Chain = Seq<Seq<char>>;

/// A frontier: for each priority, the chains of that priority, oldest first.
pub type Frontier = Seq<Seq<Seq<Seq<char>>>>;

/// What a search works on.
pub struct Puzzle {
    /// The letters that a solution has to use.
    pub allowed: Set<char>,
    /// The usable words, in the order in which they are tried.
    pub dictionary: Seq<Seq<char>>,
    /// The words that must not be used in this search.
    pub ignored: Seq<Seq<char>>,
}

/// The greatest number of words in a chain that the search looks for.
pub const MAX_DEPTH: usize = 6;

/// How many solutions end the search at once when found at `level`: the
/// first one beyond three words, the fourth one otherwise.
pub open spec fn max_solutions_at_depth(level: nat) -> nat {
    if level > 3 {
        1
    } else {
        4
    }
}

/// The key under which a chain waits in the frontier: its number of words
/// plus the number of allowed letters that it misses.
pub open spec fn priority(puzzle: Puzzle, chain: Chain) -> nat {
    chain.len() + missing(chain, puzzle.allowed)
}

/// Whether `word` may be added to `chain`: it is not in the chain yet and it
/// is not ignored.
pub open spec fn may_follow(puzzle: Puzzle, chain: Chain, word: Word) -> bool {
    !chain.contains(word) && !puzzle.ignored.contains(word)
}

/// Whether `chain` is made of dictionary words that are not ignored, uses no
/// word twice, and links each word to the next.
pub open spec fn valid_chain(puzzle: Puzzle, chain: Chain) -> bool {
    &&& chain.len() >= 1
    &&& forall|i: int|
        #![trigger chain[i]]
        0 <= i < chain.len() ==> puzzle.dictionary.contains(chain[i]) && !puzzle.ignored.contains(
            chain[i],
        )
    &&& chain.no_duplicates()
    &&& linked(chain)
}

/// Whether `chain` is a valid chain that uses exactly the allowed letters.
pub open spec fn is_solution(puzzle: Puzzle, chain: Chain) -> bool {
    valid_chain(puzzle, chain) && covered(chain) == puzzle.allowed
}

/// Whether the search can rely on `puzzle`: its allowed letters are finitely
/// many, and its dictionary holds no empty word and no letter that is not
/// allowed.
pub open spec fn usable(puzzle: Puzzle) -> bool {
    &&& puzzle.allowed.finite()
    &&& forall|i: int|
        #![trigger puzzle.dictionary[i]]
        0 <= i < puzzle.dictionary.len() ==> puzzle.dictionary[i].len() > 0
    &&& forall|i: int, j: int|
        #![trigger puzzle.dictionary[i][j]]
        0 <= i < puzzle.dictionary.len() && 0 <= j < puzzle.dictionary[i].len()
            ==> puzzle.allowed.contains(puzzle.dictionary[i][j])
}

/// `frontier` after the chains `chain + [word]` were put in, for each `word`
/// of `candidates` in order that may follow `chain`.
pub open spec fn extend(puzzle: Puzzle, frontier: Frontier, chain: Chain, candidates: Seq<Word>) -> Frontier
    decreases candidates.len(),
{
    if candidates.len() == 0 {
        frontier
    } else {
        let earlier = extend(puzzle, frontier, chain, candidates.drop_last());
        let longer = chain.push(candidates.last());
        if may_follow(puzzle, chain, candidates.last()) {
            put(earlier, priority(puzzle, longer), longer)
        } else {
            earlier
        }
    }
}

/// `frontier` after `chain` was expanded: each dictionary word that begins
/// with the last letter of `chain` and may follow it gives one longer chain.
pub open spec fn expanded(puzzle: Puzzle, frontier: Frontier, chain: Chain) -> Frontier {
    extend(puzzle, frontier, chain, starting_with(puzzle.dictionary, chain.last().last()))
}

/// The frontier that holds a chain of one word for each of `words` that is
/// not ignored.
pub open spec fn seeded(puzzle: Puzzle, words: Seq<Word>) -> Frontier
    decreases words.len(),
{
    if words.len() == 0 {
        Seq::empty()
    } else {
        let earlier = seeded(puzzle, words.drop_last());
        if puzzle.ignored.contains(words.last()) {
            earlier
        } else {
            put(earlier, priority(puzzle, seq![words.last()]), seq![words.last()])
        }
    }
}

/// `frontier` after the chains of `visited` went back into it, the last one
/// first.
pub open spec fn restored(puzzle: Puzzle, frontier: Frontier, visited: Seq<Chain>) -> Frontier
    decreases visited.len(),
{
    if visited.len() == 0 {
        frontier
    } else {
        restored(
            puzzle,
            put(frontier, priority(puzzle, visited.last()), visited.last()),
            visited.drop_last(),
        )
    }
}

/// The number of words of `chain`, where seven stands for seven or more.
pub open spec fn depth_class(chain: Chain) -> nat {
    if chain.len() < 7 {
        chain.len()
    } else {
        7
    }
}

/// How many chains of `bucket` are of depth class `class`.
pub open spec fn count_in(bucket: Seq<Chain>, class: nat) -> nat
    decreases bucket.len(),
{
    if bucket.len() == 0 {
        0
    } else {
        count_in(bucket.drop_last(), class) + if depth_class(bucket.last()) == class {
            1nat
        } else {
            0nat
        }
    }
}

/// How many chains of `frontier` are of depth class `class`.
pub open spec fn count(frontier: Frontier, class: nat) -> nat
    decreases frontier.len(),
{
    if frontier.len() == 0 {
        0
    } else {
        count(frontier.drop_last(), class) + count_in(frontier.last(), class)
    }
}

/// How emptying the frontier at one depth ended.
pub struct Drained {
    /// The solutions found, in the order in which they were found.
    pub solutions: Seq<Seq<Seq<char>>>,
    /// The chains taken out of the frontier, in that order.
    pub visited: Seq<Seq<Seq<char>>>,
    /// What is left in the frontier.
    pub frontier: Seq<Seq<Seq<Seq<char>>>>,
}

/// Empties `frontier` at depth `level`, starting from the chains already
/// `visited` and the `solutions` already found. It stops early once
/// `max_solutions_at_depth(level)` solutions are there.
pub open spec fn drain(
    puzzle: Puzzle,
    frontier: Frontier,
    visited: Seq<Chain>,
    solutions: Seq<Chain>,
    level: nat,
) -> Drained
    decreases
            count(frontier, 0),
            count(frontier, 1),
            count(frontier, 2),
            count(frontier, 3),
            count(frontier, 4),
            count(frontier, 5),
            count(frontier, 6),
            count(frontier, 7),
    when level <= MAX_DEPTH
{
    if is_empty(frontier) {
        Drained { solutions, visited, frontier }
    } else {
        let chain = next(frontier);
        let rest = without_next(frontier);
        let seen = visited.push(chain);
        proof {
            lemma_count_without_next(frontier);
        }
        if chain.len() > level {
            drain(puzzle, rest, seen, solutions, level)
        } else if missing(chain, puzzle.allowed) == 0 {
            let found = solutions.push(chain);
            if found.len() >= max_solutions_at_depth(level) {
                Drained { solutions: found, visited: seen, frontier: rest }
            } else {
                drain(puzzle, rest, seen, found, level)
            }
        } else {
            proof {
                lemma_count_extend(
                    puzzle,
                    rest,
                    chain,
                    starting_with(puzzle.dictionary, chain.last().last()),
                );
            }
            drain(puzzle, expanded(puzzle, rest, chain), seen, solutions, level)
        }
    }
}

/// The solutions of the first depth from `level` on at which emptying the
/// frontier finds any; none if no depth up to `MAX_DEPTH` finds one.
pub open spec fn search_from(puzzle: Puzzle, frontier: Frontier, level: nat) -> Seq<Chain>
    decreases MAX_DEPTH + 1 - level,
{
    if level > MAX_DEPTH {
        Seq::empty()
    } else {
        let drained = drain(puzzle, frontier, Seq::empty(), Seq::empty(), level);
        if drained.solutions.len() > 0 {
            drained.solutions
        } else {
            search_from(puzzle, restored(puzzle, drained.frontier, drained.visited), level + 1)
        }
    }
}

/// The chains that the search returns for `puzzle`.
pub open spec fn search(puzzle: Puzzle) -> Seq<Chain> {
    search_from(puzzle, seeded(puzzle, puzzle.dictionary), 1)
}

/// A valid chain that misses no allowed letter uses exactly the allowed
/// letters.
pub proof fn lemma_solution(puzzle: Puzzle, chain: Chain)
    requires
        usable(puzzle),
        valid_chain(puzzle, chain),
        missing(chain, puzzle.allowed) == 0,
    ensures
        is_solution(puzzle, chain),
{
    lemma_nothing_missing(chain, puzzle.allowed);
    assert forall|letter: char| covered(chain).contains(letter) implies puzzle.allowed.contains(
        letter,
    ) by {
        let i = choose|i: int| #![trigger chain[i]] 0 <= i < chain.len() && chain[i].contains(letter);
        let word = chain[i];
        assert(puzzle.dictionary.contains(word));
        let d = choose|d: int| 0 <= d < puzzle.dictionary.len() && puzzle.dictionary[d] == word;
        let j = choose|j: int| 0 <= j < word.len() && word[j] == letter;
        assert(puzzle.allowed.contains(puzzle.dictionary[d][j]));
    }
    assert(covered(chain) =~= puzzle.allowed);
}

/// A solution uses every allowed letter and no other letter, and misses
/// none.
pub proof fn lemma_solution_uses_every_letter(puzzle: Puzzle, chain: Chain)
    requires
        is_solution(puzzle, chain),
    ensures
        forall|letter: char|
            puzzle.allowed.contains(letter) <==> exists|i: int|
                #![trigger chain[i]]
                0 <= i < chain.len() && chain[i].contains(letter),
        missing(chain, puzzle.allowed) == 0,
{
    assert forall|letter: char|
        puzzle.allowed.contains(letter) <==> exists|i: int|
            #![trigger chain[i]]
            0 <= i < chain.len() && chain[i].contains(letter) by {
        assert(covered(chain).contains(letter) == covers(chain, letter));
    }
    assert(puzzle.allowed.difference(covered(chain)) =~= Set::<char>::empty());
}

/// Each word of a solution but the first begins with the letter on which the
/// word before it ends.
pub proof fn lemma_solution_is_linked(puzzle: Puzzle, chain: Chain)
    requires
        is_solution(puzzle, chain),
    ensures
        forall|i: int|
            #![trigger chain[i]]
            0 <= i && i + 1 < chain.len() ==> chain[i].last() == chain[i + 1].first(),
{
    assert forall|i: int| #![trigger chain[i]] 0 <= i && i + 1 < chain.len() implies chain[i].last()
        == chain[i + 1].first() by {
        let next = chain[i + 1];
    }
}

/// A solution uses no word twice and no ignored word, and all its words are
/// dictionary words.
pub proof fn lemma_solution_words(puzzle: Puzzle, chain: Chain)
    requires
        is_solution(puzzle, chain),
    ensures
        forall|i: int, j: int| 0 <= i < j < chain.len() ==> chain[i] != chain[j],
        forall|i: int|
            0 <= i < chain.len() ==> !puzzle.ignored.contains(#[trigger] chain[i])
                && puzzle.dictionary.contains(chain[i]),
{
}

/// Adding a chain to a bucket adds one to the count of its class.
pub proof fn lemma_count_in_push(bucket: Seq<Chain>, chain: Chain, class: nat)
    ensures
        count_in(bucket.push(chain), class) == count_in(bucket, class) + if depth_class(chain)
            == class {
            1nat
        } else {
            0nat
        },
{
    assert(bucket.push(chain).drop_last() =~= bucket);
}

/// Replacing a bucket changes the count by the difference of the buckets.
pub proof fn lemma_count_update(frontier: Frontier, key: int, bucket: Seq<Chain>, class: nat)
    requires
        0 <= key < frontier.len(),
    ensures
        count(frontier.update(key, bucket), class) == count(frontier, class) - count_in(
            frontier[key],
            class,
        ) + count_in(bucket, class),
    decreases frontier.len(),
{
    let updated = frontier.update(key, bucket);
    if key == frontier.len() - 1 {
        assert(updated.drop_last() =~= frontier.drop_last());
    } else {
        assert(updated.drop_last() =~= frontier.drop_last().update(key, bucket));
        lemma_count_update(frontier.drop_last(), key, bucket, class);
    }
}

/// Empty buckets add nothing to a count.
pub proof fn lemma_count_widen(frontier: Frontier, n: nat, class: nat)
    ensures
        count(widen(frontier, n), class) == count(frontier, class),
    decreases n,
{
    if frontier.len() < n {
        let wide = widen(frontier, n);
        assert(wide.drop_last() =~= widen(frontier, (n - 1) as nat));
        assert(wide.last() =~= Seq::<Chain>::empty());
        lemma_count_widen(frontier, (n - 1) as nat, class);
    }
}

/// Putting a chain into a frontier adds one to the count of its class.
pub proof fn lemma_count_put(frontier: Frontier, key: nat, chain: Chain)
    ensures
        forall|class: nat| #[trigger]
            count(put(frontier, key, chain), class) == count(frontier, class) + if depth_class(
                chain,
            ) == class {
                1nat
            } else {
                0nat
            },
{
    assert forall|class: nat| #[trigger]
        count(put(frontier, key, chain), class) == count(frontier, class) + if depth_class(chain)
            == class {
            1nat
        } else {
            0nat
        } by {
        let wide = widen(frontier, key + 1);
        lemma_count_widen(frontier, key + 1, class);
        lemma_count_update(wide, key as int, wide[key as int].push(chain), class);
        lemma_count_in_push(wide[key as int], chain, class);
    }
}

/// Taking the next chain out of a frontier takes one from the count of its
/// class.
pub proof fn lemma_count_without_next(frontier: Frontier)
    requires
        !is_empty(frontier),
    ensures
        count(frontier, depth_class(next(frontier))) >= 1,
        forall|class: nat| #[trigger]
            count(without_next(frontier), class) == count(frontier, class) - if depth_class(
                next(frontier),
            ) == class {
                1nat
            } else {
                0nat
            },
{
    lemma_lowest_from(frontier, 0);
    let key = lowest(frontier) as int;
    let bucket = frontier[key];
    assert forall|class: nat| #[trigger]
        count(without_next(frontier), class) == count(frontier, class) - if depth_class(
            next(frontier),
        ) == class {
            1nat
        } else {
            0nat
        } by {
        lemma_count_update(frontier, key, bucket.drop_last(), class);
    }
    assert(count(without_next(frontier), depth_class(next(frontier))) >= 0);
}

/// Expanding a chain of at most six words leaves the counts of its own class
/// and of the classes below as they are.
pub proof fn lemma_count_extend(puzzle: Puzzle, frontier: Frontier, chain: Chain, candidates: Seq<Word>)
    requires
        chain.len() <= MAX_DEPTH,
    ensures
        forall|class: nat|
            class <= depth_class(chain) ==> #[trigger] count(
                extend(puzzle, frontier, chain, candidates),
                class,
            ) == count(frontier, class),
    decreases candidates.len(),
{
    if candidates.len() > 0 {
        let earlier = extend(puzzle, frontier, chain, candidates.drop_last());
        let longer = chain.push(candidates.last());
        lemma_count_extend(puzzle, frontier, chain, candidates.drop_last());
        lemma_count_put(earlier, priority(puzzle, longer), longer);
    }
}

} // verus!
