//! The solver: a box, its dictionary, and the search for chains.

use vstd::prelude::*;
use crate::chain::{count_missing, missing};
use crate::dictionary::{build_dictionary, dictionary_of, lemma_dictionary_order};
use crate::error::ErrorKind;
use crate::index::{starting_with, starts_with, StartIndex};
use crate::letter_box::{
    allowed_letters, lemma_allowed_letters_finite, sides_view, LetterBox, LetterGroup,
};
use crate::queue::{lemma_put_holds, lemma_without_next_holds, BucketQueue};
use crate::search::{
    count, drain, expanded, extend, is_solution, lemma_count_extend, lemma_count_without_next,
    lemma_solution, max_solutions_at_depth, priority, restored, search, search_from, seeded, usable,
    valid_chain, Puzzle, MAX_DEPTH,
};
use crate::state::{
    all_fit, chains_in, lemma_chains_in_empty, lemma_chains_in_next, lemma_chains_in_put,
    lemma_views_push, views, State,
};
use crate::text::{
    chains, clone_texts, last_letter_of, lemma_chains_push, lemma_texts_push, letters_of,
    list_has_text, texts,
};
use crate::words::{accepts, is_legal, is_legal_word, lemma_accepted_letters_allowed};

verus! {

/// How many solutions end the search at once when found at `level`.
pub fn max_solutions(level: usize) -> (limit: usize)
    ensures
        limit == max_solutions_at_depth(level as nat),
{
    if level > 3 {
        1
    } else {
        4
    }
}

/// A box together with the words that can be played on it.
pub struct LetterBoxedSolver {
    letter_box: LetterBox,
    dictionary: Vec<String>,
    start_index: StartIndex,
}

impl LetterBoxedSolver {
    #[verifier::type_invariant]
    spec fn well_formed(self) -> bool {
        &&& forall|i: int|
            0 <= i < self.dictionary@.len() ==> accepts(
                self.letter_box@,
                #[trigger] texts(self.dictionary@)[i],
            )
        &&& forall|letter: char| #[trigger]
            self.start_index.words(letter) == starting_with(texts(self.dictionary@), letter)
    }

    /// The sides of the box.
    pub closed spec fn sides(&self) -> Seq<Seq<char>> {
        self.letter_box@
    }

    /// The dictionary: the usable words, longest first.
    pub closed spec fn words(&self) -> Seq<Seq<char>> {
        texts(self.dictionary@)
    }

    /// The words filed under `letter` in the index by first letter.
    pub closed spec fn filed(&self, letter: char) -> Seq<Seq<char>> {
        self.start_index.words(letter)
    }

    /// The puzzle that a search with the ignored words `ignored` works on.
    pub open spec fn puzzle(&self, ignored: Seq<Seq<char>>) -> Puzzle {
        Puzzle { allowed: allowed_letters(self.sides()), dictionary: self.words(), ignored }
    }

    /// The puzzle of a solver is one that the search can rely on.
    proof fn lemma_usable(&self, ignored: Seq<Seq<char>>)
        requires
            self.well_formed(),
        ensures
            usable(self.puzzle(ignored)),
    {
        let puzzle = self.puzzle(ignored);
        lemma_allowed_letters_finite(self.letter_box@);
        assert forall|i: int|
            #![trigger puzzle.dictionary[i]]
            0 <= i < puzzle.dictionary.len() implies puzzle.dictionary[i].len() > 0 by {
            lemma_accepted_letters_allowed(self.letter_box@, texts(self.dictionary@)[i]);
        }
        assert forall|i: int, j: int|
            #![trigger puzzle.dictionary[i][j]]
            0 <= i < puzzle.dictionary.len() && 0 <= j
                < puzzle.dictionary[i].len() implies puzzle.allowed.contains(
            puzzle.dictionary[i][j],
        ) by {
            lemma_accepted_letters_allowed(self.letter_box@, texts(self.dictionary@)[i]);
        }
    }

    /// Sets up the solver for the box with the sides `string_groups` and the
    /// candidate words `word_lines`. A side that is not made of exactly three
    /// letters is refused before any word is looked at. The dictionary holds
    /// the accepted candidates, longest first, and each of its words is filed
    /// under its first letter, in the order of the dictionary.
    pub fn new(string_groups: &[String; 4], word_lines: &Vec<String>) -> (result: Result<
        LetterBoxedSolver,
        ErrorKind,
    >)
        ensures
            result is Ok <==> forall|g: int|
                0 <= g < 4 ==> (#[trigger] string_groups@[g])@.len() == 3,
            result matches Err(e) ==> e == ErrorKind::InvalidGroupLength,
            result matches Ok(solver) ==> {
                &&& solver.sides() == texts(string_groups@)
                &&& solver.words() == dictionary_of(solver.sides(), texts(word_lines@))
                &&& forall|letter: char| #[trigger]
                    solver.filed(letter) == starting_with(solver.words(), letter)
                &&& forall|i: int|
                    0 <= i < solver.words().len() ==> accepts(
                        solver.sides(),
                        #[trigger] solver.words()[i],
                    )
                &&& forall|i: int, j: int|
                    0 <= i < j < solver.words().len() ==> solver.words()[i].len()
                        >= solver.words()[j].len()
            },
    {
        let first = match LetterGroup::new(string_groups[0].as_str()) {
            Ok(group) => group,
            Err(e) => {
                return Err(e);
            },
        };
        let second = match LetterGroup::new(string_groups[1].as_str()) {
            Ok(group) => group,
            Err(e) => {
                return Err(e);
            },
        };
        let third = match LetterGroup::new(string_groups[2].as_str()) {
            Ok(group) => group,
            Err(e) => {
                return Err(e);
            },
        };
        let fourth = match LetterGroup::new(string_groups[3].as_str()) {
            Ok(group) => group,
            Err(e) => {
                return Err(e);
            },
        };
        let letter_box = LetterBox::new(first, second, third, fourth);
        let dictionary = build_dictionary(&letter_box, word_lines);
        let start_index = StartIndex::build(&dictionary);
        proof {
            lemma_dictionary_order(letter_box@, texts(word_lines@));
            assert(letter_box@ =~= texts(string_groups@));
        }
        Ok(LetterBoxedSolver { letter_box, dictionary, start_index })
    }

    /// The box.
    pub fn letter_box(&self) -> (letter_box: &LetterBox)
        ensures
            letter_box@ == self.sides(),
    {
        &self.letter_box
    }

    /// The dictionary: the accepted words, longest first.
    pub fn dictionary(&self) -> (dictionary: &Vec<String>)
        ensures
            texts(dictionary@) == self.words(),
    {
        &self.dictionary
    }

    /// The dictionary words that begin with `letter`, in the order of the
    /// dictionary; `None` where there is none.
    pub fn words_starting_with(&self, letter: char) -> (bucket: Option<&Vec<String>>)
        ensures
            bucket is None <==> starting_with(self.words(), letter).len() == 0,
            bucket matches Some(words) ==> texts(words@) == starting_with(self.words(), letter),
    {
        proof {
            use_type_invariant(self);
        }
        self.start_index.get(letter)
    }

    /// Whether no two consecutive letters of `word` lie on one of
    /// `letter_groups`. A word of fewer than two letters passes.
    pub fn is_letter_pattern_in_letter_box(letter_groups: &Vec<LetterGroup>, word: &String) -> (legal:
        bool)
        ensures
            legal == is_legal(sides_view(letter_groups@), word@),
    {
        let letters = letters_of(word.as_str());
        is_legal_word(letter_groups, &letters)
    }

    /// The number of distinct letters among `chars` that no word of `chain`
    /// uses. Zero means that the chain uses them all.
    pub fn heuristic(&self, chain: &Vec<String>, chars: &Vec<char>) -> (count: usize)
        ensures
            count == missing(texts(chain@), chars@.to_set()),
            count <= chars@.len(),
    {
        count_missing(chain, chars)
    }

    /// The frontier at the start of a search: one chain of one word for each
    /// dictionary word that is not ignored.
    fn seed_frontier(&self, ignore_words: &Vec<String>) -> (frontier: BucketQueue<State>)
        ensures
            chains_in(frontier@) == seeded(
                self.puzzle(texts(ignore_words@)),
                self.puzzle(texts(ignore_words@)).dictionary,
            ),
            all_fit(self.puzzle(texts(ignore_words@)), frontier@),
    {
        let ghost puzzle = self.puzzle(texts(ignore_words@));
        let allowed = self.letter_box.allowed();
        proof {
            use_type_invariant(self);
            self.lemma_usable(texts(ignore_words@));
        }
        let mut frontier: BucketQueue<State> = BucketQueue::new();
        let mut i: usize = 0;
        proof {
            assert(puzzle.dictionary.take(0) =~= Seq::<Seq<char>>::empty());
            assert(chains_in(frontier@) =~= Seq::empty());
        }
        while i < self.dictionary.len()
            invariant
                i <= self.dictionary.len(),
                puzzle == self.puzzle(texts(ignore_words@)),
                puzzle.dictionary == texts(self.dictionary@),
                usable(puzzle),
                allowed@.to_set() == puzzle.allowed,
                allowed@.len() <= crate::letter_box::SLOTS,
                chains_in(frontier@) == seeded(puzzle, puzzle.dictionary.take(i as int)),
                all_fit(puzzle, frontier@),
            decreases self.dictionary.len() - i,
        {
            let word = &self.dictionary[i];
            proof {
                assert(puzzle.dictionary.take(i + 1).drop_last() =~= puzzle.dictionary.take(
                    i as int,
                ));
                assert(puzzle.dictionary.take(i + 1).last() == word@);
                assert(puzzle.dictionary[i as int] == word@);
            }
            if !list_has_text(ignore_words, word) {
                let mut chain: Vec<String> = Vec::new();
                let copy = word.clone();
                proof {
                    lemma_texts_push(chain@, copy);
                    assert(texts(chain@) =~= Seq::<Seq<char>>::empty());
                }
                chain.push(copy);
                assert(texts(chain@) =~= seq![word@]);
                let heuristic = count_missing(&chain, allowed);
                let last_char = last_letter_of(word.as_str()).unwrap();
                let state = State { chain, last_char, cost: 1, heuristic };
                proof {
                    assert(state@[0] == word@);
                    assert(state.fits(puzzle));
                    lemma_chains_in_put(frontier@, (1 + heuristic) as nat, state);
                    lemma_put_holds(frontier@, (1 + heuristic) as nat, state);
                }
                frontier.push(1 + heuristic, state);
            }
            i += 1;
        }
        assert(puzzle.dictionary.take(self.dictionary@.len() as int) =~= puzzle.dictionary);
        frontier
    }

    /// Puts into `frontier` the chains that add one word to the chain of
    /// `state`.
    fn expand(&self, frontier: &mut BucketQueue<State>, state: &State, ignore_words: &Vec<String>)
        requires
            state.fits(self.puzzle(texts(ignore_words@))),
            state.cost <= MAX_DEPTH,
            all_fit(self.puzzle(texts(ignore_words@)), old(frontier)@),
        ensures
            chains_in(final(frontier)@) == expanded(
                self.puzzle(texts(ignore_words@)),
                chains_in(old(frontier)@),
                state@,
            ),
            all_fit(self.puzzle(texts(ignore_words@)), final(frontier)@),
    {
        let ghost puzzle = self.puzzle(texts(ignore_words@));
        let ghost start = chains_in(frontier@);
        let allowed = self.letter_box.allowed();
        proof {
            use_type_invariant(self);
            self.lemma_usable(texts(ignore_words@));
            assert(self.start_index.words(state.last_char) == starting_with(
                puzzle.dictionary,
                state.last_char,
            ));
        }
        match self.start_index.get(state.last_char) {
            None => {},
            Some(candidates) => {
                let ghost words = texts(candidates@);
                let mut i: usize = 0;
                proof {
                    assert(words.take(0) =~= Seq::<Seq<char>>::empty());
                }
                while i < candidates.len()
                    invariant
                        i <= candidates.len(),
                        puzzle == self.puzzle(texts(ignore_words@)),
                        usable(puzzle),
                        allowed@.to_set() == puzzle.allowed,
                        allowed@.len() <= crate::letter_box::SLOTS,
                        words == texts(candidates@),
                        words == starting_with(puzzle.dictionary, state.last_char),
                        state.fits(puzzle),
                        state.cost <= MAX_DEPTH,
                        chains_in(frontier@) == extend(puzzle, start, state@, words.take(i as int)),
                        all_fit(puzzle, frontier@),
                    decreases candidates.len() - i,
                {
                    let word = &candidates[i];
                    proof {
                        assert(words.take(i + 1).drop_last() =~= words.take(i as int));
                        assert(words.take(i + 1).last() == word@);
                        assert(words[i as int] == word@);
                    }
                    if !list_has_text(&state.chain, word) && !list_has_text(ignore_words, word) {
                        let mut chain = clone_texts(&state.chain);
                        let copy = word.clone();
                        proof {
                            lemma_texts_push(chain@, copy);
                            assert(words.contains(word@));
                            puzzle.dictionary.lemma_filter_contains_rev(
                                starts_with(state.last_char),
                                word@,
                            );
                            puzzle.dictionary.lemma_filter_pred(starts_with(state.last_char), i as int);
                        }
                        chain.push(copy);
                        let heuristic = count_missing(&chain, allowed);
                        let last_char = last_letter_of(word.as_str()).unwrap();
                        let child = State { chain, last_char, cost: state.cost + 1, heuristic };
                        let key = state.cost + 1 + heuristic;
                        proof {
                            let longer = state@.push(word@);
                            assert(child@ == longer);
                            assert(valid_chain(puzzle, longer)) by {
                                assert forall|k: int|
                                    #![trigger longer[k]]
                                    0 <= k < longer.len() implies puzzle.dictionary.contains(
                                    longer[k],
                                ) && !puzzle.ignored.contains(longer[k]) by {
                                    if k < state@.len() {
                                        assert(longer[k] == state@[k]);
                                    }
                                }
                                assert forall|a: int, b: int|
                                    0 <= a < longer.len() && 0 <= b < longer.len() && a
                                        != b implies longer[a] != longer[b] by {
                                    if a < state@.len() && b < state@.len() {
                                        assert(state@[a] != state@[b]);
                                    } else if a < state@.len() {
                                        assert(state@[a] != word@);
                                    } else {
                                        assert(state@[b] != word@);
                                    }
                                }
                                assert forall|k: int|
                                    #![trigger longer[k]]
                                    0 < k < longer.len() implies longer[k - 1].len() > 0
                                    && longer[k].len() > 0 && longer[k - 1].last()
                                    == longer[k].first() by {
                                    if k < state@.len() {
                                        assert(longer[k] == state@[k]);
                                        assert(longer[k - 1] == state@[k - 1]);
                                    } else {
                                        assert(longer[k - 1] == state@.last());
                                    }
                                }
                            }
                            assert(child.fits(puzzle));
                            assert(key == priority(puzzle, longer));
                            lemma_chains_in_put(frontier@, key as nat, child);
                            lemma_put_holds(frontier@, key as nat, child);
                        }
                        frontier.push(key, child);
                    }
                    i += 1;
                }
                assert(words.take(candidates@.len() as int) =~= words);
            },
        }
    }

    /// Empties `frontier` at depth `level`. Returns the solutions found and
    /// the states taken out, each in the order in which it came.
    fn drain_frontier(
        &self,
        frontier: &mut BucketQueue<State>,
        level: usize,
        ignore_words: &Vec<String>,
    ) -> (result: (Vec<Vec<String>>, Vec<State>))
        requires
            1 <= level <= MAX_DEPTH,
            all_fit(self.puzzle(texts(ignore_words@)), old(frontier)@),
        ensures
            ({
                let puzzle = self.puzzle(texts(ignore_words@));
                let drained = drain(
                    puzzle,
                    chains_in(old(frontier)@),
                    Seq::empty(),
                    Seq::empty(),
                    level as nat,
                );
                &&& chains(result.0@) == drained.solutions
                &&& views(result.1@) == drained.visited
                &&& chains_in(final(frontier)@) == drained.frontier
                &&& all_fit(puzzle, final(frontier)@)
                &&& forall|i: int|
                    0 <= i < result.1@.len() ==> (#[trigger] result.1@[i]).fits(puzzle)
                &&& forall|i: int|
                    0 <= i < result.0@.len() ==> is_solution(
                        puzzle,
                        #[trigger] chains(result.0@)[i],
                    )
                &&& result.0@.len() <= max_solutions_at_depth(level as nat)
            }),
    {
        let ghost puzzle = self.puzzle(texts(ignore_words@));
        let ghost start = chains_in(frontier@);
        let limit = max_solutions(level);
        let mut solutions: Vec<Vec<String>> = Vec::new();
        let mut visited: Vec<State> = Vec::new();
        proof {
            use_type_invariant(self);
            self.lemma_usable(texts(ignore_words@));
            assert(chains(solutions@) =~= Seq::empty());
            assert(views(visited@) =~= Seq::empty());
        }
        loop
            invariant
                1 <= level <= MAX_DEPTH,
                puzzle == self.puzzle(texts(ignore_words@)),
                usable(puzzle),
                start == chains_in(old(frontier)@),
                limit == max_solutions_at_depth(level as nat),
                all_fit(puzzle, frontier@),
                forall|i: int| 0 <= i < visited@.len() ==> (#[trigger] visited@[i]).fits(puzzle),
                forall|i: int|
                    0 <= i < solutions@.len() ==> is_solution(
                        puzzle,
                        #[trigger] chains(solutions@)[i],
                    ),
                solutions@.len() < limit,
                drain(puzzle, start, Seq::empty(), Seq::empty(), level as nat) == drain(
                    puzzle,
                    chains_in(frontier@),
                    views(visited@),
                    chains(solutions@),
                    level as nat,
                ),
            decreases
                    count(chains_in(frontier@), 0),
                    count(chains_in(frontier@), 1),
                    count(chains_in(frontier@), 2),
                    count(chains_in(frontier@), 3),
                    count(chains_in(frontier@), 4),
                    count(chains_in(frontier@), 5),
                    count(chains_in(frontier@), 6),
                    count(chains_in(frontier@), 7),
        {
            let ghost before = frontier@;
            proof {
                lemma_chains_in_empty(before);
            }
            match frontier.pop() {
                None => {
                    return (solutions, visited);
                },
                Some(state) => {
                    proof {
                        lemma_chains_in_next(before);
                        lemma_without_next_holds(before);
                        lemma_count_without_next(chains_in(before));
                        lemma_views_push(visited@, state);
                        assert(state.fits(puzzle));
                    }
                    if state.chain.len() > level {
                        visited.push(state);
                    } else if state.heuristic == 0 {
                        let copy = clone_texts(&state.chain);
                        proof {
                            lemma_chains_push(solutions@, copy);
                            lemma_solution(puzzle, state@);
                        }
                        solutions.push(copy);
                        visited.push(state);
                        if solutions.len() >= limit {
                            return (solutions, visited);
                        }
                    } else {
                        proof {
                            lemma_count_extend(
                                puzzle,
                                chains_in(frontier@),
                                state@,
                                starting_with(puzzle.dictionary, state@.last().last()),
                            );
                        }
                        self.expand(frontier, &state, ignore_words);
                        visited.push(state);
                    }
                },
            }
        }
    }

    /// Puts the states of `visited` back into `frontier`, the last one first.
    fn restore_frontier(&self, frontier: &mut BucketQueue<State>, visited: Vec<State>, ignore_words: &Vec<String>)
        requires
            all_fit(self.puzzle(texts(ignore_words@)), old(frontier)@),
            forall|i: int|
                0 <= i < visited@.len() ==> (#[trigger] visited@[i]).fits(
                    self.puzzle(texts(ignore_words@)),
                ),
        ensures
            chains_in(final(frontier)@) == restored(
                self.puzzle(texts(ignore_words@)),
                chains_in(old(frontier)@),
                views(visited@),
            ),
            all_fit(self.puzzle(texts(ignore_words@)), final(frontier)@),
    {
        let ghost puzzle = self.puzzle(texts(ignore_words@));
        let ghost start = chains_in(frontier@);
        let ghost all = views(visited@);
        let mut waiting = visited;
        loop
            invariant
                puzzle == self.puzzle(texts(ignore_words@)),
                start == chains_in(old(frontier)@),
                all == views(visited@),
                all_fit(puzzle, frontier@),
                forall|i: int| 0 <= i < waiting@.len() ==> (#[trigger] waiting@[i]).fits(puzzle),
                restored(puzzle, start, all) == restored(
                    puzzle,
                    chains_in(frontier@),
                    views(waiting@),
                ),
            decreases waiting@.len(),
        {
            let ghost left = waiting@;
            match waiting.pop() {
                None => {
                    assert(views(left) =~= Seq::<Seq<Seq<char>>>::empty());
                    return ;
                },
                Some(state) => {
                    proof {
                        assert(state == left[left.len() - 1]);
                        assert(state.fits(puzzle));
                        assert(views(left).drop_last() =~= views(waiting@));
                        assert(views(left).last() == state@);
                        lemma_chains_in_put(frontier@, (state.cost + state.heuristic) as nat, state);
                        lemma_put_holds(frontier@, (state.cost + state.heuristic) as nat, state);
                    }
                    let key = state.priority();
                    frontier.push(key, state);
                },
            }
        }
    }

    /// Searches for the shortest chains of dictionary words that use every
    /// letter of the box, without the words of `ignore_words`. The result is
    /// always `Some`; an empty list says that no chain of up to six words was
    /// found.
    pub fn a_star(&self, ignore_words: &Vec<String>) -> (found: Option<Vec<Vec<String>>>)
        ensures
            found matches Some(solutions) && {
                let puzzle = self.puzzle(texts(ignore_words@));
                &&& chains(solutions@) == search(puzzle)
                &&& forall|i: int|
                    0 <= i < solutions@.len() ==> is_solution(
                        puzzle,
                        #[trigger] chains(solutions@)[i],
                    )
                &&& solutions@.len() <= 4
            },
    {
        let ghost puzzle = self.puzzle(texts(ignore_words@));
        let mut frontier = self.seed_frontier(ignore_words);
        let mut level: usize = 1;
        while level <= MAX_DEPTH
            invariant
                1 <= level <= MAX_DEPTH + 1,
                puzzle == self.puzzle(texts(ignore_words@)),
                all_fit(puzzle, frontier@),
                search(puzzle) == search_from(puzzle, chains_in(frontier@), level as nat),
            decreases MAX_DEPTH + 1 - level,
        {
            let (solutions, visited) = self.drain_frontier(&mut frontier, level, ignore_words);
            if solutions.len() > 0 {
                return Some(solutions);
            }
            self.restore_frontier(&mut frontier, visited, ignore_words);
            level += 1;
        }
        let solutions: Vec<Vec<String>> = Vec::new();
        assert(chains(solutions@) =~= Seq::empty());
        Some(solutions)
    }

    /// Runs the search. The search cannot fail: the result is always `Ok`,
    /// and an empty list says that no chain of up to six words was found.
    pub fn run_solver(&self, ignore_words: &Vec<String>) -> (result: Result<Vec<Vec<String>>, String>)
        ensures
            result matches Ok(solutions) && {
                let puzzle = self.puzzle(texts(ignore_words@));
                &&& chains(solutions@) == search(puzzle)
                &&& forall|i: int|
                    0 <= i < solutions@.len() ==> is_solution(
                        puzzle,
                        #[trigger] chains(solutions@)[i],
                    )
                &&& solutions@.len() <= 4
            },
    {
        Ok(self.a_star(ignore_words).unwrap())
    }
}

} // verus!
