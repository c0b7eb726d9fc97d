//! The states that the search keeps in its frontier.

use vstd::prelude::*;
use crate::chain::missing;
use crate::letter_box::SLOTS;
use crate::queue::{
    holds, is_empty, lemma_lowest_from, lowest, lowest_from, next, put, widen, without_next,
};
use crate::search::{valid_chain, Chain, Frontier, Puzzle, MAX_DEPTH};
use crate::text::texts;

verus! {

/// A chain of words with what the search has worked out about it.
pub struct State {
    /// The words chosen so far.
    pub chain: Vec<String>,
    /// The last letter of the last word.
    pub last_char: char,
    /// The number of words.
    pub cost: usize,
    /// The number of allowed letters that no word of the chain uses.
    pub heuristic: usize,
}

impl View for State {
    type V = Seq<Seq<char>>;

    open spec fn view(&self) -> Seq<Seq<char>> {
        texts(self.chain@)
    }
}

impl State {
    /// Whether the chain is a valid chain of `puzzle` and the other fields
    /// say of it what they are meant to.
    pub open spec fn fits(&self, puzzle: Puzzle) -> bool {
        &&& valid_chain(puzzle, self@)
        &&& self@.last().len() > 0
        &&& self.last_char == self@.last().last()
        &&& self.cost == self@.len()
        &&& self.cost <= MAX_DEPTH + 1
        &&& self.heuristic == missing(self@, puzzle.allowed)
        &&& self.heuristic <= SLOTS
    }

    /// The key by which states are ordered, smallest first: the number of
    /// words plus the number of letters still missing.
    pub fn priority(&self) -> (key: usize)
        requires
            self.cost + self.heuristic <= usize::MAX,
        ensures
            key == self.cost + self.heuristic,
    {
        self.cost + self.heuristic
    }
}

/// The chains of `states`, in order.
pub open spec fn views(states: Seq<State>) -> Seq<Chain> {
    Seq::new(states.len(), |i: int| states[i]@)
}

/// The chains of the states of `queue`, bucket by bucket.
pub open spec fn chains_in(queue: Seq<Seq<State>>) -> Frontier {
    Seq::new(queue.len(), |key: int| views(queue[key]))
}

/// Whether every state of `queue` fits `puzzle`.
pub open spec fn all_fit(puzzle: Puzzle, queue: Seq<Seq<State>>) -> bool {
    forall|state: State| #[trigger] holds(queue, state) ==> state.fits(puzzle)
}

/// The chains of a list with one more state.
pub proof fn lemma_views_push(states: Seq<State>, state: State)
    ensures
        views(states.push(state)) == views(states).push(state@),
{
    assert(views(states.push(state)) =~= views(states).push(state@));
}

/// Putting a state into a queue puts its chain into the frontier.
pub proof fn lemma_chains_in_put(queue: Seq<Seq<State>>, key: nat, state: State)
    ensures
        chains_in(put(queue, key, state)) == put(chains_in(queue), key, state@),
{
    let wide = widen(queue, key + 1);
    assert(chains_in(wide) =~~= widen(chains_in(queue), key + 1));
    assert(views(wide[key as int].push(state)) =~= views(wide[key as int]).push(state@));
    assert(chains_in(put(queue, key, state)) =~~= put(chains_in(queue), key, state@));
}

/// The least key in use is the same for a queue and for its frontier.
pub proof fn lemma_chains_in_lowest(queue: Seq<Seq<State>>, from: nat)
    ensures
        lowest_from(chains_in(queue), from) == lowest_from(queue, from),
    decreases queue.len() - from,
{
    if from < queue.len() && queue[from as int].len() == 0 {
        lemma_chains_in_lowest(queue, from + 1);
    }
}

/// A queue is empty exactly if its frontier is.
pub proof fn lemma_chains_in_empty(queue: Seq<Seq<State>>)
    ensures
        is_empty(chains_in(queue)) == is_empty(queue),
{
    lemma_chains_in_lowest(queue, 0);
}

/// Taking the next state out of a queue takes its chain out of the frontier.
pub proof fn lemma_chains_in_next(queue: Seq<Seq<State>>)
    requires
        !is_empty(queue),
    ensures
        !is_empty(chains_in(queue)),
        next(chains_in(queue)) == next(queue)@,
        chains_in(without_next(queue)) == without_next(chains_in(queue)),
{
    lemma_chains_in_lowest(queue, 0);
    lemma_lowest_from(queue, 0);
    let key = lowest(queue) as int;
    assert(views(queue[key].drop_last()) =~= views(queue[key]).drop_last());
    assert(chains_in(without_next(queue)) =~~= without_next(chains_in(queue)));
}

} // verus!
