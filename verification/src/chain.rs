//! Chains of words and the letters they cover.

use vstd::prelude::*;
use crate::text::{texts, text_has_letter};

verus! {

/// Whether `letter` occurs in one of the words of `chain`.
pub open spec fn covers(chain: Seq<Seq<char>>, letter: char) -> bool {
    exists|i: int| #![trigger chain[i]] 0 <= i < chain.len() && chain[i].contains(letter)
}

/// The letters that occur in the words of `chain`.
pub open spec fn covered(chain: Seq<Seq<char>>) -> Set<char> {
    Set::new(|letter: char| covers(chain, letter))
}

/// How many of the `allowed` letters occur in no word of `chain`.
pub open spec fn missing(chain: Seq<Seq<char>>, allowed: Set<char>) -> nat {
    allowed.difference(covered(chain)).len()
}

/// Whether each word of `chain` starts with the letter on which the word
/// before it ends.
pub open spec fn linked(chain: Seq<Seq<char>>) -> bool {
    forall|i: int|
        #![trigger chain[i]]
        0 < i < chain.len() ==> chain[i - 1].len() > 0 && chain[i].len() > 0 && chain[i - 1].last()
            == chain[i].first()
}

/// A chain that misses no allowed letter covers all of them.
pub proof fn lemma_nothing_missing(chain: Seq<Seq<char>>, allowed: Set<char>)
    requires
        allowed.finite(),
        missing(chain, allowed) == 0,
    ensures
        allowed.subset_of(covered(chain)),
{
    let rest = allowed.difference(covered(chain));
    assert(rest.finite());
    assert(rest.len() == 0);
    assert forall|letter: char| allowed.contains(letter) implies covered(chain).contains(
        letter,
    ) by {
        if !covered(chain).contains(letter) {
            assert(rest.contains(letter));
        }
    }
}

/// Whether `letter` occurs in one of the words of `chain`.
pub fn chain_has_letter(chain: &Vec<String>, letter: char) -> (found: bool)
    ensures
        found == covers(texts(chain@), letter),
{
    let ghost words = texts(chain@);
    let mut i: usize = 0;
    while i < chain.len()
        invariant
            i <= chain.len(),
            words == texts(chain@),
            forall|k: int| #![trigger words[k]] 0 <= k < i ==> !words[k].contains(letter),
        decreases chain.len() - i,
    {
        assert(words[i as int] == chain@[i as int]@);
        if text_has_letter(chain[i].as_str(), letter) {
            return true;
        }
        i += 1;
    }
    false
}

/// Whether `letters[at]` occurs before position `at`.
fn seen_before(letters: &Vec<char>, at: usize) -> (seen: bool)
    requires
        at < letters.len(),
    ensures
        seen == letters@.take(at as int).contains(letters@[at as int]),
{
    let ghost before = letters@.take(at as int);
    let mut j: usize = 0;
    while j < at
        invariant
            j <= at < letters.len(),
            before == letters@.take(at as int),
            forall|k: int| 0 <= k < j ==> before[k] != letters@[at as int],
        decreases at - j,
    {
        if letters[j] == letters[at] {
            assert(before[j as int] == letters@[at as int]);
            return true;
        }
        j += 1;
    }
    false
}

/// Counts the distinct letters among `letters` that occur in no word of
/// `chain`.
pub fn count_missing(chain: &Vec<String>, letters: &Vec<char>) -> (count: usize)
    ensures
        count == missing(texts(chain@), letters@.to_set()),
        count <= letters@.len(),
{
    let ghost words = texts(chain@);
    let mut count: usize = 0;
    let mut i: usize = 0;
    assert(letters@.take(0).to_set() =~= Set::<char>::empty());
    assert(Set::<char>::empty().difference(covered(words)) =~= Set::<char>::empty());
    while i < letters.len()
        invariant
            i <= letters.len(),
            count <= i,
            words == texts(chain@),
            count == missing(words, letters@.take(i as int).to_set()),
        decreases letters.len() - i,
    {
        let letter = letters[i];
        let seen = seen_before(letters, i);
        let found = chain_has_letter(chain, letter);
        proof {
            let earlier = letters@.take(i as int);
            let longer = letters@.take(i + 1);
            assert(longer =~= earlier.push(letter));
            assert(longer.to_set() =~= earlier.to_set().insert(letter)) by {
                assert forall|c: char| longer.to_set().contains(c) <==> earlier.to_set().insert(
                    letter,
                ).contains(c) by {
                    if earlier.contains(c) {
                        let j = choose|j: int| 0 <= j < earlier.len() && earlier[j] == c;
                        assert(longer[j] == c);
                    }
                    if longer.contains(c) {
                        let j = choose|j: int| 0 <= j < longer.len() && longer[j] == c;
                        if j < earlier.len() {
                            assert(earlier[j] == c);
                        }
                    }
                    if c == letter {
                        assert(longer[i as int] == c);
                    }
                }
            }
            let before = earlier.to_set().difference(covered(words));
            let after = longer.to_set().difference(covered(words));
            assert(earlier.to_set().finite());
            assert(before.finite());
            if seen || found {
                assert(after =~= before);
            } else {
                assert(after =~= before.insert(letter));
                assert(!before.contains(letter));
            }
        }
        if !seen && !found {
            count += 1;
        }
        i += 1;
    }
    assert(letters@.take(letters@.len() as int) =~= letters@);
    count
}

} // verus!
