//! The index of the dictionary by first letter.

use vstd::prelude::*;
use crate::text::{first_letter_of, lemma_texts_push, texts};

verus! {

/// The test for a word that begins with `letter`.
pub open spec fn starts_with(letter: char) -> spec_fn(Seq<char>) -> bool {
    |word: Seq<char>| word.len() > 0 && word[0] == letter
}

/// The words of `dictionary` that begin with `letter`, in the order of the
/// dictionary.
pub open spec fn starting_with(dictionary: Seq<Seq<char>>, letter: char) -> Seq<Seq<char>> {
    dictionary.filter(starts_with(letter))
}

/// The words filed under `letter` where `buckets[i]` holds the words for
/// `letters[i]`.
pub open spec fn filed_under(letters: Seq<char>, buckets: Seq<Vec<String>>, letter: char) -> Seq<
    Seq<char>,
> {
    if letters.contains(letter) {
        texts(buckets[letters.index_of(letter)]@)
    } else {
        Seq::empty()
    }
}

/// The position of `letter` in `letters`, if it is there.
fn position(letters: &Vec<char>, letter: char) -> (at: Option<usize>)
    requires
        letters@.no_duplicates(),
    ensures
        at is Some <==> letters@.contains(letter),
        at matches Some(p) ==> p < letters@.len() && letters@[p as int] == letter && p
            == letters@.index_of(letter),
{
    let mut i: usize = 0;
    while i < letters.len()
        invariant
            i <= letters.len(),
            letters@.no_duplicates(),
            forall|k: int| 0 <= k < i ==> letters@[k] != letter,
        decreases letters.len() - i,
    {
        if letters[i] == letter {
            proof {
                let chosen = letters@.index_of(letter);
                assert(letters@.contains(letter));
                assert(0 <= chosen < letters@.len() && letters@[chosen] == letter);
                assert(chosen == i);
            }
            return Some(i);
        }
        i += 1;
    }
    None
}

/// For each letter, the words of a dictionary that begin with it.
pub struct StartIndex {
    letters: Vec<char>,
    buckets: Vec<Vec<String>>,
}

impl StartIndex {
    #[verifier::type_invariant]
    spec fn well_formed(self) -> bool {
        &&& self.letters@.no_duplicates()
        &&& self.buckets@.len() == self.letters@.len()
        &&& forall|p: int| 0 <= p < self.buckets@.len() ==> (#[trigger] self.buckets@[p])@.len() > 0
    }

    /// The words filed under `letter`, in the order of the dictionary; none
    /// where no word begins with it.
    pub closed spec fn words(&self, letter: char) -> Seq<Seq<char>> {
        filed_under(self.letters@, self.buckets@, letter)
    }

    /// Files each word of `dictionary` under its first letter, in one pass.
    pub fn build(dictionary: &Vec<String>) -> (index: StartIndex)
        ensures
            forall|letter: char| #[trigger]
                index.words(letter) == starting_with(texts(dictionary@), letter),
    {
        let ghost all = texts(dictionary@);
        let mut letters: Vec<char> = Vec::new();
        let mut buckets: Vec<Vec<String>> = Vec::new();
        let mut i: usize = 0;
        proof {
            reveal(Seq::filter);
            assert(all.take(0) =~= Seq::<Seq<char>>::empty());
        }
        while i < dictionary.len()
            invariant
                i <= dictionary.len(),
                all == texts(dictionary@),
                letters@.no_duplicates(),
                buckets@.len() == letters@.len(),
                forall|p: int| 0 <= p < buckets@.len() ==> (#[trigger] buckets@[p])@.len() > 0,
                forall|letter: char| #[trigger]
                    filed_under(letters@, buckets@, letter) == starting_with(
                        all.take(i as int),
                        letter,
                    ),
            decreases dictionary.len() - i,
        {
            let word = &dictionary[i];
            let ghost old_letters = letters@;
            let ghost old_buckets = buckets@;
            let ghost shorter = all.take(i as int);
            proof {
                assert(all.take(i + 1) =~= shorter.push(word@));
                assert forall|letter: char| #[trigger]
                    starting_with(all.take(i + 1), letter) == if starts_with(letter)(word@) {
                        starting_with(shorter, letter).push(word@)
                    } else {
                        starting_with(shorter, letter)
                    } by {
                    shorter.lemma_filter_push(word@, starts_with(letter));
                }
            }
            match first_letter_of(word.as_str()) {
                None => {},
                Some(first) => {
                    let copy = word.clone();
                    match position(&letters, first) {
                        Some(p) => {
                            proof {
                                lemma_texts_push(buckets@[p as int]@, copy);
                            }
                            buckets[p].push(copy);
                            proof {
                                assert forall|letter: char| #[trigger]
                                    filed_under(letters@, buckets@, letter) == starting_with(
                                        all.take(i + 1),
                                        letter,
                                    ) by {
                                    assert(filed_under(old_letters, old_buckets, letter)
                                        == starting_with(shorter, letter));
                                    if letters@.contains(letter) && letter != first {
                                        let q = letters@.index_of(letter);
                                        assert(q != p);
                                    }
                                }
                            }
                        },
                        None => {
                            let mut bucket: Vec<String> = Vec::new();
                            proof {
                                lemma_texts_push(bucket@, copy);
                                assert(texts(bucket@) =~= Seq::<Seq<char>>::empty());
                            }
                            bucket.push(copy);
                            letters.push(first);
                            buckets.push(bucket);
                            proof {
                                assert(letters@[old_letters.len() as int] == first);
                                assert(letters@.contains(first));
                                assert forall|letter: char| #[trigger]
                                    filed_under(letters@, buckets@, letter) == starting_with(
                                        all.take(i + 1),
                                        letter,
                                    ) by {
                                    assert(filed_under(old_letters, old_buckets, letter)
                                        == starting_with(shorter, letter));
                                    if letter == first {
                                        let q = letters@.index_of(letter);
                                        assert(0 <= q < letters@.len() && letters@[q] == first);
                                        if q < old_letters.len() {
                                            assert(old_letters[q] == first);
                                        }
                                        assert(q == old_letters.len());
                                        assert(starting_with(shorter, letter).len() == 0);
                                        assert(texts(buckets@[q]@) =~= starting_with(
                                            shorter,
                                            letter,
                                        ).push(word@));
                                    } else if old_letters.contains(letter) {
                                        let q0 = old_letters.index_of(letter);
                                        assert(letters@[q0] == letter);
                                        let q = letters@.index_of(letter);
                                        assert(q == q0);
                                    } else {
                                        if letters@.contains(letter) {
                                            let q = choose|q: int|
                                                0 <= q < letters@.len() && letters@[q] == letter;
                                            assert(old_letters[q] == letter);
                                        }
                                    }
                                }
                            }
                        },
                    }
                },
            }
            i += 1;
        }
        assert(all.take(dictionary@.len() as int) =~= all);
        StartIndex { letters, buckets }
    }

    /// The words filed under `letter`, if there are any.
    pub fn get(&self, letter: char) -> (bucket: Option<&Vec<String>>)
        ensures
            bucket is None <==> self.words(letter).len() == 0,
            bucket matches Some(words) ==> texts(words@) == self.words(letter),
    {
        proof {
            use_type_invariant(self);
        }
        match position(&self.letters, letter) {
            Some(p) => Some(&self.buckets[p]),
            None => None,
        }
    }
}

} // verus!
