//! Which words a box accepts.
//!
//! A candidate is judged in four steps, in this order: its length, repeated
//! letters (only where the box itself has twelve different letters), letters
//! that are not on the box, and two consecutive letters from one side.

use vstd::prelude::*;
use crate::letter_box::{
    allowed_letters, no_duplicate_letters, on_same_side, same_side, sides_view, LetterBox,
    LetterGroup,
};
use crate::text::{has_repeated_letter, letters_of};

verus! {

/// The least number of letters of a usable word.
pub const MIN_LENGTH: usize = 3;

/// The greatest number of letters of a usable word.
pub const MAX_LENGTH: usize = 12;

/// Whether no two consecutive letters of `word` lie on one side. A word of
/// fewer than two letters is legal.
pub open spec fn is_legal(sides: Seq<Seq<char>>, word: Seq<char>) -> bool {
    forall|i: int|
        #![trigger word[i]]
        0 <= i && i + 1 < word.len() ==> !same_side(sides, word[i], word[i + 1])
}

/// Whether every letter of `word` lies on the box.
pub open spec fn all_allowed(sides: Seq<Seq<char>>, word: Seq<char>) -> bool {
    forall|i: int| 0 <= i < word.len() ==> allowed_letters(sides).contains(#[trigger] word[i])
}

/// What became of a candidate word.
#[derive(Clone, Copy, Debug, PartialEq, Eq, Structural)]
pub enum Verdict {
    /// The word is usable.
    Accepted,
    /// The word has fewer than three or more than twelve letters.
    WrongLength,
    /// The box has twelve different letters and the word uses one twice.
    RepeatedLetter,
    /// The word uses a letter that is not on the box.
    ForeignLetter,
    /// Two consecutive letters of the word lie on one side.
    SameSideTwice,
}

/// The verdict on `word`: the first of the four steps that refuses it, or
/// `Accepted`.
pub open spec fn verdict(sides: Seq<Seq<char>>, word: Seq<char>) -> Verdict {
    if word.len() < MIN_LENGTH || word.len() > MAX_LENGTH {
        Verdict::WrongLength
    } else if no_duplicate_letters(sides) && !word.no_duplicates() {
        Verdict::RepeatedLetter
    } else if !all_allowed(sides, word) {
        Verdict::ForeignLetter
    } else if !is_legal(sides, word) {
        Verdict::SameSideTwice
    } else {
        Verdict::Accepted
    }
}

/// Whether `word` is usable on a box with these sides.
pub open spec fn accepts(sides: Seq<Seq<char>>, word: Seq<char>) -> bool {
    verdict(sides, word) == Verdict::Accepted
}

/// The test for a word that is usable on a box with these sides.
pub open spec fn accepted_by(sides: Seq<Seq<char>>) -> spec_fn(Seq<char>) -> bool {
    |word: Seq<char>| accepts(sides, word)
}

/// No two consecutive letters of an accepted word lie on one side.
pub proof fn lemma_accepted_changes_side(sides: Seq<Seq<char>>, word: Seq<char>)
    requires
        accepts(sides, word),
    ensures
        forall|i: int|
            #![trigger word[i]]
            0 <= i && i + 1 < word.len() ==> !same_side(sides, word[i], word[i + 1]),
{
}

/// Every letter of an accepted word lies on the box, and the word has three
/// to twelve letters.
pub proof fn lemma_accepted_letters_allowed(sides: Seq<Seq<char>>, word: Seq<char>)
    requires
        accepts(sides, word),
    ensures
        MIN_LENGTH <= word.len() <= MAX_LENGTH,
        forall|i: int| 0 <= i < word.len() ==> allowed_letters(sides).contains(#[trigger] word[i]),
{
}

/// Where the box has twelve different letters, an accepted word uses no
/// letter twice.
pub proof fn lemma_accepted_no_repeat(sides: Seq<Seq<char>>, word: Seq<char>)
    requires
        accepts(sides, word),
        no_duplicate_letters(sides),
    ensures
        forall|i: int, j: int| 0 <= i < j < word.len() ==> word[i] != word[j],
{
}

/// Whether no two consecutive letters of `letters` lie on one of `groups`.
pub fn is_legal_word(groups: &Vec<LetterGroup>, letters: &Vec<char>) -> (legal: bool)
    ensures
        legal == is_legal(sides_view(groups@), letters@),
{
    if letters.len() < 2 {
        return true;
    }
    let mut i: usize = 0;
    while i + 1 < letters.len()
        invariant
            i + 1 <= letters.len(),
            forall|k: int|
                #![trigger letters@[k]]
                0 <= k < i ==> !same_side(sides_view(groups@), letters@[k], letters@[k + 1]),
        decreases letters.len() - i,
    {
        if on_same_side(groups, letters[i], letters[i + 1]) {
            assert(same_side(sides_view(groups@), letters@[i as int], letters@[i + 1]));
            return false;
        }
        i += 1;
    }
    true
}

/// Whether every one of `letters` lies on the box.
pub fn all_letters_allowed(letter_box: &LetterBox, letters: &Vec<char>) -> (allowed: bool)
    ensures
        allowed == all_allowed(letter_box@, letters@),
{
    let mut i: usize = 0;
    while i < letters.len()
        invariant
            i <= letters.len(),
            forall|k: int|
                0 <= k < i ==> allowed_letters(letter_box@).contains(#[trigger] letters@[k]),
        decreases letters.len() - i,
    {
        if !letter_box.has_letter(letters[i]) {
            return false;
        }
        i += 1;
    }
    true
}

/// Judges the candidate `word` against the box.
pub fn judge(letter_box: &LetterBox, word: &str) -> (outcome: Verdict)
    ensures
        outcome == verdict(letter_box@, word@),
{
    let letters = letters_of(word);
    if letters.len() < MIN_LENGTH || letters.len() > MAX_LENGTH {
        Verdict::WrongLength
    } else if letter_box.no_duplicate_letters() && has_repeated_letter(&letters) {
        Verdict::RepeatedLetter
    } else if !all_letters_allowed(letter_box, &letters) {
        Verdict::ForeignLetter
    } else if !is_legal_word(letter_box.sides(), &letters) {
        Verdict::SameSideTwice
    } else {
        Verdict::Accepted
    }
}

} // verus!
