//! Small helpers that read strings and vectors of letters.
//!
//! A string is modelled by its view, the sequence of its characters, and a
//! list of strings by the sequence of those views.

use vstd::prelude::*;

verus! {

/// The sequences of characters of a list of strings, in order.
pub open spec fn texts(list: Seq<String>) -> Seq<Seq<char>> {
    Seq::new(list.len(), |i: int| list[i]@)
}

/// Appending a string to a list appends its characters to the list's texts.
pub proof fn lemma_texts_push(list: Seq<String>, item: String)
    ensures
        texts(list.push(item)) == texts(list).push(item@),
{
    assert(texts(list.push(item)) =~= texts(list).push(item@));
}

/// The characters of `text`, one vector element per character.
pub fn letters_of(text: &str) -> (letters: Vec<char>)
    ensures
        letters@ == text@,
{
    let mut letters: Vec<char> = Vec::new();
    for c in it: text.chars()
        invariant
            letters@ == text@.take(it.index() as int),
            it.seq() == text@,
    {
        letters.push(c);
    }
    letters
}

/// Whether `letter` occurs among `letters`.
pub fn has_letter(letters: &Vec<char>, letter: char) -> (found: bool)
    ensures
        found == letters@.contains(letter),
{
    let mut i: usize = 0;
    while i < letters.len()
        invariant
            i <= letters.len(),
            forall|j: int| 0 <= j < i ==> letters@[j] != letter,
        decreases letters.len() - i,
    {
        if letters[i] == letter {
            return true;
        }
        i += 1;
    }
    false
}

/// Whether `letter` occurs in `text`.
pub fn text_has_letter(text: &str, letter: char) -> (found: bool)
    ensures
        found == text@.contains(letter),
{
    let mut found = false;
    for c in it: text.chars()
        invariant
            it.seq() == text@,
            found == text@.take(it.index() as int).contains(letter),
    {
        proof {
            let k = it.index() as int;
            let shorter = text@.take(k);
            let longer = text@.take(k + 1);
            assert(longer =~= shorter.push(text@[k]));
            if shorter.contains(letter) {
                let j = choose|j: int| 0 <= j < shorter.len() && shorter[j] == letter;
                assert(longer[j] == letter);
            }
            if longer.contains(letter) && text@[k] != letter {
                let j = choose|j: int| 0 <= j < longer.len() && longer[j] == letter;
                assert(shorter[j] == letter);
            }
            if text@[k] == letter {
                assert(longer[k] == letter);
            }
        }
        if c == letter {
            found = true;
        }
    }
    assert(text@.take(text@.len() as int) =~= text@);
    found
}

/// Whether some letter occurs twice in `letters`.
pub fn has_repeated_letter(letters: &Vec<char>) -> (repeated: bool)
    ensures
        repeated == !letters@.no_duplicates(),
{
    let mut i: usize = 0;
    while i < letters.len()
        invariant
            i <= letters.len(),
            forall|a: int, b: int| 0 <= a < b < i ==> letters@[a] != letters@[b],
        decreases letters.len() - i,
    {
        let mut j: usize = 0;
        while j < i
            invariant
                j <= i < letters.len(),
                forall|a: int| 0 <= a < j ==> letters@[a] != letters@[i as int],
            decreases i - j,
        {
            if letters[j] == letters[i] {
                return true;
            }
            j += 1;
        }
        i += 1;
    }
    false
}


/// Whether one of the strings of `list` reads `word`.
pub fn list_has_text(list: &Vec<String>, word: &String) -> (found: bool)
    ensures
        found == texts(list@).contains(word@),
{
    let ghost words = texts(list@);
    let mut i: usize = 0;
    while i < list.len()
        invariant
            i <= list.len(),
            words == texts(list@),
            forall|k: int| 0 <= k < i ==> words[k] != word@,
        decreases list.len() - i,
    {
        assert(words[i as int] == list@[i as int]@);
        if list[i] == *word {
            return true;
        }
        i += 1;
    }
    false
}

/// A copy of `list`, string by string.
pub fn clone_texts(list: &Vec<String>) -> (copy: Vec<String>)
    ensures
        texts(copy@) == texts(list@),
        copy@.len() == list@.len(),
{
    let mut copy: Vec<String> = Vec::new();
    let mut i: usize = 0;
    while i < list.len()
        invariant
            i <= list.len(),
            copy@.len() == i,
            texts(copy@) == texts(list@).take(i as int),
        decreases list.len() - i,
    {
        let item = list[i].clone();
        proof {
            lemma_texts_push(copy@, item);
            assert(texts(list@).take(i + 1) =~= texts(list@).take(i as int).push(list@[i as int]@));
        }
        copy.push(item);
        i += 1;
    }
    assert(texts(list@).take(list@.len() as int) =~= texts(list@));
    copy
}

/// The first character of `text`, if it has one.
pub fn first_letter_of(text: &str) -> (letter: Option<char>)
    ensures
        letter is Some <==> text@.len() > 0,
        letter matches Some(c) ==> c == text@.first(),
{
    let mut chars = text.chars();
    let letter = chars.next();
    proof {
        broadcast use vstd::string::group_string_axioms;

    }
    letter
}

/// The last character of `text`, if it has one.
pub fn last_letter_of(text: &str) -> (letter: Option<char>)
    ensures
        letter is Some <==> text@.len() > 0,
        letter matches Some(c) ==> c == text@.last(),
{
    let mut letter: Option<char> = None;
    for c in it: text.chars()
        invariant
            it.seq() == text@,
            letter is Some <==> it.index() > 0,
            letter matches Some(l) ==> l == text@[it.index() - 1],
    {
        letter = Some(c);
    }
    letter
}


/// The texts of each list of `lists`, in order.
pub open spec fn chains(lists: Seq<Vec<String>>) -> Seq<Seq<Seq<char>>> {
    Seq::new(lists.len(), |i: int| texts(lists[i]@))
}

/// Appending a list of strings appends its texts.
pub proof fn lemma_chains_push(lists: Seq<Vec<String>>, list: Vec<String>)
    ensures
        chains(lists.push(list)) == chains(lists).push(texts(list@)),
{
    assert(chains(lists.push(list)) =~= chains(lists).push(texts(list@)));
}

} // verus!
