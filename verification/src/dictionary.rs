//! The dictionary of a box: the accepted words, longest first.
//!
//! Candidates are judged in the order in which they come. The accepted ones
//! are then put in order of length, longest first, and words of one length
//! keep the order in which they came.

use vstd::prelude::*;
use crate::letter_box::LetterBox;
use crate::text::{lemma_texts_push, texts};
use crate::words::{accepted_by, accepts, judge, Verdict, MAX_LENGTH, MIN_LENGTH};

verus! {

/// The test for a word of `n` letters.
pub open spec fn of_length(n: nat) -> spec_fn(Seq<char>) -> bool {
    |word: Seq<char>| word.len() == n
}

/// The words of `words` with `hi` letters, then those with one letter less,
/// and so on down to those with `lo` letters. Words of one length stand in
/// the order of `words`.
pub open spec fn by_length(words: Seq<Seq<char>>, hi: nat, lo: nat) -> Seq<Seq<char>>
    decreases hi + 1 - lo,
{
    if lo > hi {
        Seq::empty()
    } else {
        by_length(words, hi, lo + 1) + words.filter(of_length(lo))
    }
}

/// The words of `words` that have three to twelve letters, longest first;
/// words of one length stand in the order of `words`.
pub open spec fn longest_first(words: Seq<Seq<char>>) -> Seq<Seq<char>> {
    by_length(words, MAX_LENGTH as nat, MIN_LENGTH as nat)
}

/// The dictionary that a box with these sides makes of the candidates
/// `lines`: the accepted ones, longest first.
pub open spec fn dictionary_of(sides: Seq<Seq<char>>, lines: Seq<Seq<char>>) -> Seq<Seq<char>> {
    longest_first(lines.filter(accepted_by(sides)))
}

/// Where every item passes a test, the test keeps the whole sequence.
pub proof fn lemma_filter_keeps_all<A>(s: Seq<A>, pred: spec_fn(A) -> bool)
    requires
        forall|i: int| 0 <= i < s.len() ==> pred(#[trigger] s[i]),
    ensures
        s.filter(pred) == s,
    decreases s.len(),
{
    reveal(Seq::filter);
    if s.len() > 0 {
        lemma_filter_keeps_all(s.drop_last(), pred);
        assert(s.drop_last().push(s.last()) =~= s);
    }
}

/// Where no item passes a test, the test keeps nothing.
pub proof fn lemma_filter_keeps_none<A>(s: Seq<A>, pred: spec_fn(A) -> bool)
    requires
        forall|i: int| 0 <= i < s.len() ==> !pred(#[trigger] s[i]),
    ensures
        s.filter(pred) == Seq::<A>::empty(),
    decreases s.len(),
{
    reveal(Seq::filter);
    if s.len() > 0 {
        lemma_filter_keeps_none(s.drop_last(), pred);
    }
}

/// What `by_length` holds comes from `words`, has `lo` to `hi` letters, and
/// stands in order of length, longest first.
pub proof fn lemma_by_length_sorted(words: Seq<Seq<char>>, hi: nat, lo: nat)
    ensures
        forall|i: int|
            0 <= i < by_length(words, hi, lo).len() ==> lo <= (#[trigger] by_length(
                words,
                hi,
                lo,
            )[i]).len() <= hi && words.contains(by_length(words, hi, lo)[i]),
        forall|i: int, j: int|
            0 <= i < j < by_length(words, hi, lo).len() ==> by_length(words, hi, lo)[i].len()
                >= by_length(words, hi, lo)[j].len(),
    decreases hi + 1 - lo,
{
    if lo <= hi {
        let front = by_length(words, hi, lo + 1);
        let back = words.filter(of_length(lo));
        let whole = by_length(words, hi, lo);
        lemma_by_length_sorted(words, hi, lo + 1);
        assert forall|k: int| 0 <= k < back.len() implies (#[trigger] back[k]).len() == lo
            && words.contains(back[k]) by {
            words.lemma_filter_pred(of_length(lo), k);
            assert(back.contains(back[k]));
            words.lemma_filter_contains_rev(of_length(lo), back[k]);
        }
        assert forall|i: int| 0 <= i < whole.len() implies lo <= (#[trigger] whole[i]).len() <= hi
            && words.contains(whole[i]) by {
            if i < front.len() {
                assert(whole[i] == front[i]);
            } else {
                assert(whole[i] == back[i - front.len()]);
            }
        }
        assert forall|i: int, j: int| 0 <= i < j < whole.len() implies whole[i].len()
            >= whole[j].len() by {
            if j < front.len() {
                assert(whole[i] == front[i] && whole[j] == front[j]);
            } else if i < front.len() {
                assert(whole[i] == front[i] && whole[j] == back[j - front.len()]);
            } else {
                assert(whole[i] == back[i - front.len()] && whole[j] == back[j - front.len()]);
            }
        }
    }
}

/// The words of `n` letters stand in `by_length` as they stand in `words`.
pub proof fn lemma_by_length_stable(words: Seq<Seq<char>>, hi: nat, lo: nat, n: nat)
    ensures
        by_length(words, hi, lo).filter(of_length(n)) == if lo <= n <= hi {
            words.filter(of_length(n))
        } else {
            Seq::empty()
        },
    decreases hi + 1 - lo,
{
    if lo > hi {
        lemma_filter_keeps_none(by_length(words, hi, lo), of_length(n));
    } else {
        let front = by_length(words, hi, lo + 1);
        let back = words.filter(of_length(lo));
        lemma_by_length_stable(words, hi, lo + 1, n);
        Seq::filter_distributes_over_add(front, back, of_length(n));
        assert forall|k: int| 0 <= k < back.len() implies (#[trigger] back[k]).len() == lo by {
            words.lemma_filter_pred(of_length(lo), k);
        }
        if n == lo {
            lemma_filter_keeps_all(back, of_length(n));
            assert(Seq::<Seq<char>>::empty() + back =~= back);
        } else {
            lemma_filter_keeps_none(back, of_length(n));
            assert(front.filter(of_length(n)) + Seq::<Seq<char>>::empty() =~= front.filter(
                of_length(n),
            ));
        }
    }
}

/// The dictionary is in order of length, longest first; its words of one
/// length stand in the order in which the candidates came; and it holds the
/// accepted candidates and nothing else.
pub proof fn lemma_dictionary_order(sides: Seq<Seq<char>>, lines: Seq<Seq<char>>)
    ensures
        forall|i: int, j: int|
            0 <= i < j < dictionary_of(sides, lines).len() ==> dictionary_of(sides, lines)[i].len()
                >= dictionary_of(sides, lines)[j].len(),
        forall|n: nat|
            #![trigger of_length(n)]
            dictionary_of(sides, lines).filter(of_length(n)) == lines.filter(
                accepted_by(sides),
            ).filter(of_length(n)),
        forall|i: int|
            0 <= i < dictionary_of(sides, lines).len() ==> accepts(
                sides,
                #[trigger] dictionary_of(sides, lines)[i],
            ) && lines.contains(dictionary_of(sides, lines)[i]),
{
    let accepted = lines.filter(accepted_by(sides));
    let dictionary = dictionary_of(sides, lines);
    lemma_by_length_sorted(accepted, MAX_LENGTH as nat, MIN_LENGTH as nat);
    assert forall|k: int| 0 <= k < accepted.len() implies accepts(sides, #[trigger] accepted[k])
        && lines.contains(accepted[k]) by {
        lines.lemma_filter_pred(accepted_by(sides), k);
        assert(accepted.contains(accepted[k]));
        lines.lemma_filter_contains_rev(accepted_by(sides), accepted[k]);
    }
    assert forall|n: nat| #![trigger of_length(n)] dictionary.filter(of_length(n))
        == accepted.filter(of_length(n)) by {
        lemma_by_length_stable(accepted, MAX_LENGTH as nat, MIN_LENGTH as nat, n);
        if !(MIN_LENGTH <= n <= MAX_LENGTH) {
            lemma_filter_keeps_none(accepted, of_length(n));
        }
    }
    assert forall|i: int| 0 <= i < dictionary.len() implies accepts(sides, #[trigger] dictionary[i])
        && lines.contains(dictionary[i]) by {
        let word = dictionary[i];
        assert(accepted.contains(word));
        let k = choose|k: int| 0 <= k < accepted.len() && accepted[k] == word;
        assert(accepts(sides, accepted[k]));
    }
}

/// The candidates that the box accepts, in the order in which they come.
pub fn accepted_words(letter_box: &LetterBox, lines: &Vec<String>) -> (accepted: Vec<String>)
    ensures
        texts(accepted@) == texts(lines@).filter(accepted_by(letter_box@)),
{
    let ghost all = texts(lines@);
    let ghost pred = accepted_by(letter_box@);
    let mut accepted: Vec<String> = Vec::new();
    let mut i: usize = 0;
    proof {
        assert(all.take(0) =~= Seq::<Seq<char>>::empty());
        lemma_filter_keeps_none(all.take(0), pred);
        assert(texts(accepted@) =~= Seq::<Seq<char>>::empty());
    }
    while i < lines.len()
        invariant
            i <= lines.len(),
            all == texts(lines@),
            pred == accepted_by(letter_box@),
            texts(accepted@) == all.take(i as int).filter(pred),
        decreases lines.len() - i,
    {
        let line = &lines[i];
        proof {
            assert(all.take(i + 1) =~= all.take(i as int).push(line@));
            all.take(i as int).lemma_filter_push(line@, pred);
        }
        if judge(letter_box, line.as_str()) == Verdict::Accepted {
            let copy = line.clone();
            proof {
                lemma_texts_push(accepted@, copy);
            }
            accepted.push(copy);
        }
        i += 1;
    }
    assert(all.take(lines@.len() as int) =~= all);
    accepted
}

/// The words of three to twelve letters, longest first; words of one length
/// keep their order.
pub fn sort_longest_first(words: &Vec<String>) -> (sorted: Vec<String>)
    ensures
        texts(sorted@) == longest_first(texts(words@)),
{
    let ghost all = texts(words@);
    let mut sorted: Vec<String> = Vec::new();
    let mut n: usize = MAX_LENGTH;
    assert(texts(sorted@) =~= Seq::<Seq<char>>::empty());
    while n >= MIN_LENGTH
        invariant
            MIN_LENGTH - 1 <= n <= MAX_LENGTH,
            all == texts(words@),
            texts(sorted@) == by_length(all, MAX_LENGTH as nat, (n + 1) as nat),
        decreases n,
    {
        let ghost front = texts(sorted@);
        let mut i: usize = 0;
        proof {
            assert(all.take(0) =~= Seq::<Seq<char>>::empty());
            lemma_filter_keeps_none(all.take(0), of_length(n as nat));
            assert(front + Seq::<Seq<char>>::empty() =~= front);
        }
        while i < words.len()
            invariant
                i <= words.len(),
                all == texts(words@),
                texts(sorted@) == front + all.take(i as int).filter(of_length(n as nat)),
            decreases words.len() - i,
        {
            let word = &words[i];
            proof {
                assert(all.take(i + 1) =~= all.take(i as int).push(word@));
                all.take(i as int).lemma_filter_push(word@, of_length(n as nat));
            }
            if word.as_str().unicode_len() == n {
                let copy = word.clone();
                proof {
                    lemma_texts_push(sorted@, copy);
                    let kept = all.take(i as int).filter(of_length(n as nat));
                    assert((front + kept).push(word@) =~= front + kept.push(word@));
                }
                sorted.push(copy);
            }
            i += 1;
        }
        assert(all.take(words@.len() as int) =~= all);
        n -= 1;
    }
    sorted
}

/// The dictionary that the box makes of the candidates `lines`.
pub fn build_dictionary(letter_box: &LetterBox, lines: &Vec<String>) -> (dictionary: Vec<String>)
    ensures
        texts(dictionary@) == dictionary_of(letter_box@, texts(lines@)),
{
    let accepted = accepted_words(letter_box, lines);
    sort_longest_first(&accepted)
}

} // verus!
