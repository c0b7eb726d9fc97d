//! The box: four sides of three letters each.

use vstd::prelude::*;
use crate::error::ErrorKind;
use crate::text::{has_letter, letters_of};

verus! {

/// The number of sides of a box.
pub const SIDES: usize = 4;

/// The number of letter slots on a box: four sides of three letters.
pub const SLOTS: usize = 12;

/// Whether `a` and `b` both lie on one of `sides`.
pub open spec fn same_side(sides: Seq<Seq<char>>, a: char, b: char) -> bool {
    exists|g: int|
        #![trigger sides[g]]
        0 <= g < sides.len() && sides[g].contains(a) && sides[g].contains(b)
}

/// Whether `letter` lies on one of `sides`.
pub open spec fn on_some_side(sides: Seq<Seq<char>>, letter: char) -> bool {
    exists|g: int| #![trigger sides[g]] 0 <= g < sides.len() && sides[g].contains(letter)
}

/// The distinct letters found on `sides`.
pub open spec fn allowed_letters(sides: Seq<Seq<char>>) -> Set<char> {
    Set::new(|letter: char| on_some_side(sides, letter))
}

/// Whether all twelve slots of a box hold different letters.
pub open spec fn no_duplicate_letters(sides: Seq<Seq<char>>) -> bool {
    allowed_letters(sides).len() == SLOTS
}

/// The letters of each group, in order.
pub open spec fn sides_view(groups: Seq<LetterGroup>) -> Seq<Seq<char>> {
    Seq::new(groups.len(), |g: int| groups[g]@)
}

/// The letters found on finitely many sides are finitely many.
pub proof fn lemma_allowed_letters_finite(sides: Seq<Seq<char>>)
    ensures
        allowed_letters(sides).finite(),
    decreases sides.len(),
{
    if sides.len() == 0 {
        assert(allowed_letters(sides) =~= Set::<char>::empty());
    } else {
        let shorter = sides.drop_last();
        lemma_allowed_letters_finite(shorter);
        let rest = allowed_letters(shorter);
        let last = sides.last().to_set();
        vstd::seq_lib::seq_to_set_is_finite(sides.last());
        assert forall|letter: char| allowed_letters(sides).contains(letter) <==> rest.union(
            last,
        ).contains(letter) by {
            if on_some_side(sides, letter) {
                let g = choose|g: int|
                    #![trigger sides[g]]
                    0 <= g < sides.len() && sides[g].contains(letter);
                if g < shorter.len() {
                    assert(shorter[g].contains(letter));
                }
            }
            if on_some_side(shorter, letter) {
                let g = choose|g: int|
                    #![trigger shorter[g]]
                    0 <= g < shorter.len() && shorter[g].contains(letter);
                assert(sides[g].contains(letter));
            }
            if last.contains(letter) {
                assert(sides[sides.len() - 1].contains(letter));
            }
        }
        assert(allowed_letters(sides) =~= rest.union(last));
    }
}

/// One side of the box: exactly three letters. A letter may occur more than
/// once on a side.
#[derive(Clone, Copy, Debug)]
pub struct LetterGroup {
    pub first: char,
    pub second: char,
    pub third: char,
}

impl View for LetterGroup {
    type V = Seq<char>;

    open spec fn view(&self) -> Seq<char> {
        seq![self.first, self.second, self.third]
    }
}

impl LetterGroup {
    /// Reads a side from its three letters. Any other number of characters is
    /// refused.
    pub fn new(text: &str) -> (result: Result<LetterGroup, ErrorKind>)
        ensures
            result is Ok <==> text@.len() == 3,
            result matches Ok(group) ==> group@ == text@,
            result matches Err(e) ==> e == ErrorKind::InvalidGroupLength,
    {
        let letters = letters_of(text);
        if letters.len() != 3 {
            return Err(ErrorKind::InvalidGroupLength);
        }
        let group = LetterGroup { first: letters[0], second: letters[1], third: letters[2] };
        assert(group@ =~= text@);
        Ok(group)
    }

    /// Whether `letter` is one of the three letters of this side.
    pub fn contains(&self, letter: char) -> (found: bool)
        ensures
            found == self@.contains(letter),
    {
        proof {
            let s = self@;
            assert(s[0] == self.first && s[1] == self.second && s[2] == self.third);
        }
        self.first == letter || self.second == letter || self.third == letter
    }
}

/// Whether `a` and `b` both lie on one of `groups`.
pub fn on_same_side(groups: &Vec<LetterGroup>, a: char, b: char) -> (same: bool)
    ensures
        same == same_side(sides_view(groups@), a, b),
{
    let ghost sides = sides_view(groups@);
    let mut g: usize = 0;
    while g < groups.len()
        invariant
            g <= groups.len(),
            sides == sides_view(groups@),
            forall|k: int|
                #![trigger sides[k]]
                0 <= k < g ==> !(sides[k].contains(a) && sides[k].contains(b)),
        decreases groups.len() - g,
    {
        if groups[g].contains(a) && groups[g].contains(b) {
            assert(sides[g as int] == groups@[g as int]@);
            return true;
        }
        assert(sides[g as int] == groups@[g as int]@);
        g += 1;
    }
    false
}

/// Adds `letter` to `letters` unless it is there already.
fn add_letter(letters: &mut Vec<char>, letter: char)
    requires
        old(letters)@.no_duplicates(),
    ensures
        final(letters)@.no_duplicates(),
        final(letters)@.len() <= old(letters)@.len() + 1,
        forall|c: char|
            #![trigger final(letters)@.contains(c)]
            final(letters)@.contains(c) <==> old(letters)@.contains(c) || c == letter,
{
    if !has_letter(letters, letter) {
        let ghost before = letters@;
        letters.push(letter);
        assert forall|c: char| #![trigger letters@.contains(c)] letters@.contains(c) <==> before.contains(
            c,
        ) || c == letter by {
            if before.contains(c) {
                let j = choose|j: int| 0 <= j < before.len() && before[j] == c;
                assert(letters@[j] == c);
            }
            if c == letter {
                assert(letters@[before.len() as int] == c);
            }
        }
    }
}

/// Adds the letters of `group` to `letters`, skipping those already there.
fn add_group(letters: &mut Vec<char>, group: &LetterGroup)
    requires
        old(letters)@.no_duplicates(),
    ensures
        final(letters)@.no_duplicates(),
        final(letters)@.len() <= old(letters)@.len() + 3,
        forall|c: char|
            #![trigger final(letters)@.contains(c)]
            final(letters)@.contains(c) <==> old(letters)@.contains(c) || group@.contains(c),
{
    proof {
        let s = group@;
        assert(s[0] == group.first && s[1] == group.second && s[2] == group.third);
    }
    add_letter(letters, group.first);
    add_letter(letters, group.second);
    add_letter(letters, group.third);
}

/// The puzzle's box: its four sides and the distinct letters on them.
pub struct LetterBox {
    sides: Vec<LetterGroup>,
    allowed: Vec<char>,
}

impl View for LetterBox {
    type V = Seq<Seq<char>>;

    closed spec fn view(&self) -> Seq<Seq<char>> {
        sides_view(self.sides@)
    }
}

impl LetterBox {
    #[verifier::type_invariant]
    spec fn well_formed(self) -> bool {
        &&& self.sides@.len() == SIDES
        &&& self.allowed@.no_duplicates()
        &&& self.allowed@.len() <= SLOTS
        &&& self.allowed@.to_set() == allowed_letters(sides_view(self.sides@))
    }

    /// Puts four sides together.
    pub fn new(first: LetterGroup, second: LetterGroup, third: LetterGroup, fourth: LetterGroup) -> (letter_box: LetterBox)
        ensures
            letter_box@ == seq![first@, second@, third@, fourth@],
    {
        let mut allowed: Vec<char> = Vec::new();
        add_group(&mut allowed, &first);
        add_group(&mut allowed, &second);
        add_group(&mut allowed, &third);
        add_group(&mut allowed, &fourth);
        let mut sides: Vec<LetterGroup> = Vec::new();
        sides.push(first);
        sides.push(second);
        sides.push(third);
        sides.push(fourth);
        proof {
            let v = sides_view(sides@);
            assert(v =~= seq![first@, second@, third@, fourth@]);
            assert forall|c: char| allowed@.to_set().contains(c) <==> allowed_letters(v).contains(
                c,
            ) by {
                if on_some_side(v, c) {
                    let g = choose|g: int| #![trigger v[g]] 0 <= g < v.len() && v[g].contains(c);
                    assert(g == 0 || g == 1 || g == 2 || g == 3);
                }
                if first@.contains(c) {
                    assert(v[0].contains(c));
                }
                if second@.contains(c) {
                    assert(v[1].contains(c));
                }
                if third@.contains(c) {
                    assert(v[2].contains(c));
                }
                if fourth@.contains(c) {
                    assert(v[3].contains(c));
                }
            }
            assert(allowed@.to_set() =~= allowed_letters(v));
        }
        LetterBox { sides, allowed }
    }

    /// The four sides, in the order in which they were given.
    pub fn sides(&self) -> (sides: &Vec<LetterGroup>)
        ensures
            sides@.len() == SIDES,
            sides_view(sides@) == self@,
    {
        proof {
            use_type_invariant(self);
        }
        &self.sides
    }

    /// The distinct letters of the box, in the order in which they first
    /// appear on its sides.
    pub fn allowed(&self) -> (allowed: &Vec<char>)
        ensures
            allowed@.no_duplicates(),
            allowed@.len() <= SLOTS,
            allowed@.to_set() == allowed_letters(self@),
            allowed@.len() == allowed_letters(self@).len(),
            allowed_letters(self@).finite(),
    {
        proof {
            use_type_invariant(self);
            self.allowed@.unique_seq_to_set();
        }
        &self.allowed
    }

    /// Whether `letter` lies on the box.
    pub fn has_letter(&self, letter: char) -> (found: bool)
        ensures
            found == allowed_letters(self@).contains(letter),
    {
        proof {
            use_type_invariant(self);
        }
        has_letter(&self.allowed, letter)
    }

    /// Whether the twelve slots of the box hold twelve different letters.
    pub fn no_duplicate_letters(&self) -> (distinct: bool)
        ensures
            distinct == no_duplicate_letters(self@),
    {
        self.allowed().len() == SLOTS
    }
}

} // verus!
