use lbsolver::letter_box::on_same_side;
use lbsolver::words::{all_letters_allowed, is_legal_word, judge};
use lbsolver::{ErrorKind, LetterBox, LetterBoxedSolver, LetterGroup, Verdict};

fn side(text: &str) -> LetterGroup {
    LetterGroup::new(text).unwrap()
}

fn plain_box() -> LetterBox {
    LetterBox::new(side("abc"), side("def"), side("ghi"), side("jkl"))
}

fn doubled_box() -> LetterBox {
    LetterBox::new(side("aab"), side("cde"), side("fgh"), side("ija"))
}

#[test]
fn group_of_three_letters_is_read() {
    let group = LetterGroup::new("xyz").unwrap();
    assert_eq!((group.first, group.second, group.third), ('x', 'y', 'z'));
    assert!(group.contains('y'));
    assert!(!group.contains('a'));
}

#[test]
fn group_may_repeat_a_letter() {
    let group = LetterGroup::new("aab").unwrap();
    assert_eq!((group.first, group.second, group.third), ('a', 'a', 'b'));
}

#[test]
fn group_counts_characters_not_bytes() {
    let group = LetterGroup::new("é\u{00e8}x").unwrap();
    assert_eq!(group.first, 'é');
    assert!(matches!(LetterGroup::new("é"), Err(ErrorKind::InvalidGroupLength)));
}

#[test]
fn group_of_other_length_is_refused() {
    assert!(matches!(LetterGroup::new(""), Err(ErrorKind::InvalidGroupLength)));
    assert!(matches!(LetterGroup::new("ab"), Err(ErrorKind::InvalidGroupLength)));
    assert!(matches!(LetterGroup::new("abcd"), Err(ErrorKind::InvalidGroupLength)));
}

#[test]
fn box_knows_its_letters() {
    let letter_box = plain_box();
    assert_eq!(
        letter_box.allowed(),
        &vec!['a', 'b', 'c', 'd', 'e', 'f', 'g', 'h', 'i', 'j', 'k', 'l']
    );
    assert!(letter_box.no_duplicate_letters());
    assert!(letter_box.has_letter('l'));
    assert!(!letter_box.has_letter('m'));
    assert_eq!(letter_box.sides().len(), 4);
}

#[test]
fn box_with_a_letter_on_two_sides() {
    let letter_box = doubled_box();
    assert_eq!(letter_box.allowed(), &vec!['a', 'b', 'c', 'd', 'e', 'f', 'g', 'h', 'i', 'j']);
    assert!(!letter_box.no_duplicate_letters());
}

#[test]
fn letters_of_one_side_are_on_the_same_side() {
    let letter_box = plain_box();
    assert!(on_same_side(letter_box.sides(), 'a', 'b'));
    assert!(on_same_side(letter_box.sides(), 'k', 'k'));
    assert!(!on_same_side(letter_box.sides(), 'a', 'd'));
    assert!(!on_same_side(letter_box.sides(), 'a', 'z'));
    assert!(!on_same_side(letter_box.sides(), 'z', 'z'));
}

#[test]
fn word_that_changes_side_each_time_is_legal() {
    let letter_box = plain_box();
    assert!(LetterBoxedSolver::is_letter_pattern_in_letter_box(
        letter_box.sides(),
        &"adg".to_string()
    ));
}

#[test]
fn word_that_stays_on_a_side_is_illegal() {
    let letter_box = plain_box();
    assert!(!LetterBoxedSolver::is_letter_pattern_in_letter_box(
        letter_box.sides(),
        &"abd".to_string()
    ));
    assert!(!LetterBoxedSolver::is_letter_pattern_in_letter_box(
        letter_box.sides(),
        &"adgh".to_string()
    ));
}

#[test]
fn short_words_are_legal() {
    let letter_box = plain_box();
    assert!(LetterBoxedSolver::is_letter_pattern_in_letter_box(
        letter_box.sides(),
        &String::new()
    ));
    assert!(LetterBoxedSolver::is_letter_pattern_in_letter_box(
        letter_box.sides(),
        &"a".to_string()
    ));
    assert!(is_legal_word(letter_box.sides(), &vec!['a', 'd']));
    assert!(!is_legal_word(letter_box.sides(), &vec!['a', 'b']));
}

#[test]
fn letters_off_the_box_do_not_share_a_side() {
    let letter_box = plain_box();
    assert!(LetterBoxedSolver::is_letter_pattern_in_letter_box(
        letter_box.sides(),
        &"xyz".to_string()
    ));
}

#[test]
fn repeated_letter_is_refused_before_the_sides_are_looked_at() {
    let letter_box = plain_box();
    assert_eq!(judge(&letter_box, "aab"), Verdict::RepeatedLetter);
    assert_eq!(judge(&letter_box, "ada"), Verdict::RepeatedLetter);
}

#[test]
fn foreign_letter_is_refused() {
    let letter_box = plain_box();
    assert_eq!(judge(&letter_box, "xyz"), Verdict::ForeignLetter);
    assert_eq!(judge(&letter_box, "abx"), Verdict::ForeignLetter);
    assert!(!all_letters_allowed(&letter_box, &vec!['a', 'm']));
    assert!(all_letters_allowed(&letter_box, &vec!['a', 'l']));
}

#[test]
fn length_is_judged_first() {
    let letter_box = plain_box();
    assert_eq!(judge(&letter_box, ""), Verdict::WrongLength);
    assert_eq!(judge(&letter_box, "ad"), Verdict::WrongLength);
    assert_eq!(judge(&letter_box, "xx"), Verdict::WrongLength);
    assert_eq!(judge(&letter_box, "adgjbehkcfila"), Verdict::WrongLength);
    assert_eq!(judge(&letter_box, "adg"), Verdict::Accepted);
    assert_eq!(judge(&letter_box, "adgjbehkcfil"), Verdict::Accepted);
}

#[test]
fn same_side_twice_is_refused_last() {
    let letter_box = plain_box();
    assert_eq!(judge(&letter_box, "abd"), Verdict::SameSideTwice);
    assert_eq!(judge(&letter_box, "adgh"), Verdict::SameSideTwice);
}

#[test]
fn words_are_not_trimmed_or_folded() {
    let letter_box = plain_box();
    assert_eq!(judge(&letter_box, "adg "), Verdict::ForeignLetter);
    assert_eq!(judge(&letter_box, "Adg"), Verdict::ForeignLetter);
}

#[test]
fn repeated_letters_pass_where_the_box_repeats_one() {
    let letter_box = doubled_box();
    assert_eq!(judge(&letter_box, "cac"), Verdict::Accepted);
    assert_eq!(judge(&letter_box, "aia"), Verdict::SameSideTwice);
    assert_eq!(judge(&letter_box, "aca"), Verdict::Accepted);
    assert_eq!(judge(&letter_box, "caa"), Verdict::SameSideTwice);
}
