use lbsolver::dictionary::{accepted_words, build_dictionary, sort_longest_first};
use lbsolver::index::StartIndex;
use lbsolver::{ErrorKind, LetterBox, LetterBoxedSolver, LetterGroup};

fn strings(words: &[&str]) -> Vec<String> {
    words.iter().map(|word| word.to_string()).collect()
}

fn plain_sides() -> [String; 4] {
    ["abc".to_string(), "def".to_string(), "ghi".to_string(), "jkl".to_string()]
}

fn plain_box() -> LetterBox {
    LetterBox::new(
        LetterGroup::new("abc").unwrap(),
        LetterGroup::new("def").unwrap(),
        LetterGroup::new("ghi").unwrap(),
        LetterGroup::new("jkl").unwrap(),
    )
}

#[test]
fn accepted_words_keep_their_order() {
    let lines = strings(&["beh", "zzz", "adg", "ab", "abd", "aab", "adgj", "beh"]);
    assert_eq!(accepted_words(&plain_box(), &lines), strings(&["beh", "adg", "adgj", "beh"]));
}

#[test]
fn longest_words_come_first_and_ties_keep_their_order() {
    let words = strings(&["adg", "adgj", "beh", "adgjb", "behk", "cfi"]);
    assert_eq!(
        sort_longest_first(&words),
        strings(&["adgjb", "adgj", "behk", "adg", "beh", "cfi"])
    );
}

#[test]
fn sorting_nothing_gives_nothing() {
    assert_eq!(sort_longest_first(&Vec::new()), Vec::<String>::new());
}

#[test]
fn dictionary_is_filtered_then_sorted() {
    let lines = strings(&["adg", "nope", "adgjbehkcfil", "beh", "adgj", "abd", "cfil"]);
    assert_eq!(
        build_dictionary(&plain_box(), &lines),
        strings(&["adgjbehkcfil", "adgj", "cfil", "adg", "beh"])
    );
}

#[test]
fn index_files_words_under_their_first_letter() {
    let dictionary = strings(&["adgjb", "adgj", "behk", "adg", "beh"]);
    let index = StartIndex::build(&dictionary);
    assert_eq!(index.get('a'), Some(&strings(&["adgjb", "adgj", "adg"])));
    assert_eq!(index.get('b'), Some(&strings(&["behk", "beh"])));
    assert_eq!(index.get('c'), None);
}

#[test]
fn index_of_nothing_is_empty() {
    let index = StartIndex::build(&Vec::new());
    assert_eq!(index.get('a'), None);
}

#[test]
fn solver_with_one_word() {
    let solver = LetterBoxedSolver::new(&plain_sides(), &strings(&["adg"])).unwrap();
    assert_eq!(solver.dictionary(), &strings(&["adg"]));
    assert_eq!(solver.words_starting_with('a'), Some(&strings(&["adg"])));
    assert_eq!(solver.words_starting_with('d'), None);
    assert_eq!(solver.words_starting_with('g'), None);
    assert_eq!(solver.heuristic(&strings(&["adg"]), solver.letter_box().allowed()), 9);
}

#[test]
fn solver_builds_dictionary_and_index() {
    let lines = strings(&["adg", "adgj", "beh", "zebra", "adgjb", "behk"]);
    let solver = LetterBoxedSolver::new(&plain_sides(), &lines).unwrap();
    assert_eq!(solver.dictionary(), &strings(&["adgjb", "adgj", "behk", "adg", "beh"]));
    assert_eq!(solver.words_starting_with('a'), Some(&strings(&["adgjb", "adgj", "adg"])));
    assert_eq!(solver.words_starting_with('b'), Some(&strings(&["behk", "beh"])));
    assert_eq!(solver.words_starting_with('z'), None);
}

#[test]
fn solver_with_no_usable_word_is_not_an_error() {
    let solver = LetterBoxedSolver::new(&plain_sides(), &strings(&["zzz", "ab"])).unwrap();
    assert!(solver.dictionary().is_empty());
    assert_eq!(solver.run_solver(&Vec::new()), Ok(Vec::new()));
}

#[test]
fn solver_refuses_a_side_of_wrong_length() {
    let lines = strings(&["adg"]);
    for at in 0..4 {
        for bad in ["", "ab", "abcd"] {
            let mut sides = plain_sides();
            sides[at] = bad.to_string();
            assert!(matches!(
                LetterBoxedSolver::new(&sides, &lines),
                Err(ErrorKind::InvalidGroupLength)
            ));
        }
    }
}
