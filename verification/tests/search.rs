use lbsolver::chain::{chain_has_letter, count_missing};
use lbsolver::solver::max_solutions;
use lbsolver::{BucketQueue, LetterBoxedSolver, State};

fn strings(words: &[&str]) -> Vec<String> {
    words.iter().map(|word| word.to_string()).collect()
}

fn plain_sides() -> [String; 4] {
    ["abc".to_string(), "def".to_string(), "ghi".to_string(), "jkl".to_string()]
}

fn solver(lines: &[&str]) -> LetterBoxedSolver {
    LetterBoxedSolver::new(&plain_sides(), &strings(lines)).unwrap()
}

#[test]
fn queue_gives_the_least_key_first() {
    let mut queue: BucketQueue<&str> = BucketQueue::new();
    assert!(queue.is_empty());
    queue.push(5, "five");
    queue.push(2, "two");
    queue.push(9, "nine");
    assert!(!queue.is_empty());
    assert_eq!(queue.pop(), Some("two"));
    assert_eq!(queue.pop(), Some("five"));
    assert_eq!(queue.pop(), Some("nine"));
    assert_eq!(queue.pop(), None);
    assert!(queue.is_empty());
}

#[test]
fn queue_gives_the_newest_of_equal_keys_first() {
    let mut queue: BucketQueue<u32> = BucketQueue::new();
    queue.push(3, 1);
    queue.push(3, 2);
    queue.push(0, 3);
    queue.push(3, 4);
    assert_eq!(queue.pop(), Some(3));
    assert_eq!(queue.pop(), Some(4));
    queue.push(3, 5);
    queue.push(4, 6);
    assert_eq!(queue.pop(), Some(5));
    assert_eq!(queue.pop(), Some(2));
    assert_eq!(queue.pop(), Some(1));
    assert_eq!(queue.pop(), Some(6));
    assert_eq!(queue.pop(), None);
}

#[test]
fn state_is_keyed_by_cost_plus_heuristic() {
    let state = State { chain: strings(&["adg"]), last_char: 'g', cost: 1, heuristic: 9 };
    assert_eq!(state.priority(), 10);
}

#[test]
fn stopping_policy_by_depth() {
    assert_eq!(max_solutions(1), 4);
    assert_eq!(max_solutions(2), 4);
    assert_eq!(max_solutions(3), 4);
    assert_eq!(max_solutions(4), 1);
    assert_eq!(max_solutions(6), 1);
}

#[test]
fn heuristic_counts_the_missing_letters() {
    let solver = solver(&["adg"]);
    let allowed = solver.letter_box().allowed().clone();
    assert_eq!(solver.heuristic(&Vec::new(), &allowed), 12);
    assert_eq!(solver.heuristic(&strings(&["adg"]), &allowed), 9);
    assert_eq!(solver.heuristic(&strings(&["adg", "gjb"]), &allowed), 7);
    assert_eq!(solver.heuristic(&strings(&["adgjbeh", "hkcfil"]), &allowed), 0);
    assert_eq!(solver.heuristic(&strings(&["xyz"]), &allowed), 12);
}

#[test]
fn heuristic_counts_each_letter_once() {
    let solver = solver(&[]);
    assert_eq!(solver.heuristic(&strings(&["b"]), &vec!['a', 'b', 'a', 'c', 'c']), 2);
    assert_eq!(count_missing(&strings(&["ab", "c"]), &vec!['a', 'b', 'a', 'c', 'c']), 0);
    assert_eq!(count_missing(&strings(&["ab"]), &Vec::new()), 0);
}

#[test]
fn chain_letters_are_found_in_any_word() {
    let chain = strings(&["adg", "gjb"]);
    assert!(chain_has_letter(&chain, 'a'));
    assert!(chain_has_letter(&chain, 'b'));
    assert!(!chain_has_letter(&chain, 'c'));
    assert!(!chain_has_letter(&Vec::new(), 'a'));
}

#[test]
fn one_word_alone_finds_nothing() {
    let solver = solver(&["adg"]);
    assert_eq!(solver.a_star(&Vec::new()), Some(Vec::new()));
    assert_eq!(solver.run_solver(&Vec::new()), Ok(Vec::new()));
}

// The chain of two words is met twice at depth two: once when it comes back
// from the first depth, and once more when its first word is expanded again.
#[test]
fn chain_of_two_words_is_found_at_depth_two() {
    let solver = solver(&["adgjbeh", "hkcfil"]);
    let chain = strings(&["adgjbeh", "hkcfil"]);
    assert_eq!(solver.run_solver(&Vec::new()), Ok(vec![chain.clone(), chain]));
}

#[test]
fn chain_of_two_words_among_other_words() {
    let solver = solver(&["adg", "adgjbeh", "beh", "hkcfil", "lkj"]);
    let found = solver.run_solver(&Vec::new()).unwrap();
    assert!(!found.is_empty());
    for chain in found {
        assert_eq!(chain, strings(&["adgjbeh", "hkcfil"]));
    }
}

#[test]
fn ignored_word_is_not_used() {
    let solver = solver(&["adgjbeh", "hkcfil"]);
    assert_eq!(solver.run_solver(&strings(&["hkcfil"])), Ok(Vec::new()));
    assert_eq!(solver.run_solver(&strings(&["adgjbeh"])), Ok(Vec::new()));
    assert_eq!(solver.run_solver(&strings(&["unrelated"])).unwrap().len(), 2);
}

#[test]
fn search_stops_at_four_solutions_of_one_word() {
    let solver = solver(&[
        "adgjbehkcfil",
        "behkcfiladgj",
        "cfiladgjbehk",
        "adgjbehkcfli",
        "adgjbehkcifl",
    ]);
    assert_eq!(
        solver.run_solver(&Vec::new()),
        Ok(vec![
            strings(&["adgjbehkcifl"]),
            strings(&["adgjbehkcfli"]),
            strings(&["cfiladgjbehk"]),
            strings(&["behkcfiladgj"]),
        ])
    );
}

#[test]
fn fewer_than_four_solutions_are_all_returned() {
    let solver = solver(&["adgjbehkcfil", "adg", "behkcfiladgj"]);
    assert_eq!(
        solver.run_solver(&Vec::new()),
        Ok(vec![strings(&["behkcfiladgj"]), strings(&["adgjbehkcfil"])])
    );
}

#[test]
fn chain_of_four_words_is_returned_alone() {
    let solver = solver(&["adg", "gjb", "beh", "hkcfil"]);
    assert_eq!(
        solver.run_solver(&Vec::new()),
        Ok(vec![strings(&["adg", "gjb", "beh", "hkcfil"])])
    );
}

#[test]
fn word_is_not_used_twice_in_a_chain() {
    // On this box "aca" is usable and leads back to itself.
    let sides = ["aab".to_string(), "cde".to_string(), "fgh".to_string(), "ija".to_string()];
    let solver = LetterBoxedSolver::new(&sides, &strings(&["aca"])).unwrap();
    assert_eq!(solver.dictionary(), &strings(&["aca"]));
    assert_eq!(solver.run_solver(&Vec::new()), Ok(Vec::new()));
}

#[test]
fn chain_of_six_words_is_found() {
    let solver = solver(&["adg", "gbe", "ehc", "cfi", "ija", "akb", "bla"]);
    assert_eq!(
        solver.run_solver(&Vec::new()),
        Ok(vec![strings(&["ehc", "cfi", "ija", "akb", "bla", "adg"])])
    );
}

#[test]
fn chains_longer_than_six_words_are_not_looked_for() {
    // Each word holds a letter that no other word holds, so that a chain
    // needs all seven: adg, gbe, eha, aie, eja, akf, flc.
    let solver = solver(&["adg", "gbe", "eha", "aie", "eja", "akf", "flc"]);
    assert_eq!(solver.run_solver(&Vec::new()), Ok(Vec::new()));
}

#[test]
fn solutions_link_cover_and_do_not_repeat() {
    let solver = solver(&["adg", "gjb", "beh", "hkcfil", "adgjbeh", "gjbehkcfil", "lkj"]);
    let ignored = strings(&["adgjbeh"]);
    let found = solver.run_solver(&ignored).unwrap();
    assert_eq!(found, vec![strings(&["adg", "gjbehkcfil"]), strings(&["adg", "gjbehkcfil"])]);
    let allowed = solver.letter_box().allowed().clone();
    for chain in &found {
        assert_eq!(solver.heuristic(chain, &allowed), 0);
        for pair in chain.windows(2) {
            assert_eq!(pair[0].chars().last(), pair[1].chars().next());
        }
        for (i, word) in chain.iter().enumerate() {
            assert!(!ignored.contains(word));
            assert!(solver.dictionary().contains(word));
            assert!(!chain[..i].contains(word));
        }
    }
}
