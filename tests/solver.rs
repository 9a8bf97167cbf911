use hangman::dictionary::Dictionary;
use hangman::pattern::{PatternError, Puzzle};
use hangman::solver::{Solver, Step};

#[test]
fn solve_to_the_end() {
    let d = Dictionary::load(&vec!["test".to_string(), "tent".to_string(), "exam".to_string(), "cat".to_string()]).unwrap();
    let w = Puzzle::parse("4").unwrap().words[0].clone();
    let mut s = Solver::new(w, &d);
    assert_eq!(s.candidates.len(), 3);
    assert_eq!(s.next(), Step::Suggest('t', 4));
    s.apply('t', &vec![0, 3]).unwrap();
    assert_eq!(s.word.display(), "t__t");
    assert_eq!(s.candidates.len(), 2);
    assert_eq!(s.next(), Step::Suggest('e', 2));
    s.apply('e', &vec![1]).unwrap();
    assert_eq!(s.next(), Step::Suggest('n', 1));
    s.apply('n', &vec![]).unwrap();
    assert_eq!(s.candidates.len(), 1);
    assert_eq!(s.next(), Step::Suggest('s', 1));
    s.apply('s', &vec![2]).unwrap();
    assert_eq!(s.word.display(), "test");
    assert_eq!(s.next(), Step::Solved);
}

#[test]
fn solver_exhausted_when_nothing_left() {
    let d = Dictionary::load(&vec!["ab".to_string()]).unwrap();
    let w = Puzzle::parse("2").unwrap().words[0].clone();
    let mut s = Solver::new(w, &d);
    s.apply('a', &vec![]).unwrap();
    assert_eq!(s.candidates.len(), 0);
    assert_eq!(s.next(), Step::Exhausted);
}

#[test]
fn solver_refused_reveal_changes_nothing() {
    let d = Dictionary::load(&vec!["a-b".to_string()]).unwrap();
    let w = Puzzle::parse("1-1").unwrap().words[0].clone();
    let mut s = Solver::new(w, &d);
    assert_eq!(s.apply('a', &vec![1]), Err(PatternError::ImmutablePosition(1)));
    assert_eq!(s.word.display(), "_-_");
    assert!(s.attempted.is_empty());
    assert_eq!(s.candidates.len(), 1);
}
