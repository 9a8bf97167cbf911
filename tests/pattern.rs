use hangman::pattern::{Fragment, PatternError, Puzzle, Word};

#[test]
fn parse_runs_and_punctuation() {
    let p = Puzzle::parse("2-7'1").unwrap();
    assert_eq!(p.words.len(), 1);
    let mut expected = vec![Fragment::Letter(None); 2];
    expected.push(Fragment::Punctuation('-'));
    expected.extend(vec![Fragment::Letter(None); 7]);
    expected.push(Fragment::Punctuation('\''));
    expected.push(Fragment::Letter(None));
    assert_eq!(p.words[0].fragments, expected);
}

#[test]
fn parse_four_unknown() {
    let p = Puzzle::parse("4").unwrap();
    assert_eq!(p.len(), 1);
    assert_eq!(p.words[0].fragments, vec![Fragment::Letter(None); 4]);
}

#[test]
fn parse_separator_splits_words() {
    let p = Puzzle::parse("3/12").unwrap();
    assert_eq!(p.len(), 2);
    assert_eq!(p.words[0].len(), 3);
    assert_eq!(p.words[1].len(), 3);
}

#[test]
fn parse_empty_is_one_empty_word() {
    let p = Puzzle::parse("").unwrap();
    assert_eq!(p.len(), 1);
    assert_eq!(p.words[0].len(), 0);
}

#[test]
fn parse_rejects_first_bad_character() {
    assert_eq!(Puzzle::parse("2a-x").unwrap_err(), PatternError::InvalidFormat(1, 'a'));
    assert_eq!(Puzzle::parse("4 ").unwrap_err(), PatternError::InvalidFormat(1, ' '));
}

#[test]
fn reveal_renders_and_matches() {
    let mut w = Word::unknown(4);
    assert_eq!(w.display(), "____");
    assert_eq!(w.reveal_at('t', &vec![0, 3]), Ok(()));
    assert_eq!(w.display(), "t__t");
    assert!(w.matches_str("test"));
    assert!(!w.matches_str("naur"));
    assert!(!w.matches_str("max"));
    assert!(!w.matches_str("tests"));
}

#[test]
fn reveal_punctuation_is_refused() {
    let mut w = Puzzle::parse("2-2").unwrap().words[0].clone();
    let before = w.fragments.clone();
    assert_eq!(w.reveal_at('a', &vec![0, 2]), Err(PatternError::ImmutablePosition(2)));
    assert_eq!(w.fragments, before);
    assert_eq!(w.display(), "__-__");
}

#[test]
fn reveal_conflict_is_refused() {
    let mut w = Word::unknown(3);
    w.reveal_at('a', &vec![1]).unwrap();
    assert_eq!(w.reveal_at('a', &vec![1]), Ok(()));
    assert_eq!(w.reveal_at('b', &vec![0, 1]), Err(PatternError::ConflictingReveal(1)));
    assert_eq!(w.display(), "_a_");
}

#[test]
fn reveal_out_of_range_is_refused() {
    let mut w = Word::unknown(3);
    assert_eq!(w.reveal_at('a', &vec![3]), Err(PatternError::PositionOutOfRange(3)));
    assert_eq!(w.display(), "___");
}

#[test]
fn unknown_slot_needs_alphanumeric() {
    let w = Word::unknown(2);
    assert!(w.matches_str("a1"));
    assert!(w.matches_str("éz"));
    assert!(!w.matches_str("a-"));
    let p = Puzzle::parse("1-1").unwrap();
    assert!(p.words[0].matches_str("a-b"));
    assert!(!p.words[0].matches_str("a'b"));
}

#[test]
fn solved_and_placed() {
    let mut w = Word::unknown(2);
    assert!(!w.is_solved());
    w.reveal_at('o', &vec![0]).unwrap();
    assert!(w.is_placed('o'));
    assert!(!w.is_placed('k'));
    w.reveal_at('k', &vec![1]).unwrap();
    assert!(w.is_solved());
    assert!(Puzzle::parse("-").unwrap().words[0].is_solved());
}
