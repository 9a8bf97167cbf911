use hangman::dictionary::{Dictionary, DictionaryError};
use hangman::pattern::{Puzzle, Word};

#[test]
fn load_lowercases_and_keeps_first() {
    let d = Dictionary::load(&vec!["TeSt".to_string(), "exam".to_string(), "test".to_string()]).unwrap();
    assert_eq!(d.len(), 2);
    assert!(d.contains_str("test"));
    assert!(d.contains_str("exam"));
    assert!(!d.contains_str("TeSt"));
}

#[test]
fn load_accepts_punctuation_set() {
    let d = Dictionary::load(&vec!["rock'n-roll&co,.!".to_string(), "ÄRGER".to_string()]).unwrap();
    assert!(d.contains_str("rock'n-roll&co,.!"));
    assert!(d.contains_str("ärger"));
}

#[test]
fn load_rejects_bad_character() {
    let e = Dictionary::load(&vec!["fine".to_string(), "no way".to_string(), "x?".to_string()]).unwrap_err();
    assert_eq!(e, DictionaryError::InvalidCharacter { line: 1, position: 2, found: ' ' });
}

#[test]
fn filter_matching_keeps_consistent_words() {
    let d = Dictionary::load(&vec!["test".to_string(), "exam".to_string(), "toast".to_string(), "tent".to_string()]).unwrap();
    let mut w = Word::unknown(4);
    w.reveal_at('t', &vec![0, 3]).unwrap();
    let f = d.filter_matching(&w);
    assert_eq!(f.len(), 2);
    assert!(f.contains_str("test"));
    assert!(f.contains_str("tent"));
    let g = f.filter_matching(&w);
    assert_eq!(g.words, f.words);
    assert_eq!(d.len(), 4);
}

#[test]
fn initial_candidates_and_ranking() {
    let d = Dictionary::load(&vec!["test".to_string()]).unwrap();
    let w = Puzzle::parse("4").unwrap().words[0].clone();
    let f = d.filter_matching(&w);
    assert_eq!(f.len(), 1);
    assert!(f.contains_str("test"));
    let ranked = f.rank_letters(&vec![]);
    assert_eq!(ranked, vec![('t', 2), ('e', 1), ('s', 1)]);
}

#[test]
fn remove_containing_total_miss() {
    let mut d = Dictionary::load(&vec!["test".to_string(), "exam".to_string()]).unwrap();
    d.remove_containing('x');
    assert_eq!(d.len(), 1);
    assert!(d.contains_str("test"));
    let once = d.words.clone();
    d.remove_containing('x');
    assert_eq!(d.words, once);
}

#[test]
fn count_letters_sums_over_words() {
    let d = Dictionary::load(&vec!["test".to_string(), "set".to_string()]).unwrap();
    assert!(d.counts_fit());
    let c = d.count_letters();
    assert_eq!(c, vec![('t', 3), ('e', 2), ('s', 2)]);
    assert_eq!(Dictionary::new().count_letters(), vec![]);
}

#[test]
fn rank_letters_order_and_exclusion() {
    let d = Dictionary::load(&vec!["ab".to_string(), "ba".to_string(), "cab".to_string()]).unwrap();
    let r = d.rank_letters(&vec![]);
    assert_eq!(r, vec![('a', 3), ('b', 3), ('c', 1)]);
    let r = d.rank_letters(&vec!['a']);
    assert_eq!(r, vec![('b', 3), ('c', 1)]);
    for pair in r.windows(2) {
        assert!(pair[0].1 >= pair[1].1);
    }
    assert!(r.iter().all(|(_, n)| *n > 0));
}

#[test]
fn store_round_trip() {
    let d = Dictionary::load(&vec!["test".to_string(), "l'eau".to_string(), "x-ray".to_string()]).unwrap();
    let text = d.encode();
    assert_eq!(text, "test\nl'eau\nx-ray\n");
    let back = Dictionary::decode(&text).unwrap();
    assert_eq!(back.words, d.words);
    assert_eq!(back.count_letters(), d.count_letters());
}

#[test]
fn store_rejects_malformed() {
    assert!(Dictionary::decode("test\nexam").is_err());
    assert!(Dictionary::decode("te st\n").is_err());
    assert_eq!(Dictionary::decode("").unwrap().len(), 0);
    let d = Dictionary::decode("a\nb\na\n").unwrap();
    assert_eq!(d.len(), 2);
}
