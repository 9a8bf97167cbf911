use hangman::feedback::{parse_feedback, FeedbackError};

#[test]
fn feedback_with_positions() {
    assert_eq!(parse_feedback("t,(0,3)"), Ok(('t', vec![0, 3])));
    assert_eq!(parse_feedback("e,(12)"), Ok(('e', vec![12])));
}

#[test]
fn feedback_miss() {
    assert_eq!(parse_feedback("x,()"), Ok(('x', vec![])));
}

#[test]
fn feedback_malformed() {
    assert_eq!(parse_feedback("t,(0,)"), Err(FeedbackError::Malformed));
    assert_eq!(parse_feedback("t,(a)"), Err(FeedbackError::Malformed));
    assert_eq!(parse_feedback("t (0)"), Err(FeedbackError::Malformed));
    assert_eq!(parse_feedback("t,(0"), Err(FeedbackError::Malformed));
    assert_eq!(parse_feedback(""), Err(FeedbackError::Malformed));
    assert_eq!(parse_feedback("t,(,1)"), Err(FeedbackError::Malformed));
    assert_eq!(parse_feedback("t,(99999999999999999999999)"), Err(FeedbackError::Malformed));
}

#[test]
fn feedback_letter_must_be_alphanumeric() {
    assert_eq!(parse_feedback("(,(1)"), Err(FeedbackError::Malformed));
    assert_eq!(parse_feedback("-,()"), Err(FeedbackError::Malformed));
    assert_eq!(parse_feedback("é,(1)"), Ok(('é', vec![1])));
    assert_eq!(parse_feedback("7,(007)"), Ok(('7', vec![7])));
}
