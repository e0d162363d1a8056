use race_results::{MatchError, Token};

#[test]
fn canonical_uppercases() {
    let t = Token::new("rOb");
    assert_eq!(t.as_str(), "ROB");
}

#[test]
fn canonical_strips_dots_and_apostrophes() {
    let t = Token::new_or_error("O'Brien.").unwrap();
    assert_eq!(t.as_str(), "OBRIEN");
}

#[test]
fn canonical_rejects_non_alphabetic() {
    let e = Token::new_or_error("bb*b").unwrap_err();
    match e {
        MatchError::InvalidToken(s) => assert_eq!(s, "BB*B"),
        _ => panic!("expected an invalid-token error"),
    }
}

#[test]
fn canonical_rejects_empty_after_stripping() {
    let e = Token::new_or_error(".").unwrap_err();
    match e {
        MatchError::InvalidToken(s) => assert_eq!(s, ""),
        _ => panic!("expected an invalid-token error"),
    }
    let e = Token::new_or_error("").unwrap_err();
    assert!(matches!(e, MatchError::InvalidToken(_)));
}

#[test]
fn canonical_rejects_digits() {
    assert!(Token::new_or_error("2120").is_err());
    assert!(Token::new_or_error("45-49").is_err());
    assert!(Token::new_or_error("3:52:38").is_err());
}

#[test]
fn to_canonical_returns_the_canonical_string() {
    assert_eq!(Token::to_canonical("Robert").unwrap(), "ROBERT");
    assert_eq!(Token::to_canonical("John's.").unwrap(), "JOHNS");
    // a space survives stripping and is not alphabetic
    assert!(Token::to_canonical("st john").is_err());
}

#[test]
fn invalid_token_message_names_the_canonical_form() {
    let e = Token::new_or_error("bb*b").unwrap_err();
    assert_eq!(
        e.message(),
        "String must be alphabetic with (ignored . and ') and then not empty, not \"BB*B\"."
    );
}

#[test]
fn malformed_roster_line_message_names_the_line() {
    let e = MatchError::MalformedRosterLine("aa\tbb".to_string());
    assert_eq!(
        e.message(),
        "Line should be First,Last,City separated by tab or comma, not 'aa\tbb'"
    );
}

#[test]
fn token_equality_is_by_canonical_text() {
    let a = Token::new("Bob");
    let b = Token::new("BOB.");
    assert!(a.eq_token(&b));
    let c = Token::new("Rob");
    assert!(!a.eq_token(&c));
    assert_eq!(a.duplicate().as_str(), "BOB");
}
