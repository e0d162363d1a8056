use race_results::{
    MatchError, Token, TokenSet, count_result_tokens, extract_name_to_nicknames_set, split_token,
    extract_dist_list, tokenize_race_results, tokenize_result_line, NicknameIndex,
};

fn lines(v: &[&str]) -> Vec<String> {
    v.iter().map(|s| s.to_string()).collect()
}

fn has(ts: &TokenSet, s: &str) -> bool {
    ts.contains(&Token::new(s))
}

#[test]
fn result_line_tokenization_keeps_alphabetic_words() {
    let ts = tokenize_result_line("2120\tRob Roy Smith\tSeattle\tMale\tMale 45-49\t3:52:38");
    assert!(has(&ts, "ROB"));
    assert!(has(&ts, "ROY"));
    assert!(has(&ts, "SMITH"));
    assert!(has(&ts, "SEATTLE"));
    assert!(has(&ts, "MALE"));
    // digits and times are dropped, and MALE appears only once
    assert_eq!(ts.tokens.len(), 5);
}

#[test]
fn result_line_tokenization_splits_on_every_separator() {
    let ts = tokenize_result_line("a,b\tc/d&e-f g");
    for w in ["A", "B", "C", "D", "E", "F", "G"] {
        assert!(has(&ts, w));
    }
    assert_eq!(ts.tokens.len(), 7);
}

#[test]
fn tokenize_race_results_is_per_line() {
    let r = tokenize_race_results(&lines(&["Rob Smith", "Mary Jones"]));
    assert_eq!(r.len(), 2);
    assert!(has(&r[0], "ROB"));
    assert!(!has(&r[0], "MARY"));
    assert!(has(&r[1], "JONES"));
}

#[test]
fn count_result_tokens_counts_lines_not_occurrences() {
    let corpus = tokenize_race_results(&lines(&[
        "rob smith",
        "rob rob jones",
        "mary jones",
    ]));
    let counts = count_result_tokens(&corpus);
    assert_eq!(counts.get(&Token::new("ROB")), Some(&2usize));
    assert_eq!(counts.get(&Token::new("SMITH")), Some(&1usize));
    assert_eq!(counts.get(&Token::new("JONES")), Some(&2usize));
    assert_eq!(counts.get(&Token::new("MARY")), Some(&1usize));
    assert_eq!(counts.get(&Token::new("ABSENT")), None);
}

#[test]
fn nickname_table_is_symmetric() {
    let ix = extract_name_to_nicknames_set(&lines(&["Bob/Rob\tRobert"])).unwrap();
    let of = |name: &str| -> Vec<String> {
        match ix.nicknames_of(&Token::new(name)) {
            Some(v) => v.iter().map(|t| t.as_str().to_string()).collect(),
            None => Vec::new(),
        }
    };
    assert!(of("ROBERT").contains(&"BOB".to_string()));
    assert!(of("ROBERT").contains(&"ROB".to_string()));
    assert!(of("BOB").contains(&"ROBERT".to_string()));
    assert!(of("ROB").contains(&"ROBERT".to_string()));
    // the two left alternatives are not aliases of each other
    assert!(!of("BOB").contains(&"ROB".to_string()));
    assert!(of("UNSEEN").is_empty());
}

#[test]
fn nickname_line_needs_two_sides() {
    let e = extract_name_to_nicknames_set(&lines(&["Bob"])).unwrap_err();
    match e {
        MatchError::MalformedNicknameLine(l) => assert_eq!(l, "Bob"),
        _ => panic!("expected a malformed-nickname-line error"),
    }
    let e = extract_name_to_nicknames_set(&lines(&["Bob\tRobert\tExtra"])).unwrap_err();
    assert!(matches!(e, MatchError::MalformedNicknameLine(_)));
}

#[test]
fn nickname_entries_must_be_alphabetic() {
    let e = extract_name_to_nicknames_set(&lines(&["Bob*\tRobert"])).unwrap_err();
    match e {
        MatchError::InvalidToken(s) => assert_eq!(s, "BOB*"),
        _ => panic!("expected an invalid-token error"),
    }
}

#[test]
fn split_token_collects_alternatives_and_nicknames() {
    let nick = extract_name_to_nicknames_set(&lines(&["Bob/Rob\tRobert"])).unwrap();
    let d = split_token("Robert", &nick).unwrap();
    let mains: Vec<&str> = d.main.iter().map(|t| t.as_str()).collect();
    let nicks: Vec<&str> = d.nicknames.iter().map(|t| t.as_str()).collect();
    assert_eq!(mains, ["ROBERT"]);
    assert_eq!(nicks.len(), 2);
    assert!(nicks.contains(&"BOB"));
    assert!(nicks.contains(&"ROB"));
}

#[test]
fn split_token_does_not_repeat_main_tokens_as_nicknames() {
    let nick = extract_name_to_nicknames_set(&lines(&["Bob/Rob\tRobert"])).unwrap();
    let d = split_token("Robert/Bob", &nick).unwrap();
    let mains: Vec<&str> = d.main.iter().map(|t| t.as_str()).collect();
    let nicks: Vec<&str> = d.nicknames.iter().map(|t| t.as_str()).collect();
    assert_eq!(mains.len(), 2);
    assert!(mains.contains(&"ROBERT"));
    assert!(mains.contains(&"BOB"));
    assert_eq!(nicks, ["ROB"]);
}

#[test]
fn split_token_of_empty_segment_is_empty() {
    let nick = NicknameIndex::empty();
    let d = split_token("", &nick).unwrap();
    assert!(d.main.is_empty());
    assert!(d.nicknames.is_empty());
}

#[test]
fn split_token_rejects_bad_fragment() {
    let nick = NicknameIndex::empty();
    let e = split_token("bb*b", &nick).unwrap_err();
    match e {
        MatchError::InvalidToken(s) => assert_eq!(s, "BB*B"),
        _ => panic!("expected an invalid-token error"),
    }
}

#[test]
fn extract_dist_list_splits_phrases_into_segments() {
    let nick = NicknameIndex::empty();
    let ds = extract_dist_list("Lake Forest Park", &nick).unwrap();
    assert_eq!(ds.len(), 3);
    assert_eq!(ds[0].main[0].as_str(), "LAKE");
    assert_eq!(ds[1].main[0].as_str(), "FOREST");
    assert_eq!(ds[2].main[0].as_str(), "PARK");
    let ds = extract_dist_list("Jaime Herrera-Beutler", &nick).unwrap();
    assert_eq!(ds.len(), 3);
}
