use race_results::{
    MatchError, NicknameIndex, Token, TokenSet, extract_name_to_nicknames_set,
    find_candidate_ids, index_person_list, results_count, tokenize_race_results,
    tokenize_result_line,
};

fn lines(v: &[&str]) -> Vec<String> {
    v.iter().map(|s| s.to_string()).collect()
}

fn token_set(words: &[&str]) -> TokenSet {
    let mut ts = TokenSet::empty();
    for w in words {
        ts.insert(Token::new(w));
    }
    ts
}

#[test]
fn bad_member_data_field_rejected() {
    // a roster field with a non-alphabetic character aborts the pass,
    // naming the canonical form of the offending token
    let e = index_person_list(
        &lines(&["a\tb\tc", "aa\tbb*b\tcc"]),
        &token_set(&[]),
        &token_set(&[]),
        true,
        &NicknameIndex::empty(),
    )
    .unwrap_err();
    match e {
        MatchError::InvalidToken(s) => assert_eq!(s, "BB*B"),
        _ => panic!("expected an invalid-token error"),
    }
}

#[test]
fn bad_member_data_field_count_rejected() {
    // a roster line needs exactly three tab- or comma-separated fields
    let e = index_person_list(
        &lines(&["a\tb\tc", "aa\tbb"]),
        &token_set(&[]),
        &token_set(&[]),
        true,
        &NicknameIndex::empty(),
    )
    .unwrap_err();
    match e {
        MatchError::MalformedRosterLine(l) => assert_eq!(l, "aa\tbb"),
        _ => panic!("expected a malformed-roster-line error"),
    }
    let e = index_person_list(
        &lines(&["a\tb\tc\td"]),
        &token_set(&[]),
        &token_set(&[]),
        true,
        &NicknameIndex::empty(),
    )
    .unwrap_err();
    assert!(matches!(e, MatchError::MalformedRosterLine(_)));
}

#[test]
fn multi_part_names_are_retrieved() {
    // roster "Rob Roy\tSmith\tSeattle" against a line holding all four
    // tokens: the member is a candidate for the line
    let nick = extract_name_to_nicknames_set(&lines(&["Bob/Rob\tRobert"])).unwrap();
    let (persons, index) = index_person_list(
        &lines(&["Rob Roy\tSmith\tSeattle"]),
        &token_set(&[]),
        &token_set(&[]),
        true,
        &nick,
    )
    .unwrap();
    assert_eq!(persons.len(), 1);
    assert_eq!(persons[0].id, 0);
    assert_eq!(persons[0].name_dist_list.len(), 3);
    assert_eq!(persons[0].city_dist_list.len(), 1);

    let line = tokenize_result_line("2120\tRob Roy Smith\tSeattle\tMale\tMale 45-49\t3:52:38");
    let cands = find_candidate_ids(&line, &index);
    assert_eq!(cands, [0]);

    // the nickname ROBERT is indexed for this member too
    let other = tokenize_result_line("Robert finished strong");
    let cands = find_candidate_ids(&other, &index);
    assert_eq!(cands, [0]);

    // a line sharing no token finds nobody
    let unrelated = tokenize_result_line("Mary Jones\tTacoma");
    let cands = find_candidate_ids(&unrelated, &index);
    assert!(cands.is_empty());
}

#[test]
fn stop_worded_member_is_never_retrieved() {
    // a member whose every name token is a stop word, and whose city is a
    // stop word too, is left out of the index entirely
    let (_persons, index) = index_person_list(
        &lines(&["Rob\tSmith\tSeattle"]),
        &token_set(&["ROB", "SMITH"]),
        &token_set(&["SEATTLE"]),
        true,
        &NicknameIndex::empty(),
    )
    .unwrap();
    let line = tokenize_result_line("Rob Smith\tSeattle");
    let cands = find_candidate_ids(&line, &index);
    assert!(cands.is_empty());
}

#[test]
fn name_stop_word_does_not_block_city_role() {
    // a token that is a stop word as a name can still be indexed as a city
    let (_persons, index) = index_person_list(
        &lines(&["Seattle\tSmith\tSeattle"]),
        &token_set(&["SEATTLE", "SMITH"]),
        &token_set(&[]),
        true,
        &NicknameIndex::empty(),
    )
    .unwrap();
    let line = tokenize_result_line("from Seattle");
    let cands = find_candidate_ids(&line, &index);
    assert_eq!(cands, [0]);
}

#[test]
fn city_tokens_ignored_when_city_matching_is_off() {
    let (persons, index) = index_person_list(
        &lines(&["Rob\tSmith\tSeattle"]),
        &token_set(&[]),
        &token_set(&[]),
        false,
        &NicknameIndex::empty(),
    )
    .unwrap();
    assert_eq!(persons[0].city_dist_list.len(), 1);
    assert!(persons[0].city_dist_list[0].main.is_empty());
    let line = tokenize_result_line("Seattle");
    let cands = find_candidate_ids(&line, &index);
    assert!(cands.is_empty());
    let line = tokenize_result_line("Rob");
    let cands = find_candidate_ids(&line, &index);
    assert_eq!(cands, [0]);
}

#[test]
fn missing_name_field_is_allowed() {
    // an empty field gives an empty distribution, not an error
    let (persons, index) = index_person_list(
        &lines(&["Forte,,Lakewood"]),
        &token_set(&[]),
        &token_set(&[]),
        true,
        &NicknameIndex::empty(),
    )
    .unwrap();
    assert_eq!(persons.len(), 1);
    assert_eq!(persons[0].name_dist_list.len(), 2);
    assert!(persons[0].name_dist_list[1].main.is_empty());
    let line = tokenize_result_line("Forte\tLakewood");
    let cands = find_candidate_ids(&line, &index);
    assert_eq!(cands, [0]);
}

#[test]
fn candidates_are_ascending_and_deduplicated() {
    let (_persons, index) = index_person_list(
        &lines(&["Rob\tSmith\tSeattle", "Mary\tSmith\tTacoma", "Rob\tJones\tSeattle"]),
        &token_set(&[]),
        &token_set(&[]),
        true,
        &NicknameIndex::empty(),
    )
    .unwrap();
    let line = tokenize_result_line("Rob Smith of Seattle");
    let cands = find_candidate_ids(&line, &index);
    assert_eq!(cands, [0, 1, 2]);
}

#[test]
fn repeated_token_gives_one_candidate() {
    // a member carrying the same token several times (name and city both
    // "Seattle") is still listed once per retrieval
    let (_persons, index) = index_person_list(
        &lines(&["Seattle Seattle\tSmith\tSeattle"]),
        &token_set(&[]),
        &token_set(&[]),
        true,
        &NicknameIndex::empty(),
    )
    .unwrap();
    let line = tokenize_result_line("Seattle");
    let cands = find_candidate_ids(&line, &index);
    assert_eq!(cands, [0]);
}

#[test]
fn results_count_prefers_the_override() {
    let corpus = tokenize_race_results(&lines(&["a b", "c d", "e f"]));
    assert_eq!(results_count(Some(1081), &corpus), 1081);
    assert_eq!(results_count(None, &corpus), 3);
}
