//! Probabilistic matching of free-text race-result lines against a club
//! roster: token canonicalization, nickname-aware token distributions,
//! an inverted index for candidate retrieval, and the corpus statistics
//! that drive stop-word selection.
//!
//! The floating-point evidence combination (log-odds scoring) is the
//! caller's concern; this crate provides the exactly specified string,
//! set and index machinery underneath it.

mod seps;
mod error;
mod token;
mod split;
mod tokenmap;
mod tokenize;
mod nickname;
mod dist;
mod index;

pub use seps::{SepKind, is_comma_or_tab, is_slash_or_ampersand, is_whitespace_or_dash,
    is_any_separator, comma_or_tab, slash_or_ampersand, whitespace_or_dash, any_separator,
    white_space, sep_spec};
pub use error::{MatchError, message_spec};
pub use token::{Token, upper_of, canon_of, strip_marks, keeps_char, is_ascii_alpha, all_alpha,
    valid_canon};
pub use split::{split_by, split_rec, split_fragments};
pub use tokenmap::{TokenMap, assoc_map, uniq_keys, lemma_assoc_contains, lemma_assoc_index};
pub use tokenize::{TokenSet, has_view, line_tokens, prefix_line_tokens, tokenize_result_line,
    tokenize_race_results, token_set_views, occ_count, count_result_tokens, lemma_occ_zero,
    lemma_occ_bound, lemma_occ_step};
pub use nickname::{NicknameIndex, nick_has, side_has, nick_line_wf, line_links, lines_link,
    tokens_wf, adds_edge, adds_sym_edge, adds_key, adds_keys2, keys_live, pair_link,
    index_matches, nick_err_at, extract_name_to_nicknames_set, lemma_nickname_symmetry};
pub use dist::{Dist, main_of, nicks_of, seg_ok, seg_err, dist_matches, split_token, phrase_segs,
    phrase_ok, dists_match, phrase_err_at, extract_dist_list};
pub use index::{Person, TokenToPersonList, dist_tokens, has_person, indexes_add, insert_into_map,
    index_keys_live, adds_index_key, roster_fields, name_phrase, city_phrase, roster_line_ok,
    person_matches, roster_err_at, index_complete, index_person_list, strictly_sorted,
    find_candidate_ids, results_count, lemma_unshared_member_not_candidate,
    lemma_stop_word_not_indexed, lemma_candidate_iff_shared_token};
