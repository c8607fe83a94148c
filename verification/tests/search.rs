use pyrunner::search::{build_match_query, placeholders, tokenize};

#[test]
fn tokenize_and_build_match_query_lowercase_words() {
    assert_eq!(
        tokenize("Hello, JSON-demo_world!"),
        vec!["hello".to_string(), "json-demo_world".to_string()]
    );
    assert_eq!(build_match_query("Hello, JSON"), "\"hello\" \"json\"");
}

#[test]
fn build_match_query_quotes_hyphenated_terms() {
    assert_eq!(build_match_query("json-demo"), "\"json-demo\"");
}

#[test]
fn empty_query_gives_empty_match_expression() {
    assert_eq!(build_match_query("  ,;  "), "");
    assert!(tokenize("").is_empty());
}

#[test]
fn placeholders_are_comma_separated() {
    assert_eq!(placeholders(0), "");
    assert_eq!(placeholders(1), "?");
    assert_eq!(placeholders(3), "?, ?, ?");
}

use pyrunner::search::overlap_fraction;

#[test]
fn overlap_score_measures_query_term_matches() {
    let query_terms = vec!["demo".to_string(), "json".to_string(), "run".to_string()];
    let (matched, total) = overlap_fraction(
        &query_terms,
        &vec!["demo".to_string(), "json tool".to_string()],
    );
    let score = matched as f64 / total as f64;

    assert!((score - 0.6666666).abs() < 0.01);
}

#[test]
fn overlap_counts_distinct_query_terms() {
    let q = vec!["demo".to_string(), "demo".to_string()];
    assert_eq!(overlap_fraction(&q, &vec!["Demo!".to_string()]), (1, 1));
    assert_eq!(overlap_fraction(&q, &vec![]), (0, 1));
    assert_eq!(overlap_fraction(&vec![], &vec!["demo".to_string()]), (0, 0));
}

use pyrunner::search::{lower_each, token_pieces};

#[test]
fn token_pieces_keep_their_case_until_lowered() {
    let pieces = token_pieces("Ünïcode-Words, CSV_files");
    assert_eq!(pieces, vec!["Ünïcode-Words".to_string(), "CSV_files".to_string()]);
    assert_eq!(lower_each(&pieces), vec!["ünïcode-words".to_string(), "csv_files".to_string()]);
}

#[test]
fn token_pieces_are_non_empty_without_white_space_or_quotes() {
    for input in ["  a\u{3000}b\"c d-e_f ", "\"\"", "", "x\u{85}y", "ÄÖ ü"] {
        for piece in token_pieces(input) {
            assert!(!piece.is_empty());
            assert!(!piece.contains(char::is_whitespace));
            assert!(!piece.contains('"'));
        }
    }
}
