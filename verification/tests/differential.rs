//! The library against direct uses of std on generated inputs.

use pyrunner::cli::tags_to_vec;
use pyrunner::migrate::unique_non_empty_strings;
use pyrunner::parser::normalize_module_name;
use pyrunner::paths::shorten_hash;
use pyrunner::search::{build_match_query, tokenize};
use pyrunner::text::trimmed;

const PIECES: [&str; 22] = [
    "a", "B", "é", "İ", "Σ", "ς", "_", "-", "\"", " ", "\t", ",", ".", "!", "9", "ß", "\u{3000}",
    "\u{85}", "日本", "x-y", "😀", "\u{0301}",
];

fn inputs() -> Vec<String> {
    let mut state: u64 = 0x9E3779B97F4A7C15;
    let mut out = Vec::new();
    for _ in 0..3000 {
        let mut s = String::new();
        state ^= state << 13;
        state ^= state >> 7;
        state ^= state << 17;
        let len = (state % 16) as usize;
        for _ in 0..len {
            state ^= state << 13;
            state ^= state >> 7;
            state ^= state << 17;
            s.push_str(PIECES[(state % PIECES.len() as u64) as usize]);
        }
        out.push(s);
    }
    out
}

fn std_tokenize(input: &str) -> Vec<String> {
    input
        .split(|ch: char| !ch.is_alphanumeric() && ch != '_' && ch != '-')
        .map(str::trim)
        .filter(|item| !item.is_empty())
        .map(|item| item.to_lowercase())
        .collect()
}

#[test]
fn tokens_and_match_queries_agree_with_std() {
    for s in inputs() {
        assert_eq!(tokenize(&s), std_tokenize(&s), "{s:?}");
        let expected = std_tokenize(&s)
            .into_iter()
            .map(|token| format!("\"{}\"", token.replace('"', "\"\"")))
            .collect::<Vec<_>>()
            .join(" ");
        assert_eq!(build_match_query(&s), expected, "{s:?}");
    }
}

#[test]
fn trimming_tags_and_module_roots_agree_with_std() {
    for s in inputs() {
        assert_eq!(trimmed(&s), s.trim(), "{s:?}");
        let tags: Vec<String> = s
            .split(',')
            .map(str::trim)
            .filter(|v| !v.is_empty())
            .map(ToOwned::to_owned)
            .collect();
        assert_eq!(tags_to_vec(Some(s.clone())), tags, "{s:?}");
        assert_eq!(
            normalize_module_name(&s),
            s.trim().split('.').next().unwrap_or_default(),
            "{s:?}"
        );
        assert_eq!(shorten_hash(&s), s.get(..12).unwrap_or(&s), "{s:?}");
    }
}

#[test]
fn unique_strings_agree_with_a_direct_scan() {
    let all = inputs();
    for window in all.chunks(5) {
        let values: Vec<String> = window.to_vec();
        let mut expected: Vec<String> = Vec::new();
        for v in &values {
            let t = v.trim();
            if !t.is_empty() && !expected.iter().any(|e| e == t) {
                expected.push(t.to_string());
            }
        }
        assert_eq!(unique_non_empty_strings(values), expected);
    }
}
