//! The parser against the regular expressions it implements, on generated
//! scripts.

use pyrunner::parser::PythonParser;
use regex::Regex;
use std::collections::BTreeSet;

fn function_regex() -> Regex {
    Regex::new(r"(?m)^(?:async\s+)?def\s+(\w+)\s*\(([^)]*)\)(?:\s*->\s*([^:]+))?").unwrap()
}

fn expected_functions(regex: &Regex, script: &str) -> Vec<(String, String)> {
    regex
        .captures_iter(script)
        .map(|c| {
            let name = c[1].to_string();
            let params = c.get(2).map(|v| v.as_str()).unwrap_or("");
            let sig = match c.get(3).map(|v| v.as_str().trim()) {
                Some(r) => format!("{name}({params}) -> {r}"),
                None => format!("{name}({params})"),
            };
            (name, sig)
        })
        .collect()
}

fn import_regexes() -> (Regex, Regex) {
    (
        Regex::new(r"^import\s+(.+)$").unwrap(),
        Regex::new(r"^from\s+([A-Za-z_][\w\.]*)\s+import\b").unwrap(),
    )
}

fn expected_dependencies(regexes: &(Regex, Regex), script: &str) -> Vec<String> {
    let (import_regex, from_regex) = regexes;
    let norm = |m: &str| m.trim().split('.').next().unwrap_or_default().to_string();
    let mut deps = BTreeSet::new();
    for line in script.lines() {
        let trimmed = line.trim_start();
        if let Some(c) = from_regex.captures(trimmed) {
            deps.insert(norm(&c[1]));
            continue;
        }
        if let Some(c) = import_regex.captures(trimmed) {
            for module in c[1].split(',') {
                let n = module.split_whitespace().next().map(norm).unwrap_or_default();
                if !n.is_empty() {
                    deps.insert(n);
                }
            }
        }
    }
    deps.into_iter().collect()
}

const PIECES: [&str; 30] = [
    "def", "async", " ", "\t", "\n", "\r\n", "(", ")", "->", ":", "f", "_x1", "é", "from", "import",
    "os", ".", ",", "a.b", "as", "importx", "  ", "=", "#", "-", ">", "\u{3000}", "ß", "9", "sys",
];

fn scripts() -> Vec<String> {
    // a small deterministic generator
    let mut state: u64 = 0x2545F4914F6CDD1D;
    let mut out = Vec::new();
    for _ in 0..4000 {
        let mut s = String::new();
        state ^= state << 13;
        state ^= state >> 7;
        state ^= state << 17;
        let len = (state % 24) as usize;
        for _ in 0..len {
            state ^= state << 13;
            state ^= state >> 7;
            state ^= state << 17;
            s.push_str(PIECES[(state % PIECES.len() as u64) as usize]);
        }
        out.push(s);
    }
    out.push("def hello(name: str) -> str:\n    return name\n".to_string());
    out.push("import os, sys as system\nfrom package.submodule import thing\n    import json\n".to_string());
    out
}

#[test]
fn functions_agree_with_the_pattern() {
    let regex = function_regex();
    for script in scripts() {
        let got: Vec<(String, String)> = PythonParser::parse_functions(&script)
            .unwrap()
            .into_iter()
            .map(|f| (f.name, f.signature.unwrap()))
            .collect();
        assert_eq!(got, expected_functions(&regex, &script), "script {script:?}");
    }
}

#[test]
fn dependencies_agree_with_the_patterns() {
    let regexes = import_regexes();
    for script in scripts() {
        let got = PythonParser::parse_dependencies(&script).unwrap();
        assert_eq!(got, expected_dependencies(&regexes, &script), "script {script:?}");
    }
}

#[test]
fn dependency_names_are_clean_roots() {
    for script in scripts() {
        for dep in PythonParser::parse_dependencies(&script).unwrap() {
            assert!(!dep.is_empty(), "script {script:?}");
            assert!(!dep.contains('.'), "script {script:?}");
            assert!(!dep.contains(','), "script {script:?}");
            assert!(!dep.contains(char::is_whitespace), "script {script:?}");
        }
    }
}
