use pyrunner::parser::{normalize_module_name, PythonParser};

#[test]
fn parses_regular_and_async_functions() {
    let script = "def hello(name: str) -> str:\n    return name\n\nasync def fetch(url):\n    return url\n";
    let functions = PythonParser::parse_functions(script).expect("parse functions");

    assert_eq!(functions.len(), 2);
    assert_eq!(functions[0].name, "hello");
    assert_eq!(
        functions[0].signature.as_ref().expect("signature"),
        "hello(name: str) -> str"
    );
    assert_eq!(functions[1].name, "fetch");
    assert_eq!(
        functions[1].signature.as_ref().expect("signature"),
        "fetch(url)"
    );
}

#[test]
fn parses_and_deduplicates_dependencies() {
    let script = "import json\nfrom pathlib import Path\nimport json\n";
    let dependencies = PythonParser::parse_dependencies(script).expect("parse deps");

    assert_eq!(
        dependencies,
        vec!["json".to_string(), "pathlib".to_string()]
    );
}

#[test]
fn parses_common_import_variants() {
    let script =
        "import os, sys as system\nfrom package.submodule import thing\n    import json\n";
    let dependencies = PythonParser::parse_dependencies(script).expect("parse deps");

    assert_eq!(
        dependencies,
        vec![
            "json".to_string(),
            "os".to_string(),
            "package".to_string(),
            "sys".to_string()
        ]
    );
}

#[test]
fn function_headers_need_a_line_start() {
    let functions = PythonParser::parse_functions("x = 1; def inner(a): pass\n").expect("parse");
    assert!(functions.is_empty());
}

#[test]
fn return_annotation_runs_to_the_colon_across_lines() {
    let script = "def a() -> x\ndef b():\n    pass\n";
    let functions = PythonParser::parse_functions(script).expect("parse");
    assert_eq!(functions.len(), 1);
    assert_eq!(functions[0].signature.as_deref(), Some("a() -> x\ndef b()"));
}

#[test]
fn empty_annotation_is_not_a_return_type() {
    let functions = PythonParser::parse_functions("def f(a, b)->:\n").expect("parse");
    assert_eq!(functions.len(), 1);
    assert_eq!(functions[0].signature.as_deref(), Some("f(a, b)"));
    assert!(functions[0].description.is_none());
}

#[test]
fn async_needs_white_space_before_def() {
    let functions = PythonParser::parse_functions("asyncdef f():\n").expect("parse");
    assert!(functions.is_empty());
    let functions = PythonParser::parse_functions("async   def  g  (x)\n").expect("parse");
    assert_eq!(functions.len(), 1);
    assert_eq!(functions[0].signature.as_deref(), Some("g(x)"));
}

#[test]
fn unclosed_parameter_list_is_skipped() {
    let functions = PythonParser::parse_functions("def broken(a, b\n").expect("parse");
    assert!(functions.is_empty());
}

#[test]
fn from_import_needs_a_word_boundary() {
    let deps = PythonParser::parse_dependencies("from os importx y\nfrom a.b import c\r\n")
        .expect("parse");
    assert_eq!(deps, vec!["a".to_string()]);
}

#[test]
fn import_without_modules_adds_nothing() {
    let deps = PythonParser::parse_dependencies("import \nimport\n").expect("parse");
    assert!(deps.is_empty());
}

#[test]
fn module_root_is_the_trimmed_text_before_the_first_dot() {
    assert_eq!(normalize_module_name("  xml.etree.ElementTree "), "xml");
    assert_eq!(normalize_module_name(""), "");
    assert_eq!(normalize_module_name(".hidden"), "");
}
