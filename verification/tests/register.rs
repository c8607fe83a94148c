use pyrunner::models::{Function, RegisterResponse, ScriptRegistration};
use pyrunner::hash::sha256_string;
use pyrunner::register::{
    build_search_text, plan_registration, rebuild_search_text, scripts_to_evict,
    select_script_source, update_description, ScriptSource,
};

#[test]
fn build_search_text_concatenates_indexable_fields() {
    let text = build_search_text(
        "demo script",
        &vec!["demo".to_string(), "json".to_string()],
        &vec!["run_demo".to_string()],
        &vec!["run_demo(arg: str)".to_string()],
        &vec!["json".to_string()],
        &vec!["legacy term".to_string()],
    );

    assert!(text.contains("demo script"));
    assert!(text.contains("demo json"));
    assert!(text.contains("run_demo"));
    assert!(text.contains("legacy term"));
}

#[test]
fn search_text_is_trimmed_and_space_joined() {
    let empty: Vec<String> = Vec::new();
    assert_eq!(build_search_text("", &empty, &empty, &empty, &empty, &empty), "");
    let text = build_search_text(
        "",
        &vec!["a".to_string(), "b".to_string()],
        &empty,
        &empty,
        &vec!["json".to_string()],
        &empty,
    );
    assert_eq!(text, "a b   json");
}

#[test]
fn rebuilt_search_text_skips_missing_signatures() {
    let functions = vec![
        Function { name: "f".to_string(), signature: Some("f(x)".to_string()), description: None },
        Function { name: "g".to_string(), signature: None, description: None },
    ];
    let text = rebuild_search_text("desc", &vec!["t".to_string()], &functions, &vec![], &vec![]);
    assert_eq!(text, "desc t f g f(x)");
}

#[test]
fn registration_plan_parses_and_indexes_the_script() {
    let content = "import json\ndef run(a) -> int:\n    return 1\n";
    let plan = plan_registration(
        content,
        "  ".to_string(),
        &vec!["demo".to_string()],
        "/tmp/cache",
        1773230401,
    );
    let hash = sha256_string(content);
    assert_eq!(plan.hash, hash);
    assert_eq!(plan.script_id, format!("{}_1773230401", &hash[..12]));
    assert_eq!(plan.path, format!("/tmp/cache/scripts/2026-03/{}_1773230401.py", &hash[..12]));
    assert!(plan.description.is_none());
    assert_eq!(plan.functions.len(), 1);
    assert_eq!(plan.dependencies, vec!["json".to_string()]);
    assert_eq!(plan.search_text, "demo run run(a) -> int json");
}

#[test]
fn registration_keeps_a_non_blank_description_as_given() {
    let plan = plan_registration("", " my desc ".to_string(), &vec![], "/c", 1);
    assert_eq!(plan.description.as_deref(), Some(" my desc "));
    assert_eq!(plan.search_text, "my desc");
    // the SHA-256 digest of no bytes
    assert_eq!(plan.path, "/c/scripts/1970-01/e3b0c44298fc_1.py");
    assert!(plan.path.starts_with('/'));
}

#[test]
fn update_trims_clears_or_keeps_the_description() {
    assert_eq!(update_description(Some("  new ".to_string()), Some("old".to_string())).as_deref(), Some("new"));
    assert_eq!(update_description(Some("   ".to_string()), Some("old".to_string())), None);
    assert_eq!(update_description(None, Some("old".to_string())).as_deref(), Some("old"));
}

#[test]
fn script_source_must_be_exactly_one() {
    assert!(matches!(select_script_source(Some("a.py".to_string()), false, None), Ok(ScriptSource::File(p)) if p == "a.py"));
    assert!(matches!(select_script_source(None, true, None), Ok(ScriptSource::Stdin)));
    assert!(matches!(select_script_source(None, false, Some("x".to_string())), Ok(ScriptSource::Text(t)) if t == "x"));
    assert_eq!(
        select_script_source(None, false, None).err().unwrap(),
        "one of --script-file, --stdin, or --script-text is required"
    );
    assert_eq!(
        select_script_source(Some("a".to_string()), true, None).err().unwrap(),
        "script source options are mutually exclusive"
    );
}

#[test]
fn eviction_respects_the_limit() {
    assert_eq!(scripts_to_evict(3, 2), 1);
    assert_eq!(scripts_to_evict(2, 2), 0);
    assert_eq!(scripts_to_evict(10, 0), 0);
}

#[test]
fn register_response_copies_the_registration() {
    let r = RegisterResponse::from(ScriptRegistration { script_id: "id".to_string(), path: "/p".to_string() });
    assert_eq!(r.script_id, "id");
    assert_eq!(r.path, "/p");
}

#[test]
fn search_text_keeps_every_trimmed_value_and_is_empty_when_all_are_blank() {
    let text = rebuild_search_text(
        " new desc ",
        &vec!["beta".to_string()],
        &[],
        &vec!["json".to_string()],
        &vec![" alpha phrase ".to_string()],
    );
    assert_eq!(text, "new desc  beta   json  alpha phrase");
    for part in ["new desc", "beta", "json", "alpha phrase"] {
        assert!(text.contains(part));
    }
    assert_eq!(build_search_text("  ", &vec![" ".to_string()], &[], &[], &[], &vec!["\t".to_string()]), "");
}
