use pyrunner::migrate::{merged_search_text, plan_hash_merge, unique_non_empty_strings, StoredCopy};

fn copy(id: &str, desc: Option<&str>, interp: Option<&str>, created: &str, used: Option<&str>, uses: i64) -> StoredCopy {
    StoredCopy {
        id: id.to_string(),
        description: desc.map(|d| d.to_string()),
        interpreter: interp.map(|i| i.to_string()),
        created_at: created.to_string(),
        last_used: used.map(|u| u.to_string()),
        use_count: uses,
    }
}

#[test]
fn unique_strings_are_trimmed_and_first_kept() {
    let v = vec![" a ".to_string(), "".to_string(), "b".to_string(), "a".to_string(), "  ".to_string()];
    assert_eq!(unique_non_empty_strings(v), vec!["a".to_string(), "b".to_string()]);
}

#[test]
fn merge_keeps_the_preferred_copy_and_combines_metadata() {
    // in preference order: most recently used first
    let copies = vec![
        copy("new", Some("new desc"), None, "2024-02-01T00:00:00+00:00", Some("2024-03-01T00:00:00+00:00"), 4),
        copy("old", None, Some("python3"), "2024-01-01T00:00:00+00:00", None, 1),
    ];
    let plan = plan_hash_merge(&copies).expect("two copies merge");
    assert_eq!(plan.survivor_id, "new");
    assert_eq!(plan.duplicate_ids, vec!["old".to_string()]);
    assert_eq!(plan.description.as_deref(), Some("new desc"));
    assert_eq!(plan.interpreter.as_deref(), Some("python3"));
    assert_eq!(plan.created_at, "2024-01-01T00:00:00+00:00");
    assert_eq!(plan.last_used.as_deref(), Some("2024-03-01T00:00:00+00:00"));
    assert_eq!(plan.use_count, 5);
    assert!(plan.extra_terms.is_empty());
}

#[test]
fn merge_keeps_other_descriptions_as_search_terms() {
    let copies = vec![
        copy("a", Some("alpha phrase"), None, "2024-03-01", None, 0),
        copy("b", Some("gamma phrase"), None, "2024-01-01", Some("2024-02-01"), 0),
        copy("c", Some("alpha phrase"), None, "2024-05-01", Some("2024-01-01"), 2),
    ];
    let plan = plan_hash_merge(&copies).expect("merge");
    assert_eq!(plan.descriptions, vec!["alpha phrase".to_string(), "gamma phrase".to_string()]);
    // equal lengths: the last one wins
    assert_eq!(plan.description.as_deref(), Some("gamma phrase"));
    assert_eq!(plan.extra_terms, vec!["alpha phrase".to_string()]);
    assert_eq!(plan.created_at, "2024-01-01");
    assert_eq!(plan.last_used.as_deref(), Some("2024-02-01"));
    assert_eq!(plan.duplicate_ids, vec!["b".to_string(), "c".to_string()]);
}

#[test]
fn a_single_copy_needs_no_merge() {
    assert!(plan_hash_merge(&vec![copy("a", None, None, "t", None, 0)]).is_none());
    assert!(plan_hash_merge(&vec![]).is_none());
}

#[test]
fn merged_search_text_leads_with_all_descriptions() {
    let text = merged_search_text(
        &vec!["new desc".to_string(), "old".to_string()],
        &vec!["alpha".to_string(), "beta".to_string()],
        &vec!["do_work".to_string()],
        &vec!["do_work(x)".to_string()],
        &vec!["json".to_string()],
        &vec![],
    );
    assert_eq!(text, "new desc old alpha beta do_work do_work(x) json");
}
