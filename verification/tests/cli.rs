use pyrunner::cli::{require_found, script_infos_lines, tags_to_vec};
use pyrunner::models::ScriptInfo;

#[test]
fn tags_are_trimmed_and_blank_ones_dropped() {
    assert_eq!(
        tags_to_vec(Some(" demo, ,new ,,".to_string())),
        vec!["demo".to_string(), "new".to_string()]
    );
    assert!(tags_to_vec(None).is_empty());
    assert!(tags_to_vec(Some(String::new())).is_empty());
}

#[test]
fn missing_resource_reports_its_name_and_id() {
    let missing: Option<u8> = None;
    assert_eq!(
        require_found(missing, "script", "does-not-exist").unwrap_err(),
        "script not found: does-not-exist"
    );
    assert_eq!(require_found(Some(3u8), "script", "x").unwrap(), 3);
}

use pyrunner::cli::{delete_confirmation, tag_filter};

#[test]
fn listing_filters_only_by_named_tags() {
    assert!(tag_filter(None).is_none());
    assert!(tag_filter(Some(" , ".to_string())).is_none());
    assert_eq!(tag_filter(Some("a,b".to_string())), Some(vec!["a".to_string(), "b".to_string()]));
}

#[test]
fn deletion_needs_confirmation() {
    assert_eq!(delete_confirmation(false).unwrap_err(), "refusing delete without --yes");
    assert!(delete_confirmation(true).is_ok());
}

#[test]
fn listing_lines_number_entries_and_show_optional_fields() {
    assert_eq!(script_infos_lines(&[]), vec!["no scripts".to_string()]);
    let items = vec![
        ScriptInfo {
            script_id: "a_1".to_string(),
            path: "/c/a.py".to_string(),
            description: Some("first".to_string()),
            tags: vec!["x".to_string(), "y".to_string()],
        },
        ScriptInfo { script_id: "b_2".to_string(), path: "/c/b.py".to_string(), description: None, tags: vec![] },
    ];
    assert_eq!(
        script_infos_lines(&items),
        vec![
            "1. a_1".to_string(),
            "   path: /c/a.py".to_string(),
            "   desc: first".to_string(),
            "   tags: x, y".to_string(),
            "2. b_2".to_string(),
            "   path: /c/b.py".to_string(),
        ]
    );
}
