use pyrunner::listing::{group_by_script, newest_scripts};
use pyrunner::models::ScriptInfo;
use pyrunner::resolve::{AliasResolver, Resolution};

/// Drives the resolver against in-memory tables.
fn resolve(ids: &[&str], aliases: &[(&str, &str)], start: &str) -> Option<String> {
    let mut r = AliasResolver::new(start);
    loop {
        let id = match r.next_lookup() {
            Some(id) => id,
            None => return None,
        };
        let direct = ids.iter().find(|x| **x == id).map(|x| x.to_string());
        let alias = if direct.is_none() {
            aliases.iter().find(|(a, _)| *a == id).map(|(_, s)| s.to_string())
        } else {
            None
        };
        match r.on_lookup(direct, alias) {
            Resolution::Found(f) => return Some(f),
            Resolution::Missing => return None,
            Resolution::Continue => {}
        }
    }
}

#[test]
fn alias_resolution_follows_multiple_hops() {
    let found = resolve(&["new-id"], &[("old-id", "mid-id"), ("mid-id", "new-id")], "old-id");
    assert_eq!(found.as_deref(), Some("new-id"));
}

#[test]
fn alias_cycles_and_unknown_ids_resolve_to_nothing() {
    assert_eq!(resolve(&[], &[("a", "b"), ("b", "a")], "a"), None);
    assert_eq!(resolve(&["x"], &[], "y"), None);
    assert_eq!(resolve(&["x"], &[], "x").as_deref(), Some("x"));
}

fn info(id: &str) -> ScriptInfo {
    ScriptInfo { script_id: id.to_string(), path: format!("/{id}"), description: None, tags: vec![] }
}

#[test]
fn list_tag_filter_applies_before_limit() {
    let rows = vec![
        (info("s1"), "2026-01-01".to_string()),
        (info("s3"), "2026-03-01".to_string()),
        (info("s1"), "2026-09-01".to_string()),
        (info("s2"), "2026-02-01".to_string()),
    ];
    let out = newest_scripts(rows, 2);
    let ids: Vec<&str> = out.iter().map(|(i, _)| i.script_id.as_str()).collect();
    assert_eq!(ids, vec!["s3", "s2"]);
    let all = newest_scripts(vec![(info("a"), "1".to_string()), (info("b"), "2".to_string())], 10);
    assert_eq!(all.len(), 2);
    assert_eq!(all[0].0.script_id, "b");
    assert!(newest_scripts(vec![(info("a"), "1".to_string())], 0).is_empty());
}

#[test]
fn rows_are_grouped_by_script_in_order() {
    let rows = vec![
        ("a".to_string(), "x".to_string()),
        ("b".to_string(), "y".to_string()),
        ("a".to_string(), "z".to_string()),
    ];
    let groups = group_by_script(&rows);
    assert_eq!(groups.len(), 2);
    assert_eq!(groups[0].0, "a");
    assert_eq!(groups[0].1, vec!["x".to_string(), "z".to_string()]);
    assert_eq!(groups[1].0, "b");
    assert_eq!(groups[1].1, vec!["y".to_string()]);
}
