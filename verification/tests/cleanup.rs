use pyrunner::cleanup::{
    classify_candidate, cleanup_cutoff, effective_older_than, find_candidates, CleanupRow, Moment,
};

fn row(id: &str, uses: i64, created: &str, used: Option<&str>) -> CleanupRow {
    CleanupRow {
        script_id: id.to_string(),
        path: format!("/tmp/{id}.py"),
        use_count: uses,
        created_at: created.to_string(),
        last_used: used.map(|u| u.to_string()),
    }
}

// 2026-03-11T00:00:00Z
const NOW: Moment = Moment { secs: 1773187200, nanos: 0 };

#[test]
fn clean_finds_unused_and_old_scripts() {
    let rows = vec![row("demo_1", 0, "2020-01-01T00:00:00+00:00", None)];
    let candidates = find_candidates(rows, NOW, Some(30), true);
    assert_eq!(candidates.len(), 1);
    assert_eq!(candidates[0].reasons, vec!["older-than-30-days".to_string(), "unused".to_string()]);
    assert!(candidates[0].reasons.iter().any(|item| item == "unused"));
}

#[test]
fn clean_respects_last_used_when_present() {
    let rows = vec![row("demo_2", 5, "2020-01-01T00:00:00+00:00", Some("2026-03-10T00:00:00+00:00"))];
    let candidates = find_candidates(rows, NOW, Some(30), false);
    assert!(candidates.is_empty());
}

#[test]
fn unparsable_times_are_never_too_old() {
    let rows = vec![row("x", 3, "not a time", None)];
    assert!(find_candidates(rows, NOW, Some(30), false).is_empty());
}

#[test]
fn age_limit_defaults_to_the_configured_maximum() {
    assert_eq!(effective_older_than(None, false, 90), Some(90));
    assert_eq!(effective_older_than(None, true, 90), None);
    assert_eq!(effective_older_than(Some(7), false, 90), Some(7));
}

#[test]
fn classification_compares_to_the_nanosecond() {
    let c = classify_candidate(
        row("a", 1, "t", None),
        Some(Moment { secs: 10, nanos: 5 }),
        Some(Moment { secs: 10, nanos: 6 }),
        Some(1),
        false,
    )
    .expect("older than cutoff");
    assert_eq!(c.reasons, vec!["older-than-1-days".to_string()]);
    assert!(classify_candidate(row("a", 1, "t", None), Some(Moment { secs: 10, nanos: 6 }), Some(Moment { secs: 10, nanos: 6 }), Some(1), false).is_none());
}

#[test]
fn cutoff_is_whole_days_before_now() {
    let now = Moment { secs: 1773187200, nanos: 7 };
    let c = cleanup_cutoff(now, Some(30)).expect("an age limit gives a cutoff");
    assert_eq!((c.secs, c.nanos), (1773187200 - 30 * 86400, 7));
    assert!(cleanup_cutoff(now, None).is_none());
}

#[test]
fn scripts_used_just_inside_the_limit_stay() {
    // last used 29 days before now, created long ago
    let rows = vec![
        row("kept", 2, "2020-01-01T00:00:00+00:00", Some("2026-02-10T00:00:00+00:00")),
        row("gone", 2, "2020-01-01T00:00:00+00:00", Some("2026-02-08T00:00:00+00:00")),
    ];
    let candidates = find_candidates(rows, NOW, Some(30), false);
    assert_eq!(candidates.len(), 1);
    assert_eq!(candidates[0].script_id, "gone");
}
