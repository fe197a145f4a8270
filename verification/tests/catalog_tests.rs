use pglinter::catalog::{RuleCatalog, UpsertOutcome};
use pglinter::rules::Rule;

fn rule(id: i64, code: &str, name: &str, enable: bool, warning: i64, error: i64) -> Rule {
    Rule {
        id,
        code: code.to_string(),
        name: name.to_string(),
        description: format!("description of {code}"),
        scope: "TABLE".to_string(),
        enable,
        warning_level: warning,
        error_level: error,
        message: "{0} of {1}".to_string(),
        fixes: Vec::new(),
        q1: Some("SELECT count(*) FROM t".to_string()),
        q2: None,
        q3: None,
        q4: None,
    }
}

#[test]
fn test_enable_rule_success() {
    let mut c = RuleCatalog::new();
    c.upsert_rule(rule(9001, "TEST001", "Test Rule", false, 20, 80));
    assert!(c.enable_rule("TEST001"));
    assert!(c.is_rule_enabled("TEST001"));
}

#[test]
fn test_enable_rule_not_found() {
    let mut c = RuleCatalog::new();
    assert!(!c.enable_rule("NONEXISTENT"));
}

#[test]
fn test_disable_rule_success() {
    let mut c = RuleCatalog::new();
    c.upsert_rule(rule(9002, "TEST002", "Test Rule 2", true, 20, 80));
    assert!(c.disable_rule("TEST002"));
    assert!(!c.is_rule_enabled("TEST002"));
}

#[test]
fn test_disable_rule_not_found() {
    let mut c = RuleCatalog::new();
    assert!(!c.disable_rule("NONEXISTENT"));
}

#[test]
fn test_is_rule_enabled_not_found_counts_as_disabled() {
    let c = RuleCatalog::new();
    assert!(!c.is_rule_enabled("NONEXISTENT"));
}

#[test]
fn test_rule_toggle_workflow() {
    let mut c = RuleCatalog::new();
    c.upsert_rule(rule(9009, "TEST009", "Test Rule 9", false, 20, 80));
    assert!(!c.is_rule_enabled("TEST009"));
    assert!(c.enable_rule("TEST009"));
    assert!(c.is_rule_enabled("TEST009"));
    assert!(c.disable_rule("TEST009"));
    assert!(!c.is_rule_enabled("TEST009"));
}

#[test]
fn test_list_rules_sorted_by_code() {
    let mut c = RuleCatalog::new();
    c.upsert_rule(rule(2, "T002", "second", false, 20, 80));
    c.upsert_rule(rule(1, "B001", "first", true, 20, 80));
    let listed = c.list_rules();
    assert_eq!(listed.len(), 2);
    assert_eq!(listed[0], ("B001".to_string(), "first".to_string(), true));
    assert_eq!(listed[1], ("T002".to_string(), "second".to_string(), false));
}

#[test]
fn test_enable_all_rules() {
    let mut c = RuleCatalog::new();
    c.upsert_rule(rule(1, "A001", "a", false, 20, 80));
    c.upsert_rule(rule(2, "A002", "b", false, 20, 80));
    c.upsert_rule(rule(3, "A003", "c", true, 20, 80));
    assert_eq!(c.enable_all_rules(), 2);
    assert!(c.is_rule_enabled("A001"));
    assert!(c.is_rule_enabled("A002"));
    assert!(c.is_rule_enabled("A003"));
    // A second pass finds nothing left to enable.
    assert_eq!(c.enable_all_rules(), 0);
}

#[test]
fn test_disable_all_rules() {
    let mut c = RuleCatalog::new();
    c.upsert_rule(rule(1, "A001", "a", true, 20, 80));
    c.upsert_rule(rule(2, "A002", "b", false, 20, 80));
    assert_eq!(c.disable_all_rules(), 1);
    assert!(!c.is_rule_enabled("A001"));
    assert_eq!(c.disable_all_rules(), 0);
}

#[test]
fn test_update_rule_levels() {
    let mut c = RuleCatalog::new();
    c.upsert_rule(rule(9998, "LEVELS", "Levels Rule", true, 5, 10));
    assert_eq!(c.get_rule_levels("LEVELS"), (5, 10));
    assert!(c.update_rule_levels("LEVELS", Some(15), Some(25)));
    assert_eq!(c.get_rule_levels("LEVELS"), (15, 25));
    // A missing value keeps the present one.
    assert!(c.update_rule_levels("LEVELS", Some(50), None));
    assert_eq!(c.get_rule_levels("LEVELS"), (50, 25));
    assert!(c.update_rule_levels("LEVELS", None, Some(75)));
    assert_eq!(c.get_rule_levels("LEVELS"), (50, 75));
    assert!(c.update_rule_levels("LEVELS", None, None));
    assert_eq!(c.get_rule_levels("LEVELS"), (50, 75));
    // Extreme values within the integer columns are accepted.
    assert!(c.update_rule_levels("LEVELS", Some(2147483647), Some(-2147483648)));
    assert_eq!(c.get_rule_levels("LEVELS"), (2147483647, -2147483648));
}

#[test]
fn test_update_rule_levels_not_found() {
    let mut c = RuleCatalog::new();
    assert!(!c.update_rule_levels("NONEXISTENT_RULE", Some(10), Some(20)));
}

#[test]
fn test_get_rule_levels_default_when_missing() {
    let c = RuleCatalog::new();
    assert_eq!(c.get_rule_levels("NONEXISTENT_LEVELS"), (50, 90));
}

#[test]
fn test_get_rule_config() {
    let mut c = RuleCatalog::new();
    c.upsert_rule(rule(7, "CFG001", "cfg", true, 30, 70));
    let (w, e, msg) = c.get_rule_config("CFG001").unwrap();
    assert_eq!((w, e), (30, 70));
    assert_eq!(msg, "{0} of {1}");
    let err = c.get_rule_config("MISSING").unwrap_err();
    assert_eq!(err, "Rule 'MISSING' not found in the rule catalog");
}

#[test]
fn test_upsert_insert_then_update() {
    let mut c = RuleCatalog::new();
    assert_eq!(c.upsert_rule(rule(1, "X001", "first", true, 1, 2)), UpsertOutcome::Added);
    assert_eq!(c.len(), 1);
    let mut changed = rule(1, "X001", "renamed", false, 3, 4);
    changed.description = "new text".to_string();
    assert_eq!(c.upsert_rule(changed), UpsertOutcome::Updated);
    assert_eq!(c.len(), 1);
    let listed = c.list_rules();
    assert_eq!(listed[0], ("X001".to_string(), "renamed".to_string(), false));
    assert_eq!(c.get_rule_levels("X001"), (3, 4));
}

#[test]
fn test_upsert_rejects_duplicate_code() {
    let mut c = RuleCatalog::new();
    c.upsert_rule(rule(1, "X001", "first", true, 1, 2));
    let o = c.upsert_rule(rule(2, "X001", "other id, same code", true, 1, 2));
    assert_eq!(o, UpsertOutcome::RejectedDuplicateCode);
    assert_eq!(c.len(), 1);
}

#[test]
fn test_upsert_rejects_out_of_range_levels() {
    let mut c = RuleCatalog::new();
    let mut r = rule(1, "X001", "first", true, 1, 2);
    r.warning_level = 9999999999999;
    assert_eq!(c.upsert_rule(r), UpsertOutcome::RejectedLevels);
    assert_eq!(c.len(), 0);
}

#[test]
fn test_explain_rule_success() {
    let mut c = RuleCatalog::new();
    c.upsert_rule(rule(9008, "TEST008", "Test Rule 8", true, 20, 80));
    let text = c.explain_rule("TEST008").unwrap();
    assert!(text.contains("TEST008"));
    assert!(text.contains("Test Rule 8"));
    assert!(text.contains("description of TEST008"));
    assert!(text.contains("No specific fixes available."));
}

#[test]
fn test_explain_rule_not_found() {
    let c = RuleCatalog::new();
    let err = c.explain_rule("NONEXISTENT").unwrap_err();
    assert!(err.contains("not found"));
}

#[test]
fn test_explain_rule_with_fixes() {
    let mut c = RuleCatalog::new();
    let mut r = rule(9999, "TEST_FIXES", "Test Rule With Fixes", true, 20, 80);
    r.fixes = vec![
        "Add a primary key to the table".to_string(),
        "Create an index on frequently queried columns".to_string(),
        "Consider partitioning large tables".to_string(),
    ];
    c.upsert_rule(r);
    let text = c.explain_rule("TEST_FIXES").unwrap();
    assert!(text.contains("How to Fix:"));
    assert!(text.contains("   1. Add a primary key to the table"));
    assert!(text.contains("   2. Create an index on frequently queried columns"));
    assert!(text.contains("   3. Consider partitioning large tables"));
}

#[test]
fn test_show_rule_status() {
    let mut c = RuleCatalog::new();
    c.upsert_rule(rule(1, "A001", "alpha", true, 1, 2));
    c.upsert_rule(rule(2, "A002", "beta", false, 1, 2));
    let text = c.show_rule_status();
    assert!(text.contains("A001 ON  alpha"));
    assert!(text.contains("A002 OFF beta"));
    assert!(text.contains("Summary: 1 enabled, 1 disabled"));
}

#[test]
fn test_show_rule_queries() {
    let mut c = RuleCatalog::new();
    let mut r = rule(9995, "SHOWQ", "Show Queries Rule", true, 1, 2);
    r.q1 = Some("SELECT count(*) FROM pg_stat_user_tables".to_string());
    r.q2 = None;
    c.upsert_rule(r);
    let text = c.show_rule_queries("SHOWQ").unwrap();
    assert!(text.contains("q1: SELECT count(*) FROM pg_stat_user_tables"));
    assert!(text.contains("q2: (none)"));
    assert!(c.show_rule_queries("NONEXISTENT_RULE").is_none());
}
