use pglinter::catalog::RuleCatalog;
use pglinter::executor::{
    evaluate_listing_rule, evaluate_ratio_rule, execute_rules, execute_table_rules,
    get_rule_parameters, has_bind_placeholder, rules_to_run, QueryOutcome,
};
use pglinter::rules::Rule;

fn rule(id: i64, code: &str, scope: &str, enable: bool, q1: Option<&str>, q2: Option<&str>) -> Rule {
    Rule {
        id,
        code: code.to_string(),
        name: format!("rule {code}"),
        description: String::new(),
        scope: scope.to_string(),
        enable,
        warning_level: 10,
        error_level: 50,
        message: "{0} of {1} at {3}% ({2})".to_string(),
        fixes: Vec::new(),
        q1: q1.map(|s| s.to_string()),
        q2: q2.map(|s| s.to_string()),
        q3: None,
        q4: None,
    }
}

#[test]
fn ratio_zero_total_yields_no_finding() {
    // total == 0 means "not applicable", whatever the thresholds say.
    let r = evaluate_ratio_rule("T001", "{0}/{1}", 0, 0, Some(0), Some(5));
    assert!(r.is_none());
    let r = evaluate_ratio_rule("T001", "{0}/{1}", -100, -100, None, Some(5));
    assert!(r.is_none());
}

#[test]
fn ratio_percentage_truncates() {
    // total=3, violations=1 => 33%, below a warning threshold of 34.
    let r = evaluate_ratio_rule("T001", "{3}", 34, 90, Some(3), Some(1));
    assert!(r.is_none());
    // ... and at a warning threshold of 33 it triggers with exactly "33".
    let r = evaluate_ratio_rule("T001", "{3}", 33, 90, Some(3), Some(1)).unwrap();
    assert_eq!(r.message, "33");
}

#[test]
fn ratio_scenario_warning_then_error() {
    // total=10, violations=2, warning=10, error=50 => 20% => warning.
    let r = evaluate_ratio_rule("T001", "{0} of {1} ({3}%)", 10, 50, Some(10), Some(2)).unwrap();
    assert_eq!(r.level, "warning");
    assert_eq!(r.count, Some(2));
    assert_eq!(r.message, "2 of 10 (20%)");
    // Same rule with violations=6 => 60% => error.
    let r = evaluate_ratio_rule("T001", "{0} of {1} ({3}%)", 10, 50, Some(10), Some(6)).unwrap();
    assert_eq!(r.level, "error");
    assert_eq!(r.count, Some(6));
    assert_eq!(r.message, "6 of 10 (60%)");
}

#[test]
fn ratio_substitutes_severity_label() {
    let r = evaluate_ratio_rule("B001", "{2}", 10, 50, Some(10), Some(6)).unwrap();
    assert_eq!(r.message, "error");
}

#[test]
fn ratio_missing_scalars_default_to_zero() {
    // A null violation count counts as zero: 0% stays below thresholds.
    let r = evaluate_ratio_rule("T001", "{0}", 10, 50, Some(10), None);
    assert!(r.is_none());
}

#[test]
fn listing_no_rows_no_finding() {
    let rows: Vec<Option<String>> = Vec::new();
    assert!(evaluate_listing_rule("TABLE", "T002", "tables without index", &rows).is_none());
}

#[test]
fn listing_rows_yield_one_warning_with_row_count() {
    let rows = vec![Some("a.t1".to_string()), Some("a.t2".to_string()), Some("a.t3".to_string())];
    let r = evaluate_listing_rule("TABLE", "T002", "tables without index", &rows).unwrap();
    assert_eq!(r.level, "warning");
    assert_eq!(r.count, Some(3));
    assert_eq!(r.ruleid, "T002");
    assert_eq!(r.message, "TABLE tables without index 3 : \na.t1\na.t2\na.t3 \n");
}

#[test]
fn listing_null_row_falls_back_to_index_label() {
    let rows = vec![Some("x".to_string()), None];
    let r = evaluate_listing_rule("SCHEMA", "S001", "schemas", &rows).unwrap();
    assert_eq!(r.message, "SCHEMA schemas 2 : \nx\nrow 2 \n");
}

#[test]
fn bind_parameters_convert_megabytes_for_size_rule() {
    // The cross-schema size rule binds its warning level as bytes.
    assert_eq!(get_rule_parameters("T006", 2, 80), vec![2 * 1024 * 1024]);
    // Every other rule binds the warning level as it stands.
    assert_eq!(get_rule_parameters("T005", 10000, 0), vec![10000]);
}

#[test]
fn bind_placeholder_detection() {
    assert!(has_bind_placeholder("SELECT x FROM t WHERE y > $1"));
    assert!(!has_bind_placeholder("SELECT x FROM t"));
}

#[test]
fn rules_to_run_filters_and_sorts() {
    let mut c = RuleCatalog::new();
    c.upsert_rule(rule(3, "T003", "TABLE", true, Some("q"), None));
    c.upsert_rule(rule(1, "T001", "TABLE", true, Some("q"), Some("q2")));
    c.upsert_rule(rule(2, "T002", "TABLE", false, Some("q"), None));
    c.upsert_rule(rule(4, "S001", "SCHEMA", true, Some("q"), None));
    c.upsert_rule(rule(5, "T005", "TABLE", true, None, None));
    let run = rules_to_run(&c, "TABLE");
    let codes: Vec<&str> = run.iter().map(|d| d.code.as_str()).collect();
    // Only enabled TABLE rules with a primary query, in code order.
    assert_eq!(codes, vec!["T001", "T003"]);
    assert!(run[0].q2.is_some());
    assert!(run[1].q2.is_none());
}

#[test]
fn execute_rules_pairs_rules_with_outcomes() {
    let mut c = RuleCatalog::new();
    c.upsert_rule(rule(1, "T001", "TABLE", true, Some("q1"), Some("q2")));
    c.upsert_rule(rule(2, "T002", "TABLE", true, Some("q1"), None));
    let outcomes = vec![
        QueryOutcome::Ratio { total: Some(10), violations: Some(6) },
        QueryOutcome::Listing { rows: vec![Some("a.t".to_string())] },
    ];
    let findings = execute_rules(&c, "TABLE", &outcomes).unwrap();
    assert_eq!(findings.len(), 2);
    assert_eq!(findings[0].ruleid, "T001");
    assert_eq!(findings[0].level, "error");
    assert_eq!(findings[1].ruleid, "T002");
    assert_eq!(findings[1].level, "warning");
}

#[test]
fn execute_rules_skips_quiet_rules() {
    let mut c = RuleCatalog::new();
    c.upsert_rule(rule(1, "T001", "TABLE", true, Some("q1"), Some("q2")));
    let outcomes = vec![QueryOutcome::Ratio { total: Some(100), violations: Some(1) }];
    let findings = execute_rules(&c, "TABLE", &outcomes).unwrap();
    assert!(findings.is_empty());
}

#[test]
fn execute_rules_rejects_outcome_count_mismatch() {
    let mut c = RuleCatalog::new();
    c.upsert_rule(rule(1, "T001", "TABLE", true, Some("q1"), None));
    let outcomes: Vec<QueryOutcome> = Vec::new();
    let e = execute_rules(&c, "TABLE", &outcomes).unwrap_err();
    assert_eq!(e, "expected one query outcome per enabled rule");
}

#[test]
fn execute_rules_tags_failed_query_with_rule_code() {
    let mut c = RuleCatalog::new();
    c.upsert_rule(rule(1, "T001", "TABLE", true, Some("q1"), None));
    let outcomes = vec![QueryOutcome::Failed { error: "relation vanished".to_string() }];
    let e = execute_rules(&c, "TABLE", &outcomes).unwrap_err();
    assert_eq!(e, "Failed to execute rule T001: relation vanished");
}

#[test]
fn execute_rules_rejects_mode_mismatch() {
    let mut c = RuleCatalog::new();
    c.upsert_rule(rule(1, "T001", "TABLE", true, Some("q1"), Some("q2")));
    let outcomes = vec![QueryOutcome::Listing { rows: Vec::new() }];
    let e = execute_rules(&c, "TABLE", &outcomes).unwrap_err();
    assert_eq!(e, "Failed to execute rule T001: expected two scalars for a ratio-mode rule");
}

#[test]
fn scope_wrappers_filter_by_scope() {
    let mut c = RuleCatalog::new();
    c.upsert_rule(rule(1, "B001", "BASE", true, Some("q1"), Some("q2")));
    c.upsert_rule(rule(2, "T001", "TABLE", true, Some("q1"), None));
    let outcomes = vec![QueryOutcome::Listing { rows: vec![Some("t".to_string())] }];
    let findings = execute_table_rules(&c, &outcomes).unwrap();
    assert_eq!(findings.len(), 1);
    assert_eq!(findings[0].ruleid, "T001");
}
