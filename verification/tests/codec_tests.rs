use pglinter::catalog::RuleCatalog;
use pglinter::codec::{export_rules_to_yaml, import_rules_from_yaml, parse_rules_document};
use pglinter::rules::Rule;

fn rule(id: i64, code: &str) -> Rule {
    Rule {
        id,
        code: code.to_string(),
        name: format!("name of {code}"),
        description: "multi\nline \"description\"".to_string(),
        scope: "TABLE".to_string(),
        enable: true,
        warning_level: 30,
        error_level: 70,
        message: "{0} of {1} failed ({3}%)".to_string(),
        fixes: vec!["first fix".to_string(), "second fix".to_string()],
        q1: Some("SELECT count(*) FROM a".to_string()),
        q2: Some("SELECT count(*) FROM b WHERE bad".to_string()),
        q3: None,
        q4: None,
    }
}

fn sample_catalog() -> RuleCatalog {
    let mut c = RuleCatalog::new();
    c.upsert_rule(rule(1, "T001"));
    let mut second = rule(2, "T002");
    second.enable = false;
    second.q2 = None;
    second.fixes = Vec::new();
    c.upsert_rule(second);
    c
}

#[test]
fn export_contains_metadata_and_rules() {
    let c = sample_catalog();
    let doc = export_rules_to_yaml(&c, "2024-01-01T00:00:00Z");
    assert!(doc.contains("metadata:"));
    assert!(doc.contains("export_timestamp: \"2024-01-01T00:00:00Z\""));
    assert!(doc.contains("total_rules: 2"));
    assert!(doc.contains("format_version: \"1.0\""));
    assert!(doc.contains("rules:"));
    assert!(doc.contains("code: \"T001\""));
    assert!(doc.contains("code: \"T002\""));
    assert!(doc.contains("q2: null"));
}

#[test]
fn export_is_valid_yaml() {
    // The emitted document must be readable by an ordinary YAML parser.
    let c = sample_catalog();
    let doc = export_rules_to_yaml(&c, "ts");
    let v: serde_yaml::Value = serde_yaml::from_str(&doc).expect("export should be valid YAML");
    assert_eq!(v["metadata"]["total_rules"].as_i64(), Some(2));
    assert_eq!(v["metadata"]["format_version"].as_str(), Some("1.0"));
    assert_eq!(v["rules"][0]["code"].as_str(), Some("T001"));
    assert_eq!(v["rules"][0]["enable"].as_bool(), Some(true));
    assert_eq!(v["rules"][0]["fixes"][1].as_str(), Some("second fix"));
    assert_eq!(v["rules"][0]["description"].as_str(), Some("multi\nline \"description\""));
    assert!(v["rules"][1]["q2"].is_null());
    assert_eq!(v["rules"][1]["warning_level"].as_i64(), Some(30));
}

#[test]
fn export_import_round_trip_preserves_all_fields() {
    let c = sample_catalog();
    let doc = export_rules_to_yaml(&c, "first timestamp");
    let parsed = parse_rules_document(&doc).unwrap();
    assert_eq!(parsed.metadata.export_timestamp, "first timestamp");
    assert_eq!(parsed.metadata.total_rules, 2);
    assert_eq!(parsed.metadata.format_version, "1.0");

    let mut fresh = RuleCatalog::new();
    let msg = import_rules_from_yaml(&mut fresh, &doc).unwrap();
    assert!(msg.contains("2 new rules, 0 updated rules"));

    // Re-exporting with a different timestamp reproduces the document
    // byte for byte, except for the timestamp line.
    let again = export_rules_to_yaml(&fresh, "second timestamp");
    let expected = doc.replace(
        "export_timestamp: \"first timestamp\"",
        "export_timestamp: \"second timestamp\"",
    );
    assert_eq!(again, expected);
}

#[test]
fn import_is_idempotent() {
    let c = sample_catalog();
    let doc = export_rules_to_yaml(&c, "ts");
    let mut target = RuleCatalog::new();
    let first = import_rules_from_yaml(&mut target, &doc).unwrap();
    assert!(first.contains("2 new rules, 0 updated rules"));
    let after_first = export_rules_to_yaml(&target, "ts");
    let second = import_rules_from_yaml(&mut target, &doc).unwrap();
    assert!(second.contains("0 new rules, 2 updated rules"));
    let after_second = export_rules_to_yaml(&target, "ts");
    // The catalog's field values are identical after each import.
    assert_eq!(after_first, after_second);
}

#[test]
fn import_empty_document_changes_nothing() {
    let empty = RuleCatalog::new();
    let doc = export_rules_to_yaml(&empty, "ts");
    assert!(doc.contains("total_rules: 0"));
    assert!(doc.contains("rules: []"));
    let mut target = sample_catalog();
    let msg = import_rules_from_yaml(&mut target, &doc).unwrap();
    assert!(msg.contains("0 new rules, 0 updated rules"));
    assert_eq!(target.len(), 2);
}

#[test]
fn import_overwrites_every_field() {
    let mut target = RuleCatalog::new();
    target.upsert_rule(rule(1, "T001"));
    let mut source = RuleCatalog::new();
    let mut changed = rule(1, "T001");
    changed.name = "replaced".to_string();
    changed.enable = false;
    changed.warning_level = 1;
    changed.error_level = 2;
    source.upsert_rule(changed);
    let doc = export_rules_to_yaml(&source, "ts");
    let msg = import_rules_from_yaml(&mut target, &doc).unwrap();
    assert!(msg.contains("0 new rules, 1 updated rules"));
    assert_eq!(target.get_rule_levels("T001"), (1, 2));
    assert!(!target.is_rule_enabled("T001"));
    assert_eq!(target.list_rules()[0].1, "replaced");
}

#[test]
fn import_rejects_malformed_document() {
    let mut target = RuleCatalog::new();
    let e = import_rules_from_yaml(&mut target, "this is not a rules document").unwrap_err();
    assert!(e.contains("YAML parsing error"));
    let e = import_rules_from_yaml(&mut target, "").unwrap_err();
    assert!(e.contains("YAML parsing error"));
    assert_eq!(target.len(), 0);
}

#[test]
fn import_collects_per_rule_failures() {
    // Two imported rules share one code: the second upsert fails, is
    // collected, and does not abort the rest.
    let mut source = RuleCatalog::new();
    source.upsert_rule(rule(1, "T001"));
    source.upsert_rule(rule(2, "T002"));
    let doc = export_rules_to_yaml(&source, "ts");
    let doc = doc.replace("code: \"T002\"", "code: \"T001\"");
    let mut target = RuleCatalog::new();
    let msg = import_rules_from_yaml(&mut target, &doc).unwrap();
    assert!(msg.contains("1 new rules, 0 updated rules"));
    assert!(msg.contains("1 failed: rule id 2: duplicate code"));
    assert_eq!(target.len(), 1);
}

#[test]
fn import_rejects_out_of_range_threshold_per_rule() {
    let mut source = RuleCatalog::new();
    source.upsert_rule(rule(1, "T001"));
    let doc = export_rules_to_yaml(&source, "ts");
    let doc = doc.replace("warning_level: 30", "warning_level: 99999999999");
    let mut target = RuleCatalog::new();
    let msg = import_rules_from_yaml(&mut target, &doc).unwrap();
    assert!(msg.contains("0 new rules, 0 updated rules"));
    assert!(msg.contains("1 failed: rule id 1: threshold out of range"));
    assert_eq!(target.len(), 0);
}

#[test]
fn parser_accepts_negative_levels() {
    let mut source = RuleCatalog::new();
    let mut r = rule(5, "N001");
    r.warning_level = -2147483648;
    r.error_level = 2147483647;
    source.upsert_rule(r);
    let doc = export_rules_to_yaml(&source, "ts");
    let mut target = RuleCatalog::new();
    import_rules_from_yaml(&mut target, &doc).unwrap();
    assert_eq!(target.get_rule_levels("N001"), (-2147483648, 2147483647));
}

#[test]
fn parser_rejects_non_canonical_numbers() {
    let mut source = RuleCatalog::new();
    source.upsert_rule(rule(1, "T001"));
    let doc = export_rules_to_yaml(&source, "ts");
    let doc = doc.replace("warning_level: 30", "warning_level: 030");
    assert!(parse_rules_document(&doc).is_err());
}

#[test]
fn special_characters_survive_the_round_trip() {
    let mut source = RuleCatalog::new();
    let mut r = rule(9, "SPECIAL_TEST");
    r.name = "Special <>&\"'` chars".to_string();
    r.message = "tab\there, backslash \\ and\r\nnewlines".to_string();
    source.upsert_rule(r);
    let doc = export_rules_to_yaml(&source, "ts");
    let mut target = RuleCatalog::new();
    import_rules_from_yaml(&mut target, &doc).unwrap();
    let listed = target.list_rules();
    assert_eq!(listed[0].1, "Special <>&\"'` chars");
    let (_, _, msg) = target.get_rule_config("SPECIAL_TEST").unwrap();
    assert_eq!(msg, "tab\there, backslash \\ and\r\nnewlines");
    // An ordinary YAML parser reads the same values back.
    let v: serde_yaml::Value = serde_yaml::from_str(&doc).expect("valid YAML");
    assert_eq!(v["rules"][0]["name"].as_str(), Some("Special <>&\"'` chars"));
    assert_eq!(
        v["rules"][0]["message"].as_str(),
        Some("tab\there, backslash \\ and\r\nnewlines")
    );
}
