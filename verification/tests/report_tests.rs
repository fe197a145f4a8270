use pglinter::report::{
    generate_sarif_output, generate_sarif_output_optional, output_results_to_prompt,
};
use pglinter::rules::RuleResult;

fn finding(ruleid: &str, level: &str, message: &str, count: Option<i64>) -> RuleResult {
    RuleResult {
        ruleid: ruleid.to_string(),
        level: level.to_string(),
        message: message.to_string(),
        count,
    }
}

#[test]
fn sarif_document_is_valid_json_with_expected_fields() {
    let results = vec![
        finding("T001", "warning", "Found 3 tables without primary key", Some(3)),
        finding("B005", "error", "Public schema allows CREATE", Some(1)),
    ];
    let doc = generate_sarif_output(&results);
    let v: serde_json::Value = serde_json::from_str(&doc).expect("valid JSON");
    assert_eq!(v["version"].as_str(), Some("2.1.0"));
    assert_eq!(v["runs"][0]["tool"]["driver"]["name"].as_str(), Some("pglinter"));
    assert_eq!(v["runs"][0]["tool"]["driver"]["version"].as_str(), Some("1.0.0"));
    let results_json = v["runs"][0]["results"].as_array().unwrap();
    assert_eq!(results_json.len(), 2);
    assert_eq!(results_json[0]["ruleId"].as_str(), Some("T001"));
    assert_eq!(results_json[0]["level"].as_str(), Some("warning"));
    assert_eq!(
        results_json[0]["message"]["text"].as_str(),
        Some("Found 3 tables without primary key")
    );
    assert_eq!(
        results_json[0]["locations"][0]["physicalLocation"]["artifactLocation"]["uri"].as_str(),
        Some("database")
    );
    assert_eq!(results_json[1]["level"].as_str(), Some("error"));
}

#[test]
fn sarif_document_escapes_message_text() {
    let results = vec![finding("T002", "warning", "line one\nline \"two\"", Some(1))];
    let doc = generate_sarif_output(&results);
    let v: serde_json::Value = serde_json::from_str(&doc).expect("valid JSON");
    assert_eq!(
        v["runs"][0]["results"][0]["message"]["text"].as_str(),
        Some("line one\nline \"two\"")
    );
}

#[test]
fn sarif_document_with_no_findings() {
    let results: Vec<RuleResult> = Vec::new();
    let doc = generate_sarif_output(&results);
    let v: serde_json::Value = serde_json::from_str(&doc).expect("valid JSON");
    assert_eq!(v["runs"][0]["results"].as_array().unwrap().len(), 0);
}

#[test]
fn prompt_output_with_no_findings() {
    let results: Vec<RuleResult> = Vec::new();
    let text = output_results_to_prompt(&results);
    assert_eq!(text, "No issues found - database schema looks good!\n");
}

#[test]
fn prompt_output_counts_levels_and_reports_worst() {
    let results = vec![
        finding("T001", "warning", "w1", Some(3)),
        finding("B005", "error", "e1", Some(1)),
        finding("C002", "info", "i1", None),
    ];
    let text = output_results_to_prompt(&results);
    assert!(text.contains("pglinter found 3 issue(s):"));
    assert!(text.contains("[warning] T001: w1"));
    assert!(text.contains("[error] B005: e1"));
    assert!(text.contains("[info] C002: i1"));
    assert!(text.contains("Summary: 1 error(s), 1 warning(s), 1 info"));
    assert!(text.contains("Critical issues found"));
}

#[test]
fn prompt_output_warning_only_status() {
    let results = vec![finding("T001", "warning", "w1", Some(3))];
    let text = output_results_to_prompt(&results);
    assert!(text.contains("Some warnings found"));
}

#[test]
fn optional_output_selects_shape() {
    let results = vec![finding("T001", "warning", "w", Some(1))];
    let doc = generate_sarif_output_optional(&results, true);
    assert!(doc.starts_with("{\"runs\":"));
    let text = generate_sarif_output_optional(&results, false);
    assert!(text.starts_with("pglinter found"));
}
