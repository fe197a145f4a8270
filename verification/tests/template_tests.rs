use pglinter::rules::{RuleParam, RuleScope};
use pglinter::template::render;

fn binding(key: &str, value: &str) -> RuleParam {
    RuleParam { key: key.to_string(), value: value.to_string() }
}

#[test]
fn positional_placeholders_render() {
    // violations=4, total=20, percentage=20.
    let bindings = vec![binding("0", "4"), binding("1", "20"), binding("3", "20")];
    let out = render("{0} of {1} failed ({3}%)", &bindings);
    assert_eq!(out, "4 of 20 failed (20%)");
}

#[test]
fn named_placeholders_render() {
    let bindings = vec![binding("schema", "public"), binding("table", "orders")];
    let out = render("table {schema}.{table} has no index", &bindings);
    assert_eq!(out, "table public.orders has no index");
}

#[test]
fn unresolved_placeholders_stay_verbatim() {
    let bindings = vec![binding("0", "4")];
    let out = render("{0} and {unknown} stay", &bindings);
    assert_eq!(out, "4 and {unknown} stay");
}

#[test]
fn literal_newline_escape_is_unescaped() {
    let bindings: Vec<RuleParam> = Vec::new();
    let out = render("first\\nsecond", &bindings);
    assert_eq!(out, "first\nsecond");
}

#[test]
fn replacement_happens_in_binding_order() {
    // A binding's value may itself look like a later placeholder.
    let bindings = vec![binding("a", "{b}"), binding("b", "two")];
    let out = render("{a}", &bindings);
    assert_eq!(out, "two");
}

#[test]
fn scope_codes() {
    assert_eq!(RuleScope::Base.as_code(), "BASE");
    assert_eq!(RuleScope::Cluster.as_code(), "CLUSTER");
    assert_eq!(RuleScope::Table.as_code(), "TABLE");
    assert_eq!(RuleScope::Schema.as_code(), "SCHEMA");
}
