//! The rule executor: given a rule's configuration and the outcome of its
//! queries, decide whether it yields a finding and render the finding's
//! message. Running the queries themselves is the caller's job; the engine
//! receives their results as plain values.

use vstd::prelude::*;
use crate::chars::{
    append_str, chars_to_string, contains_seq, spec_contains_seq, str_eq_str, str_to_chars,
    spec_replace,
};
use crate::num::{i64_to_string, push_i64_dec, spec_i64_dec};
use crate::rules::{RuleData, RuleDataModel, RuleParam, RuleResult, RuleResultModel, RuleModel};
use crate::template::{render, spec_placeholder, spec_render_bindings};
use crate::threshold::{classify, percentage, spec_classify, Severity};

verus! {

/// What came back from running one rule's queries. Ratio-mode rules get the
/// two scalars (absent when the query returned no row or a null); listing
/// rules get one optional detail string per returned row; a failed query
/// carries the driver's error text.
pub enum QueryOutcome {
    Ratio { total: Option<i64>, violations: Option<i64> },
    Listing { rows: Vec<Option<String>> },
    Failed { error: String },
}

/// A scalar extracted from a query result: absent rows and nulls count as
/// zero.
pub open spec fn spec_scalar_or_zero(v: Option<i64>) -> int {
    match v {
        Some(x) => x as int,
        None => 0,
    }
}

/// The fully rendered ratio-mode message: the four positional placeholders
/// substituted in order, then literal `\n` sequences unescaped.
pub open spec fn spec_ratio_message(
    template: Seq<char>,
    violations: int,
    total: int,
    label: Seq<char>,
    pct: int,
) -> Seq<char> {
    let s1 = spec_replace(template, spec_placeholder(seq!['0']), spec_i64_dec(violations));
    let s2 = spec_replace(s1, spec_placeholder(seq!['1']), spec_i64_dec(total));
    let s3 = spec_replace(s2, spec_placeholder(seq!['2']), label);
    let s4 = spec_replace(s3, spec_placeholder(seq!['3']), spec_i64_dec(pct));
    spec_replace(s4, seq!['\\', 'n'], seq!['\n'])
}

/// The finding a ratio-mode rule yields: none when the population is empty
/// or the truncated percentage stays below both thresholds, otherwise a
/// finding at the classified severity whose count is the violation count.
pub open spec fn spec_eval_ratio(
    ruleid: Seq<char>,
    template: Seq<char>,
    warning_level: int,
    error_level: int,
    total: Option<int>,
    violations: Option<int>,
) -> Option<RuleResultModel> {
    let t = match total {
        Some(x) => x,
        None => 0,
    };
    let v = match violations {
        Some(x) => x,
        None => 0,
    };
    if t <= 0 {
        None
    } else {
        let pct = (v * 100) / t;
        match spec_classify(pct, warning_level, error_level) {
            Some(sev) => Some(
                (RuleResultModel {
                    ruleid: ruleid,
                    level: sev.spec_label(),
                    message: spec_ratio_message(template, v, t, sev.spec_label(), pct),
                    count: Some(v),
                }),
            ),
            None => None,
        }
    }
}

/// Evaluate a ratio-mode rule from its two scalars. A missing scalar counts
/// as zero; a total of zero (or less) means "not applicable" and yields no
/// finding whatever the thresholds say.
pub fn evaluate_ratio_rule(
    ruleid: &str,
    template: &str,
    warning_level: i64,
    error_level: i64,
    total: Option<i64>,
    violations: Option<i64>,
) -> (r: Option<RuleResult>)
    requires
        match violations {
            Some(v) => 0 <= v && v * 100 <= i64::MAX,
            None => true,
        },
    ensures
        match r {
            Some(f) => spec_eval_ratio(
                ruleid@,
                template@,
                warning_level as int,
                error_level as int,
                spec_opt_int(total),
                spec_opt_int(violations),
            ) == Some(f@),
            None => spec_eval_ratio(
                ruleid@,
                template@,
                warning_level as int,
                error_level as int,
                spec_opt_int(total),
                spec_opt_int(violations),
            ) is None,
        },
{
    let t: i64 = match total {
        Some(x) => x,
        None => 0,
    };
    let v: i64 = match violations {
        Some(x) => x,
        None => 0,
    };
    if t <= 0 {
        return None;
    }
    let pct = percentage(v, t);
    let sev = match classify(pct, warning_level, error_level) {
        Some(s) => s,
        None => {
            return None;
        },
    };
    let mut bindings: Vec<RuleParam> = Vec::new();
    bindings.push(RuleParam { key: String::from_str("0"), value: i64_to_string(v) });
    bindings.push(RuleParam { key: String::from_str("1"), value: i64_to_string(t) });
    bindings.push(RuleParam { key: String::from_str("2"), value: String::from_str(sev.label()) });
    bindings.push(RuleParam { key: String::from_str("3"), value: i64_to_string(pct) });
    let message = render(template, &bindings);
    proof {
        reveal_strlit("0");
        reveal_strlit("1");
        reveal_strlit("2");
        reveal_strlit("3");
        assert("0"@ =~= seq!['0']);
        assert("1"@ =~= seq!['1']);
        assert("2"@ =~= seq!['2']);
        assert("3"@ =~= seq!['3']);
        let bs = bindings@;
        let s1 = spec_replace(template@, spec_placeholder(seq!['0']), spec_i64_dec(v as int));
        let s2 = spec_replace(s1, spec_placeholder(seq!['1']), spec_i64_dec(t as int));
        let s3 = spec_replace(s2, spec_placeholder(seq!['2']), sev.spec_label());
        let s4 = spec_replace(s3, spec_placeholder(seq!['3']), spec_i64_dec(pct as int));
        assert(bs.len() == 4);
        assert(bs.skip(1).skip(1) =~= bs.skip(2));
        assert(bs.skip(2).skip(1) =~= bs.skip(3));
        assert(bs.skip(3).skip(1) =~= bs.skip(4));
        assert(bs.skip(4) =~= Seq::<RuleParam>::empty());
        assert(bs.skip(1)[0] == bs[1]);
        assert(bs.skip(2)[0] == bs[2]);
        assert(bs.skip(3)[0] == bs[3]);
        assert(spec_render_bindings(template@, bs) == spec_render_bindings(s1, bs.skip(1)));
        assert(spec_render_bindings(s1, bs.skip(1)) == spec_render_bindings(s2, bs.skip(2)));
        assert(spec_render_bindings(s2, bs.skip(2)) == spec_render_bindings(s3, bs.skip(3)));
        assert(spec_render_bindings(s3, bs.skip(3)) == spec_render_bindings(s4, bs.skip(4)));
        assert(spec_render_bindings(s4, bs.skip(4)) == s4);
        assert(spec_render_bindings(template@, bs) == s4);
        assert(message@ == spec_ratio_message(
            template@,
            v as int,
            t as int,
            sev.spec_label(),
            pct as int,
        ));
    }
    Some(
        RuleResult {
            ruleid: String::from_str(ruleid),
            level: String::from_str(sev.label()),
            message,
            count: Some(v),
        },
    )
}

/// An optional machine integer as an optional mathematical integer.
pub open spec fn spec_opt_int(v: Option<i64>) -> Option<int> {
    match v {
        Some(x) => Some(x as int),
        None => None,
    }
}


/// One detail line per returned row: the row's text column when present,
/// a one-based "row N" label when the column was absent or null.
pub open spec fn spec_detail(idx: int, row: Option<Seq<char>>) -> Seq<char> {
    match row {
        Some(s) => s,
        None => seq!['r', 'o', 'w', ' '] + spec_i64_dec(idx + 1),
    }
}

/// The detail lines from `base` on, joined with newlines.
pub open spec fn spec_details_joined(rows: Seq<Option<Seq<char>>>, base: int) -> Seq<char>
    decreases rows.len(),
{
    if rows.len() == 0 {
        Seq::empty()
    } else if rows.len() == 1 {
        spec_detail(base, rows[0])
    } else {
        spec_detail(base, rows[0]) + seq!['\n'] + spec_details_joined(rows.skip(1), base + 1)
    }
}

/// The listing-mode message: scope, rule message, row count, then the
/// joined detail lines.
pub open spec fn spec_listing_message(
    scope: Seq<char>,
    rule_message: Seq<char>,
    count: int,
    rows: Seq<Option<Seq<char>>>,
) -> Seq<char> {
    scope + seq![' '] + rule_message + seq![' '] + spec_i64_dec(count) + seq![' ', ':', ' ', '\n']
        + spec_details_joined(rows, 0) + seq![' ', '\n']
}

/// The finding a listing-mode rule yields: none without rows, otherwise
/// exactly one warning-level finding whose count is the row count. Listing
/// rules have no error tier.
pub open spec fn spec_eval_listing(
    scope: Seq<char>,
    ruleid: Seq<char>,
    rule_message: Seq<char>,
    rows: Seq<Option<Seq<char>>>,
) -> Option<RuleResultModel> {
    if rows.len() == 0 {
        None
    } else {
        Some(
            (RuleResultModel {
                ruleid: ruleid,
                level: "warning"@,
                message: spec_listing_message(scope, rule_message, rows.len() as int, rows),
                count: Some(rows.len() as int),
            }),
        )
    }
}

/// The models of a vector of optional row strings.
pub open spec fn spec_rows_model(rows: Seq<Option<String>>) -> Seq<Option<Seq<char>>> {
    Seq::new(rows.len(), |i: int| crate::rules::spec_opt_string(rows[i]))
}

/// Evaluate a listing-mode rule from its returned rows. No rows means no
/// finding; one or more rows yield exactly one warning-level finding whose
/// count is the row count.
pub fn evaluate_listing_rule(
    scope: &str,
    ruleid: &str,
    rule_message: &str,
    rows: &Vec<Option<String>>,
) -> (r: Option<RuleResult>)
    requires
        rows@.len() <= i64::MAX,
    ensures
        match r {
            Some(f) => spec_eval_listing(scope@, ruleid@, rule_message@, spec_rows_model(rows@))
                == Some(f@),
            None => spec_eval_listing(scope@, ruleid@, rule_message@, spec_rows_model(rows@))
                is None,
        },
{
    let n: usize = rows.len();
    if n == 0 {
        return None;
    }
    let ghost rm = spec_rows_model(rows@);
    let count: i64 = n as i64;
    let mut out: Vec<char> = Vec::new();
    append_str(&mut out, scope);
    out.push(' ');
    append_str(&mut out, rule_message);
    out.push(' ');
    push_i64_dec(&mut out, count);
    out.push(' ');
    out.push(':');
    out.push(' ');
    out.push('\n');
    let ghost head = scope@ + seq![' '] + rule_message@ + seq![' '] + spec_i64_dec(count as int)
        + seq![' ', ':', ' ', '\n'];
    assert(out@ =~= head);
    let mut j: usize = 0;
    while j < n
        invariant
            j <= n,
            n == rows@.len(),
            rm == spec_rows_model(rows@),
            rm.len() == n,
            j == 0 ==> out@ == head,
            0 < j < n ==> head + spec_details_joined(rm, 0) == out@ + seq!['\n']
                + spec_details_joined(rm.skip(j as int), j as int),
            j == n ==> head + spec_details_joined(rm, 0) == out@,
            n <= i64::MAX,
        decreases n - j,
    {
        let ghost out0 = out@;
        if j > 0 {
            out.push('\n');
        }
        proof {
            if j == 0 && n > 1 {
                assert(spec_details_joined(rm, 0) == spec_detail(0, rm[0]) + seq!['\n']
                    + spec_details_joined(rm.skip(1), 1));
            }
        }
        let ghost before_detail = out@;
        match &rows[j] {
            Some(s) => {
                append_str(&mut out, s.as_str());
                assert(out@ == before_detail + spec_detail(j as int, rm[j as int])) by {
                    assert(rm[j as int] == crate::rules::spec_opt_string(rows@[j as int]));
                }
            },
            None => {
                append_str(&mut out, "row ");
                let idx: i64 = (j as i64) + 1;
                push_i64_dec(&mut out, idx);
                proof {
                    reveal_strlit("row ");
                    assert("row "@ =~= seq!['r', 'o', 'w', ' ']);
                    assert(out@ =~= before_detail + spec_detail(j as int, rm[j as int]));
                }
            },
        }
        j = j + 1;
        proof {
            let ghost rest = rm.skip(j - 1);
            assert(rest[0] == rm[j - 1]);
            assert(rest.skip(1) =~= rm.skip(j as int));
            if j < n {
                assert(rest.len() > 1);
                assert(spec_details_joined(rest, j - 1) == spec_detail(j - 1, rm[j - 1])
                    + seq!['\n'] + spec_details_joined(rm.skip(j as int), j as int));
            } else {
                assert(rest.len() == 1);
                assert(spec_details_joined(rest, j - 1) == spec_detail(j - 1, rm[j - 1]));
            }
        }
    }
    out.push(' ');
    out.push('\n');
    let ghost full = spec_listing_message(scope@, rule_message@, count as int, rm);
    assert(out@ =~= full);
    let message = chars_to_string(&out);
    Some(
        RuleResult {
            ruleid: String::from_str(ruleid),
            level: String::from_str("warning"),
            message,
            count: Some(count),
        },
    )
}

/// The bind values handed to a parameterized listing query: a byte-size
/// threshold converted from the rule's megabyte warning level for the
/// cross-schema size rule, the warning level itself for every other rule.
pub open spec fn spec_rule_parameters(ruleid: Seq<char>, warning_level: int) -> Seq<i64> {
    if ruleid == "T006"@ {
        seq![(warning_level * 1024 * 1024) as i64]
    } else {
        seq![warning_level as i64]
    }
}

/// The bind values for a parameterized query, derived from the rule's
/// thresholds.
pub fn get_rule_parameters(ruleid: &str, warning_level: i64, error_level: i64) -> (r: Vec<i64>)
    requires
        i32::MIN <= warning_level <= i32::MAX,
    ensures
        r@ == spec_rule_parameters(ruleid@, warning_level as int),
{
    let mut r: Vec<i64> = Vec::new();
    if str_eq_str(ruleid, "T006") {
        r.push(warning_level * 1024 * 1024);
        assert(r@ =~= spec_rule_parameters(ruleid@, warning_level as int));
    } else {
        r.push(warning_level);
        assert(r@ =~= spec_rule_parameters(ruleid@, warning_level as int));
    }
    r
}

/// Whether a query text carries the positional bind placeholder `$1`, so
/// that the caller must supply bind values when running it.
pub fn has_bind_placeholder(query: &str) -> (r: bool)
    ensures
        r == spec_contains_seq(query@, seq!['$', '1']),
{
    let q = str_to_chars(query);
    let mut pat: Vec<char> = Vec::new();
    pat.push('$');
    pat.push('1');
    assert(pat@ =~= seq!['$', '1']);
    contains_seq(&q, &pat)
}


/// A rule takes part in a run when it is enabled, has a primary query, and
/// carries the requested scope.
pub open spec fn spec_run_filter(m: RuleModel, scope: Seq<char>) -> bool {
    m.enable && m.q1 is Some && m.scope == scope
}

/// The rules of a catalog that a run over the given scope evaluates, in
/// catalog order.
pub open spec fn spec_run_rules(s: Seq<RuleModel>, scope: Seq<char>) -> Seq<RuleModel>
    decreases s.len(),
{
    if s.len() == 0 {
        Seq::empty()
    } else if spec_run_filter(s[0], scope) {
        seq![s[0]] + spec_run_rules(s.skip(1), scope)
    } else {
        spec_run_rules(s.skip(1), scope)
    }
}

/// The execution row a catalog rule yields.
pub open spec fn spec_data_of(m: RuleModel) -> RuleDataModel {
    RuleDataModel {
        code: m.code,
        name: m.name,
        q1: (match m.q1 {
            Some(q) => q,
            None => Seq::empty(),
        }),
        q2: m.q2,
        scope: m.scope,
    }
}

/// The enabled rules with a primary query and the given scope, as execution
/// rows in catalog order (sorted by code). The caller runs each row's
/// queries and hands the outcomes back to `execute_rules`.
pub fn rules_to_run(catalog: &crate::catalog::RuleCatalog, scope: &str) -> (r: Vec<RuleData>)
    ensures
        r.deep_view().len() == spec_run_rules(catalog@, scope@).len(),
        forall|i: int|
            0 <= i < r.deep_view().len() ==> r.deep_view()[i] == spec_data_of(
                #[trigger] spec_run_rules(catalog@, scope@)[i],
            ),
{
    let ghost runfull = spec_run_rules(catalog@, scope@);
    let n: usize = catalog.rules.len();
    let mut r: Vec<RuleData> = Vec::new();
    let mut i: usize = 0;
    proof {
        assert(catalog@.skip(0) =~= catalog@);
    }
    while i < n
        invariant
            i <= n,
            n == catalog@.len(),
            runfull == spec_run_rules(catalog@, scope@),
            r.deep_view().len() + spec_run_rules(catalog@.skip(i as int), scope@).len()
                == runfull.len(),
            forall|k: int|
                0 <= k < r.deep_view().len() ==> r.deep_view()[k] == spec_data_of(
                    #[trigger] runfull[k],
                ),
            forall|k: int|
                0 <= k < spec_run_rules(catalog@.skip(i as int), scope@).len()
                    ==> #[trigger] spec_run_rules(catalog@.skip(i as int), scope@)[k]
                    == runfull[r.deep_view().len() + k],
        decreases n - i,
    {
        let ghost rest = catalog@.skip(i as int);
        let ghost restrun = spec_run_rules(rest, scope@);
        proof {
            assert(rest[0] == catalog@[i as int]);
            assert(rest.skip(1) =~= catalog@.skip(i + 1));
        }
        let row = &catalog.rules[i];
        let q1_present = row.q1.is_some();
        if row.enable && q1_present && str_eq_str(row.scope.as_str(), scope) {
            let q1 = match &row.q1 {
                Some(q) => clone_string_pub(q),
                None => {
                    proof {
                        assert(false);
                    }
                    String::new()
                },
            };
            let data = RuleData {
                code: clone_string_pub(&row.code),
                name: clone_string_pub(&row.name),
                q1,
                q2: clone_opt_string_pub(&row.q2),
                scope: clone_string_pub(&row.scope),
            };
            let ghost dlen = r.deep_view().len();
            proof {
                assert(spec_run_filter(rest[0], scope@));
                assert(restrun == seq![rest[0]] + spec_run_rules(catalog@.skip(i + 1), scope@));
                assert(restrun[0] == rest[0]);
                assert(runfull[dlen as int] == rest[0]);
                assert(data@ == spec_data_of(rest[0]));
            }
            r.push(data);
            proof {
                assert(forall|k: int|
                    0 <= k < spec_run_rules(catalog@.skip(i + 1), scope@).len()
                        ==> #[trigger] spec_run_rules(catalog@.skip(i + 1), scope@)[k] == restrun[k + 1]);
            }
        } else {
            proof {
                assert(!spec_run_filter(rest[0], scope@));
                assert(restrun == spec_run_rules(catalog@.skip(i + 1), scope@));
            }
        }
        i = i + 1;
    }
    proof {
        assert(catalog@.skip(n as int) =~= Seq::<RuleModel>::empty());
    }
    r
}

/// The error text a failed rule is reported under, tagged with its code.
pub open spec fn spec_tagged_error(code: Seq<char>, e: Seq<char>) -> Seq<char> {
    "Failed to execute rule "@ + code + ": "@ + e
}

/// Build the tagged error text for a failed rule.
fn build_tagged_error(code: &str, detail: &str) -> (r: String)
    ensures
        r@ == spec_tagged_error(code@, detail@),
{
    let mut t: Vec<char> = Vec::new();
    append_str(&mut t, "Failed to execute rule ");
    append_str(&mut t, code);
    append_str(&mut t, ": ");
    append_str(&mut t, detail);
    assert(t@ =~= spec_tagged_error(code@, detail@));
    chars_to_string(&t)
}

/// What evaluating one rule against one query outcome yields: a possible
/// finding, or the error that aborts this rule.
pub open spec fn spec_eval_one(m: RuleModel, o: QueryOutcome) -> Result<
    Option<RuleResultModel>,
    Seq<char>,
> {
    match o {
        QueryOutcome::Failed { error } => Err(error@),
        QueryOutcome::Ratio { total, violations } => {
            if m.q2 is None {
                Err("expected listing rows for a listing-mode rule"@)
            } else if (match violations {
                Some(v) => v < 0 || v as int > i64::MAX as int / 100,
                None => false,
            }) {
                Err("violation count out of range"@)
            } else {
                Ok(
                    spec_eval_ratio(
                        m.code,
                        m.message,
                        m.warning_level,
                        m.error_level,
                        spec_opt_int(total),
                        spec_opt_int(violations),
                    ),
                )
            }
        },
        QueryOutcome::Listing { rows } => {
            if m.q2 is Some {
                Err("expected two scalars for a ratio-mode rule"@)
            } else if rows@.len() > i64::MAX {
                Err("row count out of range"@)
            } else {
                Ok(spec_eval_listing(m.scope, m.code, m.message, spec_rows_model(rows@)))
            }
        },
    }
}

/// The findings of a run, rule by rule in order, or the first rule's error,
/// tagged with its code. One outcome feeds each rule.
pub open spec fn spec_execute(run: Seq<RuleModel>, outs: Seq<QueryOutcome>) -> Result<
    Seq<RuleResultModel>,
    Seq<char>,
>
    decreases run.len(),
{
    if run.len() == 0 {
        Ok(Seq::empty())
    } else {
        match spec_eval_one(run[0], outs[0]) {
            Err(e) => Err(spec_tagged_error(run[0].code, e)),
            Ok(opt) => match spec_execute(run.skip(1), outs.skip(1)) {
                Err(e) => Err(e),
                Ok(rest) => Ok(
                    (match opt {
                        Some(f) => seq![f],
                        None => Seq::empty(),
                    }) + rest,
                ),
            },
        }
    }
}

/// The outcome of a whole run: a mismatch between rule count and outcome
/// count fails the run before any rule is evaluated.
pub open spec fn spec_execute_all(
    s: Seq<RuleModel>,
    scope: Seq<char>,
    outs: Seq<QueryOutcome>,
) -> Result<Seq<RuleResultModel>, Seq<char>> {
    let run = spec_run_rules(s, scope);
    if run.len() != outs.len() {
        Err("expected one query outcome per enabled rule"@)
    } else {
        spec_execute(run, outs)
    }
}

/// Evaluate every enabled rule of the given scope against its query
/// outcome, in catalog order. A rule whose queries failed, or whose outcome
/// does not fit its mode, aborts the run with an error tagged with that
/// rule's code; otherwise the findings of all triggered rules come back in
/// order.
pub fn execute_rules(
    catalog: &crate::catalog::RuleCatalog,
    scope: &str,
    outcomes: &Vec<QueryOutcome>,
) -> (r: Result<Vec<RuleResult>, String>)
    ensures
        match r {
            Ok(v) => spec_execute_all(catalog@, scope@, outcomes@) == Ok::<_, Seq<char>>(
                v.deep_view(),
            ),
            Err(e) => spec_execute_all(catalog@, scope@, outcomes@) == Err::<
                Seq<RuleResultModel>,
                _,
            >(e@),
        },
{
    let ghost runfull = spec_run_rules(catalog@, scope@);
    let run_data = rules_to_run(catalog, scope);
    if run_data.len() != outcomes.len() {
        return Err(String::from_str("expected one query outcome per enabled rule"));
    }
    let n: usize = catalog.rules.len();
    let mut results: Vec<RuleResult> = Vec::new();
    let mut k: usize = 0;
    let mut i: usize = 0;
    let olen: usize = outcomes.len();
    proof {
        assert(catalog@.skip(0) =~= catalog@);
        assert(outcomes@.skip(0) =~= outcomes@);
        assert(runfull.skip(0) =~= runfull);
        assert(results.deep_view() =~= Seq::<RuleResultModel>::empty());
        match spec_execute(runfull, outcomes@) {
            Ok(rest) => {
                assert(results.deep_view() + rest =~= rest);
            },
            Err(e) => {},
        }
    }
    while i < n
        invariant
            i <= n,
            k <= outcomes@.len(),
            n == catalog@.len(),
            runfull == spec_run_rules(catalog@, scope@),
            runfull.len() == outcomes@.len(),
            olen == outcomes@.len(),
            k + spec_run_rules(catalog@.skip(i as int), scope@).len() == runfull.len(),
            spec_run_rules(catalog@.skip(i as int), scope@) == runfull.skip(k as int),
            match spec_execute(runfull.skip(k as int), outcomes@.skip(k as int)) {
                Ok(rest) => spec_execute(runfull, outcomes@) == Ok::<_, Seq<char>>(
                    results.deep_view() + rest,
                ),
                Err(e) => spec_execute(runfull, outcomes@) == Err::<Seq<RuleResultModel>, _>(e),
            },
        decreases n - i,
    {
        let ghost rest = catalog@.skip(i as int);
        let ghost restrun = spec_run_rules(rest, scope@);
        proof {
            assert(rest[0] == catalog@[i as int]);
            assert(rest.skip(1) =~= catalog@.skip(i + 1));
        }
        let row = &catalog.rules[i];
        let q1_present = row.q1.is_some();
        if row.enable && q1_present && str_eq_str(row.scope.as_str(), scope) {
            let ghost m = catalog@[i as int];
            proof {
                assert(spec_run_filter(m, scope@));
                assert(restrun == seq![m] + spec_run_rules(catalog@.skip(i + 1), scope@));
                assert(restrun[0] == m);
                assert(runfull.skip(k as int)[0] == m);
                assert(restrun.skip(1) =~= spec_run_rules(catalog@.skip(i + 1), scope@));
                assert(runfull.skip(k as int).skip(1) =~= runfull.skip(k + 1));
                assert(outcomes@.skip(k as int)[0] == outcomes@[k as int]);
                assert(outcomes@.skip(k as int).skip(1) =~= outcomes@.skip(k + 1));
            }
            let ghost res0 = results.deep_view();
            let step: Result<Option<RuleResult>, String>;
            match &outcomes[k] {
                QueryOutcome::Failed { error } => {
                    step = Err(clone_string_pub(error));
                    proof {
                        assert(step matches Err(d) && spec_eval_one(m, outcomes@[k as int])
                            == Err::<Option<RuleResultModel>, _>(d@));
                    }
                },
                QueryOutcome::Ratio { total, violations } => {
                    if row.q2.is_none() {
                        step = Err(
                            String::from_str("expected listing rows for a listing-mode rule"),
                        );
                        proof {
                            assert(m.q2 is None);
                            assert(step matches Err(d) && spec_eval_one(m, outcomes@[k as int])
                                == Err::<Option<RuleResultModel>, _>(d@));
                        }
                    } else {
                        let bad = match violations {
                            Some(v) => {
                                let lim: i64 = i64::MAX / 100;
                                *v < 0 || *v > lim
                            },
                            None => false,
                        };
                        if bad {
                            step = Err(String::from_str("violation count out of range"));
                            proof {
                                assert(step matches Err(d) && spec_eval_one(m, outcomes@[k as int])
                                    == Err::<Option<RuleResultModel>, _>(d@));
                            }
                        } else {
                            step = Ok(
                                evaluate_ratio_rule(
                                    row.code.as_str(),
                                    row.message.as_str(),
                                    row.warning_level,
                                    row.error_level,
                                    *total,
                                    *violations,
                                ),
                            );
                        }
                    }
                },
                QueryOutcome::Listing { rows } => {
                    if row.q2.is_some() {
                        step = Err(String::from_str("expected two scalars for a ratio-mode rule"));
                        proof {
                            assert(step matches Err(d) && spec_eval_one(m, outcomes@[k as int])
                                == Err::<Option<RuleResultModel>, _>(d@));
                        }
                    } else {
                        let len64: u64 = rows.len() as u64;
                        let lim64: u64 = i64::MAX as u64;
                        if len64 > lim64 {
                            step = Err(String::from_str("row count out of range"));
                            proof {
                                assert(rows@.len() > i64::MAX);
                                assert(step matches Err(d) && spec_eval_one(m, outcomes@[k as int])
                                    == Err::<Option<RuleResultModel>, _>(d@));
                            }
                        } else {
                            step = Ok(
                                evaluate_listing_rule(
                                    row.scope.as_str(),
                                    row.code.as_str(),
                                    row.message.as_str(),
                                    rows,
                                ),
                            );
                        }
                    }
                },
            };
            match step {
                Err(detail) => {
                    proof {
                        assert(spec_eval_one(m, outcomes@[k as int]) == Err::<
                            Option<RuleResultModel>,
                            _,
                        >(detail@));
                    }
                    let tagged = build_tagged_error(row.code.as_str(), detail.as_str());
                    proof {
                        assert(spec_execute(runfull.skip(k as int), outcomes@.skip(k as int))
                            == Err::<Seq<RuleResultModel>, _>(spec_tagged_error(m.code, detail@)));
                    }
                    return Err(tagged);
                },
                Ok(opt) => {
                    proof {
                        match &opt {
                            Some(f) => {
                                assert(spec_eval_one(m, outcomes@[k as int]) == Ok::<_, Seq<char>>(
                                    Some(f@),
                                ));
                            },
                            None => {
                                assert(spec_eval_one(m, outcomes@[k as int]) == Ok::<_, Seq<char>>(
                                    None::<RuleResultModel>,
                                ));
                            },
                        }
                    }
                    let ghost optm = (match opt {
                        Some(ref f) => Some(f@),
                        None => None,
                    });
                    match opt {
                        Some(f) => {
                            results.push(f);
                            proof {
                                assert(optm matches Some(fm) && results.deep_view() =~= res0.push(
                                    fm,
                                ));
                            }
                        },
                        None => {},
                    }
                    assert(k < olen);
                    k = k + 1;
                    proof {
                        match spec_execute(runfull.skip(k as int), outcomes@.skip(k as int)) {
                            Ok(rest2) => {
                                match optm {
                                    Some(fm) => {
                                        assert(res0.push(fm) + rest2 =~= res0 + (seq![fm] + rest2));
                                    },
                                    None => {
                                        assert(res0 + rest2 =~= res0 + (Seq::<
                                            RuleResultModel,
                                        >::empty() + rest2));
                                    },
                                }
                            },
                            Err(e2) => {},
                        }
                    }
                },
            }
        } else {
            proof {
                assert(!spec_run_filter(rest[0], scope@));
                assert(restrun == spec_run_rules(catalog@.skip(i + 1), scope@));
            }
        }
        i = i + 1;
    }
    proof {
        assert(catalog@.skip(n as int) =~= Seq::<RuleModel>::empty());
        assert(runfull.skip(k as int) =~= Seq::<RuleModel>::empty());
        match spec_execute(runfull, outcomes@) {
            Ok(rest) => {
                assert(rest =~= results.deep_view() + Seq::<RuleResultModel>::empty());
                assert(results.deep_view() + Seq::<RuleResultModel>::empty()
                    =~= results.deep_view());
            },
            Err(e) => {},
        }
    }
    Ok(results)
}

/// Copy a string (shared with the catalog module).
fn clone_string_pub(s: &String) -> (c: String)
    ensures
        c@ == s@,
{
    crate::catalog::clone_string(s)
}

/// Copy an optional string (shared with the catalog module).
fn clone_opt_string_pub(s: &Option<String>) -> (c: Option<String>)
    ensures
        crate::rules::spec_opt_string(c) == crate::rules::spec_opt_string(*s),
{
    crate::catalog::clone_opt_string(s)
}


/// Evaluate every enabled instance-wide rule against its query outcome.
pub fn execute_base_rules(
    catalog: &crate::catalog::RuleCatalog,
    outcomes: &Vec<QueryOutcome>,
) -> (r: Result<Vec<RuleResult>, String>)
    ensures
        match r {
            Ok(v) => spec_execute_all(catalog@, "BASE"@, outcomes@) == Ok::<_, Seq<char>>(
                v.deep_view(),
            ),
            Err(e) => spec_execute_all(catalog@, "BASE"@, outcomes@) == Err::<
                Seq<RuleResultModel>,
                _,
            >(e@),
        },
{
    execute_rules(catalog, "BASE", outcomes)
}

/// Evaluate every enabled cluster-configuration rule against its query
/// outcome.
pub fn execute_cluster_rules(
    catalog: &crate::catalog::RuleCatalog,
    outcomes: &Vec<QueryOutcome>,
) -> (r: Result<Vec<RuleResult>, String>)
    ensures
        match r {
            Ok(v) => spec_execute_all(catalog@, "CLUSTER"@, outcomes@) == Ok::<_, Seq<char>>(
                v.deep_view(),
            ),
            Err(e) => spec_execute_all(catalog@, "CLUSTER"@, outcomes@) == Err::<
                Seq<RuleResultModel>,
                _,
            >(e@),
        },
{
    execute_rules(catalog, "CLUSTER", outcomes)
}

/// Evaluate every enabled table-level rule against its query outcome.
pub fn execute_table_rules(
    catalog: &crate::catalog::RuleCatalog,
    outcomes: &Vec<QueryOutcome>,
) -> (r: Result<Vec<RuleResult>, String>)
    ensures
        match r {
            Ok(v) => spec_execute_all(catalog@, "TABLE"@, outcomes@) == Ok::<_, Seq<char>>(
                v.deep_view(),
            ),
            Err(e) => spec_execute_all(catalog@, "TABLE"@, outcomes@) == Err::<
                Seq<RuleResultModel>,
                _,
            >(e@),
        },
{
    execute_rules(catalog, "TABLE", outcomes)
}

/// Evaluate every enabled schema-level rule against its query outcome.
pub fn execute_schema_rules(
    catalog: &crate::catalog::RuleCatalog,
    outcomes: &Vec<QueryOutcome>,
) -> (r: Result<Vec<RuleResult>, String>)
    ensures
        match r {
            Ok(v) => spec_execute_all(catalog@, "SCHEMA"@, outcomes@) == Ok::<_, Seq<char>>(
                v.deep_view(),
            ),
            Err(e) => spec_execute_all(catalog@, "SCHEMA"@, outcomes@) == Err::<
                Seq<RuleResultModel>,
                _,
            >(e@),
        },
{
    execute_rules(catalog, "SCHEMA", outcomes)
}


/// A ratio-mode rule over an empty population yields no finding, whatever
/// the thresholds: a zero total means "not applicable", never a division.
pub proof fn lemma_zero_total_no_finding(
    ruleid: Seq<char>,
    template: Seq<char>,
    warning_level: int,
    error_level: int,
    violations: Option<int>,
)
    ensures
        spec_eval_ratio(ruleid, template, warning_level, error_level, Some(0), violations)
            is None,
        spec_eval_ratio(ruleid, template, warning_level, error_level, None, violations) is None,
{
}

/// A listing-mode rule yields no finding without rows, and with rows
/// exactly one warning-level finding whose count equals the row count.
pub proof fn lemma_listing_finding_shape(
    scope: Seq<char>,
    ruleid: Seq<char>,
    rule_message: Seq<char>,
    rows: Seq<Option<Seq<char>>>,
)
    ensures
        rows.len() == 0 <==> spec_eval_listing(scope, ruleid, rule_message, rows) is None,
        rows.len() > 0 ==> (spec_eval_listing(scope, ruleid, rule_message, rows) matches Some(f)
            && f.level == "warning"@ && f.count == Some(rows.len() as int) && f.ruleid == ruleid),
{
}


/// Every rule of a run is a rule of the catalog.
pub proof fn lemma_run_rules_member(s: Seq<RuleModel>, scope: Seq<char>)
    ensures
        forall|k: int|
            0 <= k < spec_run_rules(s, scope).len() ==> exists|i: int|
                0 <= i < s.len() && s[i] == #[trigger] spec_run_rules(s, scope)[k],
    decreases s.len(),
{
    if s.len() > 0 {
        lemma_run_rules_member(s.skip(1), scope);
        let run = spec_run_rules(s, scope);
        let rest = spec_run_rules(s.skip(1), scope);
        assert forall|k: int|
            0 <= k < run.len() implies exists|i: int|
                0 <= i < s.len() && s[i] == #[trigger] run[k] by {
            if spec_run_filter(s[0], scope) {
                if k == 0 {
                    assert(run[0] == s[0]);
                } else {
                    assert(run[k] == rest[k - 1]);
                    let i = choose|i: int| 0 <= i < s.skip(1).len() && s.skip(1)[i] == rest[k - 1];
                    assert(s[i + 1] == run[k]);
                }
            } else {
                assert(run[k] == rest[k]);
                let i = choose|i: int| 0 <= i < s.skip(1).len() && s.skip(1)[i] == rest[k];
                assert(s[i + 1] == run[k]);
            }
        }
    }
}

/// A run evaluates its rules in the catalog's order, which is sorted by
/// code: the outcome order of a run is deterministic.
pub proof fn lemma_run_rules_sorted(s: Seq<RuleModel>, scope: Seq<char>)
    requires
        forall|i: int, j: int|
            0 <= i < j < s.len() ==> crate::chars::spec_str_lt(s[i].code, s[j].code),
    ensures
        forall|a: int, b: int|
            0 <= a < b < spec_run_rules(s, scope).len() ==> crate::chars::spec_str_lt(
                spec_run_rules(s, scope)[a].code,
                spec_run_rules(s, scope)[b].code,
            ),
    decreases s.len(),
{
    if s.len() > 0 {
        assert(forall|i: int, j: int|
            0 <= i < j < s.skip(1).len() ==> crate::chars::spec_str_lt(
                s.skip(1)[i].code,
                s.skip(1)[j].code,
            )) by {
            assert(forall|i: int| 0 <= i < s.skip(1).len() ==> s.skip(1)[i] == s[i + 1]);
        }
        lemma_run_rules_sorted(s.skip(1), scope);
        lemma_run_rules_member(s.skip(1), scope);
        let run = spec_run_rules(s, scope);
        let rest = spec_run_rules(s.skip(1), scope);
        assert forall|a: int, b: int|
            0 <= a < b < run.len() implies crate::chars::spec_str_lt(
            run[a].code,
            run[b].code,
        ) by {
            if spec_run_filter(s[0], scope) {
                if a == 0 {
                    assert(run[b] == rest[b - 1]);
                    let i = choose|i: int| 0 <= i < s.skip(1).len() && s.skip(1)[i] == rest[b - 1];
                    assert(s[i + 1] == run[b]);
                    assert(crate::chars::spec_str_lt(s[0].code, s[i + 1].code));
                } else {
                    assert(run[a] == rest[a - 1] && run[b] == rest[b - 1]);
                }
            } else {
                assert(run[a] == rest[a] && run[b] == rest[b]);
            }
        }
    }
}

} // verus!
