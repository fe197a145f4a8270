//! The report emitter: project a finding list into a structured analysis
//! document or a console summary. Pure projection — every byte of both
//! outputs is fixed by the findings.

use vstd::prelude::*;
use crate::chars::{append_str, chars_to_string, escape_chars, spec_escape, str_to_chars};
use crate::num::{push_u64_dec, spec_i64_dec};
use crate::rules::{RuleResult, RuleResultModel};

verus! {

/// One result entry of the analysis document, keys in lexicographic order.
pub open spec fn spec_sarif_result(m: RuleResultModel) -> Seq<char> {
    "{\"level\":\""@ + spec_escape(m.level)
        + "\",\"locations\":[{\"physicalLocation\":{\"artifactLocation\":{\"uri\":\"database\"}}}],\"message\":{\"text\":\""@
        + spec_escape(m.message) + "\"},\"ruleId\":\""@ + spec_escape(m.ruleid) + "\"}"@
}

/// The result entries joined with commas.
pub open spec fn spec_sarif_results(rs: Seq<RuleResultModel>) -> Seq<char>
    decreases rs.len(),
{
    if rs.len() == 0 {
        Seq::empty()
    } else if rs.len() == 1 {
        spec_sarif_result(rs[0])
    } else {
        spec_sarif_result(rs[0]) + ","@ + spec_sarif_results(rs.skip(1))
    }
}

/// The whole analysis document: tool identity, version, and one result per
/// finding with a generic database location.
pub open spec fn spec_sarif_doc(rs: Seq<RuleResultModel>) -> Seq<char> {
    "{\"runs\":[{\"results\":["@ + spec_sarif_results(rs)
        + "],\"tool\":{\"driver\":{\"informationUri\":\"https://github.com/decathlon/pglinter\",\"name\":\"pglinter\",\"version\":\"1.0.0\"}}}],\"version\":\"2.1.0\"}"@
}

/// Serialize the findings to the structured analysis document.
pub fn generate_sarif_output(results: &Vec<RuleResult>) -> (r: String)
    ensures
        r@ == spec_sarif_doc(results.deep_view()),
{
    let ghost rs = results.deep_view();
    let mut out: Vec<char> = Vec::new();
    append_str(&mut out, "{\"runs\":[{\"results\":[");
    let ghost head = "{\"runs\":[{\"results\":["@;
    assert(out@ =~= head);
    let n: usize = results.len();
    let mut i: usize = 0;
    while i < n
        invariant
            i <= n,
            n == rs.len(),
            rs == results.deep_view(),
            i == 0 ==> out@ == head,
            0 < i < n ==> head + spec_sarif_results(rs) == out@ + ","@ + spec_sarif_results(
                rs.skip(i as int),
            ),
            i == n && i > 0 ==> head + spec_sarif_results(rs) == out@,
        decreases n - i,
    {
        if i > 0 {
            append_str(&mut out, ",");
        }
        proof {
            if i == 0 && n > 1 {
                assert(spec_sarif_results(rs) == spec_sarif_result(rs[0]) + ","@
                    + spec_sarif_results(rs.skip(1)));
            }
        }
        let ghost before = out@;
        append_str(&mut out, "{\"level\":\"");
        let lv = str_to_chars(results[i].level.as_str());
        let lesc = escape_chars(&lv);
        crate::chars::append_chars(&mut out, &lesc);
        append_str(
            &mut out,
            "\",\"locations\":[{\"physicalLocation\":{\"artifactLocation\":{\"uri\":\"database\"}}}],\"message\":{\"text\":\"",
        );
        let mv = str_to_chars(results[i].message.as_str());
        let mesc = escape_chars(&mv);
        crate::chars::append_chars(&mut out, &mesc);
        append_str(&mut out, "\"},\"ruleId\":\"");
        let rv = str_to_chars(results[i].ruleid.as_str());
        let resc = escape_chars(&rv);
        crate::chars::append_chars(&mut out, &resc);
        append_str(&mut out, "\"}");
        proof {
            assert(results@[i as int]@ == rs[i as int]);
            assert(out@ =~= before + spec_sarif_result(rs[i as int]));
        }
        i = i + 1;
        proof {
            let rest = rs.skip(i - 1);
            assert(rest[0] == rs[i - 1]);
            assert(rest.skip(1) =~= rs.skip(i as int));
            if i < n {
                assert(rest.len() > 1);
                assert(spec_sarif_results(rest) == spec_sarif_result(rs[i - 1]) + ","@
                    + spec_sarif_results(rs.skip(i as int)));
            } else {
                assert(rest.len() == 1);
                assert(spec_sarif_results(rest) == spec_sarif_result(rs[i - 1]));
            }
        }
    }
    proof {
        if n == 0 {
            assert(spec_sarif_results(rs) =~= Seq::<char>::empty());
            assert(head + spec_sarif_results(rs) =~= out@);
        }
    }
    append_str(
        &mut out,
        "],\"tool\":{\"driver\":{\"informationUri\":\"https://github.com/decathlon/pglinter\",\"name\":\"pglinter\",\"version\":\"1.0.0\"}}}],\"version\":\"2.1.0\"}",
    );
    assert(out@ =~= spec_sarif_doc(rs));
    chars_to_string(&out)
}

/// How many findings carry this level.
pub open spec fn spec_count_level(rs: Seq<RuleResultModel>, level: Seq<char>) -> int
    decreases rs.len(),
{
    if rs.len() == 0 {
        0
    } else {
        spec_count_level(rs.drop_last(), level) + if rs.last().level == level {
            1int
        } else {
            0int
        }
    }
}

/// One console line per finding.
pub open spec fn spec_prompt_line(m: RuleResultModel) -> Seq<char> {
    "["@ + m.level + "] "@ + m.ruleid + ": "@ + m.message + "\n"@
}

/// The per-finding lines, concatenated.
pub open spec fn spec_prompt_lines(rs: Seq<RuleResultModel>) -> Seq<char>
    decreases rs.len(),
{
    if rs.len() == 0 {
        Seq::empty()
    } else {
        spec_prompt_line(rs[0]) + spec_prompt_lines(rs.skip(1))
    }
}

/// The closing status line, by the worst level present.
pub open spec fn spec_prompt_status(errors: int, warnings: int) -> Seq<char> {
    if errors > 0 {
        "Critical issues found - please review and fix errors\n"@
    } else if warnings > 0 {
        "Some warnings found - consider reviewing for optimization\n"@
    } else {
        "Only informational messages - good job!\n"@
    }
}

/// The console summary: one line per finding, counts by level, and a
/// closing status line; or a single all-clear line when there is nothing to
/// report.
pub open spec fn spec_prompt_output(rs: Seq<RuleResultModel>) -> Seq<char> {
    if rs.len() == 0 {
        "No issues found - database schema looks good!\n"@
    } else {
        let errors = spec_count_level(rs, "error"@);
        let warnings = spec_count_level(rs, "warning"@);
        let infos = spec_count_level(rs, "info"@);
        "pglinter found "@ + spec_i64_dec(rs.len() as int) + " issue(s):\n"@
            + "==================================================\n"@ + spec_prompt_lines(rs)
            + "==================================================\n"@ + "Summary: "@
            + spec_i64_dec(errors) + " error(s), "@ + spec_i64_dec(warnings) + " warning(s), "@
            + spec_i64_dec(infos) + " info\n"@ + spec_prompt_status(errors, warnings)
    }
}

/// Render the console summary of a finding list.
pub fn output_results_to_prompt(results: &Vec<RuleResult>) -> (r: String)
    ensures
        r@ == spec_prompt_output(results.deep_view()),
{
    let ghost rs = results.deep_view();
    let n: usize = results.len();
    if n == 0 {
        let s = String::from_str("No issues found - database schema looks good!\n");
        return s;
    }
    let mut out: Vec<char> = Vec::new();
    append_str(&mut out, "pglinter found ");
    push_u64_dec(&mut out, n as u64);
    append_str(&mut out, " issue(s):\n");
    append_str(&mut out, "==================================================\n");
    let ghost head = "pglinter found "@ + spec_i64_dec(rs.len() as int) + " issue(s):\n"@
        + "==================================================\n"@;
    assert(out@ =~= head);
    let mut errors: usize = 0;
    let mut warnings: usize = 0;
    let mut infos: usize = 0;
    let mut i: usize = 0;
    proof {
        assert(rs.take(0) =~= Seq::<RuleResultModel>::empty());
        assert(rs.skip(0) =~= rs);
        assert(head + spec_prompt_lines(rs) =~= out@ + spec_prompt_lines(rs.skip(0)));
    }
    while i < n
        invariant
            i <= n,
            n == rs.len(),
            rs == results.deep_view(),
            errors <= i && warnings <= i && infos <= i,
            errors == spec_count_level(rs.take(i as int), "error"@),
            warnings == spec_count_level(rs.take(i as int), "warning"@),
            infos == spec_count_level(rs.take(i as int), "info"@),
            head + spec_prompt_lines(rs) == out@ + spec_prompt_lines(rs.skip(i as int)),
        decreases n - i,
    {
        let ghost rest = rs.skip(i as int);
        proof {
            assert(rest[0] == rs[i as int]);
            assert(rest.skip(1) =~= rs.skip(i + 1));
            assert(rs.take(i + 1).drop_last() =~= rs.take(i as int));
            assert(rs.take(i + 1).last() == rs[i as int]);
        }
        let ghost before = out@;
        append_str(&mut out, "[");
        append_str(&mut out, results[i].level.as_str());
        append_str(&mut out, "] ");
        append_str(&mut out, results[i].ruleid.as_str());
        append_str(&mut out, ": ");
        append_str(&mut out, results[i].message.as_str());
        append_str(&mut out, "\n");
        proof {
            assert(results@[i as int]@ == rs[i as int]);
            assert(out@ =~= before + spec_prompt_line(rs[i as int]));
        }
        proof {
            reveal_strlit("error");
            reveal_strlit("warning");
            reveal_strlit("info");
            assert("error"@.len() != "warning"@.len());
            assert("error"@.len() != "info"@.len());
            assert("warning"@.len() != "info"@.len());
        }
        if crate::chars::str_eq_str(results[i].level.as_str(), "error") {
            errors = errors + 1;
        } else if crate::chars::str_eq_str(results[i].level.as_str(), "warning") {
            warnings = warnings + 1;
        } else if crate::chars::str_eq_str(results[i].level.as_str(), "info") {
            infos = infos + 1;
        }
        i = i + 1;
    }
    proof {
        assert(rs.take(n as int) =~= rs);
        assert(rs.skip(n as int) =~= Seq::<RuleResultModel>::empty());
        assert(out@ =~= head + spec_prompt_lines(rs));
    }
    append_str(&mut out, "==================================================\n");
    append_str(&mut out, "Summary: ");
    push_u64_dec(&mut out, errors as u64);
    append_str(&mut out, " error(s), ");
    push_u64_dec(&mut out, warnings as u64);
    append_str(&mut out, " warning(s), ");
    push_u64_dec(&mut out, infos as u64);
    append_str(&mut out, " info\n");
    if errors > 0 {
        append_str(&mut out, "Critical issues found - please review and fix errors\n");
    } else if warnings > 0 {
        append_str(&mut out, "Some warnings found - consider reviewing for optimization\n");
    } else {
        append_str(&mut out, "Only informational messages - good job!\n");
    }
    assert(out@ =~= spec_prompt_output(rs));
    chars_to_string(&out)
}

/// Either output shape from one finding list: the structured document for a
/// file destination, the console summary otherwise.
pub fn generate_sarif_output_optional(results: &Vec<RuleResult>, as_document: bool) -> (r: String)
    ensures
        as_document ==> r@ == spec_sarif_doc(results.deep_view()),
        !as_document ==> r@ == spec_prompt_output(results.deep_view()),
{
    if as_document {
        generate_sarif_output(results)
    } else {
        output_results_to_prompt(results)
    }
}

} // verus!
