//! The catalog codec: serialize the rule catalog to a portable line-based
//! document and parse such documents back, so that catalogs can be
//! exported, edited and re-imported with merge semantics. The parser
//! accepts exactly the grammar the emitter writes: quoted strings with
//! escaped control characters, canonical integers, `true`/`false`, and
//! `null` for absent queries.

use vstd::prelude::*;
use crate::chars::{
    append_chars, append_str, chars_to_string, escape_chars, lemma_escape_clean, lemma_split_join,
    lemma_unescape_escape, spec_clean_line, spec_escape, spec_join_lines, spec_split_lines,
    spec_unescape, split_lines, str_to_chars, unescape_chars,
};
use crate::num::{
    lemma_i64_dec_injective, lemma_nat_dec_digits, parse_i64_chars, push_i64_dec, push_u64_dec,
    spec_i64_dec, spec_is_digit, spec_nat_dec,
};
use crate::rules::{Rule, RuleModel};

verus! {

/// A line holding `prefix "escaped-text"`.
pub open spec fn spec_q_line(prefix: Seq<char>, s: Seq<char>) -> Seq<char> {
    prefix + seq!['"'] + spec_escape(s) + seq!['"']
}

/// A line holding `prefix` followed by a canonical integer.
pub open spec fn spec_int_line(prefix: Seq<char>, v: int) -> Seq<char> {
    prefix + spec_i64_dec(v)
}

/// A line holding `prefix` followed by `true` or `false`.
pub open spec fn spec_bool_line(prefix: Seq<char>, b: bool) -> Seq<char> {
    prefix + (if b {
        "true"@
    } else {
        "false"@
    })
}

/// A line holding `prefix` followed by a quoted string or `null`.
pub open spec fn spec_opt_line(prefix: Seq<char>, o: Option<Seq<char>>) -> Seq<char> {
    match o {
        Some(s) => spec_q_line(prefix, s),
        None => prefix + "null"@,
    }
}

/// The lines of a rule's fix list: `fixes: []` when empty, otherwise a
/// header and one quoted item line per fix.
pub open spec fn spec_fixes_lines(fixes: Seq<Seq<char>>) -> Seq<Seq<char>> {
    if fixes.len() == 0 {
        seq!["  fixes: []"@]
    } else {
        seq!["  fixes:"@] + fixes.map(|i: int, f: Seq<char>| spec_q_line("  - "@, f))
    }
}

/// The lines of one rule block.
pub open spec fn spec_rule_lines(m: RuleModel) -> Seq<Seq<char>> {
    seq![
        spec_int_line("- id: "@, m.id),
        spec_q_line("  code: "@, m.code),
        spec_q_line("  name: "@, m.name),
        spec_q_line("  description: "@, m.description),
        spec_q_line("  scope: "@, m.scope),
        spec_bool_line("  enable: "@, m.enable),
        spec_int_line("  warning_level: "@, m.warning_level),
        spec_int_line("  error_level: "@, m.error_level),
        spec_q_line("  message: "@, m.message),
    ] + spec_fixes_lines(m.fixes) + seq![
        spec_opt_line("  q1: "@, m.q1),
        spec_opt_line("  q2: "@, m.q2),
        spec_opt_line("  q3: "@, m.q3),
        spec_opt_line("  q4: "@, m.q4),
    ]
}

/// The concatenated lines of all rule blocks.
pub open spec fn spec_rules_lines(rules: Seq<RuleModel>) -> Seq<Seq<char>>
    decreases rules.len(),
{
    if rules.len() == 0 {
        Seq::empty()
    } else {
        spec_rule_lines(rules[0]) + spec_rules_lines(rules.skip(1))
    }
}

/// All lines of a rules document: the metadata block, then the rule list.
pub open spec fn spec_doc_lines(
    rules: Seq<RuleModel>,
    timestamp: Seq<char>,
    total: int,
    version: Seq<char>,
) -> Seq<Seq<char>> {
    seq![
        "metadata:"@,
        spec_q_line("  export_timestamp: "@, timestamp),
        spec_int_line("  total_rules: "@, total),
        spec_q_line("  format_version: "@, version),
    ] + (if rules.len() == 0 {
        seq!["rules: []"@]
    } else {
        seq!["rules:"@] + spec_rules_lines(rules)
    })
}

/// The document text: all lines, each closed by a newline.
pub open spec fn spec_emit_doc(
    rules: Seq<RuleModel>,
    timestamp: Seq<char>,
    total: int,
    version: Seq<char>,
) -> Seq<char> {
    spec_join_lines(spec_doc_lines(rules, timestamp, total, version))
}

/// The format version the exporter writes.
pub open spec fn spec_format_version() -> Seq<char> {
    "1.0"@
}

/// Joining distributes over appending one line.
pub proof fn lemma_join_push(lines: Seq<Seq<char>>, l: Seq<char>)
    ensures
        spec_join_lines(lines.push(l)) == spec_join_lines(lines) + l + seq!['\n'],
    decreases lines.len(),
{
    if lines.len() == 0 {
        assert(lines.push(l)[0] == l);
        assert(lines.push(l).skip(1) =~= Seq::<Seq<char>>::empty());
        assert(spec_join_lines(Seq::<Seq<char>>::empty()) == Seq::<char>::empty());
        assert(spec_join_lines(lines.push(l)) =~= l + seq!['\n']);
        assert(spec_join_lines(lines) + l + seq!['\n'] =~= l + seq!['\n']);
    } else {
        lemma_join_push(lines.skip(1), l);
        assert(lines.push(l)[0] == lines[0]);
        assert(lines.push(l).skip(1) =~= lines.skip(1).push(l));
        assert(spec_join_lines(lines.push(l)) == lines[0] + seq!['\n'] + spec_join_lines(
            lines.skip(1).push(l),
        ));
        assert(lines[0] + seq!['\n'] + (spec_join_lines(lines.skip(1)) + l + seq!['\n'])
            =~= spec_join_lines(lines) + l + seq!['\n']);
    }
}

/// Joining distributes over concatenation of line lists.
pub proof fn lemma_join_concat(a: Seq<Seq<char>>, b: Seq<Seq<char>>)
    ensures
        spec_join_lines(a + b) == spec_join_lines(a) + spec_join_lines(b),
    decreases a.len(),
{
    if a.len() == 0 {
        assert(a + b =~= b);
        assert(spec_join_lines(a) + spec_join_lines(b) =~= spec_join_lines(b));
    } else {
        lemma_join_concat(a.skip(1), b);
        assert((a + b)[0] == a[0]);
        assert((a + b).skip(1) =~= a.skip(1) + b);
        assert(a[0] + seq!['\n'] + (spec_join_lines(a.skip(1)) + spec_join_lines(b))
            =~= spec_join_lines(a) + spec_join_lines(b));
    }
}


/// The join of one line is that line plus its newline.
pub proof fn lemma_join_single(l: Seq<char>)
    ensures
        spec_join_lines(seq![l]) == l + seq!['\n'],
{
    assert(seq![l].skip(1) =~= Seq::<Seq<char>>::empty());
    assert(spec_join_lines(Seq::<Seq<char>>::empty()) == Seq::<char>::empty());
    assert(seq![l][0] == l);
    assert(spec_join_lines(seq![l]) =~= l + seq!['\n']);
}

/// Append a quoted-string line.
fn push_q_line(out: &mut Vec<char>, prefix: &str, s: &str)
    ensures
        final(out)@ == old(out)@ + spec_q_line(prefix@, s@) + seq!['\n'],
{
    append_str(out, prefix);
    out.push('"');
    let cs = str_to_chars(s);
    let esc = escape_chars(&cs);
    append_chars(out, &esc);
    out.push('"');
    out.push('\n');
    assert(final(out)@ =~= old(out)@ + spec_q_line(prefix@, s@) + seq!['\n']);
}

/// Append an integer line.
fn push_int_line(out: &mut Vec<char>, prefix: &str, v: i64)
    ensures
        final(out)@ == old(out)@ + spec_int_line(prefix@, v as int) + seq!['\n'],
{
    append_str(out, prefix);
    push_i64_dec(out, v);
    out.push('\n');
    assert(final(out)@ =~= old(out)@ + spec_int_line(prefix@, v as int) + seq!['\n']);
}

/// Append a boolean line.
fn push_bool_line(out: &mut Vec<char>, prefix: &str, b: bool)
    ensures
        final(out)@ == old(out)@ + spec_bool_line(prefix@, b) + seq!['\n'],
{
    append_str(out, prefix);
    if b {
        append_str(out, "true");
    } else {
        append_str(out, "false");
    }
    out.push('\n');
    assert(final(out)@ =~= old(out)@ + spec_bool_line(prefix@, b) + seq!['\n']);
}

/// Append an optional-string line.
fn push_opt_line(out: &mut Vec<char>, prefix: &str, o: &Option<String>)
    ensures
        final(out)@ == old(out)@ + spec_opt_line(prefix@, crate::rules::spec_opt_string(*o))
            + seq!['\n'],
{
    match o {
        Some(s) => {
            push_q_line(out, prefix, s.as_str());
        },
        None => {
            append_str(out, prefix);
            append_str(out, "null");
            out.push('\n');
            assert(final(out)@ =~= old(out)@ + (prefix@ + "null"@) + seq!['\n']);
        },
    }
}

/// Append a bare literal line.
fn push_lit_line(out: &mut Vec<char>, lit: &str)
    ensures
        final(out)@ == old(out)@ + lit@ + seq!['\n'],
{
    append_str(out, lit);
    out.push('\n');
    assert(final(out)@ =~= old(out)@ + lit@ + seq!['\n']);
}

/// Append one rule block.
#[verifier::rlimit(100)]
fn push_rule_lines(out: &mut Vec<char>, r: &Rule)
    ensures
        final(out)@ == old(out)@ + spec_join_lines(spec_rule_lines(r@)),
{
    let ghost base = out@;
    let ghost mut glines: Seq<Seq<char>> = Seq::empty();
    proof {
        assert(spec_join_lines(glines) == Seq::<char>::empty());
        assert(out@ =~= base + spec_join_lines(glines));
    }
    push_int_line(out, "- id: ", r.id);
    proof {
        lemma_join_push(glines, spec_int_line("- id: "@, r@.id));
        glines = glines.push(spec_int_line("- id: "@, r@.id));
        assert(out@ =~= base + spec_join_lines(glines));
    }
    push_q_line(out, "  code: ", r.code.as_str());
    proof {
        lemma_join_push(glines, spec_q_line("  code: "@, r@.code));
        glines = glines.push(spec_q_line("  code: "@, r@.code));
        assert(out@ =~= base + spec_join_lines(glines));
    }
    push_q_line(out, "  name: ", r.name.as_str());
    proof {
        lemma_join_push(glines, spec_q_line("  name: "@, r@.name));
        glines = glines.push(spec_q_line("  name: "@, r@.name));
        assert(out@ =~= base + spec_join_lines(glines));
    }
    push_q_line(out, "  description: ", r.description.as_str());
    proof {
        lemma_join_push(glines, spec_q_line("  description: "@, r@.description));
        glines = glines.push(spec_q_line("  description: "@, r@.description));
        assert(out@ =~= base + spec_join_lines(glines));
    }
    push_q_line(out, "  scope: ", r.scope.as_str());
    proof {
        lemma_join_push(glines, spec_q_line("  scope: "@, r@.scope));
        glines = glines.push(spec_q_line("  scope: "@, r@.scope));
        assert(out@ =~= base + spec_join_lines(glines));
    }
    push_bool_line(out, "  enable: ", r.enable);
    proof {
        lemma_join_push(glines, spec_bool_line("  enable: "@, r@.enable));
        glines = glines.push(spec_bool_line("  enable: "@, r@.enable));
        assert(out@ =~= base + spec_join_lines(glines));
    }
    push_int_line(out, "  warning_level: ", r.warning_level);
    proof {
        lemma_join_push(glines, spec_int_line("  warning_level: "@, r@.warning_level));
        glines = glines.push(spec_int_line("  warning_level: "@, r@.warning_level));
        assert(out@ =~= base + spec_join_lines(glines));
    }
    push_int_line(out, "  error_level: ", r.error_level);
    proof {
        lemma_join_push(glines, spec_int_line("  error_level: "@, r@.error_level));
        glines = glines.push(spec_int_line("  error_level: "@, r@.error_level));
        assert(out@ =~= base + spec_join_lines(glines));
    }
    push_q_line(out, "  message: ", r.message.as_str());
    let ghost head = seq![
        spec_int_line("- id: "@, r@.id),
        spec_q_line("  code: "@, r@.code),
        spec_q_line("  name: "@, r@.name),
        spec_q_line("  description: "@, r@.description),
        spec_q_line("  scope: "@, r@.scope),
        spec_bool_line("  enable: "@, r@.enable),
        spec_int_line("  warning_level: "@, r@.warning_level),
        spec_int_line("  error_level: "@, r@.error_level),
        spec_q_line("  message: "@, r@.message),
    ];
    proof {
        lemma_join_push(glines, spec_q_line("  message: "@, r@.message));
        glines = glines.push(spec_q_line("  message: "@, r@.message));
        assert(out@ =~= base + spec_join_lines(glines));
        assert(glines =~= head);
    }
    let nf: usize = r.fixes.len();
    if nf == 0 {
        push_lit_line(out, "  fixes: []");
        proof {
            lemma_join_push(glines, "  fixes: []"@);
            glines = glines.push("  fixes: []"@);
            assert(out@ =~= base + spec_join_lines(glines));
            assert(glines =~= head + spec_fixes_lines(r@.fixes));
        }
    } else {
        push_lit_line(out, "  fixes:");
        proof {
            lemma_join_push(glines, "  fixes:"@);
            glines = glines.push("  fixes:"@);
            assert(out@ =~= base + spec_join_lines(glines));
        }
        let ghost fixlines = r@.fixes.map(|i: int, f: Seq<char>| spec_q_line("  - "@, f));
        let ghost mid_glines = glines;
        let mut fi: usize = 0;
        proof {
            assert(fixlines.subrange(0, 0) =~= Seq::<Seq<char>>::empty());
            assert(glines =~= mid_glines + fixlines.subrange(0, 0));
        }
        while fi < nf
            invariant
                fi <= nf,
                nf == r@.fixes.len(),
                fixlines == r@.fixes.map(|i: int, f: Seq<char>| spec_q_line("  - "@, f)),
                fixlines.len() == nf,
                glines == mid_glines + fixlines.subrange(0, fi as int),
                out@ == base + spec_join_lines(glines),
            decreases nf - fi,
        {
            push_q_line(out, "  - ", r.fixes[fi].as_str());
            proof {
                assert(fixlines[fi as int] == spec_q_line("  - "@, r@.fixes[fi as int]));
                lemma_join_push(glines, fixlines[fi as int]);
                glines = glines.push(fixlines[fi as int]);
            }
            fi = fi + 1;
            proof {
                assert(glines =~= mid_glines + fixlines.subrange(0, fi as int));
                assert(out@ =~= base + spec_join_lines(glines));
            }
        }
        proof {
            assert(fixlines.subrange(0, nf as int) =~= fixlines);
            assert(glines =~= head + spec_fixes_lines(r@.fixes)) by {
                assert(spec_fixes_lines(r@.fixes) == seq!["  fixes:"@] + fixlines);
            }
        }
    }
    push_opt_line(out, "  q1: ", &r.q1);
    proof {
        lemma_join_push(glines, spec_opt_line("  q1: "@, r@.q1));
        glines = glines.push(spec_opt_line("  q1: "@, r@.q1));
        assert(out@ =~= base + spec_join_lines(glines));
    }
    push_opt_line(out, "  q2: ", &r.q2);
    proof {
        lemma_join_push(glines, spec_opt_line("  q2: "@, r@.q2));
        glines = glines.push(spec_opt_line("  q2: "@, r@.q2));
        assert(out@ =~= base + spec_join_lines(glines));
    }
    push_opt_line(out, "  q3: ", &r.q3);
    proof {
        lemma_join_push(glines, spec_opt_line("  q3: "@, r@.q3));
        glines = glines.push(spec_opt_line("  q3: "@, r@.q3));
        assert(out@ =~= base + spec_join_lines(glines));
    }
    push_opt_line(out, "  q4: ", &r.q4);
    proof {
        lemma_join_push(glines, spec_opt_line("  q4: "@, r@.q4));
        glines = glines.push(spec_opt_line("  q4: "@, r@.q4));
        assert(out@ =~= base + spec_join_lines(glines));
        assert(glines =~= spec_rule_lines(r@));
    }
}

/// Serialize the whole catalog to a rules document. The caller supplies the
/// export timestamp; the row count and the format version come from the
/// catalog itself.
pub fn export_rules_to_yaml(catalog: &crate::catalog::RuleCatalog, timestamp: &str) -> (r: String)
    requires
        catalog@.len() <= i64::MAX,
    ensures
        r@ == spec_emit_doc(
            catalog@,
            timestamp@,
            catalog@.len() as int,
            spec_format_version(),
        ),
{
    let mut out: Vec<char> = Vec::new();
    let ghost mut glines: Seq<Seq<char>> = Seq::empty();
    push_lit_line(&mut out, "metadata:");
    proof {
        lemma_join_push(glines, "metadata:"@);
        glines = glines.push("metadata:"@);
        assert(out@ =~= spec_join_lines(glines));
    }
    push_q_line(&mut out, "  export_timestamp: ", timestamp);
    proof {
        lemma_join_push(glines, spec_q_line("  export_timestamp: "@, timestamp@));
        glines = glines.push(spec_q_line("  export_timestamp: "@, timestamp@));
        assert(out@ =~= spec_join_lines(glines));
    }
    let total: i64 = catalog.rules.len() as i64;
    push_int_line(&mut out, "  total_rules: ", total);
    proof {
        lemma_join_push(glines, spec_int_line("  total_rules: "@, catalog@.len() as int));
        glines = glines.push(spec_int_line("  total_rules: "@, catalog@.len() as int));
        assert(out@ =~= spec_join_lines(glines));
    }
    push_q_line(&mut out, "  format_version: ", "1.0");
    let ghost head = seq![
        "metadata:"@,
        spec_q_line("  export_timestamp: "@, timestamp@),
        spec_int_line("  total_rules: "@, catalog@.len() as int),
        spec_q_line("  format_version: "@, spec_format_version()),
    ];
    proof {
        lemma_join_push(glines, spec_q_line("  format_version: "@, spec_format_version()));
        glines = glines.push(spec_q_line("  format_version: "@, spec_format_version()));
        assert(out@ =~= spec_join_lines(glines));
        assert(glines =~= head);
    }
    let n: usize = catalog.rules.len();
    if n == 0 {
        push_lit_line(&mut out, "rules: []");
        proof {
            lemma_join_push(glines, "rules: []"@);
            glines = glines.push("rules: []"@);
            assert(out@ =~= spec_join_lines(glines));
            assert(glines =~= spec_doc_lines(catalog@, timestamp@, catalog@.len() as int,
                spec_format_version()));
        }
    } else {
        push_lit_line(&mut out, "rules:");
        proof {
            lemma_join_push(glines, "rules:"@);
            glines = glines.push("rules:"@);
            assert(out@ =~= spec_join_lines(glines));
            assert(catalog@.skip(0) =~= catalog@);
            assert(spec_rules_lines(catalog@.skip(0)).subrange(0, 0)
                =~= Seq::<Seq<char>>::empty());
        }
        let ghost head2 = glines;
        let ghost doc = head2 + spec_rules_lines(catalog@);
        proof {
            lemma_join_concat(head2, spec_rules_lines(catalog@));
            assert(catalog@.skip(0) =~= catalog@);
        }
        let mut i: usize = 0;
        while i < n
            invariant
                i <= n,
                n == catalog@.len(),
                doc == head2 + spec_rules_lines(catalog@),
                spec_join_lines(doc) == out@ + spec_join_lines(
                    spec_rules_lines(catalog@.skip(i as int)),
                ),
            decreases n - i,
        {
            let ghost rest = catalog@.skip(i as int);
            proof {
                assert(rest[0] == catalog@[i as int]);
                assert(rest.skip(1) =~= catalog@.skip(i + 1));
                assert(spec_rules_lines(rest) == spec_rule_lines(rest[0]) + spec_rules_lines(
                    catalog@.skip(i + 1),
                ));
                lemma_join_concat(spec_rule_lines(rest[0]), spec_rules_lines(catalog@.skip(i + 1)));
            }
            push_rule_lines(&mut out, &catalog.rules[i]);
            i = i + 1;
            assert(spec_join_lines(doc) =~= out@ + spec_join_lines(
                spec_rules_lines(catalog@.skip(i as int)),
            ));
        }
        proof {
            assert(catalog@.skip(n as int) =~= Seq::<RuleModel>::empty());
            assert(spec_rules_lines(catalog@.skip(n as int)) =~= Seq::<Seq<char>>::empty());
            assert(out@ =~= spec_join_lines(doc));
            assert(doc =~= spec_doc_lines(catalog@, timestamp@, catalog@.len() as int,
                spec_format_version()));
        }
    }
    chars_to_string(&out)
}


/// The mathematical model of a parsed document.
pub ghost struct DocModel {
    pub export_timestamp: Seq<char>,
    pub total_rules: int,
    pub format_version: Seq<char>,
    pub rules: Seq<RuleModel>,
}

/// The metadata block of an exported document.
pub struct ExportMetadata {
    pub export_timestamp: String,
    pub total_rules: i64,
    pub format_version: String,
}

/// A parsed rules document: its metadata and its rule list.
pub struct RulesExport {
    pub metadata: ExportMetadata,
    pub rules: Vec<Rule>,
}

impl View for RulesExport {
    type V = DocModel;

    open spec fn view(&self) -> DocModel {
        DocModel {
            export_timestamp: self.metadata.export_timestamp@,
            total_rules: self.metadata.total_rules as int,
            format_version: self.metadata.format_version@,
            rules: self.rules.deep_view(),
        }
    }
}

/// The line starts with the given prefix.
pub open spec fn spec_starts_with(l: Seq<char>, prefix: Seq<char>) -> bool {
    l.len() >= prefix.len() && l.take(prefix.len() as int) == prefix
}

/// Parse `prefix "escaped-text"`.
pub open spec fn spec_parse_q(l: Seq<char>, prefix: Seq<char>) -> Option<Seq<char>> {
    if l.len() >= prefix.len() + 2 && l.take(prefix.len() as int) == prefix && l[prefix.len() as int]
        == '"' && l.last() == '"' {
        spec_unescape(l.subrange(prefix.len() as int + 1, l.len() as int - 1))
    } else {
        None
    }
}

/// The unique value whose canonical decimal form this is, if any.
pub open spec fn spec_parse_i64(s: Seq<char>) -> Option<int> {
    if exists|v: int| i64::MIN <= v <= i64::MAX && s == spec_i64_dec(v) {
        Some(choose|v: int| i64::MIN <= v <= i64::MAX && s == spec_i64_dec(v))
    } else {
        None
    }
}

/// Parse `prefix` followed by a canonical integer.
pub open spec fn spec_parse_int(l: Seq<char>, prefix: Seq<char>) -> Option<int> {
    if spec_starts_with(l, prefix) {
        spec_parse_i64(l.skip(prefix.len() as int))
    } else {
        None
    }
}

/// Parse `prefix` followed by `true` or `false`.
pub open spec fn spec_parse_bool(l: Seq<char>, prefix: Seq<char>) -> Option<bool> {
    if spec_starts_with(l, prefix) {
        if l.skip(prefix.len() as int) == "true"@ {
            Some(true)
        } else if l.skip(prefix.len() as int) == "false"@ {
            Some(false)
        } else {
            None
        }
    } else {
        None
    }
}

/// Parse `prefix` followed by a quoted string or `null`.
pub open spec fn spec_parse_opt(l: Seq<char>, prefix: Seq<char>) -> Option<Option<Seq<char>>> {
    if !spec_starts_with(l, prefix) {
        None
    } else if l.skip(prefix.len() as int) == "null"@ {
        Some(None)
    } else {
        match spec_parse_q(l, prefix) {
            Some(s) => Some(Some(s)),
            None => None,
        }
    }
}

/// Two character vectors hold the same characters.
pub fn chars_eq(a: &Vec<char>, b: &Vec<char>) -> (r: bool)
    ensures
        r == (a@ == b@),
{
    let na: usize = a.len();
    if na != b.len() {
        return false;
    }
    let mut i: usize = 0;
    while i < na
        invariant
            i <= na,
            na == a@.len(),
            na == b@.len(),
            forall|k: int| 0 <= k < i ==> a@[k] == b@[k],
        decreases na - i,
    {
        if a[i] != b[i] {
            return false;
        }
        i = i + 1;
    }
    assert(a@ =~= b@);
    true
}

/// A vector holding this subrange of the line.
fn copy_range(line: &Vec<char>, from: usize, to: usize) -> (r: Vec<char>)
    requires
        from <= to <= line@.len(),
    ensures
        r@ == line@.subrange(from as int, to as int),
{
    let mut r: Vec<char> = Vec::new();
    let mut i: usize = from;
    while i < to
        invariant
            from <= i <= to,
            to <= line@.len(),
            r@ == line@.subrange(from as int, i as int),
        decreases to - i,
    {
        r.push(line[i]);
        i = i + 1;
        assert(r@ =~= line@.subrange(from as int, i as int));
    }
    r
}

/// Whether the line starts with this prefix.
fn starts_with_lit(line: &Vec<char>, prefix: &str) -> (r: bool)
    ensures
        r == spec_starts_with(line@, prefix@),
{
    let p = str_to_chars(prefix);
    if p.len() > line.len() {
        assert(!spec_starts_with(line@, prefix@));
        return false;
    }
    let r = crate::chars::match_at(line, 0, &p);
    proof {
        assert(line@.subrange(0, p@.len() as int) =~= line@.take(p@.len() as int));
    }
    r
}

/// Parse a quoted-string line.
fn parse_q_line(line: &Vec<char>, prefix: &str) -> (r: Option<String>)
    ensures
        match r {
            Some(s) => spec_parse_q(line@, prefix@) == Some(s@),
            None => spec_parse_q(line@, prefix@) is None,
        },
{
    let p = str_to_chars(prefix);
    let plen: usize = p.len();
    let llen: usize = line.len();
    if llen < plen || llen - plen < 2 {
        return None;
    }
    if !crate::chars::match_at(line, 0, &p) {
        proof {
            assert(line@.subrange(0, plen as int) =~= line@.take(plen as int));
        }
        return None;
    }
    proof {
        assert(line@.subrange(0, plen as int) =~= line@.take(plen as int));
    }
    if line[plen] != '"' {
        return None;
    }
    if line[llen - 1] != '"' {
        return None;
    }
    let mid = copy_range(line, plen + 1, llen - 1);
    match unescape_chars(&mid) {
        Some(v) => Some(chars_to_string(&v)),
        None => None,
    }
}

/// Parse an integer line.
fn parse_int_line(line: &Vec<char>, prefix: &str) -> (r: Option<i64>)
    ensures
        match r {
            Some(v) => spec_parse_int(line@, prefix@) == Some(v as int),
            None => spec_parse_int(line@, prefix@) is None,
        },
{
    let p = str_to_chars(prefix);
    let plen: usize = p.len();
    if plen > line.len() || !crate::chars::match_at(line, 0, &p) {
        proof {
            if plen <= line.len() {
                assert(line@.subrange(0, plen as int) =~= line@.take(plen as int));
            }
        }
        return None;
    }
    proof {
        assert(line@.subrange(0, plen as int) =~= line@.take(plen as int));
    }
    let rest = copy_range(line, plen, line.len());
    proof {
        assert(rest@ =~= line@.skip(plen as int));
    }
    let parsed = parse_i64_chars(&rest);
    proof {
        match parsed {
            Some(v) => {
                assert(rest@ == spec_i64_dec(v as int));
                let w = choose|x: int|
                    i64::MIN <= x <= i64::MAX && rest@ == spec_i64_dec(x);
                assert(i64::MIN <= w <= i64::MAX && rest@ == spec_i64_dec(w));
                lemma_i64_dec_injective(w, v as int);
            },
            None => {
                if exists|x: int| i64::MIN <= x <= i64::MAX && rest@ == spec_i64_dec(x) {
                    let w = choose|x: int|
                        i64::MIN <= x <= i64::MAX && rest@ == spec_i64_dec(x);
                    assert(rest@ != spec_i64_dec(w));
                }
            },
        }
    }
    parsed
}

/// Parse a boolean line.
fn parse_bool_line(line: &Vec<char>, prefix: &str) -> (r: Option<bool>)
    ensures
        match r {
            Some(b) => spec_parse_bool(line@, prefix@) == Some(b),
            None => spec_parse_bool(line@, prefix@) is None,
        },
{
    let p = str_to_chars(prefix);
    let plen: usize = p.len();
    if plen > line.len() || !crate::chars::match_at(line, 0, &p) {
        proof {
            if plen <= line.len() {
                assert(line@.subrange(0, plen as int) =~= line@.take(plen as int));
            }
        }
        return None;
    }
    proof {
        assert(line@.subrange(0, plen as int) =~= line@.take(plen as int));
    }
    let rest = copy_range(line, plen, line.len());
    proof {
        assert(rest@ =~= line@.skip(plen as int));
    }
    let t = str_to_chars("true");
    let f = str_to_chars("false");
    if chars_eq(&rest, &t) {
        Some(true)
    } else if chars_eq(&rest, &f) {
        Some(false)
    } else {
        None
    }
}

/// Parse an optional-string line.
fn parse_opt_line(line: &Vec<char>, prefix: &str) -> (r: Option<Option<String>>)
    ensures
        match r {
            Some(o) => spec_parse_opt(line@, prefix@) == Some(crate::rules::spec_opt_string(o)),
            None => spec_parse_opt(line@, prefix@) is None,
        },
{
    let p = str_to_chars(prefix);
    let plen: usize = p.len();
    if plen > line.len() || !crate::chars::match_at(line, 0, &p) {
        proof {
            if plen <= line.len() {
                assert(line@.subrange(0, plen as int) =~= line@.take(plen as int));
            }
        }
        return None;
    }
    proof {
        assert(line@.subrange(0, plen as int) =~= line@.take(plen as int));
    }
    let rest = copy_range(line, plen, line.len());
    proof {
        assert(rest@ =~= line@.skip(plen as int));
    }
    let nl = str_to_chars("null");
    if chars_eq(&rest, &nl) {
        return Some(None);
    }
    match parse_q_line(line, prefix) {
        Some(s) => Some(Some(s)),
        None => None,
    }
}


/// The models of a vector of lines.
pub open spec fn spec_lines_model(lines: Seq<Vec<char>>) -> Seq<Seq<char>> {
    Seq::new(lines.len(), |i: int| lines[i]@)
}

/// Collect consecutive `- "fix"` item lines.
pub open spec fn spec_parse_fixes(lines: Seq<Seq<char>>, i: int) -> (Seq<Seq<char>>, int)
    decreases lines.len() - i,
{
    if i < 0 || i >= lines.len() {
        (Seq::empty(), i)
    } else {
        match spec_parse_q(lines[i], "  - "@) {
            Some(f) => {
                let (rest, j) = spec_parse_fixes(lines, i + 1);
                (seq![f] + rest, j)
            },
            None => (Seq::empty(), i),
        }
    }
}

/// Parse a rule's fix list: `fixes: []`, or a header and one or more item
/// lines.
pub open spec fn spec_parse_fixes_block(lines: Seq<Seq<char>>, i: int) -> Option<
    (Seq<Seq<char>>, int),
> {
    if i < 0 || i >= lines.len() {
        None
    } else if lines[i] == "  fixes: []"@ {
        Some((Seq::empty(), i + 1))
    } else if lines[i] == "  fixes:"@ {
        let (fs, j) = spec_parse_fixes(lines, i + 1);
        if fs.len() >= 1 {
            Some((fs, j))
        } else {
            None
        }
    } else {
        None
    }
}

/// Parse one rule block starting at line `i`; yields the rule and the index
/// of the first line after the block.
pub open spec fn spec_parse_rule_block(lines: Seq<Seq<char>>, i: int) -> Option<(RuleModel, int)> {
    if i < 0 || i + 9 > lines.len() {
        None
    } else {
        match spec_parse_int(lines[i], "- id: "@) {
            None => None,
            Some(id) => match spec_parse_q(lines[i + 1], "  code: "@) {
                None => None,
                Some(code) => match spec_parse_q(lines[i + 2], "  name: "@) {
                    None => None,
                    Some(name) => match spec_parse_q(lines[i + 3], "  description: "@) {
                        None => None,
                        Some(description) => match spec_parse_q(lines[i + 4], "  scope: "@) {
                            None => None,
                            Some(scope) => match spec_parse_bool(lines[i + 5], "  enable: "@) {
                                None => None,
                                Some(enable) => match spec_parse_int(
                                    lines[i + 6],
                                    "  warning_level: "@,
                                ) {
                                    None => None,
                                    Some(w) => match spec_parse_int(
                                        lines[i + 7],
                                        "  error_level: "@,
                                    ) {
                                        None => None,
                                        Some(e) => match spec_parse_q(
                                            lines[i + 8],
                                            "  message: "@,
                                        ) {
                                            None => None,
                                            Some(message) => spec_parse_rule_tail(
                                                lines,
                                                i,
                                                id,
                                                code,
                                                name,
                                                description,
                                                scope,
                                                enable,
                                                w,
                                                e,
                                                message,
                                            ),
                                        },
                                    },
                                },
                            },
                        },
                    },
                },
            },
        }
    }
}

/// The fix list and query lines of a rule block.
pub open spec fn spec_parse_rule_tail(
    lines: Seq<Seq<char>>,
    i: int,
    id: int,
    code: Seq<char>,
    name: Seq<char>,
    description: Seq<char>,
    scope: Seq<char>,
    enable: bool,
    warning_level: int,
    error_level: int,
    message: Seq<char>,
) -> Option<(RuleModel, int)> {
    match spec_parse_fixes_block(lines, i + 9) {
        None => None,
        Some(pair) => {
            let fixes = pair.0;
            let j = pair.1;
            if j + 4 > lines.len() {
                None
            } else {
                match spec_parse_opt(lines[j], "  q1: "@) {
                    None => None,
                    Some(q1) => match spec_parse_opt(lines[j + 1], "  q2: "@) {
                        None => None,
                        Some(q2) => match spec_parse_opt(lines[j + 2], "  q3: "@) {
                            None => None,
                            Some(q3) => match spec_parse_opt(lines[j + 3], "  q4: "@) {
                                None => None,
                                Some(q4) => {
                                    let m = RuleModel {
                                        id: id,
                                        code: code,
                                        name: name,
                                        description: description,
                                        scope: scope,
                                        enable: enable,
                                        warning_level: warning_level,
                                        error_level: error_level,
                                        message: message,
                                        fixes: fixes,
                                        q1: q1,
                                        q2: q2,
                                        q3: q3,
                                        q4: q4,
                                    };
                                    Some((m, j + 4))
                                },
                            },
                        },
                    },
                }
            }
        },
    }
}

/// Parse rule blocks until the lines run out.
pub open spec fn spec_parse_rules_list(lines: Seq<Seq<char>>, i: int) -> Option<Seq<RuleModel>>
    decreases lines.len() - i,
{
    if i >= lines.len() {
        Some(Seq::empty())
    } else {
        match spec_parse_rule_block(lines, i) {
            None => None,
            Some((m, j)) => {
                if j <= i || j > lines.len() {
                    None
                } else {
                    match spec_parse_rules_list(lines, j) {
                        None => None,
                        Some(rest) => Some(seq![m] + rest),
                    }
                }
            },
        }
    }
}

/// Parse a whole rules document.
pub open spec fn spec_parse_doc(text: Seq<char>) -> Option<DocModel> {
    let lines = spec_split_lines(text);
    if lines.len() < 5 {
        None
    } else if lines[0] != "metadata:"@ {
        None
    } else {
        match spec_parse_q(lines[1], "  export_timestamp: "@) {
            None => None,
            Some(ts) => match spec_parse_int(lines[2], "  total_rules: "@) {
                None => None,
                Some(total) => match spec_parse_q(lines[3], "  format_version: "@) {
                    None => None,
                    Some(ver) => {
                        if lines[4] == "rules: []"@ {
                            if lines.len() == 5 {
                                Some(
                                    (DocModel {
                                        export_timestamp: ts,
                                        total_rules: total,
                                        format_version: ver,
                                        rules: Seq::empty(),
                                    }),
                                )
                            } else {
                                None
                            }
                        } else if lines[4] == "rules:"@ {
                            match spec_parse_rules_list(lines, 5) {
                                None => None,
                                Some(rs) => {
                                    if rs.len() == 0 {
                                        None
                                    } else {
                                        Some(
                                            (DocModel {
                                                export_timestamp: ts,
                                                total_rules: total,
                                                format_version: ver,
                                                rules: rs,
                                            }),
                                        )
                                    }
                                },
                            }
                        } else {
                            None
                        }
                    },
                },
            },
        }
    }
}


/// Parse one rule block of the line list, starting at line `i`.
fn parse_rule_block(lines: &Vec<Vec<char>>, i: usize) -> (r: Option<(Rule, usize)>)
    requires
        i <= lines@.len(),
    ensures
        match r {
            Some(p) => spec_parse_rule_block(spec_lines_model(lines@), i as int) == Some(
                (p.0@, p.1 as int),
            ) && i < p.1 <= lines@.len(),
            None => spec_parse_rule_block(spec_lines_model(lines@), i as int) is None,
        },
{
    let ghost gl = spec_lines_model(lines@);
    let n: usize = lines.len();
    if n - i < 9 {
        return None;
    }
    proof {
        assert(forall|k: int| 0 <= k < gl.len() ==> gl[k] == lines@[k]@);
    }
    let id = match parse_int_line(&lines[i], "- id: ") {
        Some(v) => v,
        None => {
            return None;
        },
    };
    let code = match parse_q_line(&lines[i + 1], "  code: ") {
        Some(s) => s,
        None => {
            return None;
        },
    };
    let name = match parse_q_line(&lines[i + 2], "  name: ") {
        Some(s) => s,
        None => {
            return None;
        },
    };
    let description = match parse_q_line(&lines[i + 3], "  description: ") {
        Some(s) => s,
        None => {
            return None;
        },
    };
    let scope = match parse_q_line(&lines[i + 4], "  scope: ") {
        Some(s) => s,
        None => {
            return None;
        },
    };
    let enable = match parse_bool_line(&lines[i + 5], "  enable: ") {
        Some(b) => b,
        None => {
            return None;
        },
    };
    let warning_level = match parse_int_line(&lines[i + 6], "  warning_level: ") {
        Some(v) => v,
        None => {
            return None;
        },
    };
    let error_level = match parse_int_line(&lines[i + 7], "  error_level: ") {
        Some(v) => v,
        None => {
            return None;
        },
    };
    let message = match parse_q_line(&lines[i + 8], "  message: ") {
        Some(s) => s,
        None => {
            return None;
        },
    };
    let fi: usize = i + 9;
    let mut fixes: Vec<String> = Vec::new();
    let mut j: usize;
    let empty_marker = str_to_chars("  fixes: []");
    let header_marker = str_to_chars("  fixes:");
    proof {
        reveal_strlit("  fixes: []");
        reveal_strlit("  fixes:");
    }
    if fi >= n {
        proof {
            assert(spec_parse_fixes_block(gl, fi as int) is None);
        }
        return None;
    }
    if chars_eq(&lines[fi], &empty_marker) {
        j = fi + 1;
        proof {
            assert(gl[fi as int] == "  fixes: []"@);
            assert(spec_parse_fixes_block(gl, fi as int) == Some(
                (Seq::<Seq<char>>::empty(), fi as int + 1),
            ));
            assert(fixes.deep_view() =~= Seq::<Seq<char>>::empty());
        }
    } else if chars_eq(&lines[fi], &header_marker) {
        proof {
            assert(gl[fi as int] != "  fixes: []"@);
            assert(gl[fi as int] == "  fixes:"@);
        }
        let ghost target = spec_parse_fixes(gl, fi as int + 1);
        let mut cur: usize = fi + 1;
        proof {
            assert(fixes.deep_view() =~= Seq::<Seq<char>>::empty());
            assert(Seq::<Seq<char>>::empty() + spec_parse_fixes(gl, cur as int).0
                =~= spec_parse_fixes(gl, cur as int).0);
        }
        let mut done: bool = false;
        while !done
            invariant
                fi + 1 <= cur <= n,
                n == gl.len(),
                n == lines@.len(),
                gl == spec_lines_model(lines@),
                target == spec_parse_fixes(gl, fi as int + 1),
                target.0 == fixes.deep_view() + spec_parse_fixes(gl, cur as int).0,
                target.1 == spec_parse_fixes(gl, cur as int).1,
                done ==> spec_parse_fixes(gl, cur as int).0 == Seq::<Seq<char>>::empty()
                    && spec_parse_fixes(gl, cur as int).1 == cur as int,
            decreases n - cur + (if done {
                0int
            } else {
                1int
            }),
        {
            if cur >= n {
                done = true;
                proof {
                    assert(spec_parse_fixes(gl, cur as int).0 =~= Seq::<Seq<char>>::empty());
                }
            } else {
                match parse_q_line(&lines[cur], "  - ") {
                    Some(f) => {
                        let ghost f0 = fixes.deep_view();
                        let ghost fv = f@;
                        proof {
                            assert(spec_parse_q(gl[cur as int], "  - "@) == Some(fv));
                            assert(spec_parse_fixes(gl, cur as int).0 == seq![fv]
                                + spec_parse_fixes(gl, cur as int + 1).0);
                            assert(spec_parse_fixes(gl, cur as int).1 == spec_parse_fixes(
                                gl,
                                cur as int + 1,
                            ).1);
                        }
                        fixes.push(f);
                        cur = cur + 1;
                        proof {
                            assert(fixes.deep_view() =~= f0.push(fv));
                            assert(f0 + (seq![fv] + spec_parse_fixes(gl, cur as int).0)
                                =~= f0.push(fv) + spec_parse_fixes(gl, cur as int).0);
                        }
                    },
                    None => {
                        done = true;
                        proof {
                            assert(spec_parse_fixes(gl, cur as int).0 =~= Seq::<
                                Seq<char>,
                            >::empty());
                        }
                    },
                }
            }
        }
        proof {
            assert(target.0 =~= fixes.deep_view() + Seq::<Seq<char>>::empty());
        }
        if fixes.len() == 0 {
            proof {
                assert(target.0.len() == 0);
                assert(spec_parse_fixes_block(gl, fi as int) is None);
            }
            return None;
        }
        j = cur;
        proof {
            assert(spec_parse_fixes_block(gl, fi as int) == Some(
                (fixes.deep_view(), j as int),
            )) by {
                assert(target.0 =~= fixes.deep_view());
            }
        }
    } else {
        proof {
            assert(gl[fi as int] != "  fixes: []"@);
            assert(gl[fi as int] != "  fixes:"@);
            assert(spec_parse_fixes_block(gl, fi as int) is None);
        }
        return None;
    }
    if n - j < 4 {
        proof {
            assert(j as int + 4 > gl.len());
        }
        return None;
    }
    let q1 = match parse_opt_line(&lines[j], "  q1: ") {
        Some(o) => o,
        None => {
            return None;
        },
    };
    let q2 = match parse_opt_line(&lines[j + 1], "  q2: ") {
        Some(o) => o,
        None => {
            return None;
        },
    };
    let q3 = match parse_opt_line(&lines[j + 2], "  q3: ") {
        Some(o) => o,
        None => {
            return None;
        },
    };
    let q4 = match parse_opt_line(&lines[j + 3], "  q4: ") {
        Some(o) => o,
        None => {
            return None;
        },
    };
    let rule = Rule {
        id,
        code,
        name,
        description,
        scope,
        enable,
        warning_level,
        error_level,
        message,
        fixes,
        q1,
        q2,
        q3,
        q4,
    };
    Some((rule, j + 4))
}

/// Parse a whole rules document. The only fatal condition the importer
/// knows: a document this parser rejects.
pub fn parse_rules_document(text: &str) -> (r: Result<RulesExport, String>)
    ensures
        match r {
            Ok(d) => spec_parse_doc(text@) == Some(d@),
            Err(e) => spec_parse_doc(text@) is None && e@
                == "YAML parsing error: malformed rules document"@,
        },
{
    let tv = str_to_chars(text);
    let lines = split_lines(&tv);
    let ghost gl = spec_split_lines(text@);
    proof {
        assert(spec_lines_model(lines@) =~= gl);
    }
    let n: usize = lines.len();
    if n < 5 {
        return Err(String::from_str("YAML parsing error: malformed rules document"));
    }
    let meta_marker = str_to_chars("metadata:");
    proof {
        reveal_strlit("metadata:");
    }
    if !chars_eq(&lines[0], &meta_marker) {
        proof {
            assert(gl[0] != "metadata:"@);
        }
        return Err(String::from_str("YAML parsing error: malformed rules document"));
    }
    proof {
        assert(gl[0] == "metadata:"@);
    }
    let ts = match parse_q_line(&lines[1], "  export_timestamp: ") {
        Some(s) => s,
        None => {
            return Err(String::from_str("YAML parsing error: malformed rules document"));
        },
    };
    let total = match parse_int_line(&lines[2], "  total_rules: ") {
        Some(v) => v,
        None => {
            return Err(String::from_str("YAML parsing error: malformed rules document"));
        },
    };
    let ver = match parse_q_line(&lines[3], "  format_version: ") {
        Some(s) => s,
        None => {
            return Err(String::from_str("YAML parsing error: malformed rules document"));
        },
    };
    let empty_rules_marker = str_to_chars("rules: []");
    let rules_marker = str_to_chars("rules:");
    proof {
        reveal_strlit("rules: []");
        reveal_strlit("rules:");
    }
    if chars_eq(&lines[4], &empty_rules_marker) {
        proof {
            assert(gl[4] == "rules: []"@);
        }
        if n != 5 {
            return Err(String::from_str("YAML parsing error: malformed rules document"));
        }
        let d = RulesExport {
            metadata: ExportMetadata {
                export_timestamp: ts,
                total_rules: total,
                format_version: ver,
            },
            rules: Vec::new(),
        };
        proof {
            assert(d@.rules =~= Seq::<RuleModel>::empty());
            assert(spec_parse_doc(text@) matches Some(dm) && dm.rules =~= Seq::<
                RuleModel,
            >::empty());
        }
        return Ok(d);
    }
    if !chars_eq(&lines[4], &rules_marker) {
        proof {
            assert(gl[4] != "rules: []"@ && gl[4] != "rules:"@);
        }
        return Err(String::from_str("YAML parsing error: malformed rules document"));
    }
    proof {
        assert(gl[4] == "rules:"@);
        assert(gl[4] != "rules: []"@) by {
            assert("rules:"@.len() != "rules: []"@.len());
        }
    }
    let ghost target = spec_parse_rules_list(gl, 5);
    let mut rules: Vec<Rule> = Vec::new();
    let mut i: usize = 5;
    proof {
        match spec_parse_rules_list(gl, 5) {
            Some(rest) => {
                assert(rules.deep_view() + rest =~= rest);
            },
            None => {},
        }
    }
    while i < n
        invariant
            5 <= i <= n,
            n == gl.len(),
            n == lines@.len(),
            gl == spec_lines_model(lines@),
            gl == spec_split_lines(text@),
            gl[0] == "metadata:"@,
            spec_parse_q(gl[1], "  export_timestamp: "@) == Some(ts@),
            spec_parse_int(gl[2], "  total_rules: "@) == Some(total as int),
            spec_parse_q(gl[3], "  format_version: "@) == Some(ver@),
            gl[4] == "rules:"@,
            gl[4] != "rules: []"@,
            target == spec_parse_rules_list(gl, 5),
            match spec_parse_rules_list(gl, i as int) {
                Some(rest) => target == Some(rules.deep_view() + rest),
                None => target is None,
            },
        decreases n - i,
    {
        match parse_rule_block(&lines, i) {
            Some(p) => {
                let (rule, j) = p;
                let ghost r0 = rules.deep_view();
                let ghost rv = rule@;
                proof {
                    assert(spec_parse_rule_block(gl, i as int) == Some((rv, j as int)));
                }
                rules.push(rule);
                i = j;
                proof {
                    assert(rules.deep_view() =~= r0.push(rv));
                    match spec_parse_rules_list(gl, i as int) {
                        Some(rest) => {
                            assert(r0 + (seq![rv] + rest) =~= r0.push(rv) + rest);
                        },
                        None => {},
                    }
                }
            },
            None => {
                proof {
                    assert(spec_parse_rules_list(gl, i as int) is None);
                }
                return Err(String::from_str("YAML parsing error: malformed rules document"));
            },
        }
    }
    proof {
        assert(spec_parse_rules_list(gl, n as int) == Some(Seq::<RuleModel>::empty()));
        assert(target == Some(rules.deep_view() + Seq::<RuleModel>::empty()));
        assert(rules.deep_view() + Seq::<RuleModel>::empty() =~= rules.deep_view());
    }
    if rules.len() == 0 {
        return Err(String::from_str("YAML parsing error: malformed rules document"));
    }
    let d = RulesExport {
        metadata: ExportMetadata {
            export_timestamp: ts,
            total_rules: total,
            format_version: ver,
        },
        rules,
    };
    Ok(d)
}


/// Quoted lines parse back to the text they were written from.
pub proof fn lemma_parse_q_of_emit(prefix: Seq<char>, s: Seq<char>)
    ensures
        spec_parse_q(spec_q_line(prefix, s), prefix) == Some(s),
{
    let l = spec_q_line(prefix, s);
    let esc = spec_escape(s);
    assert(l.len() == prefix.len() + 2 + esc.len());
    assert(l.take(prefix.len() as int) =~= prefix);
    assert(l[prefix.len() as int] == '"');
    assert(l.last() == '"');
    assert(l.subrange(prefix.len() as int + 1, l.len() as int - 1) =~= esc);
    lemma_unescape_escape(s);
}

/// Integer lines parse back to the value they were written from.
pub proof fn lemma_parse_int_of_emit(prefix: Seq<char>, v: int)
    requires
        i64::MIN <= v <= i64::MAX,
    ensures
        spec_parse_int(spec_int_line(prefix, v), prefix) == Some(v),
{
    let l = spec_int_line(prefix, v);
    if v >= 0 {
        lemma_nat_dec_digits(v);
    } else {
        lemma_nat_dec_digits(-v);
    }
    assert(spec_i64_dec(v).len() >= 1);
    assert(l.take(prefix.len() as int) =~= prefix);
    assert(l.skip(prefix.len() as int) =~= spec_i64_dec(v));
    assert(spec_starts_with(l, prefix));
    let rest = l.skip(prefix.len() as int);
    assert(rest == spec_i64_dec(v));
    let w = choose|x: int| i64::MIN <= x <= i64::MAX && rest == spec_i64_dec(x);
    assert(i64::MIN <= w <= i64::MAX && rest == spec_i64_dec(w));
    lemma_i64_dec_injective(w, v);
}

/// Boolean lines parse back to the flag they were written from.
pub proof fn lemma_parse_bool_of_emit(prefix: Seq<char>, b: bool)
    ensures
        spec_parse_bool(spec_bool_line(prefix, b), prefix) == Some(b),
{
    let l = spec_bool_line(prefix, b);
    reveal_strlit("true");
    reveal_strlit("false");
    assert(l.take(prefix.len() as int) =~= prefix);
    if b {
        assert(l.skip(prefix.len() as int) =~= "true"@);
    } else {
        assert(l.skip(prefix.len() as int) =~= "false"@);
        assert("false"@.len() != "true"@.len());
    }
}

/// Optional-string lines parse back to the value they were written from.
pub proof fn lemma_parse_opt_of_emit(prefix: Seq<char>, o: Option<Seq<char>>)
    ensures
        spec_parse_opt(spec_opt_line(prefix, o), prefix) == Some(o),
{
    let l = spec_opt_line(prefix, o);
    reveal_strlit("null");
    match o {
        None => {
            assert(l.take(prefix.len() as int) =~= prefix);
            assert(l.skip(prefix.len() as int) =~= "null"@);
        },
        Some(s) => {
            lemma_parse_q_of_emit(prefix, s);
            assert(l.take(prefix.len() as int) =~= prefix);
            assert(l.skip(prefix.len() as int)[0] == '"');
            assert(l.skip(prefix.len() as int) != "null"@) by {
                assert("null"@[0] == 'n');
            }
        },
    }
}

/// Emitted fix item lines parse back to the fixes, stopping at the first
/// line that is no fix item.
pub proof fn lemma_parse_fixes_of_emit(lines: Seq<Seq<char>>, start: int, fixes: Seq<Seq<char>>)
    requires
        0 <= start,
        start + fixes.len() < lines.len(),
        forall|k: int|
            0 <= k < fixes.len() ==> lines[start + k] == spec_q_line("  - "@, #[trigger] fixes[k]),
        spec_parse_q(lines[start + fixes.len()], "  - "@) is None,
    ensures
        spec_parse_fixes(lines, start) == (fixes, start + fixes.len()),
    decreases fixes.len(),
{
    if fixes.len() == 0 {
        assert(spec_parse_fixes(lines, start) == (Seq::<Seq<char>>::empty(), start));
        assert(fixes =~= Seq::<Seq<char>>::empty());
    } else {
        lemma_parse_q_of_emit("  - "@, fixes[0]);
        assert(lines[start] == spec_q_line("  - "@, fixes[0]));
        lemma_parse_fixes_of_emit(lines, start + 1, fixes.skip(1));
        assert(forall|k: int|
            0 <= k < fixes.skip(1).len() ==> fixes.skip(1)[k] == fixes[k + 1]);
        assert(spec_parse_fixes(lines, start).0 =~= fixes) by {
            assert(seq![fixes[0]] + fixes.skip(1) =~= fixes);
        }
    }
}

/// An emitted rule block parses back to the rule it was written from.
pub proof fn lemma_parse_rule_block_of_emit(lines: Seq<Seq<char>>, i: int, m: RuleModel)
    requires
        0 <= i,
        i + spec_rule_lines(m).len() < lines.len() || i + spec_rule_lines(m).len() == lines.len(),
        forall|k: int|
            0 <= k < spec_rule_lines(m).len() ==> lines[i + k] == #[trigger] spec_rule_lines(m)[k],
        i64::MIN <= m.id <= i64::MAX,
        i64::MIN <= m.warning_level <= i64::MAX,
        i64::MIN <= m.error_level <= i64::MAX,
    ensures
        spec_parse_rule_block(lines, i) == Some((m, i + spec_rule_lines(m).len())),
{
    let rl = spec_rule_lines(m);
    let nf = m.fixes.len() as int;
    let fxl = spec_fixes_lines(m.fixes);
    assert(rl.len() == 9 + fxl.len() + 4);
    assert(rl[0] == spec_int_line("- id: "@, m.id));
    assert(rl[1] == spec_q_line("  code: "@, m.code));
    assert(rl[2] == spec_q_line("  name: "@, m.name));
    assert(rl[3] == spec_q_line("  description: "@, m.description));
    assert(rl[4] == spec_q_line("  scope: "@, m.scope));
    assert(rl[5] == spec_bool_line("  enable: "@, m.enable));
    assert(rl[6] == spec_int_line("  warning_level: "@, m.warning_level));
    assert(rl[7] == spec_int_line("  error_level: "@, m.error_level));
    assert(rl[8] == spec_q_line("  message: "@, m.message));
    lemma_parse_int_of_emit("- id: "@, m.id);
    lemma_parse_q_of_emit("  code: "@, m.code);
    lemma_parse_q_of_emit("  name: "@, m.name);
    lemma_parse_q_of_emit("  description: "@, m.description);
    lemma_parse_q_of_emit("  scope: "@, m.scope);
    lemma_parse_bool_of_emit("  enable: "@, m.enable);
    lemma_parse_int_of_emit("  warning_level: "@, m.warning_level);
    lemma_parse_int_of_emit("  error_level: "@, m.error_level);
    lemma_parse_q_of_emit("  message: "@, m.message);
    let j = if nf == 0 {
        i + 10
    } else {
        i + 10 + nf
    };
    reveal_strlit("  fixes: []");
    reveal_strlit("  fixes:");
    if nf == 0 {
        assert(rl[9] == "  fixes: []"@);
        assert(lines[i + 9] == "  fixes: []"@);
        assert(spec_parse_fixes_block(lines, i + 9) == Some((Seq::<Seq<char>>::empty(), i + 10)));
        assert(m.fixes =~= Seq::<Seq<char>>::empty());
    } else {
        assert(rl[9] == "  fixes:"@);
        assert(lines[i + 9] == "  fixes:"@);
        assert(lines[i + 9] != "  fixes: []"@) by {
            assert("  fixes:"@.len() != "  fixes: []"@.len());
        }
        let fmap = m.fixes.map(|k: int, f: Seq<char>| spec_q_line("  - "@, f));
        assert(fxl == seq!["  fixes:"@] + fmap);
        assert forall|k: int|
            0 <= k < nf implies lines[i + 10 + k] == spec_q_line(
            "  - "@,
            #[trigger] m.fixes[k],
        ) by {
            assert(fxl[k + 1] == fmap[k]);
            assert(fmap[k] == spec_q_line("  - "@, m.fixes[k]));
            assert(rl[10 + k] == fxl[k + 1]);
            assert(lines[i + (10 + k)] == rl[10 + k]);
        }
        assert(rl[9 + fxl.len() as int] == spec_opt_line("  q1: "@, m.q1));
        assert(lines[j] == spec_opt_line("  q1: "@, m.q1));
        assert(spec_parse_q(lines[j], "  - "@) is None) by {
            reveal_strlit("  - ");
            reveal_strlit("  q1: ");
            let l = lines[j];
            let p = "  - "@;
            if l.len() >= p.len() + 2 && l.take(p.len() as int) == p {
                match m.q1 {
                    Some(q) => {
                        assert(l.take(4)[2] == l[2]);
                        assert(l[2] == "  q1: "@[2]);
                        assert("  q1: "@[2] == 'q' && p[2] == '-');
                        assert(false);
                    },
                    None => {
                        assert(l.take(4)[2] == l[2]);
                        assert(l[2] == "  q1: "@[2]);
                        assert("  q1: "@[2] == 'q' && p[2] == '-');
                        assert(false);
                    },
                }
            }
        }
        lemma_parse_fixes_of_emit(lines, i + 10, m.fixes);
        assert(spec_parse_fixes_block(lines, i + 9) == Some((m.fixes, j)));
    }
    assert(rl[9 + fxl.len() as int] == spec_opt_line("  q1: "@, m.q1));
    assert(rl[10 + fxl.len() as int] == spec_opt_line("  q2: "@, m.q2));
    assert(rl[11 + fxl.len() as int] == spec_opt_line("  q3: "@, m.q3));
    assert(rl[12 + fxl.len() as int] == spec_opt_line("  q4: "@, m.q4));
    assert(lines[j] == spec_opt_line("  q1: "@, m.q1));
    assert(lines[j + 1] == spec_opt_line("  q2: "@, m.q2));
    assert(lines[j + 2] == spec_opt_line("  q3: "@, m.q3));
    assert(lines[j + 3] == spec_opt_line("  q4: "@, m.q4));
    lemma_parse_opt_of_emit("  q1: "@, m.q1);
    lemma_parse_opt_of_emit("  q2: "@, m.q2);
    lemma_parse_opt_of_emit("  q3: "@, m.q3);
    lemma_parse_opt_of_emit("  q4: "@, m.q4);
    assert(j + 4 == i + rl.len());
    assert(spec_parse_rule_block(lines, i) == Some((m, i + rl.len())));
}

/// Every rule's thresholds and id fit the machine integers they are stored
/// in.
pub open spec fn spec_rules_in_range(rules: Seq<RuleModel>) -> bool {
    forall|k: int|
        0 <= k < rules.len() ==> i64::MIN <= (#[trigger] rules[k]).id <= i64::MAX && i64::MIN
            <= rules[k].warning_level <= i64::MAX && i64::MIN <= rules[k].error_level <= i64::MAX
}

/// Emitted rule blocks parse back to the rules they were written from.
pub proof fn lemma_parse_rules_list_of_emit(lines: Seq<Seq<char>>, i: int, rules: Seq<RuleModel>)
    requires
        0 <= i,
        i + spec_rules_lines(rules).len() == lines.len(),
        forall|k: int|
            0 <= k < spec_rules_lines(rules).len() ==> lines[i + k] == #[trigger] spec_rules_lines(
                rules,
            )[k],
        spec_rules_in_range(rules),
    ensures
        spec_parse_rules_list(lines, i) == Some(rules),
    decreases rules.len(),
{
    if rules.len() == 0 {
        assert(i == lines.len());
        assert(rules =~= Seq::<RuleModel>::empty());
    } else {
        let m = rules[0];
        let rl = spec_rule_lines(m);
        assert(spec_rules_lines(rules) == rl + spec_rules_lines(rules.skip(1)));
        assert forall|k: int| 0 <= k < rl.len() implies lines[i + k] == #[trigger] rl[k] by {
            assert(spec_rules_lines(rules)[k] == rl[k]);
            assert(lines[i + k] == spec_rules_lines(rules)[k]);
        }
        assert(rl.len() >= 14);
        lemma_parse_rule_block_of_emit(lines, i, m);
        let j = i + rl.len();
        assert forall|k: int|
            0 <= k < spec_rules_lines(rules.skip(1)).len() implies lines[j + k]
            == #[trigger] spec_rules_lines(rules.skip(1))[k] by {
            assert(spec_rules_lines(rules)[rl.len() + k] == spec_rules_lines(rules.skip(1))[k]);
            assert(lines[i + (rl.len() + k)] == spec_rules_lines(rules)[rl.len() + k]);
        }
        assert(spec_rules_in_range(rules.skip(1))) by {
            assert(forall|k: int|
                0 <= k < rules.skip(1).len() ==> rules.skip(1)[k] == rules[k + 1]);
        }
        lemma_parse_rules_list_of_emit(lines, j, rules.skip(1));
        assert(seq![m] + rules.skip(1) =~= rules);
    }
}

/// Every line the emitter writes is free of newlines.
pub proof fn lemma_doc_lines_clean(
    rules: Seq<RuleModel>,
    timestamp: Seq<char>,
    total: int,
    version: Seq<char>,
)
    ensures
        forall|k: int|
            0 <= k < spec_doc_lines(rules, timestamp, total, version).len() ==> spec_clean_line(
                #[trigger] spec_doc_lines(rules, timestamp, total, version)[k],
            ),
{
    let dl = spec_doc_lines(rules, timestamp, total, version);
    assert forall|k: int| 0 <= k < dl.len() implies spec_clean_line(dl[k]) by {
        lemma_doc_line_clean_at(rules, timestamp, total, version, k);
    }
}

/// One emitted line is free of newlines.
proof fn lemma_doc_line_clean_at(
    rules: Seq<RuleModel>,
    timestamp: Seq<char>,
    total: int,
    version: Seq<char>,
    k: int,
)
    requires
        0 <= k < spec_doc_lines(rules, timestamp, total, version).len(),
    ensures
        spec_clean_line(spec_doc_lines(rules, timestamp, total, version)[k]),
{
    let dl = spec_doc_lines(rules, timestamp, total, version);
    reveal_strlit("metadata:");
    reveal_strlit("rules:");
    reveal_strlit("rules: []");
    if k == 0 {
        assert(spec_clean_line("metadata:"@));
    } else if k == 1 {
        proof_lit_clean_export_timestamp();
        lemma_q_line_clean("  export_timestamp: "@, timestamp);
    } else if k == 2 {
        proof_lit_clean_total_rules();
        lemma_int_line_clean("  total_rules: "@, total);
    } else if k == 3 {
        proof_lit_clean_format_version();
        lemma_q_line_clean("  format_version: "@, version);
    } else if rules.len() == 0 {
        assert(k == 4);
        assert(dl[4] == "rules: []"@);
        assert(spec_clean_line("rules: []"@));
    } else if k == 4 {
        assert(dl[4] == "rules:"@);
        assert(spec_clean_line("rules:"@));
    } else {
        lemma_rules_lines_clean(rules);
        assert(dl[k] == spec_rules_lines(rules)[k - 5]);
    }
}

proof fn proof_lit_clean_export_timestamp()
    ensures
        spec_clean_line("  export_timestamp: "@),
{
    reveal_strlit("  export_timestamp: ");
}

proof fn proof_lit_clean_total_rules()
    ensures
        spec_clean_line("  total_rules: "@),
{
    reveal_strlit("  total_rules: ");
}

proof fn proof_lit_clean_format_version()
    ensures
        spec_clean_line("  format_version: "@),
{
    reveal_strlit("  format_version: ");
}

/// A quoted line is clean when its prefix is.
pub proof fn lemma_q_line_clean(prefix: Seq<char>, s: Seq<char>)
    requires
        spec_clean_line(prefix),
    ensures
        spec_clean_line(spec_q_line(prefix, s)),
{
    lemma_escape_clean(s);
    let l = spec_q_line(prefix, s);
    assert forall|i: int| 0 <= i < l.len() implies l[i] != '\n' by {
        let esc = spec_escape(s);
        if i < prefix.len() {
            assert(l[i] == prefix[i]);
        } else if i == prefix.len() {
            assert(l[i] == '"');
        } else if i < prefix.len() + 1 + esc.len() {
            assert(l[i] == esc[i - prefix.len() - 1]);
        } else {
            assert(l[i] == '"');
        }
    }
}

/// An integer line is clean when its prefix is.
pub proof fn lemma_int_line_clean(prefix: Seq<char>, v: int)
    requires
        spec_clean_line(prefix),
    ensures
        spec_clean_line(spec_int_line(prefix, v)),
{
    let l = spec_int_line(prefix, v);
    let d = spec_i64_dec(v);
    let n = if v < 0 {
        -v
    } else {
        v
    };
    lemma_nat_dec_digits(n);
    assert forall|i: int| 0 <= i < l.len() implies l[i] != '\n' by {
        if i < prefix.len() {
            assert(l[i] == prefix[i]);
        } else {
            assert(l[i] == d[i - prefix.len()]);
            if v < 0 {
                if i == prefix.len() {
                    assert(d[0] == '-');
                } else {
                    assert(d[i - prefix.len()] == spec_nat_dec(n)[i - prefix.len() - 1]);
                    assert(spec_is_digit(spec_nat_dec(n)[i - prefix.len() - 1]));
                }
            } else {
                assert(spec_is_digit(d[i - prefix.len()]));
            }
        }
    }
}

/// A boolean line is clean when its prefix is.
pub proof fn lemma_bool_line_clean(prefix: Seq<char>, b: bool)
    requires
        spec_clean_line(prefix),
    ensures
        spec_clean_line(spec_bool_line(prefix, b)),
{
    reveal_strlit("true");
    reveal_strlit("false");
    let l = spec_bool_line(prefix, b);
    let w = if b {
        "true"@
    } else {
        "false"@
    };
    assert(spec_clean_line(w));
    assert forall|i: int| 0 <= i < l.len() implies l[i] != '\n' by {
        if i < prefix.len() {
            assert(l[i] == prefix[i]);
        } else {
            assert(l[i] == w[i - prefix.len()]);
        }
    }
}

/// An optional-string line is clean when its prefix is.
pub proof fn lemma_opt_line_clean(prefix: Seq<char>, o: Option<Seq<char>>)
    requires
        spec_clean_line(prefix),
    ensures
        spec_clean_line(spec_opt_line(prefix, o)),
{
    match o {
        Some(s) => {
            lemma_q_line_clean(prefix, s);
        },
        None => {
            reveal_strlit("null");
            let l = prefix + "null"@;
            assert(spec_clean_line("null"@));
            assert forall|i: int| 0 <= i < l.len() implies l[i] != '\n' by {
                if i < prefix.len() {
                    assert(l[i] == prefix[i]);
                } else {
                    assert(l[i] == "null"@[i - prefix.len()]);
                }
            }
        },
    }
}

/// Every line of every rule block is free of newlines.
pub proof fn lemma_rules_lines_clean(rules: Seq<RuleModel>)
    ensures
        forall|k: int|
            0 <= k < spec_rules_lines(rules).len() ==> spec_clean_line(
                #[trigger] spec_rules_lines(rules)[k],
            ),
    decreases rules.len(),
{
    if rules.len() > 0 {
        lemma_rule_lines_clean(rules[0]);
        lemma_rules_lines_clean(rules.skip(1));
        let rl = spec_rule_lines(rules[0]);
        assert forall|k: int|
            0 <= k < spec_rules_lines(rules).len() implies spec_clean_line(
            #[trigger] spec_rules_lines(rules)[k],
        ) by {
            if k < rl.len() {
                assert(spec_rules_lines(rules)[k] == rl[k]);
            } else {
                assert(spec_rules_lines(rules)[k] == spec_rules_lines(rules.skip(1))[k - rl.len()]);
            }
        }
    }
}

/// Every line of one rule block is free of newlines.
pub proof fn lemma_rule_lines_clean(m: RuleModel)
    ensures
        forall|k: int|
            0 <= k < spec_rule_lines(m).len() ==> spec_clean_line(#[trigger] spec_rule_lines(m)[k]),
{
    let rl = spec_rule_lines(m);
    let fxl = spec_fixes_lines(m.fixes);
    reveal_strlit("- id: ");
    reveal_strlit("  code: ");
    reveal_strlit("  name: ");
    reveal_strlit("  description: ");
    reveal_strlit("  scope: ");
    reveal_strlit("  enable: ");
    reveal_strlit("  warning_level: ");
    reveal_strlit("  error_level: ");
    reveal_strlit("  message: ");
    reveal_strlit("  fixes: []");
    reveal_strlit("  fixes:");
    reveal_strlit("  - ");
    reveal_strlit("  q1: ");
    reveal_strlit("  q2: ");
    reveal_strlit("  q3: ");
    reveal_strlit("  q4: ");
    lemma_int_line_clean("- id: "@, m.id);
    lemma_q_line_clean("  code: "@, m.code);
    lemma_q_line_clean("  name: "@, m.name);
    lemma_q_line_clean("  description: "@, m.description);
    lemma_q_line_clean("  scope: "@, m.scope);
    lemma_bool_line_clean("  enable: "@, m.enable);
    lemma_int_line_clean("  warning_level: "@, m.warning_level);
    lemma_int_line_clean("  error_level: "@, m.error_level);
    lemma_q_line_clean("  message: "@, m.message);
    lemma_opt_line_clean("  q1: "@, m.q1);
    lemma_opt_line_clean("  q2: "@, m.q2);
    lemma_opt_line_clean("  q3: "@, m.q3);
    lemma_opt_line_clean("  q4: "@, m.q4);
    assert forall|k: int| 0 <= k < fxl.len() implies spec_clean_line(fxl[k]) by {
        if m.fixes.len() == 0 {
            assert(fxl[k] == "  fixes: []"@);
        } else if k == 0 {
            assert(fxl[0] == "  fixes:"@);
        } else {
            assert(fxl[k] == spec_q_line("  - "@, m.fixes[k - 1]));
            lemma_q_line_clean("  - "@, m.fixes[k - 1]);
        }
    }
    assert forall|k: int| 0 <= k < rl.len() implies spec_clean_line(rl[k]) by {
        if k < 9 {
        } else if k < 9 + fxl.len() {
            assert(rl[k] == fxl[k - 9]);
        } else {
            assert(rl[k] == seq![
                spec_opt_line("  q1: "@, m.q1),
                spec_opt_line("  q2: "@, m.q2),
                spec_opt_line("  q3: "@, m.q3),
                spec_opt_line("  q4: "@, m.q4),
            ][k - 9 - fxl.len()]);
        }
    }
}

/// Parsing inverts emission: every exported document parses back to exactly
/// the rules and metadata it was written from. Only the export timestamp is
/// supplied afresh at each export; the parse returns it unchanged as well.
pub proof fn lemma_export_import_round_trip(
    rules: Seq<RuleModel>,
    timestamp: Seq<char>,
    total: int,
    version: Seq<char>,
)
    requires
        spec_rules_in_range(rules),
        i64::MIN <= total <= i64::MAX,
    ensures
        spec_parse_doc(spec_emit_doc(rules, timestamp, total, version)) == Some(
            (DocModel {
                export_timestamp: timestamp,
                total_rules: total,
                format_version: version,
                rules: rules,
            }),
        ),
{
    let dl = spec_doc_lines(rules, timestamp, total, version);
    let text = spec_emit_doc(rules, timestamp, total, version);
    lemma_doc_lines_clean(rules, timestamp, total, version);
    lemma_split_join(dl);
    assert(spec_split_lines(text) == dl);
    reveal_strlit("metadata:");
    reveal_strlit("rules:");
    reveal_strlit("rules: []");
    assert(dl[0] == "metadata:"@);
    assert(dl[1] == spec_q_line("  export_timestamp: "@, timestamp));
    assert(dl[2] == spec_int_line("  total_rules: "@, total));
    assert(dl[3] == spec_q_line("  format_version: "@, version));
    lemma_parse_q_of_emit("  export_timestamp: "@, timestamp);
    lemma_parse_int_of_emit("  total_rules: "@, total);
    lemma_parse_q_of_emit("  format_version: "@, version);
    if rules.len() == 0 {
        assert(dl[4] == "rules: []"@);
        assert(dl.len() == 5);
        assert(rules =~= Seq::<RuleModel>::empty());
    } else {
        assert(dl[4] == "rules:"@);
        assert(dl[4] != "rules: []"@) by {
            assert("rules:"@.len() != "rules: []"@.len());
        }
        assert(dl.len() == 5 + spec_rules_lines(rules).len());
        assert(forall|k: int|
            0 <= k < spec_rules_lines(rules).len() ==> dl[5 + k] == #[trigger] spec_rules_lines(
                rules,
            )[k]);
        lemma_parse_rules_list_of_emit(dl, 5, rules);
    }
}


/// The reason one rule's upsert fails during import, rendered as an error
/// line, or nothing when it will be applied.
pub open spec fn spec_upsert_check(m: Map<int, RuleModel>, r: RuleModel) -> Option<Seq<char>> {
    if !r.wf() {
        Some("rule id "@ + spec_i64_dec(r.id) + ": threshold out of range"@)
    } else if exists|k: int|
        m.dom().contains(k) && k != r.id && (#[trigger] m[k]).code == r.code {
        Some("rule id "@ + spec_i64_dec(r.id) + ": duplicate code"@)
    } else {
        None
    }
}

/// The effect of importing a rule list into a catalog map: each rule is
/// upserted by id in order, a failing rule is skipped and its error
/// collected, and the new/updated counts are tallied.
pub open spec fn spec_apply_import(m: Map<int, RuleModel>, rs: Seq<RuleModel>) -> (
    Map<int, RuleModel>,
    int,
    int,
    Seq<Seq<char>>,
)
    decreases rs.len(),
{
    if rs.len() == 0 {
        (m, 0, 0, Seq::empty())
    } else {
        let r = rs[0];
        match spec_upsert_check(m, r) {
            Some(e) => {
                let rec = spec_apply_import(m, rs.skip(1));
                (rec.0, rec.1, rec.2, seq![e] + rec.3)
            },
            None => {
                let rec = spec_apply_import(m.insert(r.id, r), rs.skip(1));
                if m.dom().contains(r.id) {
                    (rec.0, rec.1, rec.2 + 1, rec.3)
                } else {
                    (rec.0, rec.1 + 1, rec.2, rec.3)
                }
            },
        }
    }
}

/// Error lines joined with semicolons.
pub open spec fn spec_join_errs(errs: Seq<Seq<char>>) -> Seq<char>
    decreases errs.len(),
{
    if errs.len() == 0 {
        Seq::empty()
    } else if errs.len() == 1 {
        errs[0]
    } else {
        errs[0] + "; "@ + spec_join_errs(errs.skip(1))
    }
}

/// The import summary: success counts, plus a capped list of the first
/// error details when any rule failed.
pub open spec fn spec_import_message(nnew: int, nupd: int, errs: Seq<Seq<char>>) -> Seq<char> {
    "Import completed: "@ + spec_i64_dec(nnew) + " new rules, "@ + spec_i64_dec(nupd)
        + " updated rules"@ + (if errs.len() == 0 {
        Seq::<char>::empty()
    } else {
        "; "@ + spec_i64_dec(errs.len() as int) + " failed: "@ + spec_join_errs(
            if errs.len() > 5 {
                errs.take(5)
            } else {
                errs
            },
        )
    })
}

/// Build the error line for one rejected rule.
fn import_error_text(id: i64, duplicate: bool) -> (r: String)
    ensures
        duplicate ==> r@ == "rule id "@ + spec_i64_dec(id as int) + ": duplicate code"@,
        !duplicate ==> r@ == "rule id "@ + spec_i64_dec(id as int) + ": threshold out of range"@,
{
    let mut t: Vec<char> = Vec::new();
    append_str(&mut t, "rule id ");
    push_i64_dec(&mut t, id);
    if duplicate {
        append_str(&mut t, ": duplicate code");
        assert(t@ =~= "rule id "@ + spec_i64_dec(id as int) + ": duplicate code"@);
    } else {
        append_str(&mut t, ": threshold out of range");
        assert(t@ =~= "rule id "@ + spec_i64_dec(id as int) + ": threshold out of range"@);
    }
    chars_to_string(&t)
}

/// Build the import summary message.
fn build_import_message(nnew: usize, nupd: usize, errs: &Vec<String>) -> (r: String)
    ensures
        r@ == spec_import_message(nnew as int, nupd as int, errs.deep_view()),
{
    let mut t: Vec<char> = Vec::new();
    append_str(&mut t, "Import completed: ");
    push_u64_dec(&mut t, nnew as u64);
    append_str(&mut t, " new rules, ");
    push_u64_dec(&mut t, nupd as u64);
    append_str(&mut t, " updated rules");
    let ghost head = "Import completed: "@ + spec_i64_dec(nnew as int) + " new rules, "@
        + spec_i64_dec(nupd as int) + " updated rules"@;
    assert(t@ =~= head);
    let ne: usize = errs.len();
    if ne > 0 {
        append_str(&mut t, "; ");
        push_u64_dec(&mut t, ne as u64);
        append_str(&mut t, " failed: ");
        let ghost mid = head + "; "@ + spec_i64_dec(ne as int) + " failed: "@;
        assert(t@ =~= mid);
        let shown: usize = if ne > 5 {
            5
        } else {
            ne
        };
        let ghost capped = if errs.deep_view().len() > 5 {
            errs.deep_view().take(5)
        } else {
            errs.deep_view()
        };
        proof {
            assert(capped.len() == shown);
            assert(forall|k: int| 0 <= k < capped.len() ==> capped[k] == errs.deep_view()[k]);
        }
        let mut j: usize = 0;
        while j < shown
            invariant
                j <= shown,
                shown == capped.len(),
                shown <= errs.deep_view().len(),
                errs.deep_view().len() == errs@.len(),
                forall|k: int| 0 <= k < capped.len() ==> capped[k] == errs.deep_view()[k],
                j == 0 ==> t@ == mid,
                0 < j < shown ==> mid + spec_join_errs(capped) == t@ + "; "@ + spec_join_errs(
                    capped.skip(j as int),
                ),
                j == shown && j > 0 ==> mid + spec_join_errs(capped) == t@,
            decreases shown - j,
        {
            if j > 0 {
                append_str(&mut t, "; ");
            }
            proof {
                if j == 0 && shown > 1 {
                    assert(spec_join_errs(capped) == capped[0] + "; "@ + spec_join_errs(
                        capped.skip(1),
                    ));
                }
            }
            let ghost before = t@;
            append_str(&mut t, errs[j].as_str());
            proof {
                assert(errs@[j as int]@ == errs.deep_view()[j as int]);
                assert(t@ == before + capped[j as int]);
            }
            j = j + 1;
            proof {
                let rest = capped.skip(j - 1);
                assert(rest[0] == capped[j - 1]);
                assert(rest.skip(1) =~= capped.skip(j as int));
                if j < shown {
                    assert(rest.len() > 1);
                    assert(spec_join_errs(rest) == capped[j - 1] + "; "@ + spec_join_errs(
                        capped.skip(j as int),
                    ));
                } else {
                    assert(rest.len() == 1);
                    assert(spec_join_errs(rest) == capped[j - 1]);
                }
            }
        }
        proof {
            assert(shown > 0);
            assert(t@ =~= spec_import_message(nnew as int, nupd as int, errs.deep_view()));
        }
    } else {
        proof {
            assert(errs.deep_view().len() == 0);
            assert(t@ =~= spec_import_message(nnew as int, nupd as int, errs.deep_view()));
        }
    }
    chars_to_string(&t)
}

/// Import a rules document into the catalog. A document that does not parse
/// is fatal and changes nothing. Otherwise every parsed rule is upserted by
/// id (insert or full overwrite); a rule whose upsert fails is skipped and
/// reported; the summary always carries both counts and a capped error
/// list.
pub fn import_rules_from_yaml(catalog: &mut crate::catalog::RuleCatalog, yaml: &str) -> (r: Result<
    String,
    String,
>)
    requires
        old(catalog).wf(),
    ensures
        final(catalog).wf(),
        match r {
            Err(e) => spec_parse_doc(yaml@) is None && final(catalog)@ == old(catalog)@ && e@
                == "YAML parsing error: malformed rules document"@,
            Ok(msg) => spec_parse_doc(yaml@) matches Some(d) && {
                let res = spec_apply_import(crate::catalog::spec_map_of(old(catalog)@), d.rules);
                crate::catalog::spec_map_of(final(catalog)@) == res.0 && msg@
                    == spec_import_message(res.1, res.2, res.3)
            },
        },
{
    let parsed = match parse_rules_document(yaml) {
        Ok(d) => d,
        Err(e) => {
            return Err(e);
        },
    };
    let ghost d = parsed@;
    let ghost m0 = crate::catalog::spec_map_of(old(catalog)@);
    let ghost total_res = spec_apply_import(m0, d.rules);
    let rules = parsed.rules;
    let n: usize = rules.len();
    let mut nnew: usize = 0;
    let mut nupd: usize = 0;
    let mut errs: Vec<String> = Vec::new();
    let mut i: usize = 0;
    proof {
        assert(d.rules.skip(0) =~= d.rules);
        assert(errs.deep_view() =~= Seq::<Seq<char>>::empty());
        assert(errs.deep_view() + spec_apply_import(m0, d.rules).3 =~= spec_apply_import(
            m0,
            d.rules,
        ).3);
    }
    while i < n
        invariant
            i <= n,
            n == rules@.len(),
            rules.deep_view() == d.rules,
            nnew <= i,
            nupd <= i,
            catalog.wf(),
            total_res == spec_apply_import(m0, d.rules),
            ({
                let rec = spec_apply_import(
                    crate::catalog::spec_map_of(catalog@),
                    d.rules.skip(i as int),
                );
                total_res.0 == rec.0 && total_res.1 == nnew + rec.1 && total_res.2 == nupd + rec.2
                    && total_res.3 == errs.deep_view() + rec.3
            }),
        decreases n - i,
    {
        let ghost cur = crate::catalog::spec_map_of(catalog@);
        let ghost rest = d.rules.skip(i as int);
        let ghost rm = d.rules[i as int];
        proof {
            assert(rest[0] == rm);
            assert(rest.skip(1) =~= d.rules.skip(i + 1));
            assert(rules.deep_view()[i as int] == rm);
        }
        let rule = crate::catalog::clone_rule(&rules[i]);
        let ghost e0 = errs.deep_view();
        let ghost pre = catalog@;
        let outcome = catalog.upsert_rule(rule);
        proof {
            assert(cur == crate::catalog::spec_map_of(pre));
        }
        match outcome {
            crate::catalog::UpsertOutcome::Added => {
                nnew = nnew + 1;
                proof {
                    assert(rm.wf());
                    assert(!cur.dom().contains(rm.id));
                    assert(spec_upsert_check(cur, rm) is None) by {
                        if exists|k: int|
                            cur.dom().contains(k) && k != rm.id && (#[trigger] cur[k]).code
                                == rm.code {
                            let k = choose|k: int|
                                cur.dom().contains(k) && k != rm.id && (#[trigger] cur[k]).code
                                    == rm.code;
                            let x = choose|x: int| 0 <= x < pre.len() && pre[x].id == k;
                            assert(0 <= x < pre.len() && pre[x].id == k);
                            crate::catalog::lemma_map_of_index(pre, x);
                            assert(pre[x].code == rm.code);
                            assert(false);
                        }
                    }
                    assert(crate::catalog::spec_map_of(catalog@) == cur.insert(rm.id, rm));
                }
            },
            crate::catalog::UpsertOutcome::Updated => {
                nupd = nupd + 1;
                proof {
                    assert(rm.wf());
                    assert(cur.dom().contains(rm.id));
                    assert(spec_upsert_check(cur, rm) is None) by {
                        if exists|k: int|
                            cur.dom().contains(k) && k != rm.id && (#[trigger] cur[k]).code
                                == rm.code {
                            let k = choose|k: int|
                                cur.dom().contains(k) && k != rm.id && (#[trigger] cur[k]).code
                                    == rm.code;
                            let x = choose|x: int| 0 <= x < pre.len() && pre[x].id == k;
                            assert(0 <= x < pre.len() && pre[x].id == k);
                            crate::catalog::lemma_map_of_index(pre, x);
                            assert(pre[x].code == rm.code);
                            assert(pre[x].id == rm.id);
                            assert(false);
                        }
                    }
                    assert(crate::catalog::spec_map_of(catalog@) == cur.insert(rm.id, rm));
                }
            },
            crate::catalog::UpsertOutcome::RejectedDuplicateCode => {
                let e = import_error_text(rules[i].id, true);
                proof {
                    assert(rm.wf());
                    let j = choose|j: int|
                        0 <= j < pre.len() && pre[j].id != rm.id && pre[j].code == rm.code;
                    assert(0 <= j < pre.len() && pre[j].id != rm.id && pre[j].code == rm.code);
                    crate::catalog::lemma_map_of_index(pre, j);
                    assert(cur.dom().contains(pre[j].id) && cur[pre[j].id].code == rm.code);
                    assert(spec_upsert_check(cur, rm) == Some(
                        "rule id "@ + spec_i64_dec(rm.id) + ": duplicate code"@,
                    ));
                    assert(catalog@ == pre);
                    assert(rules@[i as int].id as int == rm.id);
                }
                errs.push(e);
                proof {
                    assert(errs.deep_view() =~= e0.push(
                        "rule id "@ + spec_i64_dec(rm.id) + ": duplicate code"@,
                    ));
                }
            },
            crate::catalog::UpsertOutcome::RejectedLevels => {
                let e = import_error_text(rules[i].id, false);
                proof {
                    assert(!rm.wf());
                    assert(spec_upsert_check(cur, rm) == Some(
                        "rule id "@ + spec_i64_dec(rm.id) + ": threshold out of range"@,
                    ));
                    assert(catalog@ == pre);
                    assert(rules@[i as int].id as int == rm.id);
                }
                errs.push(e);
                proof {
                    assert(errs.deep_view() =~= e0.push(
                        "rule id "@ + spec_i64_dec(rm.id) + ": threshold out of range"@,
                    ));
                }
            },
        }
        i = i + 1;
        proof {
            let rec_new = spec_apply_import(
                crate::catalog::spec_map_of(catalog@),
                d.rules.skip(i as int),
            );
            match spec_upsert_check(cur, rm) {
                Some(err) => {
                    assert(spec_apply_import(cur, rest).3 == seq![err] + rec_new.3);
                    assert(e0 + (seq![err] + rec_new.3) =~= e0.push(err) + rec_new.3);
                },
                None => {},
            }
        }
    }
    proof {
        assert(d.rules.skip(n as int) =~= Seq::<RuleModel>::empty());
        assert(errs.deep_view() + Seq::<Seq<char>>::empty() =~= errs.deep_view());
    }
    let msg = build_import_message(nnew, nupd, &errs);
    Ok(msg)
}


/// All ids in the rule list are distinct.
pub open spec fn spec_rs_ids_unique(rs: Seq<RuleModel>) -> bool {
    forall|i: int, j: int|
        0 <= i < rs.len() && 0 <= j < rs.len() && i != j ==> rs[i].id != rs[j].id
}

/// All codes in the rule list are distinct.
pub open spec fn spec_rs_codes_unique(rs: Seq<RuleModel>) -> bool {
    forall|i: int, j: int|
        0 <= i < rs.len() && 0 <= j < rs.len() && i != j ==> rs[i].code != rs[j].code
}

/// Every rule in the list has well-formed thresholds.
pub open spec fn spec_rs_wf(rs: Seq<RuleModel>) -> bool {
    forall|i: int| 0 <= i < rs.len() ==> (#[trigger] rs[i]).wf()
}

/// No catalog row outside the imported ids shares a code with an imported
/// rule.
pub open spec fn spec_no_code_collision(m: Map<int, RuleModel>, rs: Seq<RuleModel>) -> bool {
    forall|k: int, i: int|
        m.dom().contains(k) && 0 <= i < rs.len() && (#[trigger] m[k]).code == (
        #[trigger] rs[i]).code ==> k == rs[i].id
}

/// A collision-free import applies every rule: no errors, the counts add up
/// to the rule count, each imported rule ends up in the map under its id,
/// and untouched rows keep their values. Into a catalog that knows none of
/// the ids, everything counts as new.
pub proof fn lemma_apply_import_clean(m0: Map<int, RuleModel>, rs: Seq<RuleModel>)
    requires
        spec_rs_ids_unique(rs),
        spec_rs_codes_unique(rs),
        spec_rs_wf(rs),
        spec_no_code_collision(m0, rs),
    ensures
        ({
            let res = spec_apply_import(m0, rs);
            &&& res.3 == Seq::<Seq<char>>::empty()
            &&& res.1 + res.2 == rs.len()
            &&& res.1 >= 0 && res.2 >= 0
            &&& (forall|i: int|
                0 <= i < rs.len() ==> res.0.dom().contains(#[trigger] rs[i].id) && res.0[rs[i].id]
                    == rs[i])
            &&& (forall|k: int|
                #[trigger] res.0.dom().contains(k) <==> m0.dom().contains(k) || (exists|i: int|
                    0 <= i < rs.len() && rs[i].id == k))
            &&& (forall|k: int|
                res.0.dom().contains(k) && !(exists|i: int| 0 <= i < rs.len() && rs[i].id == k)
                    ==> m0.dom().contains(k) && #[trigger] res.0[k] == m0[k])
            &&& ((forall|i: int| 0 <= i < rs.len() ==> !m0.dom().contains(#[trigger] rs[i].id))
                ==> res.1 == rs.len() && res.2 == 0)
        }),
    decreases rs.len(),
{
    if rs.len() == 0 {
        let res = spec_apply_import(m0, rs);
        assert(res.3 =~= Seq::<Seq<char>>::empty());
    } else {
        let r = rs[0];
        assert(r.wf());
        assert(spec_upsert_check(m0, r) is None) by {
            if exists|k: int|
                m0.dom().contains(k) && k != r.id && (#[trigger] m0[k]).code == r.code {
                let k = choose|k: int|
                    m0.dom().contains(k) && k != r.id && (#[trigger] m0[k]).code == r.code;
                assert(m0[k].code == rs[0].code);
                assert(k == rs[0].id);
                assert(false);
            }
        }
        let m1 = m0.insert(r.id, r);
        let tail = rs.skip(1);
        assert(forall|i: int| 0 <= i < tail.len() ==> tail[i] == rs[i + 1]);
        assert(spec_rs_ids_unique(tail));
        assert(spec_rs_codes_unique(tail));
        assert(spec_rs_wf(tail));
        assert(spec_no_code_collision(m1, tail)) by {
            assert forall|k: int, i: int|
                m1.dom().contains(k) && 0 <= i < tail.len() && (#[trigger] m1[k]).code == (
                #[trigger] tail[i]).code implies k == tail[i].id by {
                if k == r.id {
                    assert(m1[k] == r);
                    assert(rs[0].code == rs[i + 1].code);
                    assert(false);
                } else {
                    assert(m1[k] == m0[k]);
                    assert(m0[k].code == rs[i + 1].code);
                }
            }
        }
        lemma_apply_import_clean(m1, tail);
        let rec = spec_apply_import(m1, tail);
        let res = spec_apply_import(m0, rs);
        assert(res.0 == rec.0 && res.3 == rec.3);
        assert forall|i: int|
            0 <= i < rs.len() implies res.0.dom().contains(#[trigger] rs[i].id) && res.0[rs[i].id]
            == rs[i] by {
            if i == 0 {
                assert(!(exists|j: int| 0 <= j < tail.len() && tail[j].id == r.id)) by {
                    if exists|j: int| 0 <= j < tail.len() && tail[j].id == r.id {
                        let j = choose|j: int| 0 <= j < tail.len() && tail[j].id == r.id;
                        assert(rs[j + 1].id == rs[0].id);
                        assert(false);
                    }
                }
                assert(m1.dom().contains(r.id));
                assert(rec.0.dom().contains(r.id));
                assert(rec.0[r.id] == m1[r.id]);
            } else {
                assert(tail[i - 1] == rs[i]);
            }
        }
        assert forall|k: int|
            #[trigger] res.0.dom().contains(k) <==> m0.dom().contains(k) || (exists|i: int|
                0 <= i < rs.len() && rs[i].id == k) by {
            if res.0.dom().contains(k) {
                if m1.dom().contains(k) || (exists|i: int|
                    0 <= i < tail.len() && tail[i].id == k) {
                    if m1.dom().contains(k) && k != r.id {
                        assert(m0.dom().contains(k));
                    }
                    if exists|i: int| 0 <= i < tail.len() && tail[i].id == k {
                        let i = choose|i: int| 0 <= i < tail.len() && tail[i].id == k;
                        assert(rs[i + 1].id == k);
                    }
                }
            }
            if m0.dom().contains(k) {
                assert(m1.dom().contains(k) || k == r.id);
            }
            if exists|i: int| 0 <= i < rs.len() && rs[i].id == k {
                let i = choose|i: int| 0 <= i < rs.len() && rs[i].id == k;
                if i == 0 {
                    assert(m1.dom().contains(k));
                } else {
                    assert(tail[i - 1].id == k);
                }
            }
        }
        assert forall|k: int|
            res.0.dom().contains(k) && !(exists|i: int| 0 <= i < rs.len() && rs[i].id == k)
            implies m0.dom().contains(k) && #[trigger] res.0[k] == m0[k] by {
            assert(k != r.id) by {
                if k == r.id {
                    assert(rs[0].id == k);
                }
            }
            assert(!(exists|i: int| 0 <= i < tail.len() && tail[i].id == k)) by {
                if exists|i: int| 0 <= i < tail.len() && tail[i].id == k {
                    let i = choose|i: int| 0 <= i < tail.len() && tail[i].id == k;
                    assert(rs[i + 1].id == k);
                }
            }
            assert(rec.0[k] == m1[k]);
            assert(m1[k] == m0[k]);
        }
        if forall|i: int| 0 <= i < rs.len() ==> !m0.dom().contains(#[trigger] rs[i].id) {
            assert(!m0.dom().contains(r.id)) by {
                assert(!m0.dom().contains(rs[0].id));
            }
            assert(forall|i: int|
                0 <= i < tail.len() ==> !m1.dom().contains(#[trigger] tail[i].id)) by {
                assert forall|i: int|
                    0 <= i < tail.len() implies !m1.dom().contains(#[trigger] tail[i].id) by {
                    assert(tail[i] == rs[i + 1]);
                    assert(!m0.dom().contains(rs[i + 1].id));
                    assert(tail[i].id != r.id);
                }
            }
        }
    }
}

/// Importing a rule list into a catalog that already holds exactly those
/// rules changes nothing: every rule counts as updated, none as new.
pub proof fn lemma_apply_import_fixpoint(m: Map<int, RuleModel>, rs: Seq<RuleModel>)
    requires
        spec_rs_ids_unique(rs),
        spec_rs_codes_unique(rs),
        spec_rs_wf(rs),
        spec_no_code_collision(m, rs),
        forall|i: int|
            0 <= i < rs.len() ==> m.dom().contains(#[trigger] rs[i].id) && m[rs[i].id] == rs[i],
    ensures
        spec_apply_import(m, rs).0 == m,
        spec_apply_import(m, rs).1 == 0,
        spec_apply_import(m, rs).2 == rs.len(),
        spec_apply_import(m, rs).3 == Seq::<Seq<char>>::empty(),
    decreases rs.len(),
{
    if rs.len() == 0 {
        assert(spec_apply_import(m, rs).3 =~= Seq::<Seq<char>>::empty());
    } else {
        let r = rs[0];
        assert(r.wf());
        assert(spec_upsert_check(m, r) is None) by {
            if exists|k: int| m.dom().contains(k) && k != r.id && (#[trigger] m[k]).code
                == r.code {
                let k = choose|k: int|
                    m.dom().contains(k) && k != r.id && (#[trigger] m[k]).code == r.code;
                assert(m[k].code == rs[0].code);
                assert(k == rs[0].id);
                assert(false);
            }
        }
        assert(m.dom().contains(r.id)) by {
            assert(m.dom().contains(rs[0].id));
        }
        assert(m.insert(r.id, r) =~= m) by {
            assert(m[rs[0].id] == rs[0]);
        }
        let tail = rs.skip(1);
        assert(forall|i: int| 0 <= i < tail.len() ==> tail[i] == rs[i + 1]);
        assert(spec_no_code_collision(m, tail)) by {
            assert forall|k: int, i: int|
                m.dom().contains(k) && 0 <= i < tail.len() && (#[trigger] m[k]).code == (
                #[trigger] tail[i]).code implies k == tail[i].id by {
                assert(m[k].code == rs[i + 1].code);
            }
        }
        assert(forall|i: int|
            0 <= i < tail.len() ==> m.dom().contains(#[trigger] tail[i].id) && m[tail[i].id]
                == tail[i]) by {
            assert forall|i: int|
                0 <= i < tail.len() implies m.dom().contains(#[trigger] tail[i].id) && m[
                tail[i].id] == tail[i] by {
                assert(tail[i] == rs[i + 1]);
                assert(m.dom().contains(rs[i + 1].id));
            }
        }
        lemma_apply_import_fixpoint(m, tail);
    }
}

/// Importing the same document twice is idempotent: the first import
/// applies every rule, the second counts them all as updated and no rule as
/// new, and the catalog's final field values are identical after each
/// import. Imported ids, codes and thresholds must be self-consistent, and
/// no catalog row outside the imported ids may already own an imported
/// code.
pub proof fn lemma_import_idempotent(m0: Map<int, RuleModel>, rs: Seq<RuleModel>)
    requires
        spec_rs_ids_unique(rs),
        spec_rs_codes_unique(rs),
        spec_rs_wf(rs),
        spec_no_code_collision(m0, rs),
    ensures
        ({
            let first = spec_apply_import(m0, rs);
            let second = spec_apply_import(first.0, rs);
            &&& first.3 == Seq::<Seq<char>>::empty()
            &&& first.1 + first.2 == rs.len()
            &&& ((forall|i: int|
                0 <= i < rs.len() ==> !m0.dom().contains(#[trigger] rs[i].id)) ==> first.1
                == rs.len() && first.2 == 0)
            &&& second.0 == first.0
            &&& second.1 == 0
            &&& second.2 == rs.len()
            &&& second.3 == Seq::<Seq<char>>::empty()
        }),
{
    lemma_apply_import_clean(m0, rs);
    let first = spec_apply_import(m0, rs);
    assert(spec_no_code_collision(first.0, rs)) by {
        assert forall|k: int, i: int|
            first.0.dom().contains(k) && 0 <= i < rs.len() && (#[trigger] first.0[k]).code == (
            #[trigger] rs[i]).code implies k == rs[i].id by {
            if exists|j: int| 0 <= j < rs.len() && rs[j].id == k {
                let j = choose|j: int| 0 <= j < rs.len() && rs[j].id == k;
                assert(first.0[rs[j].id] == rs[j]);
                assert(rs[j].code == rs[i].code);
                if i != j {
                    assert(false);
                }
            } else {
                assert(first.0[k] == m0[k]);
                assert(m0.dom().contains(k));
            }
        }
    }
    lemma_apply_import_fixpoint(first.0, rs);
}

} // verus!
