//! The message templater: literal placeholder substitution. Each binding's
//! `{key}` placeholder is replaced by its value, in binding order; unresolved
//! placeholders are left verbatim; a literal `\n` escape sequence is turned
//! into a real newline as a final step.

use vstd::prelude::*;
use crate::chars::{append_str, chars_to_string, replace_chars, spec_replace, str_to_chars};
use crate::rules::RuleParam;

verus! {

/// The placeholder pattern `{key}`.
pub open spec fn spec_placeholder(key: Seq<char>) -> Seq<char> {
    seq!['{'] + key + seq!['}']
}

/// The template after substituting the given bindings, one after the other.
pub open spec fn spec_render_bindings(s: Seq<char>, bs: Seq<RuleParam>) -> Seq<char>
    decreases bs.len(),
{
    if bs.len() == 0 {
        s
    } else {
        spec_render_bindings(
            spec_replace(s, spec_placeholder(bs[0].key@), bs[0].value@),
            bs.skip(1),
        )
    }
}

/// The fully rendered message: all bindings substituted, then the literal
/// two-character `\n` sequence unescaped to a newline.
pub open spec fn spec_render(s: Seq<char>, bs: Seq<RuleParam>) -> Seq<char> {
    spec_replace(spec_render_bindings(s, bs), seq!['\\', 'n'], seq!['\n'])
}

/// Substitute every binding's `{key}` placeholder with its value and
/// unescape literal `\n` sequences. Placeholders with no binding stay as
/// they are.
pub fn render(template: &str, bindings: &Vec<RuleParam>) -> (r: String)
    ensures
        r@ == spec_render(template@, bindings@),
{
    let mut cur: Vec<char> = str_to_chars(template);
    let n: usize = bindings.len();
    let mut i: usize = 0;
    assert(bindings@.skip(0) =~= bindings@);
    while i < n
        invariant
            i <= n,
            n == bindings@.len(),
            spec_render_bindings(template@, bindings@) == spec_render_bindings(
                cur@,
                bindings@.skip(i as int),
            ),
        decreases n - i,
    {
        let ghost rest = bindings@.skip(i as int);
        let b = &bindings[i];
        let mut pat: Vec<char> = Vec::new();
        pat.push('{');
        append_str(&mut pat, b.key.as_str());
        pat.push('}');
        assert(pat@ =~= spec_placeholder(b.key@));
        let val = str_to_chars(b.value.as_str());
        let next = replace_chars(&cur, &pat, &val);
        cur = next;
        i = i + 1;
        proof {
            assert(rest[0] == bindings@[i - 1]);
            assert(rest.skip(1) =~= bindings@.skip(i as int));
        }
    }
    proof {
        assert(bindings@.skip(n as int) =~= Seq::<RuleParam>::empty());
    }
    let mut esc: Vec<char> = Vec::new();
    esc.push('\\');
    esc.push('n');
    let mut nl: Vec<char> = Vec::new();
    nl.push('\n');
    assert(esc@ =~= seq!['\\', 'n']);
    assert(nl@ =~= seq!['\n']);
    let out = replace_chars(&cur, &esc, &nl);
    chars_to_string(&out)
}

} // verus!
