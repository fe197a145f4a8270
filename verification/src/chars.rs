//! Character-sequence utilities shared by the message templater and the
//! document codec: conversions between `str`/`String` and `Vec<char>`,
//! substring matching and replacement, an escape scheme for embedding
//! arbitrary text in a single line, and joining/splitting of line lists.

use vstd::prelude::*;

verus! {

/// Collect the characters of a string slice into a vector.
pub fn str_to_chars(s: &str) -> (r: Vec<char>)
    ensures
        r@ == s@,
{
    let n: usize = s.unicode_len();
    let mut r: Vec<char> = Vec::new();
    let mut i: usize = 0;
    while i < n
        invariant
            i <= n,
            n == s@.len(),
            r@ == s@.subrange(0, i as int),
        decreases n - i,
    {
        r.push(s.get_char(i));
        i = i + 1;
        assert(r@ =~= s@.subrange(0, i as int));
    }
    assert(r@ =~= s@);
    r
}

/// Relies on `String`'s `FromIterator<&char>` impl: collecting the
/// characters of the vector yields the string of exactly those characters.
#[verifier::external_body]
pub fn chars_to_string(v: &Vec<char>) -> (r: String)
    ensures
        r@ == v@,
{
    v.iter().collect()
}

/// Append every character of `src` to `dst`.
pub fn append_chars(dst: &mut Vec<char>, src: &Vec<char>)
    ensures
        final(dst)@ == old(dst)@ + src@,
{
    let n: usize = src.len();
    let mut i: usize = 0;
    while i < n
        invariant
            i <= n,
            n == src@.len(),
            dst@ == old(dst)@ + src@.subrange(0, i as int),
        decreases n - i,
    {
        dst.push(src[i]);
        i = i + 1;
        assert(dst@ =~= old(dst)@ + src@.subrange(0, i as int));
    }
    assert(dst@ =~= old(dst)@ + src@);
}

/// Append every character of the string slice `src` to `dst`.
pub fn append_str(dst: &mut Vec<char>, src: &str)
    ensures
        final(dst)@ == old(dst)@ + src@,
{
    let v = str_to_chars(src);
    append_chars(dst, &v);
}

/// Two string slices hold the same characters.
pub fn str_eq_str(a: &str, b: &str) -> (r: bool)
    ensures
        r == (a@ == b@),
{
    let na: usize = a.unicode_len();
    let nb: usize = b.unicode_len();
    if na != nb {
        assert(a@ != b@) by {
            assert(a@.len() != b@.len());
        }
        return false;
    }
    let mut i: usize = 0;
    while i < na
        invariant
            i <= na,
            na == a@.len(),
            na == b@.len(),
            forall|k: int| 0 <= k < i ==> a@[k] == b@[k],
        decreases na - i,
    {
        if a.get_char(i) != b.get_char(i) {
            return false;
        }
        i = i + 1;
    }
    assert(a@ =~= b@);
    true
}

/// The pattern `pat` occurs in `s` starting at index `i`.
pub open spec fn spec_match_at(s: Seq<char>, i: int, pat: Seq<char>) -> bool {
    0 <= i && i + pat.len() <= s.len() && s.subrange(i, i + pat.len()) == pat
}

/// The pattern `pat` occurs somewhere in `s`.
pub open spec fn spec_contains_seq(s: Seq<char>, pat: Seq<char>) -> bool {
    exists|i: int| spec_match_at(s, i, pat)
}

/// Check whether `pat` occurs in `s` at index `i`.
pub fn match_at(s: &Vec<char>, i: usize, pat: &Vec<char>) -> (r: bool)
    requires
        i <= s.len(),
    ensures
        r == spec_match_at(s@, i as int, pat@),
{
    if s.len() - i < pat.len() {
        return false;
    }
    let sl: usize = s.len();
    let m: usize = pat.len();
    let mut j: usize = 0;
    while j < m
        invariant
            j <= m,
            m == pat@.len(),
            sl == s@.len(),
            i + m <= sl,
            forall|k: int| 0 <= k < j ==> s@[i + k] == pat@[k],
        decreases m - j,
    {
        if s[i + j] != pat[j] {
            assert(!spec_match_at(s@, i as int, pat@)) by {
                assert(s@.subrange(i as int, i + pat@.len())[j as int] == s@[i + j]);
            }
            return false;
        }
        j = j + 1;
    }
    assert(s@.subrange(i as int, i + pat@.len()) =~= pat@);
    true
}

/// Check whether `pat` occurs anywhere in `s`.
pub fn contains_seq(s: &Vec<char>, pat: &Vec<char>) -> (r: bool)
    ensures
        r == spec_contains_seq(s@, pat@),
{
    if pat.len() == 0 {
        assert(spec_match_at(s@, 0, pat@)) by {
            assert(s@.subrange(0, 0) =~= pat@);
        }
        return true;
    }
    if pat.len() > s.len() {
        assert(!spec_contains_seq(s@, pat@)) by {
            assert(forall|i: int| !spec_match_at(s@, i, pat@));
        }
        return false;
    }
    let count: usize = s.len() - pat.len() + 1;
    let mut i: usize = 0;
    while i < count
        invariant
            i <= count,
            count == s@.len() - pat@.len() + 1,
            pat@.len() >= 1,
            pat@.len() <= s@.len(),
            i <= s@.len(),
            forall|k: int| 0 <= k < i ==> !spec_match_at(s@, k, pat@),
        decreases count - i,
    {
        if match_at(s, i, pat) {
            return true;
        }
        i = i + 1;
    }
    assert(!spec_contains_seq(s@, pat@)) by {
        assert(forall|k: int| spec_match_at(s@, k, pat@) ==> 0 <= k < count);
    }
    false
}

/// Every occurrence of `pat` in `s` replaced by `sub`, scanning left to
/// right; text inserted for one occurrence is not rescanned.
pub open spec fn spec_replace(s: Seq<char>, pat: Seq<char>, sub: Seq<char>) -> Seq<char>
    decreases s.len(),
{
    if pat.len() == 0 || s.len() < pat.len() {
        s
    } else if s.subrange(0, pat.len() as int) == pat {
        sub + spec_replace(s.skip(pat.len() as int), pat, sub)
    } else {
        seq![s[0]] + spec_replace(s.skip(1), pat, sub)
    }
}

/// Replace every occurrence of `pat` in `s` by `sub`.
pub fn replace_chars(s: &Vec<char>, pat: &Vec<char>, sub: &Vec<char>) -> (r: Vec<char>)
    requires
        pat.len() >= 1,
    ensures
        r@ == spec_replace(s@, pat@, sub@),
{
    let n: usize = s.len();
    let mut out: Vec<char> = Vec::new();
    let mut i: usize = 0;
    assert(s@.skip(0) =~= s@);
    assert(out@ + spec_replace(s@, pat@, sub@) =~= spec_replace(s@, pat@, sub@));
    while i < n
        invariant
            i <= n,
            n == s@.len(),
            pat@.len() >= 1,
            spec_replace(s@, pat@, sub@) == out@ + spec_replace(s@.skip(i as int), pat@, sub@),
        decreases n - i,
    {
        let ghost rest = s@.skip(i as int);
        if match_at(s, i, pat) {
            assert(rest.subrange(0, pat@.len() as int) =~= s@.subrange(
                i as int,
                i + pat@.len(),
            ));
            append_chars(&mut out, sub);
            i = i + pat.len();
            assert(rest.skip(pat@.len() as int) =~= s@.skip(i as int));
        } else {
            assert(rest.len() >= pat@.len() ==> rest.subrange(0, pat@.len() as int) =~= s@.subrange(
                i as int,
                i + pat@.len(),
            ));
            out.push(s[i]);
            i = i + 1;
            assert(rest.skip(1) =~= s@.skip(i as int));
            proof {
                if rest.len() < pat@.len() {
                    assert(spec_replace(rest, pat@, sub@) == rest);
                    assert(rest =~= seq![rest[0]] + rest.skip(1));
                    assert(spec_replace(rest.skip(1), pat@, sub@) == rest.skip(1));
                }
            }
        }
        assert(out@ + spec_replace(s@.skip(i as int), pat@, sub@) =~= spec_replace(
            s@,
            pat@,
            sub@,
        ));
    }
    assert(s@.skip(n as int) =~= Seq::<char>::empty());
    assert(out@ =~= spec_replace(s@, pat@, sub@));
    out
}

/// The escaped form of a single character: quote, backslash, newline,
/// carriage return and tab become two-character escapes; every other
/// character stands for itself.
pub open spec fn spec_escape_char(c: char) -> Seq<char> {
    if c == '"' {
        seq!['\\', '"']
    } else if c == '\\' {
        seq!['\\', '\\']
    } else if c == '\n' {
        seq!['\\', 'n']
    } else if c == '\r' {
        seq!['\\', 'r']
    } else if c == '\t' {
        seq!['\\', 't']
    } else {
        seq![c]
    }
}

/// The escaped form of a text: each character escaped in turn.
pub open spec fn spec_escape(s: Seq<char>) -> Seq<char>
    decreases s.len(),
{
    if s.len() == 0 {
        Seq::empty()
    } else {
        spec_escape_char(s[0]) + spec_escape(s.skip(1))
    }
}

/// Decode an escaped text. `None` when the text holds a raw quote, a raw
/// newline, a dangling backslash or an unknown escape.
pub open spec fn spec_unescape(s: Seq<char>) -> Option<Seq<char>>
    decreases s.len(),
{
    if s.len() == 0 {
        Some(Seq::empty())
    } else if s[0] == '\\' {
        if s.len() < 2 {
            None
        } else {
            let d = spec_unescape_code(s[1]);
            match d {
                Some(c) => match spec_unescape(s.skip(2)) {
                    Some(rest) => Some(seq![c] + rest),
                    None => None,
                },
                None => None,
            }
        }
    } else if s[0] == '"' || s[0] == '\n' {
        None
    } else {
        match spec_unescape(s.skip(1)) {
            Some(rest) => Some(seq![s[0]] + rest),
            None => None,
        }
    }
}

/// The character denoted by the second half of a two-character escape.
pub open spec fn spec_unescape_code(c: char) -> Option<char> {
    if c == '"' {
        Some('"')
    } else if c == '\\' {
        Some('\\')
    } else if c == 'n' {
        Some('\n')
    } else if c == 'r' {
        Some('\r')
    } else if c == 't' {
        Some('\t')
    } else {
        None
    }
}

/// Escaping never produces a newline, so escaped text stays on one line.
pub proof fn lemma_escape_clean(s: Seq<char>)
    ensures
        forall|i: int| 0 <= i < spec_escape(s).len() ==> spec_escape(s)[i] != '\n',
    decreases s.len(),
{
    if s.len() > 0 {
        lemma_escape_clean(s.skip(1));
        let e0 = spec_escape_char(s[0]);
        let rest = spec_escape(s.skip(1));
        assert(spec_escape(s) == e0 + rest);
        assert forall|i: int| 0 <= i < spec_escape(s).len() implies spec_escape(s)[i]
            != '\n' by {
            if i < e0.len() {
                assert(spec_escape(s)[i] == e0[i]);
            } else {
                assert(spec_escape(s)[i] == rest[i - e0.len()]);
            }
        }
    }
}

/// Decoding inverts escaping: every text round-trips through its escaped
/// form.
pub proof fn lemma_unescape_escape(s: Seq<char>)
    ensures
        spec_unescape(spec_escape(s)) == Some(s),
    decreases s.len(),
{
    if s.len() == 0 {
    } else {
        let e = spec_escape(s);
        let c = s[0];
        let rest = spec_escape(s.skip(1));
        lemma_unescape_escape(s.skip(1));
        if c == '"' || c == '\\' || c == '\n' || c == '\r' || c == '\t' {
            assert(e == spec_escape_char(c) + rest);
            assert(e.len() >= 2);
            assert(e[0] == '\\');
            assert(e.skip(2) =~= rest);
            assert(seq![c] + s.skip(1) =~= s);
        } else {
            assert(e == seq![c] + rest);
            assert(e[0] == c);
            assert(e.skip(1) =~= rest);
            assert(seq![c] + s.skip(1) =~= s);
        }
    }
}

/// Escape a text.
pub fn escape_chars(s: &Vec<char>) -> (r: Vec<char>)
    ensures
        r@ == spec_escape(s@),
{
    let n: usize = s.len();
    let mut out: Vec<char> = Vec::new();
    let mut i: usize = 0;
    assert(s@.skip(0) =~= s@);
    assert(out@ + spec_escape(s@) =~= spec_escape(s@));
    while i < n
        invariant
            i <= n,
            n == s@.len(),
            spec_escape(s@) == out@ + spec_escape(s@.skip(i as int)),
        decreases n - i,
    {
        let c = s[i];
        if c == '"' {
            out.push('\\');
            out.push('"');
        } else if c == '\\' {
            out.push('\\');
            out.push('\\');
        } else if c == '\n' {
            out.push('\\');
            out.push('n');
        } else if c == '\r' {
            out.push('\\');
            out.push('r');
        } else if c == '\t' {
            out.push('\\');
            out.push('t');
        } else {
            out.push(c);
        }
        i = i + 1;
        assert(s@.skip(i - 1).skip(1) =~= s@.skip(i as int));
        assert(out@ + spec_escape(s@.skip(i as int)) =~= spec_escape(s@));
    }
    assert(s@.skip(n as int) =~= Seq::<char>::empty());
    assert(out@ =~= spec_escape(s@));
    out
}

/// Decode an escaped text.
pub fn unescape_chars(s: &Vec<char>) -> (r: Option<Vec<char>>)
    ensures
        match r {
            Some(v) => spec_unescape(s@) == Some(v@),
            None => spec_unescape(s@) is None,
        },
{
    let n: usize = s.len();
    let mut out: Vec<char> = Vec::new();
    let mut i: usize = 0;
    proof {
        assert(s@.skip(0) =~= s@);
        match spec_unescape(s@) {
            Some(full) => {
                assert(out@ + full =~= full);
            },
            None => {},
        }
    }
    while i < n
        invariant
            i <= n,
            n == s@.len(),
            match spec_unescape(s@) {
                Some(full) => spec_unescape(s@.skip(i as int)) matches Some(rest) && full == out@
                    + rest,
                None => spec_unescape(s@.skip(i as int)) is None,
            },
        decreases n - i,
    {
        let ghost rest = s@.skip(i as int);
        let c = s[i];
        if c == '\\' {
            if i + 1 >= n {
                assert(rest.len() == 1);
                return None;
            }
            let d = s[i + 1];
            let dec: Option<char> = if d == '"' {
                Some('"')
            } else if d == '\\' {
                Some('\\')
            } else if d == 'n' {
                Some('\n')
            } else if d == 'r' {
                Some('\r')
            } else if d == 't' {
                Some('\t')
            } else {
                None
            };
            assert(dec == spec_unescape_code(rest[1])) by {
                assert(rest[1] == s@[i + 1]);
            }
            match dec {
                Some(u) => {
                    let ghost out0 = out@;
                    out.push(u);
                    i = i + 2;
                    assert(rest.skip(2) =~= s@.skip(i as int));
                    proof {
                        match spec_unescape(rest.skip(2)) {
                            Some(r2) => {
                                assert(spec_unescape(rest) == Some(seq![u] + r2));
                                assert(out0 + (seq![u] + r2) =~= out0.push(u) + r2);
                            },
                            None => {},
                        }
                    }
                },
                None => {
                    return None;
                },
            }
        } else if c == '"' || c == '\n' {
            return None;
        } else {
            let ghost out0 = out@;
            out.push(c);
            i = i + 1;
            assert(rest.skip(1) =~= s@.skip(i as int));
            proof {
                match spec_unescape(rest.skip(1)) {
                    Some(r2) => {
                        assert(spec_unescape(rest) == Some(seq![c] + r2));
                        assert(out0 + (seq![c] + r2) =~= out0.push(c) + r2);
                    },
                    None => {},
                }
            }
        }
    }
    assert(s@.skip(n as int) =~= Seq::<char>::empty());
    assert(spec_unescape(s@) matches Some(full) && full =~= out@);
    Some(out)
}

/// Join a list of lines, terminating every line with a newline.
pub open spec fn spec_join_lines(lines: Seq<Seq<char>>) -> Seq<char>
    decreases lines.len(),
{
    if lines.len() == 0 {
        Seq::empty()
    } else {
        lines[0] + seq!['\n'] + spec_join_lines(lines.skip(1))
    }
}

/// A line that holds no newline of its own.
pub open spec fn spec_clean_line(l: Seq<char>) -> bool {
    forall|i: int| 0 <= i < l.len() ==> l[i] != '\n'
}

/// Index of the first newline in `s`, or `s.len()` when there is none.
pub open spec fn spec_find_nl(s: Seq<char>) -> int
    decreases s.len(),
{
    if s.len() == 0 {
        0
    } else if s[0] == '\n' {
        0
    } else {
        1 + spec_find_nl(s.skip(1))
    }
}

pub proof fn lemma_find_nl_range(s: Seq<char>)
    ensures
        0 <= spec_find_nl(s) <= s.len(),
        forall|i: int| 0 <= i < spec_find_nl(s) ==> s[i] != '\n',
        spec_find_nl(s) < s.len() ==> s[spec_find_nl(s)] == '\n',
    decreases s.len(),
{
    if s.len() > 0 && s[0] != '\n' {
        lemma_find_nl_range(s.skip(1));
        assert(forall|i: int| 0 <= i < spec_find_nl(s) ==> s[i] != '\n') by {
            assert(forall|i: int| 1 <= i < spec_find_nl(s) ==> s[i] == s.skip(1)[i - 1]);
        }
    }
}

/// Split a text into the lines between its newlines. A trailing newline
/// closes the last line rather than opening an empty one.
pub open spec fn spec_split_lines(s: Seq<char>) -> Seq<Seq<char>>
    decreases s.len(),
{
    if s.len() == 0 {
        Seq::empty()
    } else {
        let k = spec_find_nl(s);
        if 0 <= k < s.len() {
            seq![s.subrange(0, k)] + spec_split_lines(s.skip(k + 1))
        } else {
            seq![s]
        }
    }
}

/// Splitting inverts joining, for lines that hold no newline themselves.
pub proof fn lemma_split_join(lines: Seq<Seq<char>>)
    requires
        forall|i: int| 0 <= i < lines.len() ==> spec_clean_line(#[trigger] lines[i]),
    ensures
        spec_split_lines(spec_join_lines(lines)) == lines,
    decreases lines.len(),
{
    if lines.len() == 0 {
    } else {
        let l = lines[0];
        let rest = spec_join_lines(lines.skip(1));
        let s = spec_join_lines(lines);
        assert(s == l + seq!['\n'] + rest);
        lemma_find_nl_prefix(l, rest);
        assert(spec_find_nl(s) == l.len());
        assert(s.len() > 0) by {
            assert(s.len() == l.len() + 1 + rest.len());
        }
        assert(spec_find_nl(s) < s.len());
        assert(s.subrange(0, l.len() as int) =~= l);
        assert(s.skip(l.len() as int + 1) =~= rest);
        lemma_split_join(lines.skip(1));
        assert(seq![l] + spec_split_lines(rest) =~= lines);
    }
}

/// The first newline of `clean + "\n" + rest` closes the clean prefix.
pub proof fn lemma_find_nl_prefix(l: Seq<char>, rest: Seq<char>)
    requires
        spec_clean_line(l),
    ensures
        spec_find_nl(l + seq!['\n'] + rest) == l.len(),
    decreases l.len(),
{
    let s = l + seq!['\n'] + rest;
    if l.len() == 0 {
        assert(s[0] == '\n');
    } else {
        assert(s[0] == l[0]);
        assert(s[0] != '\n');
        lemma_find_nl_prefix(l.skip(1), rest);
        assert(s.skip(1) =~= l.skip(1) + seq!['\n'] + rest);
    }
}

/// Split a text into its lines.
pub fn split_lines(doc: &Vec<char>) -> (r: Vec<Vec<char>>)
    ensures
        r@.len() == spec_split_lines(doc@).len(),
        forall|i: int| 0 <= i < r@.len() ==> r@[i]@ == spec_split_lines(doc@)[i],
{
    let ghost whole = spec_split_lines(doc@);
    let n: usize = doc.len();
    let mut r: Vec<Vec<char>> = Vec::new();
    let mut pos: usize = 0;
    assert(doc@.skip(0) =~= doc@);
    while pos < n
        invariant
            pos <= n,
            n == doc@.len(),
            whole == spec_split_lines(doc@),
            r@.len() + spec_split_lines(doc@.skip(pos as int)).len() == whole.len(),
            forall|i: int| 0 <= i < r@.len() ==> r@[i]@ == whole[i],
            forall|i: int|
                0 <= i < spec_split_lines(doc@.skip(pos as int)).len() ==> spec_split_lines(
                    doc@.skip(pos as int),
                )[i] == whole[r@.len() + i],
        decreases n - pos,
    {
        let ghost rest = doc@.skip(pos as int);
        let ghost sr = spec_split_lines(rest);
        let mut line: Vec<char> = Vec::new();
        let mut j: usize = pos;
        while j < n && doc[j] != '\n'
            invariant
                pos <= j <= n,
                n == doc@.len(),
                line@ == doc@.subrange(pos as int, j as int),
                forall|k: int| pos <= k < j ==> doc@[k] != '\n',
            decreases n - j,
        {
            line.push(doc[j]);
            j = j + 1;
            assert(line@ =~= doc@.subrange(pos as int, j as int));
        }
        proof {
            assert(forall|i: int| 0 <= i < rest.len() ==> rest[i] == doc@[pos + i]);
            lemma_find_nl_unique(rest, j - pos);
            assert(spec_find_nl(rest) == j - pos);
            assert(rest.len() > 0);
        }
        let ghost k = spec_find_nl(rest);
        let ghost lv = line@;
        if j == n {
            assert(lv =~= rest);
            proof {
                assert(k == rest.len());
                assert(sr == seq![rest]);
                assert(sr[0] == lv);
            }
            r.push(line);
            pos = n;
            proof {
                assert(doc@.skip(n as int) =~= Seq::<char>::empty());
                assert(spec_split_lines(doc@.skip(pos as int)) =~= Seq::<Seq<char>>::empty());
            }
        } else {
            assert(lv =~= rest.subrange(0, k));
            proof {
                assert(sr == seq![rest.subrange(0, k)] + spec_split_lines(rest.skip(k + 1)));
                assert(sr[0] == lv);
            }
            r.push(line);
            pos = j + 1;
            proof {
                assert(rest.skip(k + 1) =~= doc@.skip(pos as int));
                let tail = spec_split_lines(doc@.skip(pos as int));
                assert(sr.len() == 1 + tail.len());
                assert(sr[0] == line@);
                assert(forall|i: int| 0 <= i < tail.len() ==> tail[i] == sr[i + 1]);
            }
        }
    }
    assert(doc@.skip(pos as int) =~= Seq::<char>::empty());
    r
}

/// A position before which no newline stands, holding a newline or the end,
/// is the first-newline position.
pub proof fn lemma_find_nl_unique(s: Seq<char>, k: int)
    requires
        0 <= k <= s.len(),
        forall|i: int| 0 <= i < k ==> s[i] != '\n',
        k < s.len() ==> s[k] == '\n',
    ensures
        spec_find_nl(s) == k,
    decreases s.len(),
{
    if s.len() == 0 {
    } else if s[0] == '\n' {
    } else {
        lemma_find_nl_unique(s.skip(1), k - 1);
    }
}


/// Lexicographic order on character sequences, by code point.
pub open spec fn spec_str_lt(a: Seq<char>, b: Seq<char>) -> bool
    decreases a.len(),
{
    if b.len() == 0 {
        false
    } else if a.len() == 0 {
        true
    } else if a[0] != b[0] {
        (a[0] as u32) < (b[0] as u32)
    } else {
        spec_str_lt(a.skip(1), b.skip(1))
    }
}

/// Exactly one of `a < b`, `a == b`, `b < a` holds.
pub proof fn lemma_str_lt_trichotomy(a: Seq<char>, b: Seq<char>)
    ensures
        a != b ==> spec_str_lt(a, b) || spec_str_lt(b, a),
        !(spec_str_lt(a, b) && spec_str_lt(b, a)),
        spec_str_lt(a, b) ==> a != b,
    decreases a.len() + b.len(),
{
    if a.len() > 0 && b.len() > 0 {
        lemma_str_lt_trichotomy(a.skip(1), b.skip(1));
        if a[0] != b[0] {
            vstd::utf8::char_u32_cast(a[0], a[0] as u32);
            vstd::utf8::char_u32_cast(b[0], b[0] as u32);
            assert((a[0] as u32) != (b[0] as u32));
        }
        if a[0] == b[0] {
            if a.skip(1) == b.skip(1) {
                assert(a =~= b) by {
                    assert(forall|i: int|
                        1 <= i < a.len() ==> a[i] == a.skip(1)[i - 1] && b[i] == b.skip(1)[i - 1]);
                }
            }
            if a != b {
                assert(a.skip(1) != b.skip(1));
            }
        }
    } else if a.len() == 0 && b.len() == 0 {
        assert(a =~= b);
    }
}

/// Lexicographic order is transitive.
pub proof fn lemma_str_lt_trans(a: Seq<char>, b: Seq<char>, c: Seq<char>)
    requires
        spec_str_lt(a, b),
        spec_str_lt(b, c),
    ensures
        spec_str_lt(a, c),
    decreases a.len() + b.len() + c.len(),
{
    if a.len() > 0 && b.len() > 0 && c.len() > 0 {
        if a[0] == b[0] && b[0] == c[0] {
            lemma_str_lt_trans(a.skip(1), b.skip(1), c.skip(1));
        }
    }
}

/// Compare two character sequences lexicographically.
pub fn str_lt_chars(a: &Vec<char>, b: &Vec<char>) -> (r: bool)
    ensures
        r == spec_str_lt(a@, b@),
{
    let na: usize = a.len();
    let nb: usize = b.len();
    let mut i: usize = 0;
    assert(a@.skip(0) =~= a@);
    assert(b@.skip(0) =~= b@);
    loop
        invariant
            i <= na,
            i <= nb,
            na == a@.len(),
            nb == b@.len(),
            spec_str_lt(a@, b@) == spec_str_lt(a@.skip(i as int), b@.skip(i as int)),
        decreases na - i,
    {
        let ghost ra = a@.skip(i as int);
        let ghost rb = b@.skip(i as int);
        if i >= nb {
            assert(rb.len() == 0);
            return false;
        }
        if i >= na {
            assert(ra.len() == 0 && rb.len() > 0);
            return true;
        }
        assert(ra[0] == a@[i as int] && rb[0] == b@[i as int]);
        let c1: char = a[i];
        let c2: char = b[i];
        if c1 != c2 {
            return (c1 as u32) < (c2 as u32);
        }
        i = i + 1;
        assert(ra.skip(1) =~= a@.skip(i as int));
        assert(rb.skip(1) =~= b@.skip(i as int));
    }
}


} // verus!
