//! The line classifier: a total function from one raw text line to a typed
//! directive. A line is a comment, a direct assignment, an alias into the
//! secret store, or a bare lookup name; degenerate input never fails, it
//! always falls back to a concrete directive.

use vstd::prelude::*;

use crate::text::{find_char, is_env_space, skip_ws, skip_ws_rev, trim_str, trimmed};

verus! {

/// One classified line of an environment file.
#[derive(Debug, Clone, PartialEq, Eq)]
pub enum EnvLine {
    /// The line was blank or begins with `#` after trimming.
    Comment,
    /// `KEY=$NAME`: export `key`, taking the value stored under `keyring_key`
    /// in the secret store.
    Alias { key: String, keyring_key: String },
    /// `KEY=value`: export `key` with the literal `value`.
    Direct { key: String, value: String },
    /// A line with no `=`: the trimmed line is both the exported name and the
    /// secret-store lookup name.
    Lookup { key: String },
}

/// The mathematical form of a directive, over character sequences.
pub enum LineShape {
    Comment,
    Alias { key: Seq<char>, keyring_key: Seq<char> },
    Direct { key: Seq<char>, value: Seq<char> },
    Lookup { key: Seq<char> },
}

impl View for EnvLine {
    type V = LineShape;

    open spec fn view(&self) -> LineShape {
        match self {
            EnvLine::Comment => LineShape::Comment,
            EnvLine::Alias { key, keyring_key } => LineShape::Alias {
                key: key@,
                keyring_key: keyring_key@,
            },
            EnvLine::Direct { key, value } => LineShape::Direct { key: key@, value: value@ },
            EnvLine::Lookup { key } => LineShape::Lookup { key: key@ },
        }
    }
}

/// A value wrapped in one matching pair of double or single quotes has that
/// one outer layer removed; anything else is kept verbatim.
pub open spec fn strip_quotes(v: Seq<char>) -> Seq<char> {
    if v.len() >= 2 && ((v[0] == '"' && v[v.len() - 1] == '"') || (v[0] == '\'' && v[v.len() - 1]
        == '\'')) {
        v.subrange(1, v.len() - 1)
    } else {
        v
    }
}

/// What the classifier returns for a raw line: trim it; blank or `#` is a
/// comment; no `=` is a lookup; otherwise split at the first `=`, and the
/// right side is an alias if it starts with `$`, else a direct value with one
/// layer of matching quotes stripped.
pub open spec fn classify(raw: Seq<char>) -> LineShape {
    let t = trimmed(raw);
    if t.len() == 0 || t[0] == '#' {
        LineShape::Comment
    } else {
        let p = find_char(t, '=', 0);
        if p == t.len() {
            LineShape::Lookup { key: t }
        } else {
            let key = trimmed(t.subrange(0, p));
            let rawv = trimmed(t.subrange(p + 1, t.len() as int));
            if rawv.len() > 0 && rawv[0] == '$' {
                LineShape::Alias { key, keyring_key: trimmed(rawv.subrange(1, rawv.len() as int)) }
            } else {
                LineShape::Direct { key, value: strip_quotes(rawv) }
            }
        }
    }
}

/// Classifies one raw line of an environment file. Total: every input yields
/// a directive, never an error.
pub fn parse_env_line(line: &str) -> (r: EnvLine)
    ensures
        r@ == classify(line@),
{
    let t = trim_str(line);
    let tn = t.unicode_len();
    if tn == 0 {
        return EnvLine::Comment;
    }
    if t.get_char(0) == '#' {
        return EnvLine::Comment;
    }
    let mut p: usize = 0;
    while p < tn && t.get_char(p) != '='
        invariant
            0 <= p <= tn,
            tn == t@.len(),
            find_char(t@, '=', 0) == find_char(t@, '=', p as int),
        decreases tn - p,
    {
        p = p + 1;
    }
    assert(find_char(t@, '=', 0) == p as int);
    if p == tn {
        return EnvLine::Lookup { key: t.to_owned() };
    }
    let key = trim_str(t.substring_char(0, p));
    let rawv = trim_str(t.substring_char(p + 1, tn));
    let vn = rawv.unicode_len();
    if vn > 0 && rawv.get_char(0) == '$' {
        let keyring_key = trim_str(rawv.substring_char(1, vn));
        return EnvLine::Alias { key: key.to_owned(), keyring_key: keyring_key.to_owned() };
    }
    if vn >= 2 {
        let c0 = rawv.get_char(0);
        let c1 = rawv.get_char(vn - 1);
        if (c0 == '"' && c1 == '"') || (c0 == '\'' && c1 == '\'') {
            let inner = rawv.substring_char(1, vn - 1);
            return EnvLine::Direct { key: key.to_owned(), value: inner.to_owned() };
        }
    }
    EnvLine::Direct { key: key.to_owned(), value: rawv.to_owned() }
}

/// Classifies every line of a file, preserving line order.
pub fn classify_lines(lines: &Vec<String>) -> (r: Vec<EnvLine>)
    ensures
        r@.len() == lines@.len(),
        forall|i: int| 0 <= i < r@.len() ==> (#[trigger] r@[i])@ == classify(lines@[i]@),
{
    let mut r: Vec<EnvLine> = Vec::new();
    let mut i: usize = 0;
    while i < lines.len()
        invariant
            0 <= i <= lines@.len(),
            r@.len() == i,
            forall|t: int| 0 <= t < i ==> (#[trigger] r@[t])@ == classify(lines@[t]@),
        decreases lines@.len() - i,
    {
        r.push(parse_env_line(lines[i].as_str()));
        i = i + 1;
    }
    r
}

/// The exported names declared by the first `i` lines: every non-comment
/// directive contributes its key, in line order.
pub open spec fn names_upto(lines: Seq<Seq<char>>, i: int) -> Seq<Seq<char>>
    decreases i
        when 0 <= i <= lines.len()
{
    if i <= 0 {
        Seq::empty()
    } else {
        let rest = names_upto(lines, i - 1);
        match classify(lines[i - 1]) {
            LineShape::Comment => rest,
            LineShape::Alias { key, .. } => rest.push(key),
            LineShape::Direct { key, .. } => rest.push(key),
            LineShape::Lookup { key } => rest.push(key),
        }
    }
}

/// The exported names every line of the file declares, in line order.
pub open spec fn var_names(lines: Seq<Seq<char>>) -> Seq<Seq<char>> {
    names_upto(lines, lines.len() as int)
}

/// The names of the environment variables a file's lines would export: one
/// per non-comment directive, in line order.
pub fn env_var_names(lines: &Vec<String>) -> (r: Vec<String>)
    ensures
        r.deep_view() == var_names(lines.deep_view()),
{
    let ghost glines = lines.deep_view();
    let mut r: Vec<String> = Vec::new();
    proof {
        assert(r.deep_view() =~= names_upto(glines, 0));
    }
    let mut i: usize = 0;
    while i < lines.len()
        invariant
            0 <= i <= lines@.len(),
            glines == lines.deep_view(),
            glines.len() == lines@.len(),
            r.deep_view() == names_upto(glines, i as int),
        decreases lines@.len() - i,
    {
        proof {
            assert(glines[i as int] == lines@[i as int]@);
        }
        match parse_env_line(lines[i].as_str()) {
            EnvLine::Comment => {},
            EnvLine::Alias { key, .. } => r.push(key),
            EnvLine::Direct { key, .. } => r.push(key),
            EnvLine::Lookup { key } => r.push(key),
        }
        proof {
            assert(r.deep_view() =~= names_upto(glines, i as int + 1));
        }
        i = i + 1;
    }
    r
}

/// A trimmed, non-empty line with no `=` and no leading `#` is classified as
/// a lookup whose key is the whole trimmed line.
pub proof fn lemma_no_assign_is_lookup(raw: Seq<char>)
    requires
        trimmed(raw).len() > 0,
        trimmed(raw)[0] != '#',
        forall|i: int| 0 <= i < trimmed(raw).len() ==> trimmed(raw)[i] != '=',
    ensures
        classify(raw) == (LineShape::Lookup { key: trimmed(raw) }),
{
    let t = trimmed(raw);
    lemma_find_char_misses(t, '=', 0);
}

/// A line whose first non-whitespace character is `#` is classified as a
/// comment, whatever follows.
pub proof fn lemma_hash_is_comment(raw: Seq<char>)
    requires
        exists|i: int|
            0 <= i < raw.len() && raw[i] == '#' && forall|j: int|
                0 <= j < i ==> is_env_space(raw[j]),
    ensures
        classify(raw) == LineShape::Comment,
{
    let i = choose|i: int|
        0 <= i < raw.len() && raw[i] == '#' && forall|j: int| 0 <= j < i ==> is_env_space(raw[j]);
    lemma_skip_ws_stops(raw, 0, i);
    lemma_skip_ws_rev_past(raw, raw.len() as int, i);
    crate::text::lemma_skip_ws_rev_bounds(raw, raw.len() as int);
    assert(trimmed(raw)[0] == raw[i]);
}

proof fn lemma_find_char_misses(s: Seq<char>, c: char, i: int)
    requires
        0 <= i <= s.len(),
        forall|j: int| i <= j < s.len() ==> s[j] != c,
    ensures
        find_char(s, c, i) == s.len(),
    decreases s.len() - i,
{
    if i < s.len() {
        lemma_find_char_misses(s, c, i + 1);
    }
}

proof fn lemma_skip_ws_stops(s: Seq<char>, i: int, stop: int)
    requires
        0 <= i <= stop < s.len(),
        !is_env_space(s[stop]),
        forall|j: int| i <= j < stop ==> is_env_space(s[j]),
    ensures
        skip_ws(s, i) == stop,
    decreases stop - i,
{
    if i < stop {
        lemma_skip_ws_stops(s, i + 1, stop);
    }
}

/// The trailing trim never reaches back past a non-whitespace character.
proof fn lemma_skip_ws_rev_past(s: Seq<char>, i: int, stop: int)
    requires
        0 <= stop < i <= s.len(),
        !is_env_space(s[stop]),
    ensures
        skip_ws_rev(s, i) > stop,
    decreases i,
{
    if is_env_space(s[i - 1]) {
        lemma_skip_ws_rev_past(s, i - 1, stop);
    }
}

} // verus!
