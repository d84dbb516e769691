//! Character-level text utilities shared by the line classifier, the key-name
//! validator and the label sort: whitespace trimming, character search, and
//! lexicographic comparison of strings by code point.

use vstd::prelude::*;

verus! {

/// The whitespace characters recognised when a line is trimmed: the Unicode
/// `White_Space` set, the same characters `str::trim` removes.
pub open spec fn is_env_space(c: char) -> bool {
    ||| c == ' ' || c == '\t' || c == '\n' || c == '\u{b}' || c == '\u{c}' || c == '\r'
    ||| c == '\u{85}' || c == '\u{a0}' || c == '\u{1680}'
    ||| ('\u{2000}' as u32) <= (c as u32) && (c as u32) <= ('\u{200a}' as u32)
    ||| c == '\u{2028}' || c == '\u{2029}' || c == '\u{202f}' || c == '\u{205f}' || c
        == '\u{3000}'
}

fn env_space(c: char) -> (b: bool)
    ensures
        b == is_env_space(c),
{
    (c == ' ' || c == '\t' || c == '\n' || c == '\u{b}' || c == '\u{c}' || c == '\r') || (c
        == '\u{85}' || c == '\u{a0}' || c == '\u{1680}') || (('\u{2000}' as u32) <= (c as u32)
        && (c as u32) <= ('\u{200a}' as u32)) || (c == '\u{2028}' || c == '\u{2029}' || c
        == '\u{202f}' || c == '\u{205f}' || c == '\u{3000}')
}

/// First index at or after `i` holding a non-whitespace character, or the
/// length of `s` if there is none.
pub open spec fn skip_ws(s: Seq<char>, i: int) -> int
    decreases s.len() - i
        when 0 <= i <= s.len()
{
    if i == s.len() {
        i
    } else if is_env_space(s[i]) {
        skip_ws(s, i + 1)
    } else {
        i
    }
}

/// Position just after the last non-whitespace character strictly before `i`,
/// or 0 if there is none.
pub open spec fn skip_ws_rev(s: Seq<char>, i: int) -> int
    decreases i
        when 0 <= i <= s.len()
{
    if i == 0 {
        i
    } else if is_env_space(s[i - 1]) {
        skip_ws_rev(s, i - 1)
    } else {
        i
    }
}

pub proof fn lemma_skip_ws_rev_bounds(s: Seq<char>, i: int)
    requires
        0 <= i <= s.len(),
    ensures
        0 <= skip_ws_rev(s, i) <= i,
    decreases i,
{
    if i > 0 && is_env_space(s[i - 1]) {
        lemma_skip_ws_rev_bounds(s, i - 1);
    }
}

/// `s` with leading and trailing whitespace removed.
pub open spec fn trimmed(s: Seq<char>) -> Seq<char> {
    let start = skip_ws(s, 0);
    let end = skip_ws_rev(s, s.len() as int);
    if start < end {
        s.subrange(start, end)
    } else {
        Seq::empty()
    }
}

/// Trims leading and trailing whitespace, as the classifier and the validator
/// define it.
pub fn trim_str<'a>(s: &'a str) -> (r: &'a str)
    ensures
        r@ == trimmed(s@),
{
    let n = s.unicode_len();
    let mut start: usize = 0;
    while start < n && env_space(s.get_char(start))
        invariant
            0 <= start <= n,
            n == s@.len(),
            skip_ws(s@, 0) == skip_ws(s@, start as int),
        decreases n - start,
    {
        start = start + 1;
    }
    assert(skip_ws(s@, 0) == start as int);
    if start == n {
        let r = s.substring_char(0, 0);
        proof {
            lemma_skip_ws_rev_bounds(s@, n as int);
        }
        return r;
    }
    let mut end: usize = n;
    while end > start && env_space(s.get_char(end - 1))
        invariant
            start < end <= n,
            n == s@.len(),
            start < n,
            !is_env_space(s@[start as int]),
            skip_ws_rev(s@, n as int) == skip_ws_rev(s@, end as int),
        decreases end,
    {
        end = end - 1;
    }
    assert(skip_ws_rev(s@, n as int) == end as int);
    s.substring_char(start, end)
}

/// First index at or after `i` where `c` occurs in `s`, or the length of `s`
/// if it does not occur.
pub open spec fn find_char(s: Seq<char>, c: char, i: int) -> int
    decreases s.len() - i
        when 0 <= i <= s.len()
{
    if i == s.len() {
        i
    } else if s[i] == c {
        i
    } else {
        find_char(s, c, i + 1)
    }
}

/// Whether `a` is lexicographically at most `b`, comparing characters by code
/// point, as `str`'s own ordering does.
pub open spec fn lex_le(a: Seq<char>, b: Seq<char>) -> bool
    decreases a.len(),
{
    if a.len() == 0 {
        true
    } else if b.len() == 0 {
        false
    } else if (a[0] as u32) < (b[0] as u32) {
        true
    } else if (a[0] as u32) > (b[0] as u32) {
        false
    } else {
        lex_le(a.drop_first(), b.drop_first())
    }
}

pub proof fn lemma_lex_le_total(a: Seq<char>, b: Seq<char>)
    ensures
        lex_le(a, b) || lex_le(b, a),
    decreases a.len(),
{
    if a.len() > 0 && b.len() > 0 && (a[0] as u32) == (b[0] as u32) {
        lemma_lex_le_total(a.drop_first(), b.drop_first());
    }
}

pub proof fn lemma_lex_le_trans(a: Seq<char>, b: Seq<char>, c: Seq<char>)
    requires
        lex_le(a, b),
        lex_le(b, c),
    ensures
        lex_le(a, c),
    decreases a.len(),
{
    if a.len() > 0 && b.len() > 0 && c.len() > 0 && (a[0] as u32) == (b[0] as u32) && (b[0]
        as u32) == (c[0] as u32) {
        lemma_lex_le_trans(a.drop_first(), b.drop_first(), c.drop_first());
    }
}

/// Character-for-character string equality.
pub fn str_eq(a: &str, b: &str) -> (r: bool)
    ensures
        r == (a@ == b@),
{
    let an = a.unicode_len();
    let bn = b.unicode_len();
    if an != bn {
        return false;
    }
    let mut i: usize = 0;
    while i < an
        invariant
            0 <= i <= an,
            an == a@.len(),
            an == b@.len(),
            forall|j: int| 0 <= j < i ==> a@[j] == b@[j],
        decreases an - i,
    {
        if a.get_char(i) != b.get_char(i) {
            return false;
        }
        i = i + 1;
    }
    proof {
        assert(a@ =~= b@);
    }
    true
}

/// Compares two strings by code point, matching `lex_le`.
pub fn str_le(a: &str, b: &str) -> (r: bool)
    ensures
        r == lex_le(a@, b@),
{
    let an = a.unicode_len();
    let bn = b.unicode_len();
    let mut i: usize = 0;
    proof {
        assert(a@.skip(0) =~= a@);
        assert(b@.skip(0) =~= b@);
    }
    while i < an && i < bn
        invariant
            0 <= i <= an,
            0 <= i <= bn,
            an == a@.len(),
            bn == b@.len(),
            lex_le(a@, b@) == lex_le(a@.skip(i as int), b@.skip(i as int)),
        decreases an - i,
    {
        let ca = a.get_char(i);
        let cb = b.get_char(i);
        proof {
            assert(a@.skip(i as int)[0] == a@[i as int]);
            assert(b@.skip(i as int)[0] == b@[i as int]);
            assert(a@.skip(i as int).drop_first() =~= a@.skip(i as int + 1));
            assert(b@.skip(i as int).drop_first() =~= b@.skip(i as int + 1));
        }
        if (ca as u32) < (cb as u32) {
            return true;
        }
        if (ca as u32) > (cb as u32) {
            return false;
        }
        i = i + 1;
    }
    proof {
        if i == an {
            assert(a@.skip(i as int).len() == 0);
        } else {
            assert(b@.skip(i as int).len() == 0);
            assert(a@.skip(i as int).len() > 0);
        }
    }
    i == an
}

} // verus!
