//! The key-name validation rule for secrets: names are SCREAMING_CASE, an
//! uppercase ASCII letter followed by uppercase letters, digits or
//! underscores. A name is validated before any store write is attempted.

use vstd::prelude::*;

verus! {

pub open spec fn is_ascii_upper(c: char) -> bool {
    'A' as u32 <= c as u32 && c as u32 <= 'Z' as u32
}

pub open spec fn is_ascii_digit_char(c: char) -> bool {
    '0' as u32 <= c as u32 && c as u32 <= '9' as u32
}

/// A character allowed after the first one: uppercase letter, digit or
/// underscore.
pub open spec fn valid_name_char(c: char) -> bool {
    is_ascii_upper(c) || is_ascii_digit_char(c) || c == '_'
}

/// The naming rule: non-empty, first character an uppercase ASCII letter,
/// every later character an uppercase letter, a digit or an underscore.
pub open spec fn valid_env_var_name(s: Seq<char>) -> bool {
    &&& s.len() > 0
    &&& is_ascii_upper(s[0])
    &&& forall|i: int| 1 <= i < s.len() ==> valid_name_char(s[i])
}

/// Decides the naming rule for a candidate secret key.
pub fn is_valid_env_var_name(name: &str) -> (r: bool)
    ensures
        r == valid_env_var_name(name@),
{
    let n = name.unicode_len();
    if n == 0 {
        return false;
    }
    let first = name.get_char(0);
    if !((('A' as u32) <= (first as u32)) && ((first as u32) <= ('Z' as u32))) {
        return false;
    }
    let mut i: usize = 1;
    while i < n
        invariant
            1 <= i <= n,
            n == name@.len(),
            is_ascii_upper(name@[0]),
            forall|j: int| 1 <= j < i ==> valid_name_char(name@[j]),
        decreases n - i,
    {
        let c = name.get_char(i);
        let upper = (('A' as u32) <= (c as u32)) && ((c as u32) <= ('Z' as u32));
        let digit = (('0' as u32) <= (c as u32)) && ((c as u32) <= ('9' as u32));
        if !(upper || digit || c == '_') {
            return false;
        }
        i = i + 1;
    }
    true
}

/// A valid name always contains at least one uppercase letter; the rule's
/// first-character requirement already guarantees it, stated here as its own
/// independently checkable fact.
pub proof fn lemma_valid_name_has_upper(s: Seq<char>)
    requires
        valid_env_var_name(s),
    ensures
        exists|i: int| 0 <= i < s.len() && is_ascii_upper(s[i]),
{
    assert(0 <= 0 < s.len() && is_ascii_upper(s[0]));
}

} // verus!
