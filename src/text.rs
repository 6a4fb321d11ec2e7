//! Text and path helpers on character sequences, for configuration values.

use vstd::prelude::*;
use vstd::string::{StrSliceExecFns, StringExecFns};

verus! {

/// What `str::trim` leaves of `s`.
pub uninterp spec fn trimmed(s: Seq<char>) -> Seq<char>;

/// Relies on `str::trim`: `s` without leading and trailing white space, a
/// result that depends on the characters of `s` alone.
#[verifier::external_body]
pub(crate) fn trim(s: &str) -> (r: &str)
    ensures
        r@ == trimmed(s@),
{
    s.trim()
}

/// A Unix path is absolute when it starts at the root.
pub open spec fn is_absolute_path(s: Seq<char>) -> bool {
    s.len() > 0 && s[0] == '/'
}

/// `s` starts with `prefix`.
pub open spec fn has_prefix(s: Seq<char>, prefix: Seq<char>) -> bool {
    prefix.len() <= s.len() && s.subrange(0, prefix.len() as int) == prefix
}

/// `rel` put under `base`, as `PathBuf::join` does on Unix: an absolute `rel`
/// replaces `base`; otherwise a separator is added unless `base` is empty or
/// already ends with one.
pub open spec fn join_spec(base: Seq<char>, rel: Seq<char>) -> Seq<char> {
    if is_absolute_path(rel) || base.len() == 0 {
        rel
    } else if base[base.len() - 1] == '/' {
        base + rel
    } else {
        base + seq!['/'] + rel
    }
}

pub fn is_absolute(s: &str) -> (r: bool)
    ensures
        r == is_absolute_path(s@),
{
    s.unicode_len() > 0 && s.get_char(0) == '/'
}

/// Whether `a` and `b` hold the same characters.
pub fn str_eq(a: &str, b: &str) -> (r: bool)
    ensures
        r == (a@ == b@),
{
    let n = a.unicode_len();
    if n != b.unicode_len() {
        return false;
    }
    let mut i: usize = 0;
    while i < n
        invariant
            n == a@.len(),
            n == b@.len(),
            i <= n,
            a@.subrange(0, i as int) == b@.subrange(0, i as int),
        decreases n - i,
    {
        if a.get_char(i) != b.get_char(i) {
            return false;
        }
        assert(a@.subrange(0, i + 1) =~= a@.subrange(0, i as int).push(a@[i as int]));
        assert(b@.subrange(0, i + 1) =~= b@.subrange(0, i as int).push(b@[i as int]));
        i = i + 1;
    }
    assert(a@ =~= a@.subrange(0, n as int));
    assert(b@ =~= b@.subrange(0, n as int));
    true
}

pub fn starts_with(s: &str, prefix: &str) -> (r: bool)
    ensures
        r == has_prefix(s@, prefix@),
{
    let n = prefix.unicode_len();
    if n > s.unicode_len() {
        return false;
    }
    let head = s.substring_char(0, n);
    str_eq(head, prefix)
}

pub fn join_path(base: &str, rel: &str) -> (r: String)
    ensures
        r@ == join_spec(base@, rel@),
{
    let n = base.unicode_len();
    if is_absolute(rel) || n == 0 {
        return String::from_str(rel);
    }
    let mut out = String::from_str(base);
    if base.get_char(n - 1) != '/' {
        out.append("/");
        proof {
            reveal_strlit("/");
        }
    }
    out.append(rel);
    out
}

} // verus!
