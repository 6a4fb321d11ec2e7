//! How the SQLite backend turns a key prefix into a `LIKE` pattern and the keys
//! it finds into the names one level below the prefix.

use crate::text::{has_prefix, starts_with, str_eq};
use vstd::prelude::*;
use vstd::string::{StrSliceExecFns, StringExecFns};

verus! {

/// `c` as it stands in a `LIKE` pattern with `\` as the escape character.
pub open spec fn escape_char(c: char) -> Seq<char> {
    if c == '\\' || c == '%' || c == '_' {
        seq!['\\', c]
    } else {
        seq![c]
    }
}

/// `s` with every `\`, `%` and `_` escaped.
pub open spec fn escape_spec(s: Seq<char>) -> Seq<char>
    decreases s.len(),
{
    if s.len() == 0 {
        Seq::empty()
    } else {
        escape_spec(s.drop_last()) + escape_char(s.last())
    }
}

/// `prefix` escaped so that a `LIKE` pattern reads it literally.
pub fn escape_like_prefix(prefix: &str) -> (r: String)
    ensures
        r@ == escape_spec(prefix@),
{
    let n = prefix.unicode_len();
    let mut out = String::new();
    let mut i: usize = 0;
    while i < n
        invariant
            n == prefix@.len(),
            i <= n,
            out@ == escape_spec(prefix@.subrange(0, i as int)),
        decreases n - i,
    {
        let c = prefix.get_char(i);
        proof {
            reveal_strlit("\\\\");
            reveal_strlit("\\%");
            reveal_strlit("\\_");
            assert(prefix@.subrange(0, i + 1).drop_last() =~= prefix@.subrange(0, i as int));
        }
        if c == '\\' {
            out.append("\\\\");
        } else if c == '%' {
            out.append("\\%");
        } else if c == '_' {
            out.append("\\_");
        } else {
            let one = prefix.substring_char(i, i + 1);
            out.append(one);
            proof {
                assert(one@ =~= seq![c]);
            }
        }
        i = i + 1;
    }
    assert(prefix@.subrange(0, n as int) =~= prefix@);
    out
}

/// The index of the first `/` in `s`, if any.
pub open spec fn first_slash(s: Seq<char>) -> Option<int> {
    if exists|i: int| 0 <= i < s.len() && s[i] == '/' {
        Some(choose|i: int| 0 <= i < s.len() && s[i] == '/' && forall|j: int| 0 <= j < i ==> s[j] != '/')
    } else {
        None
    }
}

/// The name a key lists under `prefix`: the key without the prefix, cut after
/// its first `/` so that deeper keys show as their directory.
pub open spec fn entry_name(key: Seq<char>, prefix: Seq<char>) -> Seq<char> {
    let rest = if has_prefix(key, prefix) {
        key.subrange(prefix.len() as int, key.len() as int)
    } else {
        key
    };
    match first_slash(rest) {
        Some(i) => rest.subrange(0, i + 1),
        None => rest,
    }
}

/// The name `key` lists as under `prefix`.
pub fn list_entry_name(key: &str, prefix: &str) -> (r: String)
    ensures
        r@ == entry_name(key@, prefix@),
{
    let rest: &str = if starts_with(key, prefix) {
        key.substring_char(prefix.unicode_len(), key.unicode_len())
    } else {
        key
    };
    let n = rest.unicode_len();
    let mut i: usize = 0;
    while i < n
        invariant
            n == rest@.len(),
            i <= n,
            forall|j: int| 0 <= j < i ==> rest@[j] != '/',
            rest@ == if has_prefix(key@, prefix@) {
                key@.subrange(prefix@.len() as int, key@.len() as int)
            } else {
                key@
            },
        decreases n - i,
    {
        if rest.get_char(i) == '/' {
            proof {
                assert(0 <= i < rest@.len() && rest@[i as int] == '/' && forall|j: int| 0 <= j < i ==> rest@[j] != '/');
                let f = choose|f: int|
                    0 <= f < rest@.len() && rest@[f] == '/' && forall|j: int| 0 <= j < f ==> rest@[j] != '/';
                assert(rest@[i as int] == '/');
                if f < i {
                    assert(rest@[f] != '/');
                }
                if f > i {
                    assert(rest@[i as int] != '/');
                }
            }
            return String::from_str(rest.substring_char(0, i + 1));
        }
        i = i + 1;
    }
    String::from_str(rest)
}

/// Whether `names` holds `name`.
pub open spec fn listed(names: Seq<String>, name: Seq<char>) -> bool {
    exists|a: int| 0 <= a < names.len() && names[a]@ == name
}

/// Whether one of `keys` lists as `name` under `prefix`.
pub open spec fn named(keys: Seq<String>, prefix: Seq<char>, name: Seq<char>) -> bool {
    exists|k: int| 0 <= k < keys.len() && entry_name(keys[k]@, prefix) == name
}

/// Whether `names` holds `name`.
fn contains_name(names: &Vec<String>, name: &str) -> (r: bool)
    ensures
        r == listed(names@, name@),
{
    let mut i: usize = 0;
    while i < names.len()
        invariant
            i <= names@.len(),
            forall|j: int| 0 <= j < i ==> #[trigger] names@[j]@ != name@,
        decreases names@.len() - i,
    {
        if str_eq(names[i].as_str(), name) {
            return true;
        }
        i = i + 1;
    }
    false
}

/// The distinct names that `keys` list as under `prefix`, in the order they are
/// first met.
pub fn list_names(keys: &Vec<String>, prefix: &str) -> (r: Vec<String>)
    ensures
        forall|a: int, b: int| 0 <= a < b < r@.len() ==> #[trigger] r@[a]@ != #[trigger] r@[b]@,
        forall|a: int| 0 <= a < r@.len() ==> #[trigger] named(keys@, prefix@, r@[a]@),
        forall|k: int| 0 <= k < keys@.len() ==> #[trigger] listed(r@, entry_name(keys@[k]@, prefix@)),
{
    let mut out: Vec<String> = Vec::new();
    let mut i: usize = 0;
    while i < keys.len()
        invariant
            i <= keys@.len(),
            forall|a: int, b: int| 0 <= a < b < out@.len() ==> #[trigger] out@[a]@ != #[trigger] out@[b]@,
            forall|a: int| 0 <= a < out@.len() ==> #[trigger] named(keys@.take(i as int), prefix@, out@[a]@),
            forall|k: int| 0 <= k < i ==> #[trigger] listed(out@, entry_name(keys@[k]@, prefix@)),
        decreases keys@.len() - i,
    {
        let name = list_entry_name(keys[i].as_str(), prefix);
        let ghost before = out@;
        let ghost t = keys@.take(i as int);
        let ghost t1 = keys@.take(i + 1);
        proof {
            assert forall|a: int| 0 <= a < before.len() implies #[trigger] named(t1, prefix@, before[a]@) by {
                assert(named(t, prefix@, before[a]@));
                let k = choose|k: int| 0 <= k < t.len() && entry_name(t[k]@, prefix@) == before[a]@;
                assert(t1[k] == t[k]);
            }
            assert(t1[i as int] == keys@[i as int]);
            assert(named(t1, prefix@, name@));
        }
        if !contains_name(&out, name.as_str()) {
            out.push(name);
            proof {
                assert forall|a: int| 0 <= a < out@.len() implies #[trigger] named(t1, prefix@, out@[a]@) by {
                    if a < before.len() {
                        assert(out@[a] == before[a]);
                    }
                }
                assert forall|k: int| 0 <= k < i + 1 implies #[trigger] listed(out@, entry_name(keys@[k]@, prefix@)) by {
                    if k < i {
                        assert(listed(before, entry_name(keys@[k]@, prefix@)));
                        let a = choose|a: int| 0 <= a < before.len() && before[a]@ == entry_name(keys@[k]@, prefix@);
                        assert(out@[a] == before[a]);
                    } else {
                        assert(out@[before.len() as int]@ == entry_name(keys@[k]@, prefix@));
                    }
                }
                assert forall|a: int, b: int| 0 <= a < b < out@.len() implies #[trigger] out@[a]@ != #[trigger] out@[b]@ by {
                    if b < before.len() {
                        assert(out@[a] == before[a] && out@[b] == before[b]);
                    } else {
                        assert(out@[a] == before[a]);
                        assert(!listed(before, name@));
                    }
                }
            }
        } else {
            proof {
                assert forall|k: int| 0 <= k < i + 1 implies #[trigger] listed(out@, entry_name(keys@[k]@, prefix@)) by {
                    if k == i {
                        assert(listed(out@, name@));
                    }
                }
            }
        }
        i = i + 1;
    }
    assert(keys@.take(i as int) =~= keys@);
    out
}

/// Whether the backend refuses `key`: it takes no absolute keys.
pub fn is_absolute_key(key: &str) -> (r: bool)
    ensures
        r == has_prefix(key@, "/"@),
{
    starts_with(key, "/")
}

} // verus!
