//! Making strings safe for use as file names.
use vstd::prelude::*;

use crate::strs::{push_char, to_chars};

verus! {

/// Whether `c` is replaced when sanitizing a file name.
pub open spec fn is_unsafe_in_filename(c: char) -> bool {
    c == ' ' || c == ':' || c == '<' || c == '>' || c == '"' || c == '/' || c == '\\' || c == '|'
        || c == '?' || c == '*' || c == '\n' || c == '\r'
}

/// The file name made from `s` so far, given the output `out` and whether a separator
/// is pending: each unsafe character becomes `_`, and runs of `_` are collapsed into
/// one, none leading or trailing.
pub open spec fn sanitized_from(s: Seq<char>, out: Seq<char>, pending: bool) -> Seq<char>
    decreases s.len(),
{
    if s.len() == 0 {
        out
    } else {
        let c = s[0];
        if c == '_' || is_unsafe_in_filename(c) {
            sanitized_from(s.drop_first(), out, out.len() > 0)
        } else if pending {
            sanitized_from(s.drop_first(), out.push('_').push(c), false)
        } else {
            sanitized_from(s.drop_first(), out.push(c), false)
        }
    }
}

/// The sanitized file name for `s` (see [`sanitized_from`]).
pub open spec fn sanitized(s: Seq<char>) -> Seq<char> {
    sanitized_from(s, Seq::empty(), false)
}

/// Whether `c` is unsafe in file names.
fn unsafe_char(c: char) -> (b: bool)
    ensures
        b == is_unsafe_in_filename(c),
{
    c == ' ' || c == ':' || c == '<' || c == '>' || c == '"' || c == '/' || c == '\\' || c == '|' || c == '?'
        || c == '*' || c == '\n' || c == '\r'
}

/// Sanitizes a string for use as a filename: characters illegal in file names become
/// `_`, and runs of `_` are collapsed into one, with none at either end.
pub fn sanitize_for_filename_use(filename: &str) -> (r: String)
    ensures
        r@ == sanitized(filename@),
{
    let cs = to_chars(filename);
    let n = cs.len();
    let mut out = String::new();
    let mut pending = false;
    let mut i: usize = 0;
    proof {
        assert(cs@.skip(0) =~= cs@);
    }
    while i < n
        invariant
            i <= n,
            n == cs@.len(),
            cs@ == filename@,
            sanitized_from(cs@.skip(i as int), out@, pending) == sanitized(filename@),
        decreases n - i,
    {
        let c = cs[i];
        proof {
            assert(cs@.skip(i as int)[0] == c);
            assert(cs@.skip(i as int).drop_first() =~= cs@.skip(i + 1));
        }
        if c == '_' || unsafe_char(c) {
            pending = !out.as_str().is_empty();
        } else {
            if pending {
                push_char(&mut out, '_');
            }
            push_char(&mut out, c);
            pending = false;
        }
        i = i + 1;
    }
    proof {
        assert(cs@.skip(n as int) =~= Seq::<char>::empty());
    }
    out
}

/// A sanitized file name has no `_` at its start or end and no two `_` in a row, and
/// holds none of the unsafe characters.
pub proof fn lemma_sanitized_shape(s: Seq<char>, out: Seq<char>, pending: bool)
    requires
        out.len() == 0 ==> !pending,
        out.len() > 0 ==> out[0] != '_' && out.last() != '_',
        forall|i: int| 0 <= i < out.len() ==> !is_unsafe_in_filename(#[trigger] out[i]),
        forall|i: int| 0 <= i < out.len() - 1 ==> !(#[trigger] out[i] == '_' && out[i + 1] == '_'),
    ensures
        ({
            let r = sanitized_from(s, out, pending);
            &&& r.len() > 0 ==> r[0] != '_' && r.last() != '_'
            &&& forall|i: int| 0 <= i < r.len() ==> !is_unsafe_in_filename(#[trigger] r[i])
            &&& forall|i: int| 0 <= i < r.len() - 1 ==> !(#[trigger] r[i] == '_' && r[i + 1] == '_')
        }),
    decreases s.len(),
{
    if s.len() > 0 {
        let c = s[0];
        if c == '_' || is_unsafe_in_filename(c) {
            lemma_sanitized_shape(s.drop_first(), out, out.len() > 0);
        } else if pending {
            let o2 = out.push('_').push(c);
            assert forall|i: int| 0 <= i < o2.len() - 1 implies !(#[trigger] o2[i] == '_' && o2[i + 1] == '_') by {
                if i < out.len() - 1 {
                    assert(o2[i] == out[i] && o2[i + 1] == out[i + 1]);
                }
            }
            lemma_sanitized_shape(s.drop_first(), o2, false);
        } else {
            let o2 = out.push(c);
            assert forall|i: int| 0 <= i < o2.len() - 1 implies !(#[trigger] o2[i] == '_' && o2[i + 1] == '_') by {
                if i < out.len() - 1 {
                    assert(o2[i] == out[i] && o2[i + 1] == out[i + 1]);
                }
            }
            lemma_sanitized_shape(s.drop_first(), o2, false);
        }
    }
}

/// Sanitizing gives a name without leading, trailing or doubled `_` and without the
/// unsafe characters.
pub proof fn lemma_sanitized_is_clean(s: Seq<char>)
    ensures
        sanitized(s).len() > 0 ==> sanitized(s)[0] != '_' && sanitized(s).last() != '_',
        forall|i: int| 0 <= i < sanitized(s).len() ==> !is_unsafe_in_filename(#[trigger] sanitized(s)[i]),
        forall|i: int| 0 <= i < sanitized(s).len() - 1 ==> !(#[trigger] sanitized(s)[i] == '_' && sanitized(s)[i + 1] == '_'),
{
    lemma_sanitized_shape(s, Seq::empty(), false);
}

} // verus!
