//! Acting on the parts of an input that are in scope, and putting the input back
//! together.
use vstd::prelude::*;

use crate::actions::{Action, ActionError};
use crate::scope::{joined_bytes, scope_bytes, scope_text, ROScope, ROScopes, Scope, ScopeContext};
use vstd::string::StringSliceAdditionalSpecFns;
use vstd::utf8::{encode_utf8, encode_utf8_decode_utf8};
use crate::betterletters::stages::{first_line_len, lemma_first_line_len, lines};
use crate::strs::{push_char, push_str, to_chars};

verus! {

/// What the `actions`, one after the other, make of the text `text` of a part in scope
/// with context `ctx`: without context each acts plainly, with context each acts in it;
/// `None` once one fails.
pub open spec fn through_actions(actions: Seq<Box<dyn Action>>, text: Seq<char>, ctx: Option<ScopeContext>) -> Option<
    Seq<char>,
>
    decreases actions.len(),
{
    if actions.len() == 0 {
        Some(text)
    } else {
        let once = match ctx {
            Some(c) => actions[0].acts_in_context(text, c),
            None => Some(actions[0].acts(text)),
        };
        match once {
            Some(t) => through_actions(actions.drop_first(), t, ctx),
            None => None,
        }
    }
}

/// The text of the `scopes` after the `actions`: parts out of scope as they are, parts in
/// scope through the actions (see [`through_actions`]); `None` once an action fails.
pub open spec fn acted_text(actions: Seq<Box<dyn Action>>, scopes: Seq<ROScope>) -> Option<Seq<char>>
    decreases scopes.len(),
{
    if scopes.len() == 0 {
        Some(seq![])
    } else {
        let last = match scopes.last().0 {
            Scope::In(t, ctx) => through_actions(actions, t@, ctx),
            Scope::Out(t) => Some(t@),
        };
        match (acted_text(actions, scopes.drop_last()), last) {
            (Some(before), Some(l)) => Some(before + l),
            _ => None,
        }
    }
}

/// The texts of the `scopes`, put back together.
pub open spec fn joined_text(scopes: Seq<ROScope>) -> Seq<char>
    decreases scopes.len(),
{
    if scopes.len() == 0 {
        seq![]
    } else {
        joined_text(scopes.drop_last()) + scope_text(scopes.last())
    }
}

proof fn lemma_encode_concat(a: Seq<char>, b: Seq<char>)
    ensures
        encode_utf8(a + b) == encode_utf8(a) + encode_utf8(b),
    decreases a.len(),
{
    if a.len() == 0 {
        assert(a + b =~= b);
        assert(encode_utf8(a) + encode_utf8(b) =~= encode_utf8(b));
    } else {
        lemma_encode_concat(a.drop_first(), b);
        assert((a + b).drop_first() =~= a.drop_first() + b);
        assert((a + b)[0] == a[0]);
    }
}

proof fn lemma_joined_encoded(scopes: Seq<ROScope>)
    ensures
        joined_bytes(scopes) == encode_utf8(joined_text(scopes)),
    decreases scopes.len(),
{
    if scopes.len() > 0 {
        lemma_joined_encoded(scopes.drop_last());
        lemma_encode_concat(joined_text(scopes.drop_last()), scope_text(scopes.last()));
        assert(scope_bytes(scopes.last()) == encode_utf8(scope_text(scopes.last())));
    } else {
        assert(encode_utf8(Seq::<char>::empty()) =~= Seq::<u8>::empty());
    }
}

proof fn lemma_no_actions_join(scopes: Seq<ROScope>)
    ensures
        acted_text(seq![], scopes) == Some(joined_text(scopes)),
    decreases scopes.len(),
{
    if scopes.len() > 0 {
        lemma_no_actions_join(scopes.drop_last());
    }
}

/// Acting with no actions on the scopes of an input gives the input back: the parts,
/// in and out of scope, put back together are the input.
pub proof fn lemma_no_actions_give_input(scopes: Seq<ROScope>, input: &str)
    requires
        joined_bytes(scopes) == input.spec_bytes(),
    ensures
        acted_text(seq![], scopes) == Some(input@),
{
    lemma_no_actions_join(scopes);
    lemma_joined_encoded(scopes);
    encode_utf8_decode_utf8(input@);
    encode_utf8_decode_utf8(joined_text(scopes));
}

/// Whether any part of `scopes` is in scope.
pub open spec fn any_in_scope(scopes: Seq<ROScope>) -> bool {
    exists|i: int| 0 <= i < scopes.len() && (#[trigger] scopes[i]).0 is In
}

/// Whether any part of `scopes` is in scope.
pub fn has_any_in_scope(scopes: &ROScopes) -> (r: bool)
    ensures
        r == any_in_scope(scopes.0@),
{
    let n = scopes.0.len();
    let mut i: usize = 0;
    while i < n
        invariant
            i <= n,
            n == scopes.0@.len(),
            forall|j: int| 0 <= j < i ==> !((#[trigger] scopes.0@[j]).0 is In),
        decreases n - i,
    {
        if let Scope::In(_, _) = scopes.0[i].0 {
            return true;
        }
        i = i + 1;
    }
    false
}

/// The parts of `scopes` that squeezing keeps: a part in scope right after another part in
/// scope is dropped, so that each run of consecutive parts in scope shrinks to its first.
pub open spec fn squeezed<'a>(scopes: Seq<ROScope<'a>>) -> Seq<ROScope<'a>>
    decreases scopes.len(),
{
    if scopes.len() == 0 {
        seq![]
    } else {
        let before = squeezed(scopes.drop_last());
        if scopes.len() >= 2 && scopes[scopes.len() - 2].0 is In && scopes.last().0 is In {
            before
        } else {
            before.push(scopes.last())
        }
    }
}

/// Squeezes consecutive parts in scope into one: only the first of each run of them is
/// kept (see [`squeezed`]).
pub fn squeeze<'a>(scopes: ROScopes<'a>) -> (r: ROScopes<'a>)
    ensures
        r.0@ == squeezed(scopes.0@),
{
    let ghost all = scopes.0@;
    let mut kept: Vec<ROScope<'a>> = Vec::new();
    let mut previous_in = false;
    proof {
        assert(all.take(0) =~= Seq::<ROScope>::empty());
    }
    for s in iter: scopes.0.into_iter()
        invariant
            iter.seq() == all,
            kept@ == squeezed(all.take(iter.index() as int)),
            previous_in == (iter.index() > 0 && all[iter.index() - 1].0 is In),
    {
        let ghost j = iter.index();
        proof {
            assert(all.take(j + 1).drop_last() =~= all.take(j as int));
            assert(all.take(j + 1).last() == s);
            assert(all[j as int] == s);
        }
        let is_in = match &s.0 {
            Scope::In(_, _) => true,
            Scope::Out(_) => false,
        };
        if !(previous_in && is_in) {
            kept.push(s);
        }
        previous_in = is_in;
    }
    proof {
        assert(all.take(all.len() as int) =~= all);
    }
    ROScopes(kept)
}

/// Runs the text `text` of a part in scope with context `ctx` through the `actions`.
fn run_actions(actions: &Vec<Box<dyn Action>>, text: &str, ctx: &Option<ScopeContext>) -> (r: Result<String, ActionError>)
    ensures
        r is Ok <==> through_actions(actions@, text@, *ctx) is Some,
        r matches Ok(s) ==> through_actions(actions@, text@, *ctx) == Some(s@),
{
    let n = actions.len();
    let mut cur = String::new();
    push_str(&mut cur, text);
    proof {
        assert(Seq::<char>::empty() + text@ =~= text@);
        assert(actions@.skip(0) =~= actions@);
    }
    let mut k: usize = 0;
    while k < n
        invariant
            k <= n,
            n == actions@.len(),
            through_actions(actions@.skip(k as int), cur@, *ctx) == through_actions(actions@, text@, *ctx),
        decreases n - k,
    {
        proof {
            assert(actions@.skip(k as int)[0] == actions@[k as int]);
            assert(actions@.skip(k as int).drop_first() =~= actions@.skip(k + 1));
        }
        let next = match ctx {
            Some(c) => actions[k].act_with_context(cur.as_str(), c),
            None => Ok(actions[k].act(cur.as_str())),
        };
        match next {
            Ok(s) => {
                cur = s;
            },
            Err(e) => {
                return Err(e);
            },
        }
        k = k + 1;
    }
    proof {
        assert(actions@.skip(n as int) =~= Seq::<Box<dyn Action>>::empty());
    }
    Ok(cur)
}

/// The input that `scopes` divide, after the `actions` acted on the parts in scope, in
/// order; the first failing action's error where one fails.
pub fn apply_actions(scopes: &ROScopes, actions: &Vec<Box<dyn Action>>) -> (r: Result<String, ActionError>)
    ensures
        r is Ok <==> acted_text(actions@, scopes.0@) is Some,
        r matches Ok(s) ==> acted_text(actions@, scopes.0@) == Some(s@),
{
    let n = scopes.0.len();
    let mut out = String::new();
    let mut i: usize = 0;
    proof {
        assert(scopes.0@.take(0) =~= Seq::<ROScope>::empty());
    }
    while i < n
        invariant
            i <= n,
            n == scopes.0@.len(),
            acted_text(actions@, scopes.0@.take(i as int)) == Some(out@),
        decreases n - i,
    {
        let scope = &scopes.0[i];
        proof {
            assert(scopes.0@.take(i + 1).drop_last() =~= scopes.0@.take(i as int));
            assert(scopes.0@.take(i + 1).last() == scopes.0@[i as int]);
        }
        match &scope.0 {
            Scope::In(t, ctx) => {
                match run_actions(actions, *t, ctx) {
                    Ok(s) => push_str(&mut out, s.as_str()),
                    Err(e) => {
                        proof {
                            lemma_acted_none(actions@, scopes.0@, i + 1);
                        }
                        return Err(e);
                    },
                }
            },
            Scope::Out(t) => push_str(&mut out, *t),
        }
        i = i + 1;
    }
    proof {
        assert(scopes.0@.take(n as int) =~= scopes.0@);
    }
    Ok(out)
}

/// Once the parts up to some point cannot be acted on, the whole cannot.
proof fn lemma_acted_none(actions: Seq<Box<dyn Action>>, scopes: Seq<ROScope>, j: int)
    requires
        0 < j <= scopes.len(),
        acted_text(actions, scopes.take(j)) is None,
    ensures
        acted_text(actions, scopes) is None,
    decreases scopes.len() - j,
{
    if j < scopes.len() {
        assert(scopes.take(j + 1).drop_last() =~= scopes.take(j));
        lemma_acted_none(actions, scopes, j + 1);
    } else {
        assert(scopes.take(j) =~= scopes);
    }
}

/// The characters `s`, each marked with `b`.
pub open spec fn tag(s: Seq<char>, b: bool) -> Seq<(char, bool)> {
    s.map_values(|c: char| (c, b))
}

/// The characters of the marked characters `t`.
pub open spec fn untag(t: Seq<(char, bool)>) -> Seq<char> {
    t.map_values(|p: (char, bool)| p.0)
}

/// The characters of the `scopes` after the `actions` (see [`acted_text`]), each marked
/// with whether it comes from a part in scope; `None` once an action fails.
pub open spec fn acted_chars(actions: Seq<Box<dyn Action>>, scopes: Seq<ROScope>) -> Option<Seq<(char, bool)>>
    decreases scopes.len(),
{
    if scopes.len() == 0 {
        Some(seq![])
    } else {
        let last = match scopes.last().0 {
            Scope::In(t, ctx) => match through_actions(actions, t@, ctx) {
                Some(x) => Some(tag(x, true)),
                None => None,
            },
            Scope::Out(t) => Some(tag(t@, false)),
        };
        match (acted_chars(actions, scopes.drop_last()), last) {
            (Some(before), Some(l)) => Some(before + l),
            _ => None,
        }
    }
}

/// The marked characters `t` split into lines, as [`lines`] splits their text.
pub open spec fn tagged_lines(t: Seq<(char, bool)>) -> Seq<Seq<(char, bool)>>
    decreases t.len(),
{
    if t.len() == 0 {
        seq![]
    } else {
        let n = first_line_len(untag(t));
        if 0 < n <= t.len() {
            seq![t.take(n)] + tagged_lines(t.skip(n))
        } else {
            seq![t]
        }
    }
}

/// Whether some character of the line `l` comes from a part in scope.
pub open spec fn line_in_scope(l: Seq<(char, bool)>) -> bool {
    exists|j: int| 0 <= j < l.len() && (#[trigger] l[j]).1
}

/// The marked characters of the acted scopes are the acted text, marked.
proof fn lemma_acted_chars(actions: Seq<Box<dyn Action>>, scopes: Seq<ROScope>)
    ensures
        acted_chars(actions, scopes) is Some <==> acted_text(actions, scopes) is Some,
        acted_chars(actions, scopes) is Some ==> untag(acted_chars(actions, scopes)->0) == acted_text(actions, scopes)->0,
    decreases scopes.len(),
{
    if scopes.len() > 0 {
        lemma_acted_chars(actions, scopes.drop_last());
        if let Some(b) = acted_chars(actions, scopes.drop_last()) {
            match scopes.last().0 {
                Scope::In(t, ctx) => {
                    if let Some(x) = through_actions(actions, t@, ctx) {
                        assert(untag(b + tag(x, true)) =~= untag(b) + x);
                    }
                },
                Scope::Out(t) => {
                    assert(untag(b + tag(t@, false)) =~= untag(b) + t@);
                },
            }
        }
    }
}

/// The lines of marked characters carry the lines of their text.
proof fn lemma_tagged_lines(t: Seq<(char, bool)>)
    ensures
        tagged_lines(t).len() == lines(untag(t)).len(),
        forall|i: int| 0 <= i < tagged_lines(t).len() ==> untag(#[trigger] tagged_lines(t)[i]) == lines(untag(t))[i],
    decreases t.len(),
{
    if t.len() > 0 {
        let u = untag(t);
        let n = first_line_len(u);
        lemma_first_line_len(u);
        assert(u.take(n) =~= untag(t.take(n)));
        assert(u.skip(n) =~= untag(t.skip(n)));
        lemma_tagged_lines(t.skip(n));
        let a = tagged_lines(t);
        let b = lines(u);
        assert(a == seq![t.take(n)] + tagged_lines(t.skip(n)));
        assert(b == seq![u.take(n)] + lines(u.skip(n)));
        assert forall|i: int| 0 <= i < a.len() implies untag(#[trigger] a[i]) == b[i] by {
            if i > 0 {
                assert(a[i] == tagged_lines(t.skip(n))[i - 1]);
                assert(b[i] == lines(u.skip(n))[i - 1]);
            }
        }
    }
}

/// The characters of the `scopes` after the `actions`, each marked with whether it
/// comes from a part in scope (see [`acted_chars`]).
fn marked_chars(scopes: &ROScopes, actions: &Vec<Box<dyn Action>>) -> (r: Result<Vec<(char, bool)>, ActionError>)
    ensures
        r is Ok <==> acted_chars(actions@, scopes.0@) is Some,
        r matches Ok(v) ==> acted_chars(actions@, scopes.0@) == Some(v@),
{
    let n = scopes.0.len();
    let mut out: Vec<(char, bool)> = Vec::new();
    let mut i: usize = 0;
    proof {
        assert(scopes.0@.take(0) =~= Seq::<ROScope>::empty());
    }
    while i < n
        invariant
            i <= n,
            n == scopes.0@.len(),
            acted_chars(actions@, scopes.0@.take(i as int)) == Some(out@),
        decreases n - i,
    {
        let scope = &scopes.0[i];
        proof {
            assert(scopes.0@.take(i + 1).drop_last() =~= scopes.0@.take(i as int));
            assert(scopes.0@.take(i + 1).last() == scopes.0@[i as int]);
        }
        let (text, inside) = match &scope.0 {
            Scope::In(t, ctx) => {
                match run_actions(actions, *t, ctx) {
                    Ok(s) => (s, true),
                    Err(e) => {
                        proof {
                            lemma_marked_none(actions@, scopes.0@, i + 1);
                        }
                        return Err(e);
                    },
                }
            },
            Scope::Out(t) => {
                let mut s = String::new();
                push_str(&mut s, *t);
                proof {
                    assert(s@ =~= t@);
                }
                (s, false)
            },
        };
        let cs = to_chars(text.as_str());
        let m = cs.len();
        let ghost before = out@;
        let mut j: usize = 0;
        while j < m
            invariant
                j <= m,
                m == cs@.len(),
                out@ == before + tag(cs@.take(j as int), inside),
            decreases m - j,
        {
            out.push((cs[j], inside));
            proof {
                assert(tag(cs@.take(j + 1), inside) =~= tag(cs@.take(j as int), inside).push((cs@[j as int], inside)));
            }
            j = j + 1;
        }
        proof {
            assert(cs@.take(m as int) =~= cs@);
        }
        i = i + 1;
    }
    proof {
        assert(scopes.0@.take(n as int) =~= scopes.0@);
    }
    Ok(out)
}

/// Once the parts up to some point cannot be acted on, the whole cannot.
proof fn lemma_marked_none(actions: Seq<Box<dyn Action>>, scopes: Seq<ROScope>, j: int)
    requires
        0 < j <= scopes.len(),
        acted_chars(actions, scopes.take(j)) is None,
    ensures
        acted_chars(actions, scopes) is None,
    decreases scopes.len() - j,
{
    if j < scopes.len() {
        assert(scopes.take(j + 1).drop_last() =~= scopes.take(j));
        lemma_marked_none(actions, scopes, j + 1);
    } else {
        assert(scopes.take(j) =~= scopes);
    }
}

/// The input that `scopes` divide, after the `actions` acted on the parts in scope (see
/// [`apply_actions`]), line by line: each line's text, and whether any of its characters
/// comes from a part in scope; the first failing action's error where one fails.
pub fn acted_lines(scopes: &ROScopes, actions: &Vec<Box<dyn Action>>) -> (r: Result<Vec<(String, bool)>, ActionError>)
    ensures
        r is Ok <==> acted_text(actions@, scopes.0@) is Some,
        r matches Ok(ls) ==> ls@.len() == lines(acted_text(actions@, scopes.0@)->0).len(),
        r matches Ok(ls) ==> forall|i: int| 0 <= i < ls@.len() ==> (#[trigger] ls@[i]).0@ == lines(
            acted_text(actions@, scopes.0@)->0,
        )[i] && ls@[i].1 == line_in_scope(tagged_lines(acted_chars(actions@, scopes.0@)->0)[i]),
{
    proof {
        lemma_acted_chars(actions@, scopes.0@);
    }
    let marked = marked_chars(scopes, actions)?;
    let ghost t = marked@;
    let ghost all = tagged_lines(t);
    proof {
        lemma_tagged_lines(t);
    }
    let len = marked.len();
    let mut cs: Vec<char> = Vec::new();
    let mut k: usize = 0;
    while k < len
        invariant
            k <= len,
            len == t.len(),
            marked@ == t,
            cs@ == untag(t.take(k as int)),
        decreases len - k,
    {
        cs.push(marked[k].0);
        proof {
            assert(untag(t.take(k + 1)) =~= untag(t.take(k as int)).push(t[k as int].0));
        }
        k = k + 1;
    }
    proof {
        assert(t.take(len as int) =~= t);
    }
    let mut out: Vec<(String, bool)> = Vec::new();
    let mut start: usize = 0;
    proof {
        assert(t.skip(0) =~= t);
    }
    while start < len
        invariant
            start <= len,
            len == t.len(),
            marked@ == t,
            cs@ == untag(t),
            all == tagged_lines(t),
            out@.len() + tagged_lines(t.skip(start as int)).len() == all.len(),
            forall|i: int| 0 <= i < out@.len() ==> (#[trigger] out@[i]).0@ == untag(all[i]) && out@[i].1 == line_in_scope(all[i]),
            forall|i: int| 0 <= i < tagged_lines(t.skip(start as int)).len() ==> #[trigger] tagged_lines(t.skip(start as int))[i] == all[out@.len() + i],
        decreases len - start,
    {
        let n = crate::betterletters::stages::line_len_at(&cs, start);
        let ghost rest = t.skip(start as int);
        proof {
            assert(cs@.skip(start as int) =~= untag(rest));
            lemma_first_line_len(untag(rest));
            assert(tagged_lines(rest) == seq![rest.take(n as int)] + tagged_lines(rest.skip(n as int)));
            assert(rest.skip(n as int) =~= t.skip(start + n));
            assert(tagged_lines(rest)[0] == rest.take(n as int));
        }
        let mut line = String::new();
        let mut any = false;
        let mut j: usize = start;
        while j < start + n
            invariant
                start <= j <= start + n <= len,
                len == t.len(),
                marked@ == t,
                rest == t.skip(start as int),
                line@ == untag(t.subrange(start as int, j as int)),
                any == exists|x: int| start <= x < j && (#[trigger] t[x]).1,
            decreases start + n - j,
        {
            push_char(&mut line, marked[j].0);
            if marked[j].1 {
                any = true;
            }
            proof {
                assert(untag(t.subrange(start as int, j + 1)) =~= untag(t.subrange(start as int, j as int)).push(t[j as int].0));
            }
            j = j + 1;
        }
        proof {
            let l = rest.take(n as int);
            assert(t.subrange(start as int, start + n) =~= l);
            assert(l == all[out@.len() as int]);
            if any {
                let x = choose|x: int| start <= x < start + n && (#[trigger] t[x]).1;
                assert(l[x - start] == t[x]);
            }
            if line_in_scope(l) {
                let y = choose|y: int| 0 <= y < l.len() && (#[trigger] l[y]).1;
                assert(t[start + y] == l[y]);
            }
        }
        let ghost before = out@;
        out.push((line, any));
        proof {
            assert forall|i: int| 0 <= i < tagged_lines(t.skip(start + n)).len() implies #[trigger] tagged_lines(t.skip(start + n))[i] == all[out@.len() + i] by {
                assert(tagged_lines(rest)[i + 1] == tagged_lines(t.skip(start + n))[i]);
            }
            assert forall|i: int| 0 <= i < out@.len() implies (#[trigger] out@[i]).0@ == untag(all[i]) && out@[i].1 == line_in_scope(all[i]) by {
                if i < before.len() {
                    assert(out@[i] == before[i]);
                }
            }
        }
        start = start + n;
    }
    proof {
        assert(t.skip(len as int) =~= Seq::<(char, bool)>::empty());
        assert(tagged_lines(Seq::<(char, bool)>::empty()).len() == 0);
    }
    Ok(out)
}

/// Actions run in the order given: acting with `a` and then `rest` on a part in scope is
/// `rest` acting on what `a` made of it; in context it fails where `a` fails.
pub proof fn lemma_actions_in_order(a: Box<dyn Action>, rest: Seq<Box<dyn Action>>, text: Seq<char>, ctx: Option<ScopeContext>)
    ensures
        ctx is None ==> through_actions(seq![a] + rest, text, ctx) == through_actions(rest, a.acts(text), ctx),
        ctx matches Some(c) ==> through_actions(seq![a] + rest, text, ctx) == match a.acts_in_context(text, c) {
            Some(t) => through_actions(rest, t, ctx),
            None => None,
        },
{
    assert((seq![a] + rest)[0] == a);
    assert((seq![a] + rest).drop_first() =~= rest);
}

/// Running the actions `xs` and then `ys` is running `ys` on what `xs` made, and fails
/// where either fails.
pub proof fn lemma_actions_concat(xs: Seq<Box<dyn Action>>, ys: Seq<Box<dyn Action>>, text: Seq<char>, ctx: Option<ScopeContext>)
    ensures
        through_actions(xs + ys, text, ctx) == match through_actions(xs, text, ctx) {
            Some(t) => through_actions(ys, t, ctx),
            None => None,
        },
    decreases xs.len(),
{
    if xs.len() == 0 {
        assert(xs + ys =~= ys);
    } else {
        assert((xs + ys)[0] == xs[0]);
        assert((xs + ys).drop_first() =~= xs.drop_first() + ys);
        let once = match ctx {
            Some(c) => xs[0].acts_in_context(text, c),
            None => Some(xs[0].acts(text)),
        };
        if let Some(t) = once {
            lemma_actions_concat(xs.drop_first(), ys, t, ctx);
        }
    }
}

} // verus!
