//! Stages: whole-text substitutions that can be chained into a pipeline.
use vstd::prelude::*;

pub mod german;
pub mod symbols;

pub use german::GermanStage;

verus! {

/// An error in a stage.
#[derive(Debug)]
pub struct StageError;

/// The result of a stage: the substituted text, or an error.
pub type StageResult = Result<String, StageError>;

/// A stage of the processing pipeline.
pub trait Stage: Send + Sync {
    /// What the stage makes of `input`: the substituted text, or `None` for an error.
    spec fn substitution(&self, input: Seq<char>) -> Option<Seq<char>>;

    /// Substitutes in `input`, giving the new text.
    fn substitute(&self, input: &str) -> (r: StageResult)
        ensures
            match r {
                Ok(s) => self.substitution(input@) == Some(s@),
                Err(_) => self.substitution(input@) is None,
            },
    ;
}

/// What the stages `stages` make of `input`, applied in order: each stage's output is
/// the next one's input, and an error stops the pipeline.
pub open spec fn pipeline(stages: Seq<Box<dyn Stage>>, input: Seq<char>) -> Option<Seq<char>>
    decreases stages.len(),
{
    if stages.len() == 0 {
        Some(input)
    } else {
        match stages[0].substitution(input) {
            Some(next) => pipeline(stages.drop_first(), next),
            None => None,
        }
    }
}

/// Applies the `stages` to one line of input, in order.
pub fn substitute_line(stages: &Vec<Box<dyn Stage>>, line: &str) -> (r: StageResult)
    ensures
        match r {
            Ok(s) => pipeline(stages@, line@) == Some(s@),
            Err(_) => pipeline(stages@, line@) is None,
        },
{
    let mut buf = crate::strs::from_chars(crate::strs::to_chars(line).as_slice());
    let n = stages.len();
    let mut i: usize = 0;
    proof {
        assert(stages@.skip(0) =~= stages@);
    }
    while i < n
        invariant
            i <= n,
            n == stages@.len(),
            pipeline(stages@.skip(i as int), buf@) == pipeline(stages@, line@),
        decreases n - i,
    {
        proof {
            assert(stages@.skip(i as int)[0] == stages@[i as int]);
            assert(stages@.skip(i as int).drop_first() =~= stages@.skip(i + 1));
        }
        match stages[i].substitute(buf.as_str()) {
            Ok(s) => {
                buf = s;
            },
            Err(e) => {
                return Err(e);
            },
        }
        i = i + 1;
    }
    proof {
        assert(stages@.skip(n as int) =~= Seq::<Box<dyn Stage>>::empty());
    }
    Ok(buf)
}

/// The length of the first line of `s`: up to and including the first newline, or all of
/// `s` if it has none.
pub open spec fn first_line_len(s: Seq<char>) -> int
    decreases s.len(),
{
    if s.len() == 0 {
        0
    } else if s[0] == '\n' {
        1
    } else {
        1 + first_line_len(s.drop_first())
    }
}

/// The lines of `s`, each with its newline (the last one without, if `s` does not end in
/// one).
pub open spec fn lines(s: Seq<char>) -> Seq<Seq<char>>
    decreases s.len(),
{
    if s.len() == 0 {
        seq![]
    } else {
        let n = first_line_len(s);
        if 0 < n <= s.len() {
            seq![s.take(n)] + lines(s.skip(n))
        } else {
            seq![s]
        }
    }
}

/// What applying the `stages` to the lines `ls` writes, line after line, and whether all
/// lines went through: the first line that a stage fails on stops it, and nothing of
/// that line is written.
pub open spec fn applied(stages: Seq<Box<dyn Stage>>, ls: Seq<Seq<char>>) -> (Seq<char>, bool)
    decreases ls.len(),
{
    if ls.len() == 0 {
        (seq![], true)
    } else {
        match pipeline(stages, ls[0]) {
            Some(out) => {
                let rest = applied(stages, ls.drop_first());
                (out + rest.0, rest.1)
            },
            None => (seq![], false),
        }
    }
}

pub(crate) proof fn lemma_first_line_len(s: Seq<char>)
    ensures
        s.len() > 0 ==> 0 < first_line_len(s) <= s.len(),
        forall|i: int| 0 <= i < first_line_len(s) - 1 ==> s[i] != '\n',
        first_line_len(s) < s.len() ==> s[first_line_len(s) - 1] == '\n',
        s.len() == 0 ==> first_line_len(s) == 0,
    decreases s.len(),
{
    if s.len() > 0 && s[0] != '\n' {
        lemma_first_line_len(s.drop_first());
        assert forall|i: int| 0 <= i < first_line_len(s) - 1 implies s[i] != '\n' by {
            if i > 0 {
                assert(s[i] == s.drop_first()[i - 1]);
            }
        }
        if first_line_len(s) < s.len() {
            assert(s[first_line_len(s) - 1] == s.drop_first()[first_line_len(s.drop_first()) - 1]);
        }
    }
}

/// The length of the line of `cs` that starts at `start`.
pub(crate) fn line_len_at(cs: &Vec<char>, start: usize) -> (n: usize)
    requires
        start < cs@.len(),
    ensures
        n == first_line_len(cs@.skip(start as int)),
{
    let ghost rest = cs@.skip(start as int);
    proof {
        lemma_first_line_len(rest);
    }
    let len = cs.len();
    let mut i: usize = start;
    while i < len
        invariant
            start <= i <= len,
            len == cs@.len(),
            rest == cs@.skip(start as int),
            forall|j: int| start <= j < i ==> cs@[j] != '\n',
        decreases len - i,
    {
        if cs[i] == '\n' {
            proof {
                lemma_line_len_is(rest, i - start);
            }
            return i + 1 - start;
        }
        i = i + 1;
    }
    proof {
        lemma_line_len_none(rest);
    }
    len - start
}

/// A line that ends at the first newline has that length.
proof fn lemma_line_len_is(s: Seq<char>, k: int)
    requires
        0 <= k < s.len(),
        s[k] == '\n',
        forall|j: int| 0 <= j < k ==> s[j] != '\n',
    ensures
        first_line_len(s) == k + 1,
    decreases k,
{
    if k > 0 {
        assert forall|j: int| 0 <= j < k - 1 implies s.drop_first()[j] != '\n' by {
            assert(s.drop_first()[j] == s[j + 1]);
        }
        lemma_line_len_is(s.drop_first(), k - 1);
    }
}

/// A line without a newline takes up all of `s`.
proof fn lemma_line_len_none(s: Seq<char>)
    requires
        forall|j: int| 0 <= j < s.len() ==> s[j] != '\n',
    ensures
        first_line_len(s) == s.len(),
    decreases s.len(),
{
    if s.len() > 0 {
        assert forall|j: int| 0 <= j < s.len() - 1 implies s.drop_first()[j] != '\n' by {
            assert(s.drop_first()[j] == s[j + 1]);
        }
        lemma_line_len_none(s.drop_first());
    }
}

/// Applies the `stages` to `source`, line by line, like a pipeline: what is written, and
/// whether all lines went through (the first line a stage fails on stops it, nothing of
/// it written).
pub fn apply(stages: &Vec<Box<dyn Stage>>, source: &str) -> (r: (String, Result<(), StageError>))
    ensures
        r.0@ == applied(stages@, lines(source@)).0,
        r.1 is Ok <==> applied(stages@, lines(source@)).1,
{
    let cs = crate::strs::to_chars(source);
    let len = cs.len();
    let mut out = String::new();
    let mut start: usize = 0;
    let ghost whole = applied(stages@, lines(source@));
    proof {
        assert(cs@.skip(0) =~= cs@);
        assert(out@ + applied(stages@, lines(cs@.skip(0))).0 =~= whole.0);
    }
    while start < len
        invariant
            start <= len,
            len == cs@.len(),
            cs@ == source@,
            whole == applied(stages@, lines(source@)),
            out@ + applied(stages@, lines(cs@.skip(start as int))).0 == whole.0,
            applied(stages@, lines(cs@.skip(start as int))).1 == whole.1,
        decreases len - start,
    {
        let n = line_len_at(&cs, start);
        let ghost rest = cs@.skip(start as int);
        proof {
            lemma_first_line_len(rest);
            assert(rest.skip(n as int) =~= cs@.skip(start + n));
        }
        let line = crate::strs::from_chars(vstd::slice::slice_subrange(cs.as_slice(), start, start + n));
        proof {
            assert(line@ =~= rest.take(n as int));
            assert(lines(rest) == seq![rest.take(n as int)] + lines(cs@.skip(start + n)));
            assert((seq![rest.take(n as int)] + lines(cs@.skip(start + n)))[0] == line@);
            assert((seq![rest.take(n as int)] + lines(cs@.skip(start + n))).drop_first() =~= lines(cs@.skip(start + n)));
        }
        match substitute_line(stages, line.as_str()) {
            Ok(s) => {
                proof {
                    assert(out@ + s@ + applied(stages@, lines(cs@.skip(start + n))).0 =~= out@ + (s@ + applied(stages@, lines(cs@.skip(start + n))).0));
                }
                crate::strs::push_str(&mut out, s.as_str());
            },
            Err(e) => {
                proof {
                    assert(out@ + Seq::<char>::empty() =~= out@);
                }
                return (out, Err(e));
            },
        }
        start = start + n;
    }
    proof {
        assert(cs@.skip(len as int) =~= Seq::<char>::empty());
        assert(out@ + Seq::<char>::empty() =~= out@);
    }
    (out, Ok(()))
}

/// The stages `a` then `b` make of `x` what `a` makes of it and `b` of that: a pipeline
/// of chained stages is the chain of their pipelines.
pub proof fn lemma_pipeline_concat(a: Seq<Box<dyn Stage>>, b: Seq<Box<dyn Stage>>, x: Seq<char>)
    ensures
        pipeline(a + b, x) == match pipeline(a, x) {
            Some(y) => pipeline(b, y),
            None => None,
        },
    decreases a.len(),
{
    if a.len() == 0 {
        assert(a + b =~= b);
    } else {
        assert((a + b)[0] == a[0]);
        assert((a + b).drop_first() =~= a.drop_first() + b);
        match a[0].substitution(x) {
            Some(next) => lemma_pipeline_concat(a.drop_first(), b, next),
            None => {},
        }
    }
}

/// Whether `x` is one line: not empty, with a newline at most as its last character.
pub open spec fn is_line(x: Seq<char>) -> bool {
    &&& x.len() > 0
    &&& forall|i: int| 0 <= i < x.len() - 1 ==> x[i] != '\n'
}

/// Whether `x` ends in a newline.
pub open spec fn ends_line(x: Seq<char>) -> bool {
    x.len() > 0 && x.last() == '\n'
}

/// Whether each of `ys` is a line, all but the last ending in a newline.
pub open spec fn line_seq(ys: Seq<Seq<char>>) -> bool {
    forall|i: int| 0 <= i < ys.len() ==> is_line(#[trigger] ys[i]) && (i < ys.len() - 1 ==> ends_line(ys[i]))
}

/// Whether the stages turn every line that goes through them into one line, which ends
/// in a newline exactly when the line does.
pub open spec fn keeps_lines(stages: Seq<Box<dyn Stage>>) -> bool {
    forall|x: Seq<char>|
        is_line(x) && #[trigger] pipeline(stages, x) is Some ==> is_line(pipeline(stages, x)->0) && ends_line(
            pipeline(stages, x)->0,
        ) == ends_line(x)
}

/// The texts `ys` written one after another.
pub open spec fn concat(ys: Seq<Seq<char>>) -> Seq<char>
    decreases ys.len(),
{
    if ys.len() == 0 {
        seq![]
    } else {
        ys[0] + concat(ys.drop_first())
    }
}

/// What the `stages` make of each of the lines `ls`, up to the first line they fail on,
/// and whether all went through.
pub open spec fn outputs(stages: Seq<Box<dyn Stage>>, ls: Seq<Seq<char>>) -> (Seq<Seq<char>>, bool)
    decreases ls.len(),
{
    if ls.len() == 0 {
        (seq![], true)
    } else {
        match pipeline(stages, ls[0]) {
            Some(out) => {
                let rest = outputs(stages, ls.drop_first());
                (seq![out] + rest.0, rest.1)
            },
            None => (seq![], false),
        }
    }
}

proof fn lemma_applied_outputs(stages: Seq<Box<dyn Stage>>, ls: Seq<Seq<char>>)
    ensures
        applied(stages, ls) == (concat(outputs(stages, ls).0), outputs(stages, ls).1),
    decreases ls.len(),
{
    if ls.len() > 0 {
        lemma_applied_outputs(stages, ls.drop_first());
        if let Some(out) = pipeline(stages, ls[0]) {
            let o = outputs(stages, ls.drop_first()).0;
            assert((seq![out] + o)[0] == out);
            assert((seq![out] + o).drop_first() =~= o);
        }
    }
}

/// The lines of a text are lines, all but the last ending in a newline.
proof fn lemma_lines_are_lines(s: Seq<char>)
    ensures
        line_seq(lines(s)),
        s.len() > 0 ==> lines(s).len() > 0,
    decreases s.len(),
{
    if s.len() > 0 {
        let n = first_line_len(s);
        lemma_first_line_len(s);
        lemma_lines_are_lines(s.skip(n));
        let ls = lines(s);
        let rest = lines(s.skip(n));
        assert(ls == seq![s.take(n)] + rest);
        assert forall|i: int| 0 <= i < ls.len() implies is_line(#[trigger] ls[i]) && (i < ls.len() - 1 ==> ends_line(ls[i])) by {
            if i == 0 {
                assert(ls[0] == s.take(n));
                if ls.len() > 1 {
                    assert(s.skip(n).len() > 0);
                }
            } else {
                assert(ls[i] == rest[i - 1]);
            }
        }
    }
}

/// Lines written one after another are split into the same lines again.
proof fn lemma_lines_of_lines(ys: Seq<Seq<char>>)
    requires
        line_seq(ys),
    ensures
        lines(concat(ys)) == ys,
    decreases ys.len(),
{
    if ys.len() > 0 {
        let y = ys[0];
        let rest = ys.drop_first();
        assert(is_line(ys[0]));
        assert(line_seq(rest)) by {
            assert forall|i: int| 0 <= i < rest.len() implies is_line(#[trigger] rest[i]) && (i < rest.len() - 1 ==> ends_line(rest[i])) by {
                assert(rest[i] == ys[i + 1]);
            }
        }
        lemma_lines_of_lines(rest);
        let t = concat(ys);
        assert(t == y + concat(rest));
        if ends_line(y) {
            assert forall|j: int| 0 <= j < y.len() - 1 implies t[j] != '\n' by {
                assert(t[j] == y[j]);
            }
            assert(t[y.len() - 1] == y[y.len() - 1]);
            lemma_line_len_is(t, y.len() - 1);
            assert(t.take(y.len() as int) =~= y);
            assert(t.skip(y.len() as int) =~= concat(rest));
            assert(ys =~= seq![y] + rest);
        } else {
            assert(ys.len() == 1);
            assert(rest.len() == 0);
            assert(concat(rest) =~= Seq::<char>::empty());
            assert(t =~= y);
            assert forall|j: int| 0 <= j < t.len() implies t[j] != '\n' by {
                if j == t.len() - 1 {
                    assert(!ends_line(y));
                }
            }
            lemma_line_len_none(t);
            assert(t.take(t.len() as int) =~= t);
            assert(t.skip(t.len() as int) =~= Seq::<char>::empty());
            assert(lines(Seq::<char>::empty()) =~= Seq::<Seq<char>>::empty());
            assert(ys =~= seq![y]);
        }
    }
}

/// What stages that keep lines make of lines are lines again, no more of them.
proof fn lemma_outputs_lines(a: Seq<Box<dyn Stage>>, ls: Seq<Seq<char>>)
    requires
        keeps_lines(a),
        line_seq(ls),
    ensures
        line_seq(outputs(a, ls).0),
        outputs(a, ls).0.len() <= ls.len(),
    decreases ls.len(),
{
    if ls.len() > 0 {
        let rest = ls.drop_first();
        assert(line_seq(rest)) by {
            assert forall|i: int| 0 <= i < rest.len() implies is_line(#[trigger] rest[i]) && (i < rest.len() - 1 ==> ends_line(rest[i])) by {
                assert(rest[i] == ls[i + 1]);
            }
        }
        lemma_outputs_lines(a, rest);
        assert(is_line(ls[0]));
        if let Some(y) = pipeline(a, ls[0]) {
            let o = outputs(a, rest).0;
            let all = seq![y] + o;
            assert forall|i: int| 0 <= i < all.len() implies is_line(#[trigger] all[i]) && (i < all.len() - 1 ==> ends_line(all[i])) by {
                if i == 0 {
                    assert(all[0] == y);
                    if all.len() > 1 {
                        assert(ends_line(ls[0]));
                    }
                } else {
                    assert(all[i] == o[i - 1]);
                }
            }
        }
    }
}

/// Chaining stages over lines is running the first stages, then the others on what the
/// first ones wrote, line by line.
proof fn lemma_applied_chain(a: Seq<Box<dyn Stage>>, b: Seq<Box<dyn Stage>>, ls: Seq<Seq<char>>)
    ensures
        applied(a + b, ls) == (applied(b, outputs(a, ls).0).0, outputs(a, ls).1 && applied(b, outputs(a, ls).0).1),
    decreases ls.len(),
{
    if ls.len() > 0 {
        lemma_pipeline_concat(a, b, ls[0]);
        lemma_applied_chain(a, b, ls.drop_first());
        if let Some(y) = pipeline(a, ls[0]) {
            let o = outputs(a, ls.drop_first()).0;
            assert((seq![y] + o)[0] == y);
            assert((seq![y] + o).drop_first() =~= o);
        } else {
            assert(outputs(a, ls).0 =~= Seq::<Seq<char>>::empty());
        }
    }
}

/// Applying the stages `a` then `b` line by line writes what applying `a` and piping what
/// it wrote through `b` writes, and goes through exactly when both do, where the stages
/// of `a` keep lines as lines.
pub proof fn lemma_piping(a: Seq<Box<dyn Stage>>, b: Seq<Box<dyn Stage>>, s: Seq<char>)
    requires
        keeps_lines(a),
    ensures
        applied(a + b, lines(s)) == ({
            let first = applied(a, lines(s));
            let second = applied(b, lines(first.0));
            (second.0, first.1 && second.1)
        }),
{
    let ls = lines(s);
    lemma_lines_are_lines(s);
    lemma_outputs_lines(a, ls);
    lemma_applied_outputs(a, ls);
    lemma_lines_of_lines(outputs(a, ls).0);
    lemma_applied_chain(a, b, ls);
}

/// Whether no character of `s` is a newline.
pub open spec fn nl_free(s: Seq<char>) -> bool {
    forall|i: int| 0 <= i < s.len() ==> s[i] != '\n'
}

/// The number of newlines in `s`.
pub open spec fn newlines(s: Seq<char>) -> nat
    decreases s.len(),
{
    if s.len() == 0 {
        0
    } else {
        newlines(s.drop_last()) + if s.last() == '\n' {
            1nat
        } else {
            0nat
        }
    }
}

/// The newlines of two texts one after the other add up.
pub proof fn lemma_newlines_concat(a: Seq<char>, b: Seq<char>)
    ensures
        newlines(a + b) == newlines(a) + newlines(b),
    decreases b.len(),
{
    if b.len() == 0 {
        assert(a + b =~= a);
    } else {
        assert((a + b).drop_last() =~= a + b.drop_last());
        assert((a + b).last() == b.last());
        lemma_newlines_concat(a, b.drop_last());
    }
}

/// A text has no newlines exactly when none of its characters is one.
pub proof fn lemma_newlines_free(s: Seq<char>)
    ensures
        newlines(s) == 0 <==> nl_free(s),
    decreases s.len(),
{
    if s.len() > 0 {
        lemma_newlines_free(s.drop_last());
        if nl_free(s) {
            assert(nl_free(s.drop_last())) by {
                assert forall|i: int| 0 <= i < s.drop_last().len() implies s.drop_last()[i] != '\n' by {
                    assert(s.drop_last()[i] == s[i]);
                }
            }
            assert(s[s.len() - 1] != '\n');
        }
        if newlines(s) == 0 {
            assert forall|i: int| 0 <= i < s.len() implies s[i] != '\n' by {
                if i < s.len() - 1 {
                    assert(s.drop_last()[i] == s[i]);
                }
            }
        }
    }
}

/// A line has one newline if it ends in one, and none otherwise; and a text with no
/// newline, or with just one at its end, is a line if it is not empty.
pub proof fn lemma_line_newlines(x: Seq<char>)
    ensures
        is_line(x) ==> newlines(x) == if ends_line(x) {
            1nat
        } else {
            0nat
        },
        x.len() > 0 && newlines(x) == 0 ==> is_line(x) && !ends_line(x),
        ends_line(x) && newlines(x) == 1 ==> is_line(x),
{
    if x.len() > 0 {
        lemma_newlines_free(x.drop_last());
        lemma_newlines_free(x);
        if is_line(x) {
            assert forall|i: int| 0 <= i < x.drop_last().len() implies x.drop_last()[i] != '\n' by {
                assert(x.drop_last()[i] == x[i]);
            }
        }
        if ends_line(x) && newlines(x) == 1 {
            assert forall|i: int| 0 <= i < x.len() - 1 implies x[i] != '\n' by {
                assert(x.drop_last()[i] == x[i]);
            }
        }
        if newlines(x) == 0 {
            assert(x[x.len() - 1] != '\n');
        }
    }
}

} // verus!
