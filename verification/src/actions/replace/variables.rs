//! Injecting the values of variables into expressions like `Hello $var World`.
use vstd::prelude::*;

use crate::regex::{CaptureGroup, GroupKey};
use crate::strs::{from_chars, to_chars};

verus! {

/// An error in variable expressions.
#[derive(Debug, PartialEq, Eq)]
pub enum VariableExpressionError {
    /// A variable expression with mismatched number of braces.
    MismatchedBraces(String),
    /// A requested variable was not passed.
    UndefinedVariable(String),
}

/// A variable expression error as a plain value.
pub ghost enum VariableErrorView {
    /// See [`VariableExpressionError::MismatchedBraces`].
    MismatchedBraces(Seq<char>),
    /// See [`VariableExpressionError::UndefinedVariable`].
    UndefinedVariable(Seq<char>),
}

impl View for VariableExpressionError {
    type V = VariableErrorView;

    open spec fn view(&self) -> VariableErrorView {
        match self {
            VariableExpressionError::MismatchedBraces(s) => VariableErrorView::MismatchedBraces(s@),
            VariableExpressionError::UndefinedVariable(s) => VariableErrorView::UndefinedVariable(s@),
        }
    }
}

/// What a variable expression error says.
pub open spec fn variable_error_text(e: VariableErrorView) -> Seq<char> {
    match e {
        VariableErrorView::MismatchedBraces(var) => "Mismatched braces for variable: '"@ + var + "'"@,
        VariableErrorView::UndefinedVariable(var) => "Undefined variable, unable to substitute: '"@ + var + "'"@,
    }
}

impl VariableExpressionError {
    /// What the error says.
    pub fn to_string(&self) -> (r: String)
        ensures
            r@ == variable_error_text(self@),
    {
        match self {
            VariableExpressionError::MismatchedBraces(var) => crate::strs::framed(
                "Mismatched braces for variable: '",
                var.as_str(),
                "'",
            ),
            VariableExpressionError::UndefinedVariable(var) => crate::strs::framed(
                "Undefined variable, unable to substitute: '",
                var.as_str(),
                "'",
            ),
        }
    }
}

/// The decimal representation of `n`.
pub fn number_text(n: usize) -> (s: String)
    ensures
        s@ == decimal(n as nat),
    decreases n,
{
    let d = n % 10;
    let c: char = if d == 0 {
        '0'
    } else if d == 1 {
        '1'
    } else if d == 2 {
        '2'
    } else if d == 3 {
        '3'
    } else if d == 4 {
        '4'
    } else if d == 5 {
        '5'
    } else if d == 6 {
        '6'
    } else if d == 7 {
        '7'
    } else if d == 8 {
        '8'
    } else {
        '9'
    };
    assert(c == digit_char(d as int));
    if n < 10 {
        let mut s = String::new();
        crate::strs::push_char(&mut s, c);
        proof {
            assert(s@ =~= seq![c]);
        }
        s
    } else {
        let mut s = number_text(n / 10);
        crate::strs::push_char(&mut s, c);
        s
    }
}

/// Whether `c` may start a variable name.
pub open spec fn is_name_start(c: char) -> bool {
    ('a' <= c <= 'z') || ('A' <= c <= 'Z') || c == '_'
}

/// Whether `c` is an ASCII digit.
pub open spec fn is_digit(c: char) -> bool {
    '0' <= c <= '9'
}

/// Whether `c` may continue a variable name.
pub open spec fn is_name_char(c: char) -> bool {
    is_name_start(c) || is_digit(c)
}

/// The value of a decimal digit.
pub open spec fn digit_value(c: char) -> int {
    (c as int) - ('0' as int)
}

/// The number that the decimal digits `d` spell.
pub open spec fn digits_value(d: Seq<char>) -> int
    decreases d.len(),
{
    if d.len() == 0 {
        0
    } else {
        10 * digits_value(d.drop_last()) + digit_value(d.last())
    }
}

/// The decimal digit for `n` below ten.
pub open spec fn digit_char(n: int) -> char {
    (n + ('0' as int)) as char
}

/// The decimal representation of `n`, without leading zeros.
pub open spec fn decimal(n: nat) -> Seq<char>
    decreases n,
{
    if n < 10 {
        seq![digit_char(n as int)]
    } else {
        decimal(n / 10).push(digit_char((n % 10) as int))
    }
}

/// The value of the first entry of `vars` whose capture group is `key`, if any.
pub open spec fn lookup(vars: Seq<(CaptureGroup, &str)>, key: GroupKey) -> Option<Seq<char>>
    decreases vars.len(),
{
    if vars.len() == 0 {
        None
    } else if vars[0].0@ == key {
        Some(vars[0].1@)
    } else {
        lookup(vars.drop_first(), key)
    }
}

/// The state while reading an expression, as plain values.
pub ghost enum ReadState {
    /// Neutral state.
    Noop,
    /// `$` has been seen.
    Start,
    /// `${` has been seen.
    BracedStart,
    /// A named variable is being read.
    Named(Seq<char>, bool),
    /// A numbered variable is being read, by its digits.
    Numbered(Seq<char>, bool),
    /// A braced named variable has been closed.
    FinishNamed(Seq<char>),
    /// A braced numbered variable has been closed, by its digits.
    FinishNumbered(Seq<char>),
}

/// Outcome of reading one more character: the new state, output and count of characters
/// at the end of the output that make up the pending variable's markers, or an error.
pub type StepOutcome = Result<(ReadState, Seq<char>, int), VariableErrorView>;

/// Replaces the pending variable at the end of `out` by `repl`: `n` characters are
/// removed before `repl` is added.
pub open spec fn splice(out: Seq<char>, n: int, repl: Seq<char>) -> Seq<char> {
    out.take(out.len() - n) + repl
}

/// Finishing a variable by key `key`, whose text (markers included) spans the last `n`
/// characters before `c`, then having read `c`.
pub open spec fn finish_then(
    vars: Seq<(CaptureGroup, &str)>,
    key: GroupKey,
    shown: Seq<char>,
    out: Seq<char>,
    n: int,
    c: char,
    tr: int,
) -> StepOutcome {
    match lookup(vars, key) {
        Some(repl) => if c == '$' {
            Ok((ReadState::Start, splice(out, n, repl).push(c), 1))
        } else {
            Ok((ReadState::Noop, splice(out, n, repl).push(c), tr))
        },
        None => Err(VariableErrorView::UndefinedVariable(shown)),
    }
}

/// Reading character `c` in state `st`, with output `out` so far (`c` not yet added)
/// and `tr` marker characters pending.
pub open spec fn read_step(
    vars: Seq<(CaptureGroup, &str)>,
    st: ReadState,
    out: Seq<char>,
    tr: int,
    c: char,
) -> StepOutcome {
    let pushed = out.push(c);
    match st {
        ReadState::Noop => if c == '$' {
            Ok((ReadState::Start, pushed, 1))
        } else {
            Ok((ReadState::Noop, pushed, tr))
        },
        ReadState::Start => if c == '$' {
            Ok((ReadState::Noop, out, tr))
        } else if c == '{' {
            Ok((ReadState::BracedStart, pushed, tr + 1))
        } else if is_name_start(c) {
            Ok((ReadState::Named(seq![c], false), pushed, tr))
        } else if is_digit(c) {
            Ok((ReadState::Numbered(seq![c], false), pushed, tr))
        } else {
            Ok((ReadState::Noop, pushed, tr))
        },
        ReadState::BracedStart => if is_name_start(c) {
            Ok((ReadState::Named(seq![c], true), pushed, tr))
        } else if is_digit(c) {
            Ok((ReadState::Numbered(seq![c], true), pushed, tr))
        } else {
            Ok((ReadState::Noop, pushed, tr))
        },
        ReadState::Named(name, braced) => if is_name_char(c) {
            Ok((ReadState::Named(name.push(c), braced), pushed, tr))
        } else if braced && c == '}' {
            Ok((ReadState::FinishNamed(name), pushed, tr + 1))
        } else if braced {
            Err(VariableErrorView::MismatchedBraces(name))
        } else {
            finish_then(vars, GroupKey::Named(name), name, out, tr + name.len(), c, tr)
        },
        ReadState::Numbered(d, braced) => if is_digit(c) {
            Ok((ReadState::Numbered(d.push(c), braced), pushed, tr))
        } else if braced && c == '}' {
            Ok((ReadState::FinishNumbered(d), pushed, tr + 1))
        } else if braced {
            Err(VariableErrorView::MismatchedBraces(decimal(digits_value(d) as nat)))
        } else {
            let v = digits_value(d);
            finish_then(vars, GroupKey::Numbered(v), decimal(v as nat), out, tr + decimal(v as nat).len(), c, tr)
        },
        ReadState::FinishNamed(name) => finish_then(vars, GroupKey::Named(name), name, out, tr + name.len(), c, tr),
        ReadState::FinishNumbered(d) => {
            let v = digits_value(d);
            finish_then(vars, GroupKey::Numbered(v), decimal(v as nat), out, tr + decimal(v as nat).len(), c, tr)
        },
    }
}

/// Finishing a pending variable once the whole expression has been read.
pub open spec fn finish_end(
    vars: Seq<(CaptureGroup, &str)>,
    key: GroupKey,
    shown: Seq<char>,
    out: Seq<char>,
    n: int,
) -> Result<Seq<char>, VariableErrorView> {
    match lookup(vars, key) {
        Some(repl) => Ok(splice(out, n, repl)),
        None => Err(VariableErrorView::UndefinedVariable(shown)),
    }
}

/// What the output becomes once the whole expression has been read.
pub open spec fn read_end(
    vars: Seq<(CaptureGroup, &str)>,
    st: ReadState,
    out: Seq<char>,
    tr: int,
) -> Result<Seq<char>, VariableErrorView> {
    match st {
        ReadState::Named(name, braced) => if braced {
            Err(VariableErrorView::MismatchedBraces(name))
        } else {
            finish_end(vars, GroupKey::Named(name), name, out, tr + name.len())
        },
        ReadState::FinishNamed(name) => finish_end(vars, GroupKey::Named(name), name, out, tr + name.len()),
        ReadState::Numbered(d, braced) => {
            let v = digits_value(d);
            if braced {
                Err(VariableErrorView::MismatchedBraces(decimal(v as nat)))
            } else {
                finish_end(vars, GroupKey::Numbered(v), decimal(v as nat), out, tr + decimal(v as nat).len())
            }
        },
        ReadState::FinishNumbered(d) => {
            let v = digits_value(d);
            finish_end(vars, GroupKey::Numbered(v), decimal(v as nat), out, tr + decimal(v as nat).len())
        },
        _ => Ok(out),
    }
}

/// Reading the rest `rest` of an expression from the given state.
pub open spec fn read_from(
    vars: Seq<(CaptureGroup, &str)>,
    st: ReadState,
    out: Seq<char>,
    tr: int,
    rest: Seq<char>,
) -> Result<Seq<char>, VariableErrorView>
    decreases rest.len(),
{
    if rest.len() == 0 {
        read_end(vars, st, out, tr)
    } else {
        match read_step(vars, st, out, tr, rest[0]) {
            Ok((st2, out2, tr2)) => read_from(vars, st2, out2, tr2, rest.drop_first()),
            Err(e) => Err(e),
        }
    }
}

/// The result of injecting the variables `vars` into `input`: `$name`, `${name}`, `$7`
/// and `${7}` stand for the value of the named or numbered variable, `$$` for `$`, and
/// anything else stands for itself. A name is a letter or underscore, then letters,
/// digits and underscores. An opened brace that is not closed right after the name is
/// an error, and so is a variable without a value.
pub open spec fn injected(vars: Seq<(CaptureGroup, &str)>, input: Seq<char>) -> Result<
    Seq<char>,
    VariableErrorView,
> {
    read_from(vars, ReadState::Noop, Seq::empty(), 0, input)
}

proof fn lemma_read_plain(vars: Seq<(CaptureGroup, &str)>, out: Seq<char>, tr: int, rest: Seq<char>)
    requires
        forall|i: int| 0 <= i < rest.len() ==> rest[i] != '$',
    ensures
        read_from(vars, ReadState::Noop, out, tr, rest) == Ok::<Seq<char>, VariableErrorView>(out + rest),
    decreases rest.len(),
{
    if rest.len() == 0 {
        assert(out + rest =~= out);
    } else {
        assert forall|i: int| 0 <= i < rest.drop_first().len() implies rest.drop_first()[i] != '$' by {
            assert(rest.drop_first()[i] == rest[i + 1]);
        }
        lemma_read_plain(vars, out.push(rest[0]), tr, rest.drop_first());
        assert(out.push(rest[0]) + rest.drop_first() =~= out + rest);
    }
}

/// An expression without `$` holds no variables: injecting gives it back as it is,
/// whatever the variables.
pub proof fn lemma_injected_plain(vars: Seq<(CaptureGroup, &str)>, input: Seq<char>)
    requires
        forall|i: int| 0 <= i < input.len() ==> input[i] != '$',
    ensures
        injected(vars, input) == Ok::<Seq<char>, VariableErrorView>(input),
{
    lemma_read_plain(vars, Seq::empty(), 0, input);
    assert(Seq::<char>::empty() + input =~= input);
}

/// The states in which the marker count and the end of the output agree: the output
/// ends with the variable's markers and text.
pub open spec fn consistent(st: ReadState, out: Seq<char>, tr: int) -> bool {
    match st {
        ReadState::Noop => tr >= 0,
        ReadState::Start => tr == 1 && out.len() >= 1,
        ReadState::BracedStart => tr == 2 && out.len() >= 2,
        ReadState::Named(name, braced) => tr == (if braced { 2int } else { 1int }) && name.len() >= 1
            && out.len() >= tr + name.len(),
        ReadState::Numbered(d, braced) => tr == (if braced { 2int } else { 1int }) && d.len() >= 1
            && out.len() >= tr + d.len() && (forall|i: int| 0 <= i < d.len() ==> is_digit(#[trigger] d[i])),
        ReadState::FinishNamed(name) => tr == 3 && out.len() >= tr + name.len(),
        ReadState::FinishNumbered(d) => tr == 3 && d.len() >= 1 && out.len() >= tr + d.len()
            && (forall|i: int| 0 <= i < d.len() ==> is_digit(#[trigger] d[i])),
    }
}

/// The digits of `d` after dropping leading zeros.
pub open spec fn significant(d: Seq<char>) -> Seq<char>
    decreases d.len(),
{
    if d.len() == 0 {
        Seq::empty()
    } else {
        let p = significant(d.drop_last());
        if p.len() == 0 && d.last() == '0' {
            Seq::empty()
        } else {
            p.push(d.last())
        }
    }
}

proof fn lemma_decimal_small(n: nat)
    requires
        n < 10,
    ensures
        decimal(n) == seq![digit_char(n as int)],
{
}

/// The decimal representation of the number some digits spell is those digits without
/// their leading zeros (or `0`).
proof fn lemma_decimal_of_digits(d: Seq<char>)
    requires
        forall|i: int| 0 <= i < d.len() ==> is_digit(#[trigger] d[i]),
    ensures
        digits_value(d) >= 0,
        (digits_value(d) == 0) == (significant(d).len() == 0),
        significant(d).len() > 0 ==> decimal(digits_value(d) as nat) == significant(d),
        significant(d).len() <= d.len(),
    decreases d.len(),
{
    if d.len() > 0 {
        let p = d.drop_last();
        let x = d.last();
        assert forall|i: int| 0 <= i < p.len() implies is_digit(#[trigger] p[i]) by {
            assert(p[i] == d[i]);
        }
        assert(is_digit(d[d.len() - 1]));
        lemma_decimal_of_digits(p);
        let v = digits_value(p);
        let xv = digit_value(x);
        assert(0 <= xv < 10);
        if v == 0 {
            assert(digits_value(d) == xv);
            if xv != 0 {
                assert(digit_char(xv) == x);
                lemma_decimal_small(xv as nat);
                assert(significant(d) =~= seq![x]);
            }
        } else {
            let n = 10 * v + xv;
            assert(n >= 10);
            assert(n / 10 == v && n % 10 == xv) by (nonlinear_arith)
                requires
                    n == 10 * v + xv,
                    0 <= xv < 10,
            ;
            assert(digit_char(xv) == x);
            assert(decimal(n as nat) == decimal((n / 10) as nat).push(digit_char(n % 10)));
        }
    }
}

/// Whether `c` may start a variable name.
fn name_start(c: char) -> (b: bool)
    ensures
        b == is_name_start(c),
{
    ('a' <= c && c <= 'z') || ('A' <= c && c <= 'Z') || c == '_'
}

/// Whether `c` is an ASCII digit.
fn digit(c: char) -> (b: bool)
    ensures
        b == is_digit(c),
{
    '0' <= c && c <= '9'
}

/// The number that the digits `d` spell, if it fits in a `usize`.
fn parse_digits(d: &Vec<char>) -> (r: Option<usize>)
    requires
        forall|i: int| 0 <= i < d@.len() ==> is_digit(#[trigger] d@[i]),
    ensures
        match r {
            Some(v) => v == digits_value(d@),
            None => digits_value(d@) > usize::MAX,
        },
{
    let n = d.len();
    let mut v: usize = 0;
    let mut i: usize = 0;
    while i < n
        invariant
            n == d@.len(),
            i <= n,
            v == digits_value(d@.take(i as int)),
            forall|j: int| 0 <= j < d@.len() ==> is_digit(#[trigger] d@[j]),
        decreases n - i,
    {
        let c = d[i];
        assert(is_digit(d@[i as int]));
        let dv: u32 = (c as u32) - ('0' as u32);
        proof {
            assert(d@.take(i + 1).drop_last() =~= d@.take(i as int));
            assert(dv == digit_value(c));
        }
        match v.checked_mul(10) {
            Some(t) => match t.checked_add(dv as usize) {
                Some(w) => {
                    v = w;
                },
                None => {
                    proof {
                        lemma_digits_value_grows(d@, i as int + 1);
                    }
                    return None;
                },
            },
            None => {
                proof {
                    lemma_digits_value_grows(d@, i as int + 1);
                }
                return None;
            },
        }
        i = i + 1;
    }
    proof {
        assert(d@.take(n as int) =~= d@);
    }
    Some(v)
}

/// The value of a prefix of digits is at most the value of all of them.
proof fn lemma_digits_value_grows(d: Seq<char>, k: int)
    requires
        0 <= k <= d.len(),
        forall|i: int| 0 <= i < d.len() ==> is_digit(#[trigger] d[i]),
    ensures
        0 <= digits_value(d.take(k)) <= digits_value(d),
    decreases d.len(),
{
    if d.len() > 0 {
        let p = d.drop_last();
        assert forall|i: int| 0 <= i < p.len() implies is_digit(#[trigger] p[i]) by {
            assert(p[i] == d[i]);
        }
        assert(is_digit(d[d.len() - 1]));
        if k == d.len() {
            assert(d.take(k) =~= d);
            lemma_digits_value_grows(p, 0);
        } else {
            assert(p.take(k) =~= d.take(k));
            lemma_digits_value_grows(p, k);
        }
        assert(digits_value(p) >= 0);
        assert(digits_value(d) >= digits_value(p));
    } else {
        assert(d.take(k) =~= d);
    }
}

/// The decimal representation of the number the digits `d` spell.
fn decimal_string(d: &Vec<char>) -> (s: String)
    requires
        forall|i: int| 0 <= i < d@.len() ==> is_digit(#[trigger] d@[i]),
    ensures
        s@ == decimal(digits_value(d@) as nat),
{
    let n = d.len();
    let mut sig: Vec<char> = Vec::new();
    let mut i: usize = 0;
    while i < n
        invariant
            n == d@.len(),
            i <= n,
            sig@ == significant(d@.take(i as int)),
        decreases n - i,
    {
        let c = d[i];
        proof {
            assert(d@.take(i + 1).drop_last() =~= d@.take(i as int));
        }
        if !(sig.len() == 0 && c == '0') {
            sig.push(c);
        }
        i = i + 1;
    }
    proof {
        assert(d@.take(n as int) =~= d@);
        lemma_decimal_of_digits(d@);
    }
    if sig.len() == 0 {
        proof {
            assert(decimal(0) =~= seq!['0']);
        }
        let z = ['0'];
        from_chars(&z)
    } else {
        from_chars(sig.as_slice())
    }
}

/// Gets the width in characters of a number.
pub fn width(num: usize) -> (w: usize)
    ensures
        w == decimal(num as nat).len(),
{
    let mut n = num;
    let mut w: usize = 1;
    while n >= 10
        invariant
            1 <= w,
            w - 1 + decimal(n as nat).len() == decimal(num as nat).len(),
        decreases n,
    {
        proof {
            assert(decimal(n as nat) == decimal((n / 10) as nat).push(digit_char((n % 10) as int)));
            lemma_decimal_len_bound(num as nat);
        }
        n = n / 10;
        w = w + 1;
    }
    w
}

/// The decimal representation of `n` has at most about half as many digits as `n`.
proof fn lemma_decimal_len_bound(n: nat)
    ensures
        2 * decimal(n).len() <= n + 2,
    decreases n,
{
    if n >= 10 {
        lemma_decimal_len_bound(n / 10);
        assert(n / 10 + 2 <= n) by (nonlinear_arith)
            requires
                n >= 10,
        ;
    }
}

/// Whether the characters `a` and `b` are the same.
fn chars_eq(a: &Vec<char>, b: &Vec<char>) -> (r: bool)
    ensures
        r == (a@ == b@),
{
    if a.len() != b.len() {
        return false;
    }
    let n = a.len();
    let mut i: usize = 0;
    while i < n
        invariant
            n == a@.len(),
            n == b@.len(),
            i <= n,
            forall|j: int| 0 <= j < i ==> a@[j] == b@[j],
        decreases n - i,
    {
        if a[i] != b[i] {
            return false;
        }
        i = i + 1;
    }
    proof {
        assert(a@ =~= b@);
    }
    true
}

/// The value of the first variable named `name`.
fn lookup_named<'a>(vars: &Vec<(CaptureGroup, &'a str)>, name: &Vec<char>) -> (r: Option<&'a str>)
    ensures
        match r {
            Some(v) => lookup(vars@, GroupKey::Named(name@)) == Some(v@),
            None => lookup(vars@, GroupKey::Named(name@)) is None,
        },
{
    let n = vars.len();
    let mut i: usize = 0;
    proof {
        assert(vars@.skip(0) =~= vars@);
    }
    while i < n
        invariant
            n == vars@.len(),
            i <= n,
            lookup(vars@, GroupKey::Named(name@)) == lookup(vars@.skip(i as int), GroupKey::Named(name@)),
        decreases n - i,
    {
        proof {
            assert(vars@.skip(i as int)[0] == vars@[i as int]);
            assert(vars@.skip(i as int).drop_first() =~= vars@.skip(i + 1));
        }
        match &vars[i].0 {
            CaptureGroup::Named(s) => {
                let cs = to_chars(s.as_str());
                if chars_eq(&cs, name) {
                    return Some(vars[i].1);
                }
            },
            CaptureGroup::Numbered(_) => {},
        }
        i = i + 1;
    }
    None
}

/// The value of the first variable numbered `num`.
fn lookup_numbered<'a>(vars: &Vec<(CaptureGroup, &'a str)>, num: usize) -> (r: Option<&'a str>)
    ensures
        match r {
            Some(v) => lookup(vars@, GroupKey::Numbered(num as int)) == Some(v@),
            None => lookup(vars@, GroupKey::Numbered(num as int)) is None,
        },
{
    let n = vars.len();
    let mut i: usize = 0;
    proof {
        assert(vars@.skip(0) =~= vars@);
    }
    while i < n
        invariant
            n == vars@.len(),
            i <= n,
            lookup(vars@, GroupKey::Numbered(num as int)) == lookup(vars@.skip(i as int), GroupKey::Numbered(num as int)),
        decreases n - i,
    {
        proof {
            assert(vars@.skip(i as int)[0] == vars@[i as int]);
            assert(vars@.skip(i as int).drop_first() =~= vars@.skip(i + 1));
        }
        match &vars[i].0 {
            CaptureGroup::Numbered(m) => {
                if *m == num {
                    return Some(vars[i].1);
                }
            },
            CaptureGroup::Named(_) => {},
        }
        i = i + 1;
    }
    None
}

/// No variable has a number past `usize::MAX`.
proof fn lemma_lookup_huge(vars: Seq<(CaptureGroup, &str)>, v: int)
    requires
        v > usize::MAX,
    ensures
        lookup(vars, GroupKey::Numbered(v)) is None,
    decreases vars.len(),
{
    if vars.len() > 0 {
        lemma_lookup_huge(vars.drop_first(), v);
    }
}

/// The state during injection of variables in an expression like `Hello $var World`.
enum State {
    /// Neutral state.
    Noop,
    /// The character denoting a variable declaration has been seen.
    Start,
    /// The detected, potential variable additionally starts with an opening brace.
    BracedStart,
    /// A named variable is detected and is being built up.
    BuildingNamedVar { name: Vec<char>, braced: bool },
    /// A numbered variable is detected and is being built up, digit by digit.
    BuildingNumberedVar { digits: Vec<char>, braced: bool },
    /// Processing of a named variable is done, finish it up.
    FinishNamedVar(Vec<char>),
    /// Processing of a numbered variable is done, finish it up.
    FinishNumberedVar(Vec<char>),
}

impl View for State {
    type V = ReadState;

    closed spec fn view(&self) -> ReadState {
        match self {
            State::Noop => ReadState::Noop,
            State::Start => ReadState::Start,
            State::BracedStart => ReadState::BracedStart,
            State::BuildingNamedVar { name, braced } => ReadState::Named(name@, *braced),
            State::BuildingNumberedVar { digits, braced } => ReadState::Numbered(digits@, *braced),
            State::FinishNamedVar(name) => ReadState::FinishNamed(name@),
            State::FinishNumberedVar(d) => ReadState::FinishNumbered(d@),
        }
    }
}

/// The value of the variable with the given name or digits, and the number of
/// characters its text takes, or the error if it has no value.
fn resolve<'a>(vars: &Vec<(CaptureGroup, &'a str)>, named: bool, text: &Vec<char>) -> (r: Result<(&'a str, usize), VariableExpressionError>)
    requires
        !named ==> (forall|i: int| 0 <= i < text@.len() ==> is_digit(#[trigger] text@[i])),
        !named ==> text@.len() >= 1,
    ensures
        named ==> match r {
            Ok((v, w)) => lookup(vars@, GroupKey::Named(text@)) == Some(v@) && w == text@.len(),
            Err(e) => lookup(vars@, GroupKey::Named(text@)) is None && e@ == VariableErrorView::UndefinedVariable(text@),
        },
        !named ==> match r {
            Ok((v, w)) => lookup(vars@, GroupKey::Numbered(digits_value(text@))) == Some(v@)
                && w == decimal(digits_value(text@) as nat).len() && w <= text@.len(),
            Err(e) => lookup(vars@, GroupKey::Numbered(digits_value(text@))) is None
                && e@ == VariableErrorView::UndefinedVariable(decimal(digits_value(text@) as nat)),
        },
{
    if named {
        match lookup_named(vars, text) {
            Some(v) => Ok((v, text.len())),
            None => Err(VariableExpressionError::UndefinedVariable(from_chars(text.as_slice()))),
        }
    } else {
        proof {
            lemma_decimal_of_digits(text@);
        }
        match parse_digits(text) {
            Some(num) => match lookup_numbered(vars, num) {
                Some(v) => {
                    let w = width(num);
                    proof {
                        if significant(text@).len() == 0 {
                            assert(decimal(0) =~= seq!['0']);
                        }
                    }
                    Ok((v, w))
                },
                None => Err(VariableExpressionError::UndefinedVariable(decimal_string(text))),
            },
            None => {
                proof {
                    lemma_lookup_huge(vars@, digits_value(text@));
                }
                Err(VariableExpressionError::UndefinedVariable(decimal_string(text)))
            },
        }
    }
}

/// The one-character sequence `c`.
fn single(c: char) -> (v: Vec<char>)
    ensures
        v@ == seq![c],
{
    let mut v = Vec::new();
    v.push(c);
    proof {
        assert(v@ =~= seq![c]);
    }
    v
}

/// Replaces the last `tr + w` characters of `out` by `repl`.
fn splice_out(out: &mut Vec<char>, tr: usize, w: usize, repl: &str)
    requires
        tr + w <= old(out)@.len(),
    ensures
        final(out)@ == splice(old(out)@, tr + w, repl@),
{
    let keep = out.len() - tr - w;
    out.truncate(keep);
    let rc = to_chars(repl);
    let mut k: usize = 0;
    let ghost base = out@;
    while k < rc.len()
        invariant
            k <= rc@.len(),
            out@ == base + rc@.take(k as int),
        decreases rc@.len() - k,
    {
        out.push(rc[k]);
        proof {
            assert(base + rc@.take(k as int).push(rc@[k as int]) =~= base + rc@.take(k + 1));
        }
        k = k + 1;
    }
    proof {
        assert(rc@.take(rc@.len() as int) =~= rc@);
    }
}

/// In an input like `Hello $var World`, inject all variables.
///
/// Variables are treated as they occur in regular expressions: they can be named or
/// numbered. The first entry of `variables` for a capture group gives its value.
pub fn inject_variables(input: &str, variables: &Vec<(CaptureGroup, &str)>) -> (r: Result<
    String,
    VariableExpressionError,
>)
    ensures
        match r {
            Ok(s) => injected(variables@, input@) == Ok::<Seq<char>, VariableErrorView>(s@),
            Err(e) => injected(variables@, input@) == Err::<Seq<char>, VariableErrorView>(e@),
        },
{
    let cs = to_chars(input);
    let len = cs.len();
    let mut state = State::Noop;
    let mut out: Vec<char> = Vec::new();
    let mut to_remove: usize = 0;
    let mut i: usize = 0;
    proof {
        assert(cs@.skip(0) =~= cs@);
    }
    while i < len
        invariant
            i <= len,
            len == cs@.len(),
            cs@ == input@,
            consistent(state@, out@, to_remove as int),
            to_remove <= 3,
            read_from(variables@, state@, out@, to_remove as int, cs@.skip(i as int)) == injected(variables@, input@),
        decreases len - i,
    {
        let c = cs[i];
        let ghost rest = cs@.skip(i as int);
        let ghost st0 = state@;
        let ghost out0 = out@;
        let ghost tr0 = to_remove as int;
        proof {
            assert(rest[0] == c);
            assert(rest.drop_first() =~= cs@.skip(i + 1));
        }
        let next = match state {
            State::Noop => {
                out.push(c);
                if c == '$' {
                    to_remove = 1;
                    State::Start
                } else {
                    State::Noop
                }
            },
            State::Start => {
                if c == '$' {
                    State::Noop
                } else if c == '{' {
                    out.push(c);
                    to_remove = to_remove + 1;
                    State::BracedStart
                } else if name_start(c) {
                    out.push(c);
                    State::BuildingNamedVar { name: single(c), braced: false }
                } else if digit(c) {
                    out.push(c);
                    State::BuildingNumberedVar { digits: single(c), braced: false }
                } else {
                    out.push(c);
                    State::Noop
                }
            },
            State::BracedStart => {
                out.push(c);
                if name_start(c) {
                    State::BuildingNamedVar { name: single(c), braced: true }
                } else if digit(c) {
                    State::BuildingNumberedVar { digits: single(c), braced: true }
                } else {
                    State::Noop
                }
            },
            State::BuildingNamedVar { mut name, braced } => {
                if name_start(c) || digit(c) {
                    out.push(c);
                    name.push(c);
                    State::BuildingNamedVar { name, braced }
                } else if braced && c == '}' {
                    out.push(c);
                    to_remove = to_remove + 1;
                    State::FinishNamedVar(name)
                } else if braced {
                    return Err(VariableExpressionError::MismatchedBraces(from_chars(name.as_slice())));
                } else {
                    match resolve(variables, true, &name) {
                        Ok((repl, w)) => {
                            splice_out(&mut out, to_remove, w, repl);
                            out.push(c);
                            if c == '$' {
                                to_remove = 1;
                                State::Start
                            } else {
                                State::Noop
                            }
                        },
                        Err(e) => return Err(e),
                    }
                }
            },
            State::BuildingNumberedVar { mut digits, braced } => {
                if digit(c) {
                    out.push(c);
                    digits.push(c);
                    State::BuildingNumberedVar { digits, braced }
                } else if braced && c == '}' {
                    out.push(c);
                    to_remove = to_remove + 1;
                    State::FinishNumberedVar(digits)
                } else if braced {
                    return Err(VariableExpressionError::MismatchedBraces(decimal_string(&digits)));
                } else {
                    match resolve(variables, false, &digits) {
                        Ok((repl, w)) => {
                            splice_out(&mut out, to_remove, w, repl);
                            out.push(c);
                            if c == '$' {
                                to_remove = 1;
                                State::Start
                            } else {
                                State::Noop
                            }
                        },
                        Err(e) => return Err(e),
                    }
                }
            },
            State::FinishNamedVar(name) => {
                match resolve(variables, true, &name) {
                    Ok((repl, w)) => {
                        splice_out(&mut out, to_remove, w, repl);
                        out.push(c);
                        if c == '$' {
                            to_remove = 1;
                            State::Start
                        } else {
                            State::Noop
                        }
                    },
                    Err(e) => return Err(e),
                }
            },
            State::FinishNumberedVar(digits) => {
                match resolve(variables, false, &digits) {
                    Ok((repl, w)) => {
                        splice_out(&mut out, to_remove, w, repl);
                        out.push(c);
                        if c == '$' {
                            to_remove = 1;
                            State::Start
                        } else {
                            State::Noop
                        }
                    },
                    Err(e) => return Err(e),
                }
            },
        };
        proof {
            assert(read_step(variables@, st0, out0, tr0, c) == Ok::<(ReadState, Seq<char>, int), VariableErrorView>((next@, out@, to_remove as int)));
        }
        state = next;
        i = i + 1;
    }
    proof {
        assert(cs@.skip(len as int) =~= Seq::<char>::empty());
    }
    match state {
        State::BuildingNamedVar { name, braced } => {
            if braced {
                Err(VariableExpressionError::MismatchedBraces(from_chars(name.as_slice())))
            } else {
                match resolve(variables, true, &name) {
                    Ok((repl, w)) => {
                        splice_out(&mut out, to_remove, w, repl);
                        Ok(from_chars(out.as_slice()))
                    },
                    Err(e) => Err(e),
                }
            }
        },
        State::FinishNamedVar(name) => {
            match resolve(variables, true, &name) {
                Ok((repl, w)) => {
                    splice_out(&mut out, to_remove, w, repl);
                    Ok(from_chars(out.as_slice()))
                },
                Err(e) => Err(e),
            }
        },
        State::BuildingNumberedVar { digits, braced } => {
            if braced {
                Err(VariableExpressionError::MismatchedBraces(decimal_string(&digits)))
            } else {
                match resolve(variables, false, &digits) {
                    Ok((repl, w)) => {
                        splice_out(&mut out, to_remove, w, repl);
                        Ok(from_chars(out.as_slice()))
                    },
                    Err(e) => Err(e),
                }
            }
        },
        State::FinishNumberedVar(digits) => {
            match resolve(variables, false, &digits) {
                Ok((repl, w)) => {
                    splice_out(&mut out, to_remove, w, repl);
                    Ok(from_chars(out.as_slice()))
                },
                Err(e) => Err(e),
            }
        },
        _ => Ok(from_chars(out.as_slice())),
    }
}

/// The decimal representation of `n` is made of digits, and spells `n`.
proof fn lemma_decimal_digits(n: nat)
    ensures
        decimal(n).len() >= 1,
        forall|i: int| 0 <= i < decimal(n).len() ==> is_digit(#[trigger] decimal(n)[i]),
        digits_value(decimal(n)) == n,
    decreases n,
{
    let k = (n % 10) as int;
    assert(digit_value(digit_char(k)) == k && is_digit(digit_char(k)));
    if n >= 10 {
        lemma_decimal_digits(n / 10);
        let d = decimal(n);
        let p = decimal(n / 10);
        assert(d == p.push(digit_char(k)));
        assert(d.drop_last() =~= p);
        assert(d.last() == digit_char(k));
        assert(n == 10 * (n / 10) + k);
        assert(digits_value(d) == 10 * digits_value(p) + digit_value(digit_char(k)));
        assert forall|i: int| 0 <= i < d.len() implies is_digit(#[trigger] d[i]) by {
            if i < p.len() {
                assert(d[i] == p[i]);
            }
        }
    } else {
        assert(decimal(n).drop_last() =~= Seq::<char>::empty());
        assert(digits_value(Seq::<char>::empty()) == 0);
    }
}

/// Reading more digits of an unbraced numbered variable adds them to it.
proof fn lemma_read_digits(
    vars: Seq<(CaptureGroup, &str)>,
    d: Seq<char>,
    out: Seq<char>,
    tr: int,
    ds: Seq<char>,
    rest: Seq<char>,
)
    requires
        forall|i: int| 0 <= i < ds.len() ==> is_digit(#[trigger] ds[i]),
    ensures
        read_from(vars, ReadState::Numbered(d, false), out, tr, ds + rest) == read_from(
            vars,
            ReadState::Numbered(d + ds, false),
            out + ds,
            tr,
            rest,
        ),
    decreases ds.len(),
{
    if ds.len() == 0 {
        assert(ds + rest =~= rest);
        assert(d + ds =~= d);
        assert(out + ds =~= out);
    } else {
        let c = ds[0];
        assert((ds + rest)[0] == c);
        assert((ds + rest).drop_first() =~= ds.drop_first() + rest);
        assert forall|i: int| 0 <= i < ds.drop_first().len() implies is_digit(#[trigger] ds.drop_first()[i]) by {
            assert(ds.drop_first()[i] == ds[i + 1]);
        }
        lemma_read_digits(vars, d.push(c), out.push(c), tr, ds.drop_first(), rest);
        assert(d.push(c) + ds.drop_first() =~= d + ds);
        assert(out.push(c) + ds.drop_first() =~= out + ds);
    }
}

/// Reading more characters of an unbraced named variable adds them to its name.
proof fn lemma_read_name_chars(
    vars: Seq<(CaptureGroup, &str)>,
    name: Seq<char>,
    out: Seq<char>,
    tr: int,
    xs: Seq<char>,
    rest: Seq<char>,
)
    requires
        forall|i: int| 0 <= i < xs.len() ==> is_name_char(#[trigger] xs[i]),
    ensures
        read_from(vars, ReadState::Named(name, false), out, tr, xs + rest) == read_from(
            vars,
            ReadState::Named(name + xs, false),
            out + xs,
            tr,
            rest,
        ),
    decreases xs.len(),
{
    if xs.len() == 0 {
        assert(xs + rest =~= rest);
        assert(name + xs =~= name);
        assert(out + xs =~= out);
    } else {
        let c = xs[0];
        assert((xs + rest)[0] == c);
        assert((xs + rest).drop_first() =~= xs.drop_first() + rest);
        assert forall|i: int| 0 <= i < xs.drop_first().len() implies is_name_char(#[trigger] xs.drop_first()[i]) by {
            assert(xs.drop_first()[i] == xs[i + 1]);
        }
        lemma_read_name_chars(vars, name.push(c), out.push(c), tr, xs.drop_first(), rest);
        assert(name.push(c) + xs.drop_first() =~= name + xs);
        assert(out.push(c) + xs.drop_first() =~= out + xs);
    }
}

/// Reading `$` and the decimal digits of `n` leaves the numbered variable `n` pending.
proof fn lemma_read_number(vars: Seq<(CaptureGroup, &str)>, out: Seq<char>, tr: int, n: nat, rest: Seq<char>)
    ensures
        read_from(vars, ReadState::Noop, out, tr, seq!['$'] + decimal(n) + rest) == read_from(
            vars,
            ReadState::Numbered(decimal(n), false),
            out + seq!['$'] + decimal(n),
            1,
            rest,
        ),
{
    lemma_decimal_digits(n);
    let dn = decimal(n);
    let input = seq!['$'] + dn + rest;
    let c0 = dn[0];
    let s1 = input.drop_first();
    assert(input[0] == '$');
    assert(s1 =~= dn + rest);
    assert(s1[0] == c0);
    assert(is_digit(c0));
    let s2 = s1.drop_first();
    assert(s2 =~= dn.drop_first() + rest);
    let out2 = out.push('$').push(c0);
    assert(read_from(vars, ReadState::Noop, out, tr, input) == read_from(vars, ReadState::Start, out.push('$'), 1, s1));
    assert(read_from(vars, ReadState::Start, out.push('$'), 1, s1) == read_from(
        vars,
        ReadState::Numbered(seq![c0], false),
        out2,
        1,
        s2,
    ));
    assert forall|i: int| 0 <= i < dn.drop_first().len() implies is_digit(#[trigger] dn.drop_first()[i]) by {
        assert(dn.drop_first()[i] == dn[i + 1]);
    }
    lemma_read_digits(vars, seq![c0], out2, 1, dn.drop_first(), rest);
    assert(seq![c0] + dn.drop_first() =~= dn);
    assert(out2 + dn.drop_first() =~= out + seq!['$'] + dn);
}

/// Whether `x` is a variable name: a letter or underscore, then letters, digits and
/// underscores.
pub open spec fn is_name(x: Seq<char>) -> bool {
    &&& x.len() >= 1
    &&& is_name_start(x[0])
    &&& forall|i: int| 0 <= i < x.len() ==> is_name_char(#[trigger] x[i])
}

/// Reading `$` and the name `x` leaves the named variable `x` pending.
proof fn lemma_read_name(vars: Seq<(CaptureGroup, &str)>, out: Seq<char>, tr: int, x: Seq<char>, rest: Seq<char>)
    requires
        is_name(x),
    ensures
        read_from(vars, ReadState::Noop, out, tr, seq!['$'] + x + rest) == read_from(
            vars,
            ReadState::Named(x, false),
            out + seq!['$'] + x,
            1,
            rest,
        ),
{
    let input = seq!['$'] + x + rest;
    let c0 = x[0];
    let s1 = input.drop_first();
    assert(input[0] == '$');
    assert(s1 =~= x + rest);
    assert(s1[0] == c0);
    let s2 = s1.drop_first();
    assert(s2 =~= x.drop_first() + rest);
    let out2 = out.push('$').push(c0);
    assert(read_from(vars, ReadState::Noop, out, tr, input) == read_from(vars, ReadState::Start, out.push('$'), 1, s1));
    assert(read_from(vars, ReadState::Start, out.push('$'), 1, s1) == read_from(
        vars,
        ReadState::Named(seq![c0], false),
        out2,
        1,
        s2,
    ));
    assert forall|i: int| 0 <= i < x.drop_first().len() implies is_name_char(#[trigger] x.drop_first()[i]) by {
        assert(x.drop_first()[i] == x[i + 1]);
    }
    lemma_read_name_chars(vars, seq![c0], out2, 1, x.drop_first(), rest);
    assert(seq![c0] + x.drop_first() =~= x);
    assert(out2 + x.drop_first() =~= out + seq!['$'] + x);
}

/// A `$` right after an unbraced numbered variable starts the next variable: with
/// groups `n` and `m` defined, `$n$m` gives the value of `n` followed by that of `m`.
pub proof fn lemma_adjacent_numbered(vars: Seq<(CaptureGroup, &str)>, n: nat, m: nat)
    requires
        lookup(vars, GroupKey::Numbered(n as int)) is Some,
        lookup(vars, GroupKey::Numbered(m as int)) is Some,
    ensures
        injected(vars, seq!['$'] + decimal(n) + seq!['$'] + decimal(m)) == Ok::<Seq<char>, VariableErrorView>(
            lookup(vars, GroupKey::Numbered(n as int))->0 + lookup(vars, GroupKey::Numbered(m as int))->0,
        ),
{
    let a = lookup(vars, GroupKey::Numbered(n as int))->0;
    let b = lookup(vars, GroupKey::Numbered(m as int))->0;
    let dn = decimal(n);
    let dm = decimal(m);
    lemma_decimal_digits(n);
    lemma_decimal_digits(m);
    let rest1 = seq!['$'] + dm;
    assert(seq!['$'] + dn + seq!['$'] + dm =~= seq!['$'] + dn + rest1);
    lemma_read_number(vars, Seq::empty(), 0, n, rest1);
    let out1 = Seq::<char>::empty() + seq!['$'] + dn;
    assert(rest1[0] == '$');
    assert(rest1.drop_first() =~= dm);
    assert(splice(out1, 1 + dn.len() as int, a) =~= a);
    assert(read_from(vars, ReadState::Numbered(dn, false), out1, 1, rest1) == read_from(
        vars,
        ReadState::Start,
        a.push('$'),
        1,
        dm,
    ));
    assert(read_from(vars, ReadState::Noop, a, 1, rest1) == read_from(vars, ReadState::Start, a.push('$'), 1, dm));
    assert(rest1 =~= seq!['$'] + dm + Seq::<char>::empty());
    lemma_read_number(vars, a, 1, m, Seq::empty());
    let out2 = a + seq!['$'] + dm;
    assert(splice(out2, 1 + dm.len() as int, b) =~= a + b);
}

/// A `$` right after an unbraced named variable starts the next variable: with names
/// `x` and `y` defined, `$x$y` gives the value of `x` followed by that of `y`.
pub proof fn lemma_adjacent_named(vars: Seq<(CaptureGroup, &str)>, x: Seq<char>, y: Seq<char>)
    requires
        is_name(x),
        is_name(y),
        lookup(vars, GroupKey::Named(x)) is Some,
        lookup(vars, GroupKey::Named(y)) is Some,
    ensures
        injected(vars, seq!['$'] + x + seq!['$'] + y) == Ok::<Seq<char>, VariableErrorView>(
            lookup(vars, GroupKey::Named(x))->0 + lookup(vars, GroupKey::Named(y))->0,
        ),
{
    let a = lookup(vars, GroupKey::Named(x))->0;
    let b = lookup(vars, GroupKey::Named(y))->0;
    let rest1 = seq!['$'] + y;
    assert(seq!['$'] + x + seq!['$'] + y =~= seq!['$'] + x + rest1);
    lemma_read_name(vars, Seq::empty(), 0, x, rest1);
    let out1 = Seq::<char>::empty() + seq!['$'] + x;
    assert(rest1[0] == '$');
    assert(rest1.drop_first() =~= y);
    assert(splice(out1, 1 + x.len() as int, a) =~= a);
    assert(read_from(vars, ReadState::Named(x, false), out1, 1, rest1) == read_from(
        vars,
        ReadState::Start,
        a.push('$'),
        1,
        y,
    ));
    assert(read_from(vars, ReadState::Noop, a, 1, rest1) == read_from(vars, ReadState::Start, a.push('$'), 1, y));
    assert(rest1 =~= seq!['$'] + y + Seq::<char>::empty());
    lemma_read_name(vars, a, 1, y, Seq::empty());
    let out2 = a + seq!['$'] + y;
    assert(splice(out2, 1 + y.len() as int, b) =~= a + b);
}

/// A numbered variable followed by text without `$` that does not go on with a digit:
/// `$n` stands for the value of group `n`, and the text follows as it is.
pub proof fn lemma_numbered_then_text(vars: Seq<(CaptureGroup, &str)>, n: nat, t: Seq<char>)
    requires
        lookup(vars, GroupKey::Numbered(n as int)) is Some,
        forall|i: int| 0 <= i < t.len() ==> t[i] != '$',
        t.len() > 0 ==> !is_digit(t[0]),
    ensures
        injected(vars, seq!['$'] + decimal(n) + t) == Ok::<Seq<char>, VariableErrorView>(
            lookup(vars, GroupKey::Numbered(n as int))->0 + t,
        ),
{
    let a = lookup(vars, GroupKey::Numbered(n as int))->0;
    let dn = decimal(n);
    lemma_decimal_digits(n);
    lemma_read_number(vars, Seq::empty(), 0, n, t);
    let out1 = Seq::<char>::empty() + seq!['$'] + dn;
    assert(splice(out1, 1 + dn.len() as int, a) =~= a);
    if t.len() == 0 {
        assert(a + t =~= a);
    } else {
        assert(read_from(vars, ReadState::Numbered(dn, false), out1, 1, t) == read_from(
            vars,
            ReadState::Noop,
            a.push(t[0]),
            1,
            t.drop_first(),
        ));
        assert forall|i: int| 0 <= i < t.drop_first().len() implies t.drop_first()[i] != '$' by {
            assert(t.drop_first()[i] == t[i + 1]);
        }
        lemma_read_plain(vars, a.push(t[0]), 1, t.drop_first());
        assert(a.push(t[0]) + t.drop_first() =~= a + t);
    }
}

/// `$$` stands for a single `$`.
pub proof fn lemma_escaped_dollar(vars: Seq<(CaptureGroup, &str)>, t: Seq<char>)
    requires
        forall|i: int| 0 <= i < t.len() ==> t[i] != '$',
    ensures
        injected(vars, seq!['$', '$'] + t) == Ok::<Seq<char>, VariableErrorView>(seq!['$'] + t),
{
    let input = seq!['$', '$'] + t;
    assert(input[0] == '$');
    assert(input.drop_first()[0] == '$');
    assert(input.drop_first().drop_first() =~= t);
    assert(read_from(vars, ReadState::Noop, Seq::empty(), 0, input) == read_from(
        vars,
        ReadState::Start,
        seq!['$'],
        1,
        input.drop_first(),
    ));
    assert(read_from(vars, ReadState::Start, seq!['$'], 1, input.drop_first()) == read_from(
        vars,
        ReadState::Noop,
        seq!['$'],
        1,
        t,
    ));
    lemma_read_plain(vars, seq!['$'], 1, t);
}

} // verus!
