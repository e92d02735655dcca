//! Replacing ASCII symbols with their Unicode equivalents.
use vstd::prelude::*;

use crate::actions::{Action, ActionError};
use crate::scope::ScopeContext;
use crate::strs::{push_char, to_chars};

pub mod inversion;

verus! {

/// Replace ASCII symbols (`--`, `->`, `!=`, ...) with proper Unicode equivalents (`–`,
/// `→`, `≠`, ...).
///
/// This action is greedy, i.e. it will try to replace as many symbols as possible,
/// replacing left-to-right as greedily as possible. Text following `https://`, up to
/// and including the next space or double quote, is left alone.
#[derive(Debug, Clone, Copy, PartialEq, Eq, Default)]
pub struct Symbols {}

/// A Unicode symbol that an ASCII sequence is replaced with.
#[derive(Debug, Clone, Copy, PartialEq, Eq)]
pub enum Symbol {
    // Typographic symbols
    /// `—`
    EmDash,
    /// `–`
    EnDash,
    // Arrows
    /// `→`
    ShortRightArrow,
    /// `←`
    ShortLeftArrow,
    /// `⟶`
    LongRightArrow,
    /// `⟵`
    LongLeftArrow,
    /// `↔`
    LeftRightArrow,
    /// `⇒`
    RightDoubleArrow,
    // Math
    /// `≠`
    NotEqual,
    /// `≤`
    LessThanOrEqual,
    /// `≥`
    GreaterThanOrEqual,
}

/// The character a symbol stands for.
pub open spec fn symbol_char(symbol: Symbol) -> char {
    match symbol {
        Symbol::EnDash => '–',
        Symbol::EmDash => '—',
        Symbol::ShortRightArrow => '→',
        Symbol::ShortLeftArrow => '←',
        Symbol::LongRightArrow => '⟶',
        Symbol::LongLeftArrow => '⟵',
        Symbol::LeftRightArrow => '↔',
        Symbol::RightDoubleArrow => '⇒',
        Symbol::NotEqual => '≠',
        Symbol::LessThanOrEqual => '≤',
        Symbol::GreaterThanOrEqual => '≥',
    }
}

/// The symbol a character stands for, if any.
pub open spec fn char_symbol(c: char) -> Option<Symbol> {
    if c == '–' {
        Some(Symbol::EnDash)
    } else if c == '—' {
        Some(Symbol::EmDash)
    } else if c == '→' {
        Some(Symbol::ShortRightArrow)
    } else if c == '←' {
        Some(Symbol::ShortLeftArrow)
    } else if c == '⟶' {
        Some(Symbol::LongRightArrow)
    } else if c == '⟵' {
        Some(Symbol::LongLeftArrow)
    } else if c == '↔' {
        Some(Symbol::LeftRightArrow)
    } else if c == '⇒' {
        Some(Symbol::RightDoubleArrow)
    } else if c == '≠' {
        Some(Symbol::NotEqual)
    } else if c == '≤' {
        Some(Symbol::LessThanOrEqual)
    } else if c == '≥' {
        Some(Symbol::GreaterThanOrEqual)
    } else {
        None
    }
}

impl vstd::std_specs::convert::FromSpecImpl<Symbol> for char {
    open spec fn obeys_from_spec() -> bool {
        true
    }

    open spec fn from_spec(symbol: Symbol) -> char {
        symbol_char(symbol)
    }
}

impl From<Symbol> for char {
    fn from(symbol: Symbol) -> (c: char)
        ensures
            c == symbol_char(symbol),
    {
        match symbol {
            Symbol::EnDash => '–',
            Symbol::EmDash => '—',
            Symbol::ShortRightArrow => '→',
            Symbol::ShortLeftArrow => '←',
            Symbol::LongRightArrow => '⟶',
            Symbol::LongLeftArrow => '⟵',
            Symbol::LeftRightArrow => '↔',
            Symbol::RightDoubleArrow => '⇒',
            Symbol::NotEqual => '≠',
            Symbol::LessThanOrEqual => '≤',
            Symbol::GreaterThanOrEqual => '≥',
        }
    }
}

impl Symbol {
    /// The symbol that the character `c` stands for, or `Err(())` if there is none.
    pub fn try_from(c: char) -> (r: Result<Self, ()>)
        ensures
            r == (match char_symbol(c) {
                Some(s) => Ok(s),
                None => Err(()),
            }),
    {
        match c {
            '–' => Ok(Self::EnDash),
            '—' => Ok(Self::EmDash),
            '→' => Ok(Self::ShortRightArrow),
            '←' => Ok(Self::ShortLeftArrow),
            '⟶' => Ok(Self::LongRightArrow),
            '⟵' => Ok(Self::LongLeftArrow),
            '↔' => Ok(Self::LeftRightArrow),
            '⇒' => Ok(Self::RightDoubleArrow),
            '≠' => Ok(Self::NotEqual),
            '≤' => Ok(Self::LessThanOrEqual),
            '≥' => Ok(Self::GreaterThanOrEqual),
            _ => Err(()),
        }
    }
}

/// Converting a symbol to its character and back gives the symbol again.
pub proof fn lemma_symbol_char_roundtrip(symbol: Symbol)
    ensures
        char_symbol(symbol_char(symbol)) == Some(symbol),
{
}

/// Whether `s` has character `c` at position `i`.
pub open spec fn has_at(s: Seq<char>, i: int, c: char) -> bool {
    0 <= i < s.len() && s[i] == c
}

/// The prefix after which text is left alone up to the next space or double quote.
pub open spec fn https_prefix() -> Seq<char> {
    seq!['h', 't', 't', 'p', 's', ':', '/', '/']
}

/// How many characters of `p`, from position `k` on, `s` agrees with.
pub open spec fn common_prefix_len(s: Seq<char>, p: Seq<char>, k: int) -> int
    decreases p.len() - k,
{
    if 0 <= k < p.len() && k < s.len() && s[k] == p[k] {
        common_prefix_len(s, p, k + 1)
    } else {
        k
    }
}

/// The position just past the first space or double quote at or after `from`, or the
/// length of `s` if there is none.
pub open spec fn url_end(s: Seq<char>, from: int) -> int
    decreases s.len() - from,
{
    if from >= s.len() {
        s.len() as int
    } else if s[from] == ' ' || s[from] == '"' {
        from + 1
    } else {
        url_end(s, from + 1)
    }
}

/// One step of the greedy replacement at the start of the non-empty `s`: what is
/// output, and how many characters are consumed.
pub open spec fn symbol_step(s: Seq<char>) -> (Seq<char>, int) {
    let c = s[0];
    if c == '-' {
        if has_at(s, 1, '-') {
            if has_at(s, 2, '-') {
                (seq![symbol_char(Symbol::EmDash)], 3)
            } else if has_at(s, 2, '>') {
                (seq![symbol_char(Symbol::LongRightArrow)], 3)
            } else {
                (seq![symbol_char(Symbol::EnDash)], 2)
            }
        } else if has_at(s, 1, '>') {
            (seq![symbol_char(Symbol::ShortRightArrow)], 2)
        } else {
            (seq![c], 1)
        }
    } else if c == '<' {
        if has_at(s, 1, '-') {
            if has_at(s, 2, '-') {
                (seq![symbol_char(Symbol::LongLeftArrow)], 3)
            } else if has_at(s, 2, '>') {
                (seq![symbol_char(Symbol::LeftRightArrow)], 3)
            } else {
                (seq![symbol_char(Symbol::ShortLeftArrow)], 2)
            }
        } else if has_at(s, 1, '=') {
            (seq![symbol_char(Symbol::LessThanOrEqual)], 2)
        } else {
            (seq![c], 1)
        }
    } else if c == '>' && has_at(s, 1, '=') {
        (seq![symbol_char(Symbol::GreaterThanOrEqual)], 2)
    } else if c == '!' && has_at(s, 1, '=') {
        (seq![symbol_char(Symbol::NotEqual)], 2)
    } else if c == '=' && has_at(s, 1, '>') {
        (seq![symbol_char(Symbol::RightDoubleArrow)], 2)
    } else if c == 'h' {
        let m = common_prefix_len(s, https_prefix(), 0);
        if m == 8 {
            let e = url_end(s, 8);
            (s.take(e), e)
        } else {
            (s.take(m), m)
        }
    } else {
        (seq![c], 1)
    }
}

/// The text `s` with its ASCII symbols replaced, greedily from left to right.
pub open spec fn symbols_replaced(s: Seq<char>) -> Seq<char>
    decreases s.len(),
{
    if s.len() == 0 {
        Seq::empty()
    } else {
        let (out, n) = symbol_step(s);
        if 1 <= n <= s.len() {
            out + symbols_replaced(s.skip(n))
        } else {
            out
        }
    }
}

proof fn lemma_common_prefix_len_bounds(s: Seq<char>, p: Seq<char>, k: int)
    requires
        0 <= k <= p.len(),
        k <= s.len(),
    ensures
        k <= common_prefix_len(s, p, k) <= p.len(),
        common_prefix_len(s, p, k) <= s.len(),
        forall|j: int| k <= j < common_prefix_len(s, p, k) ==> s[j] == p[j],
        common_prefix_len(s, p, k) < p.len() && common_prefix_len(s, p, k) < s.len() ==> s[common_prefix_len(s, p, k)] != p[common_prefix_len(s, p, k)],
    decreases p.len() - k,
{
    if 0 <= k < p.len() && k < s.len() && s[k] == p[k] {
        lemma_common_prefix_len_bounds(s, p, k + 1);
    }
}

proof fn lemma_url_end_bounds(s: Seq<char>, from: int)
    requires
        0 <= from <= s.len(),
    ensures
        from <= url_end(s, from) <= s.len(),
    decreases s.len() - from,
{
    if from < s.len() && !(s[from] == ' ' || s[from] == '"') {
        lemma_url_end_bounds(s, from + 1);
    }
}

/// The step consumes at least one and at most all characters.
proof fn lemma_symbol_step_bounds(s: Seq<char>)
    requires
        s.len() > 0,
    ensures
        1 <= symbol_step(s).1 <= s.len(),
{
    if s[0] == 'h' {
        lemma_common_prefix_len_bounds(s, https_prefix(), 0);
        let m = common_prefix_len(s, https_prefix(), 0);
        assert(s[0] == https_prefix()[0]);
        if m == 8 {
            lemma_url_end_bounds(s, 8);
        } else {
            assert(m >= 1) by {
                if m == 0 {
                    lemma_common_prefix_len_bounds(s, https_prefix(), 1);
                }
            }
        }
    }
}

/// Whether `c` is one of the characters that symbols are replaced with.
pub open spec fn is_symbol_char(c: char) -> bool {
    char_symbol(c) is Some
}

/// Whether `r` may follow what a step output in place of `rest`, the text after what it
/// consumed: it is empty exactly when `rest` is, and otherwise starts with the first
/// character of `rest` or with a symbol character.
pub open spec fn continues(rest: Seq<char>, r: Seq<char>) -> bool {
    &&& (rest.len() == 0 <==> r.len() == 0)
    &&& r.len() > 0 ==> (r[0] == rest[0] || is_symbol_char(r[0]))
}

proof fn lemma_common_prefix_len_exact(t: Seq<char>, p: Seq<char>, k: int, m: int)
    requires
        0 <= k <= m <= p.len(),
        m <= t.len(),
        forall|j: int| k <= j < m ==> t[j] == p[j],
        m == p.len() || m == t.len() || t[m] != p[m],
    ensures
        common_prefix_len(t, p, k) == m,
    decreases m - k,
{
    if k < m {
        lemma_common_prefix_len_exact(t, p, k + 1, m);
    }
}

proof fn lemma_url_end_exact(t: Seq<char>, from: int, e: int)
    requires
        0 <= from <= e <= t.len(),
        forall|j: int| from <= j < e ==> !(t[j] == ' ' || t[j] == '"'),
        e == t.len() || t[e] == ' ' || t[e] == '"',
    ensures
        url_end(t, from) == if e == t.len() { e } else { e + 1 },
    decreases e - from,
{
    if from < e {
        lemma_url_end_exact(t, from + 1, e);
    }
}

proof fn lemma_url_end_shape(s: Seq<char>, from: int)
    requires
        0 <= from <= s.len(),
    ensures
        forall|j: int| from <= j < url_end(s, from) - 1 ==> !(s[j] == ' ' || s[j] == '"'),
        url_end(s, from) < s.len() ==> url_end(s, from) > from && (s[url_end(s, from) - 1] == ' ' || s[url_end(s, from) - 1] == '"'),
        url_end(s, from) == s.len() && from < s.len() ==> (s[s.len() - 1] == ' ' || s[s.len() - 1] == '"' || forall|j: int| from <= j < s.len() ==> !(s[j] == ' ' || s[j] == '"')),
    decreases s.len() - from,
{
    if from < s.len() && !(s[from] == ' ' || s[from] == '"') {
        lemma_url_end_shape(s, from + 1);
    }
}

/// A step either replaces what it consumed by a single symbol character or outputs it
/// as it is.
proof fn lemma_step_shape(s: Seq<char>)
    requires
        s.len() > 0,
    ensures
        ({
            let (out, n) = symbol_step(s);
            (out.len() == 1 && is_symbol_char(out[0])) || out == s.take(n)
        }),
{
    lemma_symbol_step_bounds(s);
    let (out, n) = symbol_step(s);
    if !(out.len() == 1 && is_symbol_char(out[0])) {
        assert(out =~= s.take(n));
    }
}

/// The replaced text starts with the text's first character or with a symbol character.
proof fn lemma_replaced_start(s: Seq<char>)
    ensures
        continues(s, symbols_replaced(s)),
{
    if s.len() > 0 {
        lemma_symbol_step_bounds(s);
        lemma_step_shape(s);
        let (out, n) = symbol_step(s);
        assert(symbols_replaced(s) == out + symbols_replaced(s.skip(n)));
        if out == s.take(n) {
            assert(out[0] == s[0]);
        }
    }
}

/// What a step outputs is taken as one step again when followed by what may follow it.
proof fn lemma_step_stable(s: Seq<char>, r: Seq<char>)
    requires
        s.len() > 0,
        continues(s.skip(symbol_step(s).1), r),
    ensures
        symbol_step(symbol_step(s).0 + r) == (symbol_step(s).0, symbol_step(s).0.len() as int),
{
    lemma_symbol_step_bounds(s);
    lemma_step_shape(s);
    let (out, n) = symbol_step(s);
    let t = out + r;
    let rest = s.skip(n);
    assert(rest.len() > 0 ==> rest[0] == s[n]);
    if out.len() == 1 && is_symbol_char(out[0]) {
        assert(t[0] == out[0]);
    } else {
        assert(out =~= s.take(n));
        assert(forall|j: int| 0 <= j < n ==> t[j] == s[j]);
        assert(r.len() > 0 ==> t[n] == r[0]);
        let c = s[0];
        if c == 'h' {
            let p = https_prefix();
            lemma_common_prefix_len_bounds(s, p, 0);
            let m = common_prefix_len(s, p, 0);
            if m == 8 {
                let e = url_end(s, 8);
                lemma_url_end_bounds(s, 8);
                lemma_url_end_shape(s, 8);
                lemma_common_prefix_len_exact(t, p, 0, 8);
                if e < s.len() {
                    lemma_url_end_exact(t, 8, e - 1);
                } else {
                    assert(r.len() == 0);
                    assert(t =~= s);
                }
            } else {
                assert(m >= 1) by {
                    if m == 0 {
                        lemma_common_prefix_len_bounds(s, p, 1);
                    }
                }
                assert(n == m);
                lemma_common_prefix_len_exact(t, p, 0, m);
            }
        }
    }
}

/// Replacing symbols in the output of a step followed by what may follow it replaces
/// only in what follows.
proof fn lemma_replaced_after_step(s: Seq<char>, r: Seq<char>)
    requires
        s.len() > 0,
        continues(s.skip(symbol_step(s).1), r),
    ensures
        symbols_replaced(symbol_step(s).0 + r) == symbol_step(s).0 + symbols_replaced(r),
{
    lemma_step_stable(s, r);
    lemma_step_shape(s);
    lemma_symbol_step_bounds(s);
    let out = symbol_step(s).0;
    assert(out.len() >= 1);
    assert((out + r).skip(out.len() as int) =~= r);
}

/// Replacing symbols twice gives what replacing them once gives: the action is
/// idempotent.
pub proof fn lemma_symbols_idempotent(s: Seq<char>)
    ensures
        symbols_replaced(symbols_replaced(s)) == symbols_replaced(s),
    decreases s.len(),
{
    if s.len() > 0 {
        lemma_symbol_step_bounds(s);
        let (out, n) = symbol_step(s);
        let rest = s.skip(n);
        lemma_replaced_start(rest);
        lemma_symbols_idempotent(rest);
        lemma_replaced_after_step(s, symbols_replaced(rest));
    }
}

/// Whether `cs` has character `x` at position `j`.
fn char_at_is(cs: &Vec<char>, j: usize, x: char) -> (b: bool)
    ensures
        b == has_at(cs@, j as int, x),
{
    j < cs.len() && cs[j] == x
}

/// Computes one greedy step at position `i` of `cs`, pushing what it outputs.
fn symbol_step_at(cs: &Vec<char>, i: usize, out: &mut String) -> (n: usize)
    requires
        i < cs@.len(),
    ensures
        n == symbol_step(cs@.skip(i as int)).1,
        final(out)@ == old(out)@ + symbol_step(cs@.skip(i as int)).0,
{
    let ghost s = cs@.skip(i as int);
    let len = cs.len();
    let c = cs[i];
    if c == '-' {
        if char_at_is(cs, i + 1, '-') {
            if char_at_is(cs, i + 2, '-') {
                push_char(out, Symbol::EmDash.into());
                3
            } else if char_at_is(cs, i + 2, '>') {
                push_char(out, Symbol::LongRightArrow.into());
                3
            } else {
                push_char(out, Symbol::EnDash.into());
                2
            }
        } else if char_at_is(cs, i + 1, '>') {
            push_char(out, Symbol::ShortRightArrow.into());
            2
        } else {
            push_char(out, c);
            1
        }
    } else if c == '<' {
        if char_at_is(cs, i + 1, '-') {
            if char_at_is(cs, i + 2, '-') {
                push_char(out, Symbol::LongLeftArrow.into());
                3
            } else if char_at_is(cs, i + 2, '>') {
                push_char(out, Symbol::LeftRightArrow.into());
                3
            } else {
                push_char(out, Symbol::ShortLeftArrow.into());
                2
            }
        } else if char_at_is(cs, i + 1, '=') {
            push_char(out, Symbol::LessThanOrEqual.into());
            2
        } else {
            push_char(out, c);
            1
        }
    } else if c == '>' && char_at_is(cs, i + 1, '=') {
        push_char(out, Symbol::GreaterThanOrEqual.into());
        2
    } else if c == '!' && char_at_is(cs, i + 1, '=') {
        push_char(out, Symbol::NotEqual.into());
        2
    } else if c == '=' && char_at_is(cs, i + 1, '>') {
        push_char(out, Symbol::RightDoubleArrow.into());
        2
    } else if c == 'h' {
        let prefix = ['h', 't', 't', 'p', 's', ':', '/', '/'];
        proof {
            assert(prefix@ =~= https_prefix());
        }
        let mut m: usize = 0;
        while m < 8 && i + m < len && cs[i + m] == prefix[m]
            invariant
                m <= 8,
                i + m <= len,
                len == cs@.len(),
                s == cs@.skip(i as int),
                prefix@ == https_prefix(),
                common_prefix_len(s, https_prefix(), m as int) == common_prefix_len(s, https_prefix(), 0),
            decreases 8 - m,
        {
            m = m + 1;
        }
        let end: usize = if m == 8 {
            let mut e: usize = i + 8;
            while e < len && cs[e] != ' ' && cs[e] != '"'
                invariant
                    i + 8 <= e <= len,
                    len == cs@.len(),
                    s == cs@.skip(i as int),
                    url_end(s, (e - i) as int) == url_end(s, 8),
                decreases len - e,
            {
                e = e + 1;
            }
            if e < len {
                e + 1
            } else {
                e
            }
        } else {
            i + m
        };
        let ghost before = out@;
        let mut k: usize = i;
        while k < end
            invariant
                i <= k <= end <= len,
                len == cs@.len(),
                out@ == before + cs@.subrange(i as int, k as int),
            decreases end - k,
        {
            push_char(out, cs[k]);
            proof {
                assert(cs@.subrange(i as int, k as int).push(cs@[k as int]) =~= cs@.subrange(i as int, k + 1));
            }
            k = k + 1;
        }
        proof {
            assert(cs@.subrange(i as int, end as int) =~= s.take(end - i));
        }
        end - i
    } else {
        push_char(out, c);
        1
    }
}

impl Action for Symbols {
    open spec fn acts(&self, input: Seq<char>) -> Seq<char> {
        symbols_replaced(input)
    }

    fn act(&self, input: &str) -> (r: String) {
        let cs = to_chars(input);
        let len = cs.len();
        let mut out = String::new();
        let mut i: usize = 0;
        proof {
            assert(cs@.skip(0) =~= cs@);
            assert(out@ + symbols_replaced(cs@) =~= symbols_replaced(cs@));
        }
        while i < len
            invariant
                i <= len,
                len == cs@.len(),
                cs@ == input@,
                out@ + symbols_replaced(cs@.skip(i as int)) == symbols_replaced(input@),
            decreases len - i,
        {
            let ghost s = cs@.skip(i as int);
            let ghost before = out@;
            proof {
                lemma_symbol_step_bounds(s);
            }
            let n = symbol_step_at(&cs, i, &mut out);
            proof {
                assert(s.skip(n as int) =~= cs@.skip(i + n));
                assert(before + symbols_replaced(s) == out@ + symbols_replaced(cs@.skip(i + n)));
            }
            i = i + n;
        }
        proof {
            assert(cs@.skip(len as int) =~= Seq::<char>::empty());
            assert(out@ + Seq::<char>::empty() =~= out@);
        }
        out
    }

    open spec fn acts_in_context(&self, input: Seq<char>, context: ScopeContext) -> Option<Seq<char>> {
        Some(self.acts(input))
    }

    /// Context is not needed: acts as [`Action::act`] does.
    fn act_with_context(&self, input: &str, context: &ScopeContext) -> (r: Result<String, ActionError>)
        ensures
            r matches Ok(s) && s@ == self.acts(input@),
    {
        Ok(self.act(input))
    }
}

} // verus!
