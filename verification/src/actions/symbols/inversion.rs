//! Undoing the replacements of [`super::Symbols`].
use vstd::prelude::*;

use super::{char_symbol, symbol_char, symbol_step, symbols_replaced, Symbol};
use crate::actions::{Action, ActionError};
use crate::scope::ScopeContext;
use crate::strs::{push_char, push_str, to_chars};

verus! {

/// Inverts all symbols inserted by [`super::Symbols`].
///
/// The replacements and originals form a bijection.
#[derive(Debug, Clone, Copy, PartialEq, Eq, Default)]
pub struct SymbolsInversion {}

/// The ASCII sequence a symbol replaces.
pub open spec fn symbol_ascii(symbol: Symbol) -> Seq<char> {
    match symbol {
        Symbol::EmDash => seq!['-', '-', '-'],
        Symbol::EnDash => seq!['-', '-'],
        Symbol::ShortRightArrow => seq!['-', '>'],
        Symbol::ShortLeftArrow => seq!['<', '-'],
        Symbol::LongRightArrow => seq!['-', '-', '>'],
        Symbol::LongLeftArrow => seq!['<', '-', '-'],
        Symbol::LeftRightArrow => seq!['<', '-', '>'],
        Symbol::RightDoubleArrow => seq!['=', '>'],
        Symbol::NotEqual => seq!['!', '='],
        Symbol::LessThanOrEqual => seq!['<', '='],
        Symbol::GreaterThanOrEqual => seq!['>', '='],
    }
}

/// What a single character is turned back into.
pub open spec fn inverted_char(c: char) -> Seq<char> {
    match char_symbol(c) {
        Some(symbol) => symbol_ascii(symbol),
        None => seq![c],
    }
}

/// The text `s` with each symbol turned back into its ASCII sequence.
pub open spec fn symbols_inverted(s: Seq<char>) -> Seq<char>
    decreases s.len(),
{
    if s.len() == 0 {
        Seq::empty()
    } else {
        symbols_inverted(s.drop_last()) + inverted_char(s.last())
    }
}

/// Whether `s` holds none of the characters that symbols are replaced with.
pub open spec fn free_of_symbols(s: Seq<char>) -> bool {
    forall|i: int| 0 <= i < s.len() ==> char_symbol(#[trigger] s[i]) is None
}

/// Inverting a concatenation inverts each part.
pub proof fn lemma_inverted_concat(a: Seq<char>, b: Seq<char>)
    ensures
        symbols_inverted(a + b) == symbols_inverted(a) + symbols_inverted(b),
    decreases b.len(),
{
    if b.len() == 0 {
        assert(a + b =~= a);
        assert(symbols_inverted(a) + symbols_inverted(b) =~= symbols_inverted(a));
    } else {
        lemma_inverted_concat(a, b.drop_last());
        assert((a + b).drop_last() =~= a + b.drop_last());
        assert((a + b).last() == b.last());
        assert(symbols_inverted(a) + symbols_inverted(b) =~= symbols_inverted(a) + symbols_inverted(
            b.drop_last(),
        ) + inverted_char(b.last()));
    }
}

/// Text without symbol characters is left as it is by the inversion.
pub proof fn lemma_inverted_plain(s: Seq<char>)
    requires
        free_of_symbols(s),
    ensures
        symbols_inverted(s) == s,
    decreases s.len(),
{
    if s.len() > 0 {
        assert(free_of_symbols(s.drop_last()));
        lemma_inverted_plain(s.drop_last());
        assert(char_symbol(s[s.len() - 1]) is None);
        assert(s.drop_last().push(s.last()) =~= s);
    }
}

/// A single character is inverted on its own.
proof fn lemma_inverted_single(c: char)
    ensures
        symbols_inverted(seq![c]) == inverted_char(c),
{
    assert(seq![c].drop_last() =~= Seq::<char>::empty());
    assert(symbols_inverted(Seq::<char>::empty()) == Seq::<char>::empty());
    assert(Seq::<char>::empty() + inverted_char(c) =~= inverted_char(c));
}

/// The inversion turns what one replacement step outputs back into what it consumed.
proof fn lemma_step_inverted(s: Seq<char>)
    requires
        s.len() > 0,
        free_of_symbols(s),
    ensures
        symbols_inverted(symbol_step(s).0) == s.take(symbol_step(s).1),
{
    super::lemma_symbol_step_bounds(s);
    let (out, n) = symbol_step(s);
    if out.len() == 1 && char_symbol(out[0]) is Some {
        let symbol = char_symbol(out[0])->0;
        lemma_inverted_single(out[0]);
        assert(out =~= seq![out[0]]);
        assert(s.take(n) =~= symbol_ascii(symbol));
    } else {
        assert(out =~= s.take(n));
        assert(free_of_symbols(s.take(n)));
        lemma_inverted_plain(s.take(n));
    }
}

/// Inverting the replacement of a text without symbol characters gives that text back:
/// the replacements and the originals form a bijection.
pub proof fn lemma_inversion_undoes_replacement(s: Seq<char>)
    requires
        free_of_symbols(s),
    ensures
        symbols_inverted(symbols_replaced(s)) == s,
    decreases s.len(),
{
    if s.len() > 0 {
        super::lemma_symbol_step_bounds(s);
        let (out, n) = symbol_step(s);
        assert(free_of_symbols(s.skip(n)));
        lemma_inversion_undoes_replacement(s.skip(n));
        lemma_step_inverted(s);
        lemma_inverted_concat(out, symbols_replaced(s.skip(n)));
        assert(s.take(n) + s.skip(n) =~= s);
    }
}

/// What the inversion outputs holds no symbol characters.
pub proof fn lemma_inverted_free(s: Seq<char>)
    ensures
        free_of_symbols(symbols_inverted(s)),
    decreases s.len(),
{
    if s.len() > 0 {
        lemma_inverted_free(s.drop_last());
        let c = s.last();
        let tail = inverted_char(c);
        assert(free_of_symbols(tail));
        let whole = symbols_inverted(s.drop_last()) + tail;
        assert forall|i: int| 0 <= i < whole.len() implies char_symbol(#[trigger] whole[i]) is None by {
            if i >= symbols_inverted(s.drop_last()).len() {
                assert(whole[i] == tail[i - symbols_inverted(s.drop_last()).len()]);
            }
        }
    }
}

/// Inverting twice gives what inverting once gives: the action is idempotent.
pub proof fn lemma_inversion_idempotent(s: Seq<char>)
    ensures
        symbols_inverted(symbols_inverted(s)) == symbols_inverted(s),
{
    lemma_inverted_free(s);
    lemma_inverted_plain(symbols_inverted(s));
}

/// Each symbol's ASCII sequence is replaced by the symbol, and the symbol is turned back
/// into that sequence.
pub proof fn lemma_symbol_roundtrip(symbol: Symbol)
    ensures
        symbols_replaced(symbol_ascii(symbol)) == seq![symbol_char(symbol)],
        symbols_inverted(seq![symbol_char(symbol)]) == symbol_ascii(symbol),
{
    let a = symbol_ascii(symbol);
    super::lemma_symbol_step_bounds(a);
    assert(symbol_step(a) == (seq![symbol_char(symbol)], a.len() as int));
    assert(a.skip(a.len() as int) =~= Seq::<char>::empty());
    assert(symbols_replaced(a) =~= seq![symbol_char(symbol)] + symbols_replaced(a.skip(a.len() as int)));
    lemma_inverted_single(symbol_char(symbol));
    super::lemma_symbol_char_roundtrip(symbol);
}

/// The ASCII sequence a symbol replaces.
fn ascii_of(symbol: Symbol) -> (r: &'static str)
    ensures
        r@ == symbol_ascii(symbol),
{
    let r = match symbol {
        Symbol::EmDash => "---",
        Symbol::EnDash => "--",
        Symbol::ShortRightArrow => "->",
        Symbol::ShortLeftArrow => "<-",
        Symbol::LongRightArrow => "-->",
        Symbol::LongLeftArrow => "<--",
        Symbol::LeftRightArrow => "<->",
        Symbol::RightDoubleArrow => "=>",
        Symbol::NotEqual => "!=",
        Symbol::LessThanOrEqual => "<=",
        Symbol::GreaterThanOrEqual => ">=",
    };
    proof {
        reveal_strlit("---");
        reveal_strlit("--");
        reveal_strlit("->");
        reveal_strlit("<-");
        reveal_strlit("-->");
        reveal_strlit("<--");
        reveal_strlit("<->");
        reveal_strlit("=>");
        reveal_strlit("!=");
        reveal_strlit("<=");
        reveal_strlit(">=");
    }
    r
}

impl Action for SymbolsInversion {
    open spec fn acts(&self, input: Seq<char>) -> Seq<char> {
        symbols_inverted(input)
    }

    fn act(&self, input: &str) -> (r: String) {
        let cs = to_chars(input);
        let len = cs.len();
        let mut out = String::new();
        let mut i: usize = 0;
        while i < len
            invariant
                i <= len,
                len == cs@.len(),
                cs@ == input@,
                out@ == symbols_inverted(cs@.take(i as int)),
            decreases len - i,
        {
            let c = cs[i];
            match Symbol::try_from(c) {
                Ok(s) => push_str(&mut out, ascii_of(s)),
                Err(()) => push_char(&mut out, c),
            }
            proof {
                assert(cs@.take(i + 1).drop_last() =~= cs@.take(i as int));
            }
            i = i + 1;
        }
        proof {
            assert(cs@.take(len as int) =~= cs@);
        }
        out
    }

    open spec fn acts_in_context(&self, input: Seq<char>, context: ScopeContext) -> Option<Seq<char>> {
        Some(self.acts(input))
    }

    /// Context is not needed: acts as [`Action::act`] does.
    fn act_with_context(&self, input: &str, context: &ScopeContext) -> (r: Result<String, ActionError>)
        ensures
            r matches Ok(s) && s@ == self.acts(input@),
    {
        Ok(self.act(input))
    }
}

} // verus!
