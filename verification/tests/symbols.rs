use srgn::actions::symbols::Symbol;
use srgn::actions::{Action, Symbols, SymbolsInversion};

fn check(cases: &[(&str, &str)]) {
    for (input, expected) in cases {
        assert_eq!(Symbols::default().act(input), *expected, "input: {input:?}");
    }
}

#[test]
fn symbols_base_cases() {
    check(&[
        ("", ""),
        (" ", " "),
        ("--", "–"),
        ("---", "—"),
        ("->", "→"),
        ("-->", "⟶"),
        ("<-", "←"),
        ("<--", "⟵"),
        ("<->", "↔"),
        ("=>", "⇒"),
        ("<=", "≤"),
        (">=", "≥"),
        ("!=", "≠"),
    ]);
}

#[test]
fn symbols_neighboring_letters() {
    check(&[
        ("A-", "A-"),
        ("A--", "A–"),
        ("A---", "A—"),
        ("-A", "-A"),
        ("--A", "–A"),
        ("---A", "—A"),
        ("A->", "A→"),
        ("A-->B", "A⟶B"),
        ("A<->B", "A↔B"),
        ("A => B", "A ⇒ B"),
        ("A != B", "A ≠ B"),
        ("<--X-->", "⟵X⟶"),
        ("<-X-", "←X-"),
    ]);
}

#[test]
fn symbols_sentences_and_ambiguous_sequences() {
    check(&[
        ("I breathe -- I live.", "I breathe – I live."),
        ("To think---to breathe.", "To think—to breathe."),
        ("A <= B => C", "A ≤ B ⇒ C"),
        ("->In->Out->", "→In→Out→"),
        ("----", "—-"),
        ("-----", "—–"),
        ("->--->->", "→—>→"),
        ("<-<---<", "←⟵-<"),
        ("!=!=!=", "≠≠≠"),
        (">=<=<=", "≥≤≤"),
    ]);
}

#[test]
fn symbols_existing_symbols_and_uris() {
    check(&[
        ("–", "–"),
        ("≥", "≥"),
        ("https://www.example.com/->", "https://www.example.com/->"),
        ("\"https://www.example.com/\"->", "\"https://www.example.com/\"→"),
        ("https://www.example.com/ ->", "https://www.example.com/ →"),
        ("h->", "h→"),
        ("https:/->", "https:/→"),
        ("https://->", "https://->"),
    ]);
}

fn all_symbols() -> Vec<Symbol> {
    vec![
        Symbol::EmDash,
        Symbol::EnDash,
        Symbol::ShortRightArrow,
        Symbol::ShortLeftArrow,
        Symbol::LongRightArrow,
        Symbol::LongLeftArrow,
        Symbol::LeftRightArrow,
        Symbol::RightDoubleArrow,
        Symbol::NotEqual,
        Symbol::LessThanOrEqual,
        Symbol::GreaterThanOrEqual,
    ]
}

#[test]
fn test_symbol_to_char_and_back_is_bijective() {
    for symbol in all_symbols() {
        let c = char::from(symbol);
        let back = Symbol::try_from(c).expect("Should be able to convert back to symbol");
        assert_eq!(symbol, back);
    }
}

#[test]
fn non_symbol_chars_are_not_symbols() {
    assert_eq!(Symbol::try_from('-'), Err(()));
    assert_eq!(Symbol::try_from('a'), Err(()));
}

#[test]
fn inversion_undoes_symbols() {
    for symbol in all_symbols() {
        let c = char::from(symbol).to_string();
        let ascii = SymbolsInversion::default().act(&c);
        assert_eq!(Symbols::default().act(&ascii), c);
    }
    assert_eq!(SymbolsInversion::default().act("A ≤ B ⇒ C"), "A <= B => C");
    assert_eq!(SymbolsInversion::default().act("plain"), "plain");
}

#[test]
fn symbols_are_idempotent_and_inverted() {
    for input in ["a -> b", "--->", "<-->", "x != y <= z", "https://a-->b c -> d", "----", "h--", "htt->"] {
        let once = Symbols::default().act(input);
        assert_eq!(Symbols::default().act(&once), once, "{input}");
        assert_eq!(SymbolsInversion::default().act(&once), input, "{input}");
        let inverted = SymbolsInversion::default().act(input);
        assert_eq!(SymbolsInversion::default().act(&inverted), inverted, "{input}");
    }
    // A symbol character already in the input is inverted too.
    assert_eq!(SymbolsInversion::default().act(&Symbols::default().act("→")), "->");
}
