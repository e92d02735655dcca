use std::borrow::Cow;

use srgn::betterletters::modules::german::special_characters::{LetterCasing, SpecialCharacter, Umlaut};
use srgn::betterletters::stages::german::words::{apply_replacement, Replacement};
use srgn::grep::ranges::GlobalRange;
use srgn::modules::german::processor::first_char;
use srgn::modules::german::word::Word as ModuleWord;
use srgn::ranges::Ranges;
use srgn::scope::{ranges_with_context, ROScope, RWScope, Scope};

#[test]
fn global_ranges_shift_and_convert() {
    let r = GlobalRange { start: 5, end: 8 };
    assert_eq!(r.shift(2), 3..6);
    assert!(r.contains(5) && r.contains(7) && !r.contains(8) && !r.contains(4));
    assert!(!r.is_empty());
    assert!(GlobalRange { start: 3, end: 3 }.is_empty());
    assert_eq!(r.to_range(), 5..8);
    assert_eq!(GlobalRange::from_range(1..4), GlobalRange { start: 1, end: 4 });
}

#[test]
fn words_record_matches() {
    let mut w = ModuleWord::new();
    w.push('S');
    w.push('u');
    w.push('e');
    let content = SpecialCharacter::Umlaut(Umlaut::Ue(LetterCasing::Lower));
    w.add_match(1, 3, content);
    assert_eq!(w.content(), "Sue");
    assert_eq!(w.len(), 3);
    assert_eq!(w.matches().len(), 1);
    assert_eq!((w.matches()[0].span.start, w.matches()[0].span.end), (1, 3));
    assert_eq!(w.matches()[0].content(), content);
    w.push('ü');
    assert_eq!(w.len(), 5);
    assert_eq!(w.char_len(), 4);
    w.clear();
    assert_eq!(w.len(), 0);
    assert!(w.matches().is_empty());
}

#[test]
fn replacements_apply_in_place() {
    let mut s = "Suess".to_owned();
    apply_replacement(&mut s, &Replacement::new(3, 5, SpecialCharacter::Eszett(LetterCasing::Lower)));
    assert_eq!(s, "Sueß");
    apply_replacement(&mut s, &Replacement::new(1, 3, SpecialCharacter::Umlaut(Umlaut::Ue(LetterCasing::Lower))));
    assert_eq!(s, "Süß");
    // Positions count bytes: `ü` takes two.
    let mut t = "Grüsse".to_owned();
    apply_replacement(&mut t, &Replacement::new(4, 6, SpecialCharacter::Eszett(LetterCasing::Lower)));
    assert_eq!(t, "Grüße");
    assert_eq!(first_char("Übel"), 'Ü');
}

#[test]
fn ranges_and_scopes() {
    let mut rs = Ranges::from_ranges(vec![4..6, 1..2]);
    assert_eq!(rs.iter(), &[1..2, 4..6]);
    for r in rs.iter_mut().iter_mut() {
        r.end += 1;
    }
    assert_eq!(rs.iter(), &[1..3, 4..7]);
    let with = ranges_with_context(rs);
    assert_eq!(with.len(), 2);
    assert_eq!(with[0].0, 1..3);
    assert!(with[1].1.is_none());

    let rw = RWScope::from_ro(ROScope(Scope::In("abc", None)));
    assert!(matches!(rw.0, Scope::In(Cow::Borrowed("abc"), None)));
    let rw = RWScope::from_ro(ROScope(Scope::Out("x")));
    assert!(matches!(rw.0, Scope::Out("x")));
    assert!(ROScope(Scope::Out("")).is_empty());
    assert_eq!(ROScope(Scope::In("hi", None)).as_str(), "hi");
}

#[test]
fn special_characters_as_text() {
    assert_eq!(Umlaut::Ae(LetterCasing::Upper).to_string(), "Ä");
    assert_eq!(SpecialCharacter::Umlaut(Umlaut::Oe(LetterCasing::Lower)).to_string(), "ö");
    assert_eq!(SpecialCharacter::Eszett(LetterCasing::Upper).to_string(), "ẞ");
    assert_eq!(SpecialCharacter::Eszett(LetterCasing::Lower).to_char(), 'ß');
}
