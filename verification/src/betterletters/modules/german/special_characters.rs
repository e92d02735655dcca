//! The special characters of German.
use vstd::prelude::*;

verus! {

/// The casing of a letter.
#[derive(Debug, Clone, Copy, PartialEq, Eq)]
pub enum LetterCasing {
    /// Lowercase.
    Lower,
    /// Uppercase.
    Upper,
}

/// An umlaut.
#[derive(Debug, Clone, Copy, PartialEq, Eq)]
pub enum Umlaut {
    /// `ä`, `Ä`
    Ae(LetterCasing),
    /// `ö`, `Ö`
    Oe(LetterCasing),
    /// `ü`, `Ü`
    Ue(LetterCasing),
}

/// A special character of German.
#[derive(Debug, Clone, Copy, PartialEq, Eq)]
pub enum SpecialCharacter {
    /// An umlaut.
    Umlaut(Umlaut),
    /// The eszett: `ß`, `ẞ`.
    Eszett(LetterCasing),
}

/// The character an umlaut is written as.
pub open spec fn umlaut_char(u: Umlaut) -> char {
    match u {
        Umlaut::Ae(LetterCasing::Lower) => 'ä',
        Umlaut::Ae(LetterCasing::Upper) => 'Ä',
        Umlaut::Oe(LetterCasing::Lower) => 'ö',
        Umlaut::Oe(LetterCasing::Upper) => 'Ö',
        Umlaut::Ue(LetterCasing::Lower) => 'ü',
        Umlaut::Ue(LetterCasing::Upper) => 'Ü',
    }
}

/// The character a special character is written as.
pub open spec fn special_char(s: SpecialCharacter) -> char {
    match s {
        SpecialCharacter::Umlaut(u) => umlaut_char(u),
        SpecialCharacter::Eszett(LetterCasing::Lower) => 'ß',
        SpecialCharacter::Eszett(LetterCasing::Upper) => 'ẞ',
    }
}

impl Umlaut {
    /// How this umlaut is written.
    pub fn to_string(&self) -> (r: String)
        ensures
            r@ == seq![umlaut_char(*self)],
    {
        let mut r = String::new();
        crate::strs::push_char(&mut r, self.to_char());
        r
    }

    /// The character this umlaut is written as.
    pub fn to_char(&self) -> (c: char)
        ensures
            c == umlaut_char(*self),
    {
        match self {
            Umlaut::Ae(LetterCasing::Lower) => 'ä',
            Umlaut::Ae(LetterCasing::Upper) => 'Ä',
            Umlaut::Oe(LetterCasing::Lower) => 'ö',
            Umlaut::Oe(LetterCasing::Upper) => 'Ö',
            Umlaut::Ue(LetterCasing::Lower) => 'ü',
            Umlaut::Ue(LetterCasing::Upper) => 'Ü',
        }
    }
}

impl SpecialCharacter {
    /// How this special character is written.
    pub fn to_string(&self) -> (r: String)
        ensures
            r@ == seq![special_char(*self)],
    {
        let mut r = String::new();
        crate::strs::push_char(&mut r, self.to_char());
        r
    }

    /// The character this special character is written as.
    pub fn to_char(&self) -> (c: char)
        ensures
            c == special_char(*self),
    {
        match self {
            SpecialCharacter::Umlaut(u) => u.to_char(),
            SpecialCharacter::Eszett(LetterCasing::Lower) => 'ß',
            SpecialCharacter::Eszett(LetterCasing::Upper) => 'ẞ',
        }
    }
}

} // verus!
