//! Words and the special characters found in them.
use vstd::prelude::*;

use crate::betterletters::modules::german::special_characters::SpecialCharacter;
use crate::strs::{push_char, to_chars};

verus! {

/// A stretch of character positions.
#[derive(Debug, Clone, Copy)]
pub struct Span {
    /// The first position.
    pub start: usize,
    /// The position just after the last.
    pub end: usize,
}

/// A place in a word where a special character can stand in for what is written there.
#[derive(Debug, Clone, Copy)]
pub struct Match {
    /// Where it is.
    pub span: Span,
    /// What is put there.
    pub content: SpecialCharacter,
}

impl Match {
    /// The first position.
    pub fn start(&self) -> (r: usize)
        ensures
            r == self.span.start,
    {
        self.span.start
    }

    /// The position just after the last.
    pub fn end(&self) -> (r: usize)
        ensures
            r == self.span.end,
    {
        self.span.end
    }

    /// What is put there.
    pub fn content(&self) -> (r: SpecialCharacter)
        ensures
            r == self.content,
    {
        self.content
    }
}

/// A word: its characters and the matches found in it.
#[derive(Debug)]
pub struct Word {
    content: String,
    matches: Vec<Match>,
}

impl Word {
    /// The characters of the word.
    pub closed spec fn chars(&self) -> Seq<char> {
        self.content@
    }

    /// The matches found in the word, in the order they were added.
    pub closed spec fn found(&self) -> Seq<Match> {
        self.matches@
    }

    /// An empty word without matches.
    pub fn new() -> (w: Self)
        ensures
            w.chars() == Seq::<char>::empty(),
            w.found() == Seq::<Match>::empty(),
    {
        Word { content: String::new(), matches: Vec::new() }
    }

    /// Clears the word's contents and matches.
    pub fn clear(&mut self)
        ensures
            final(self).chars() == Seq::<char>::empty(),
            final(self).found() == Seq::<Match>::empty(),
    {
        self.content = String::new();
        self.matches.clear();
    }

    /// Appends a character.
    pub fn push(&mut self, character: char)
        ensures
            final(self).chars() == old(self).chars().push(character),
            final(self).found() == old(self).found(),
    {
        push_char(&mut self.content, character);
    }

    /// The length of the word in bytes (of its UTF-8 encoding).
    pub fn len(&self) -> (n: usize)
        ensures
            n == vstd::utf8::encode_utf8(self.chars()).len(),
    {
        self.content.as_str().as_bytes().len()
    }

    /// The number of characters of the word.
    pub fn char_len(&self) -> (n: usize)
        ensures
            n == self.chars().len(),
    {
        to_chars(self.content.as_str()).len()
    }

    /// Records that `content` can stand in for the characters `start..end`.
    pub fn add_match(&mut self, start: usize, end: usize, content: SpecialCharacter)
        ensures
            final(self).chars() == old(self).chars(),
            final(self).found() == old(self).found().push(Match { span: Span { start, end }, content }),
    {
        self.matches.push(Match { span: Span { start, end }, content });
    }

    /// The matches found, in the order they were added.
    pub fn matches(&self) -> (r: &Vec<Match>)
        ensures
            r@ == self.found(),
    {
        &self.matches
    }

    /// The characters of the word.
    pub fn content(&self) -> (r: &String)
        ensures
            r@ == self.chars(),
    {
        &self.content
    }
}

impl Default for Word {
    fn default() -> (w: Self)
        ensures
            w.chars() == Seq::<char>::empty(),
            w.found() == Seq::<Match>::empty(),
    {
        Word::new()
    }
}

} // verus!
