//! The state machine that finds words and the places in them where a special character
//! may be meant: `ae`, `oe`, `ue` (any casing) for an umlaut, `ss` for an eszett.
use vstd::prelude::*;

use super::special_characters::{LetterCasing, SpecialCharacter, Umlaut};
use crate::betterletters::stages::german::words::{char_position, fits, in_order, lemma_in_order_push, Replacement, Word};
use crate::betterletters::stages::{ends_line, is_line, lemma_line_newlines, lemma_newlines_concat, lemma_newlines_free, newlines, nl_free};
use crate::literal::{byte_offset, lemma_offset_monotone, lemma_offset_step, lemma_offset_strict};
use vstd::utf8::{encode_scalar, encode_utf8};
use crate::strs::{alphabetic, is_alphabetic, push_char, push_str, to_chars};

verus! {

/// The state of the machine: outside a word, or inside one, with the special character
/// that the last character may begin.
#[derive(Debug, Clone, Copy)]
pub enum State {
    /// Not within a word.
    Other,
    /// Within a word; the last character may begin the given special character.
    Word(Option<SpecialCharacter>),
}

/// What a transition between two states means for the current word.
#[derive(Debug, Clone, Copy, PartialEq, Eq)]
pub enum Transition {
    /// Entered a word.
    Entered,
    /// Exited a word.
    Exited,
    /// Within two word characters.
    Internal,
    /// Between two non-word characters.
    External,
}

/// The transition between the states `from` and `to`.
pub open spec fn transition_between(from: State, to: State) -> Transition {
    match (from, to) {
        (State::Word(_), State::Other) => Transition::Exited,
        (State::Other, State::Word(_)) => Transition::Entered,
        (State::Word(_), State::Word(_)) => Transition::Internal,
        (State::Other, State::Other) => Transition::External,
    }
}

impl Transition {
    /// The transition between the states `from` and `to`.
    pub fn from_states(from: &State, to: &State) -> (t: Self)
        ensures
            t == transition_between(*from, *to),
    {
        match (from, to) {
            (State::Word(_), State::Other) => Transition::Exited,
            (State::Other, State::Word(_)) => Transition::Entered,
            (State::Word(_), State::Word(_)) => Transition::Internal,
            (State::Other, State::Other) => Transition::External,
        }
    }
}

/// The state after character `c` in a state from which a special character may begin:
/// the special character that `c` may begin, else within a word if `c` is alphabetic.
pub open spec fn state_after_plain(c: char) -> State {
    if c == 'a' {
        State::Word(Some(SpecialCharacter::Umlaut(Umlaut::Ae(LetterCasing::Lower))))
    } else if c == 'A' {
        State::Word(Some(SpecialCharacter::Umlaut(Umlaut::Ae(LetterCasing::Upper))))
    } else if c == 'o' {
        State::Word(Some(SpecialCharacter::Umlaut(Umlaut::Oe(LetterCasing::Lower))))
    } else if c == 'O' {
        State::Word(Some(SpecialCharacter::Umlaut(Umlaut::Oe(LetterCasing::Upper))))
    } else if c == 'u' {
        State::Word(Some(SpecialCharacter::Umlaut(Umlaut::Ue(LetterCasing::Lower))))
    } else if c == 'U' {
        State::Word(Some(SpecialCharacter::Umlaut(Umlaut::Ue(LetterCasing::Upper))))
    } else if c == 's' {
        State::Word(Some(SpecialCharacter::Eszett(LetterCasing::Lower)))
    } else if c == 'S' {
        State::Word(Some(SpecialCharacter::Eszett(LetterCasing::Upper)))
    } else if alphabetic(c) {
        State::Word(None)
    } else {
        State::Other
    }
}

/// The state after character `c` in a state from which a special character may begin.
fn plain_state(c: char) -> (s: State)
    ensures
        s == state_after_plain(c),
{
    if c == 'a' {
        State::Word(Some(SpecialCharacter::Umlaut(Umlaut::Ae(LetterCasing::Lower))))
    } else if c == 'A' {
        State::Word(Some(SpecialCharacter::Umlaut(Umlaut::Ae(LetterCasing::Upper))))
    } else if c == 'o' {
        State::Word(Some(SpecialCharacter::Umlaut(Umlaut::Oe(LetterCasing::Lower))))
    } else if c == 'O' {
        State::Word(Some(SpecialCharacter::Umlaut(Umlaut::Oe(LetterCasing::Upper))))
    } else if c == 'u' {
        State::Word(Some(SpecialCharacter::Umlaut(Umlaut::Ue(LetterCasing::Lower))))
    } else if c == 'U' {
        State::Word(Some(SpecialCharacter::Umlaut(Umlaut::Ue(LetterCasing::Upper))))
    } else if c == 's' {
        State::Word(Some(SpecialCharacter::Eszett(LetterCasing::Lower)))
    } else if c == 'S' {
        State::Word(Some(SpecialCharacter::Eszett(LetterCasing::Upper)))
    } else if is_alphabetic(c) {
        State::Word(None)
    } else {
        State::Other
    }
}

/// The next state after reading `c` in state `st`, and the replacement it completes, if
/// any, for a word of `len` bytes so far (the replacement covers the word's last byte and
/// `c`'s). A pending eszett that `c` does not
/// complete lets `c` begin a special character of its own if `rereads` holds, and ends
/// in a plain word (or outside one) otherwise.
pub open spec fn next_state(st: State, len: int, c: char, rereads: bool) -> (State, Option<Replacement>) {
    match st {
        State::Word(Some(SpecialCharacter::Umlaut(u))) => if c == 'e' || c == 'E' {
            (State::Word(None), Some(Replacement { start: (len - 1) as usize, end: (len + 1) as usize, content: SpecialCharacter::Umlaut(u) }))
        } else {
            (state_after_plain(c), None)
        },
        State::Word(Some(SpecialCharacter::Eszett(casing))) => if c == 's' || c == 'S' {
            (State::Word(None), Some(Replacement { start: (len - 1) as usize, end: (len + 1) as usize, content: SpecialCharacter::Eszett(casing) }))
        } else if rereads {
            (state_after_plain(c), None)
        } else if alphabetic(c) {
            (State::Word(None), None)
        } else {
            (State::Other, None)
        },
        _ => (state_after_plain(c), None),
    }
}

/// The machine as plain values: its state, the characters of the current word and the
/// replacements found in it.
pub type MachineView = (State, Seq<char>, Seq<Replacement>);

/// One step of the machine on character `c`: the word is started afresh when outside a
/// word, the next state is taken, a completed replacement is recorded, and `c` is added
/// to the word when entering or staying within one.
pub open spec fn machine_step(m: MachineView, c: char, rereads: bool) -> (MachineView, Transition) {
    let (st, word0, reps0) = m;
    let (word, reps) = if st is Other {
        (Seq::<char>::empty(), Seq::<Replacement>::empty())
    } else {
        (word0, reps0)
    };
    let (next, rep) = next_state(st, encode_utf8(word).len() as int, c, rereads);
    let reps2 = match rep {
        Some(r) => reps.push(r),
        None => reps,
    };
    let t = transition_between(st, next);
    let word2 = if t == Transition::Entered || t == Transition::Internal {
        word.push(c)
    } else {
        word
    };
    ((next, word2, reps2), t)
}

/// The machine after reading `cs` from machine `m`, one step per character.
pub open spec fn run_machine(m: MachineView, cs: Seq<char>, rereads: bool) -> MachineView
    decreases cs.len(),
{
    if cs.len() == 0 {
        m
    } else {
        machine_step(run_machine(m, cs.drop_last(), rereads), cs.last(), rereads).0
    }
}

/// The longest end of `s` made only of alphabetic characters.
pub open spec fn alphabetic_suffix(s: Seq<char>) -> Seq<char>
    decreases s.len(),
{
    if s.len() == 0 || !alphabetic(s.last()) {
        Seq::empty()
    } else {
        alphabetic_suffix(s.drop_last()).push(s.last())
    }
}

/// The transition that reading a character makes, by whether the character before it
/// (`p`) and the character itself (`q`) are alphabetic.
pub open spec fn expected_transition(p: bool, q: bool) -> Transition {
    if p && q {
        Transition::Internal
    } else if p {
        Transition::Exited
    } else if q {
        Transition::Entered
    } else {
        Transition::External
    }
}

/// Whether the machine `m` is within a word exactly after an alphabetic character, and
/// its word is then the alphabetic end of what was read, `cs`.
pub open spec fn tracks_words(m: MachineView, cs: Seq<char>) -> bool {
    &&& (m.0 is Word) == (cs.len() > 0 && alphabetic(cs.last()))
    &&& m.0 is Word ==> m.1 == alphabetic_suffix(cs)
}

/// A character keeps or puts the machine within a word exactly when it is alphabetic.
proof fn lemma_next_word(st: State, len: int, c: char, rereads: bool)
    ensures
        (next_state(st, len, c, rereads).0 is Word) == alphabetic(c),
{
}

/// One step keeps the machine tracking words, and makes the transition that whether the
/// characters are alphabetic gives.
proof fn lemma_step_tracks(m: MachineView, cs: Seq<char>, c: char, rereads: bool)
    requires
        tracks_words(m, cs),
    ensures
        tracks_words(machine_step(m, c, rereads).0, cs.push(c)),
        machine_step(m, c, rereads).1 == expected_transition(cs.len() > 0 && alphabetic(cs.last()), alphabetic(c)),
{
    let (st, word0, reps0) = m;
    let word = if st is Other { Seq::<char>::empty() } else { word0 };
    lemma_next_word(st, encode_utf8(word).len() as int, c, rereads);
    let s2 = cs.push(c);
    assert(s2.drop_last() =~= cs);
    assert(s2.last() == c);
    if !(st is Word) && alphabetic(c) {
        assert(alphabetic_suffix(cs) =~= Seq::<char>::empty());
        assert(alphabetic_suffix(s2) =~= seq![c]);
        assert(machine_step(m, c, rereads).0.1 =~= seq![c]);
    }
}

/// The machine fresh from `new` (or `rereading`) is within a word exactly after an
/// alphabetic character, and its word is then the longest alphabetic end of what it
/// read; each transition is the one that whether the previous and the current character
/// are alphabetic gives: entering, staying within, leaving a word, or staying outside.
pub proof fn lemma_machine_words(cs: Seq<char>, c: char, rereads: bool)
    ensures
        tracks_words(run_machine((State::Other, Seq::empty(), Seq::empty()), cs, rereads), cs),
        machine_step(run_machine((State::Other, Seq::empty(), Seq::empty()), cs, rereads), c, rereads).1
            == expected_transition(cs.len() > 0 && alphabetic(cs.last()), alphabetic(c)),
        alphabetic(c) ==> machine_step(run_machine((State::Other, Seq::empty(), Seq::empty()), cs, rereads), c, rereads).0.1
            == alphabetic_suffix(cs.push(c)),
    decreases cs.len(),
{
    let init: MachineView = (State::Other, Seq::empty(), Seq::empty());
    if cs.len() > 0 {
        lemma_machine_words(cs.drop_last(), cs.last(), rereads);
        assert(cs.drop_last().push(cs.last()) =~= cs);
        lemma_step_tracks(run_machine(init, cs.drop_last(), rereads), cs.drop_last(), cs.last(), rereads);
    }
    lemma_step_tracks(run_machine(init, cs, rereads), cs, c, rereads);
}

/// Whether the machine's replacements fit its word, in order, and a pending special
/// character was begun by the word's last character, an ASCII one, after which all
/// replacements end.
pub open spec fn machine_wf(m: MachineView) -> bool {
    let (st, w, reps) = m;
    &&& in_order(w, reps)
    &&& st matches State::Word(Some(_)) ==> {
        &&& w.len() >= 1
        &&& (w.last() as u32) < 0x80
        &&& forall|k: int| 0 <= k < reps.len() ==> (#[trigger] reps[k]).end < encode_utf8(w).len()
    }
}

/// An ASCII character takes one byte.
proof fn lemma_ascii_len(c: char)
    requires
        (c as u32) < 0x80,
    ensures
        encode_scalar(c as u32).len() == 1,
{
    reveal_with_fuel(encode_scalar, 1);
}

/// Appending a character adds the length of its encoding.
proof fn lemma_bytes_push(w: Seq<char>, c: char)
    ensures
        encode_utf8(w.push(c)).len() == encode_utf8(w).len() + encode_scalar(c as u32).len(),
        byte_offset(w.push(c), w.len() as int) == encode_utf8(w).len(),
        byte_offset(w.push(c), w.len() as int + 1) == encode_utf8(w.push(c)).len(),
{
    let v = w.push(c);
    lemma_offset_step(v, w.len() as int);
    assert(v.take(w.len() as int) =~= w);
    assert(v.take(w.len() as int + 1) =~= v);
}

/// A replacement that fits a text ends within its encoding.
proof fn lemma_fits_within(w: Seq<char>, r: Replacement)
    requires
        fits(w, r),
    ensures
        r.end <= encode_utf8(w).len(),
{
    let x = choose|k: int| 0 <= k <= w.len() && byte_offset(w, k) == r.end as int;
    lemma_offset_monotone(w, x, w.len() as int);
    assert(w.take(w.len() as int) =~= w);
}

/// Each step of the machine keeps it well-formed.
proof fn lemma_step_wf(m: MachineView, c: char, rereads: bool)
    requires
        machine_wf(m),
        (c == 'e' || c == 'E' || c == 's' || c == 'S') ==> encode_utf8(m.1).len() < usize::MAX,
    ensures
        machine_wf(machine_step(m, c, rereads).0),
{
    let (st, word0, reps0) = m;
    let (word, reps) = if st is Other {
        (Seq::<char>::empty(), Seq::<Replacement>::empty())
    } else {
        (word0, reps0)
    };
    let len = encode_utf8(word).len() as int;
    let (next, rep) = next_state(st, len, c, rereads);
    let ((next2, word2, reps2), t) = machine_step(m, c, rereads);
    assert(in_order(word, reps));
    lemma_bytes_push(word, c);
    lemma_in_order_push(word, reps, c);
    match rep {
        Some(r) => {
            let n = word.len() as int;
            let v = word.push(c);
            assert(st matches State::Word(Some(_)));
            assert(word2 == v && reps2 == reps.push(r));
            lemma_ascii_len(word.last());
            lemma_ascii_len(c);
            lemma_offset_step(word, n - 1);
            assert(word.take(n) =~= word);
            assert(v.take(n - 1) =~= word.take(n - 1));
            assert(r.start == byte_offset(v, n - 1) && r.end == byte_offset(v, n + 1));
            lemma_has_position(v, n - 1, r.start as int);
            lemma_has_position(v, n + 1, r.end as int);
            assert(fits(v, r));
            assert forall|k: int| 0 <= k < reps2.len() implies fits(v, #[trigger] reps2[k]) by {
                if k < reps.len() {
                    assert(reps2[k] == reps[k]);
                }
            }
            assert forall|j: int, k: int| 0 <= j < k < reps2.len() implies (#[trigger] reps2[j]).end <= (#[trigger] reps2[k]).start by {
                if k < reps.len() {
                    assert(reps2[j] == reps[j] && reps2[k] == reps[k]);
                } else {
                    assert(reps2[j] == reps[j]);
                    assert(reps[j].end < len);
                }
            }
        },
        None => {
            assert(reps2 == reps);
            if next2 matches State::Word(Some(_)) {
                assert(word2 == word.push(c));
                assert(c == 'a' || c == 'A' || c == 'o' || c == 'O' || c == 'u' || c == 'U' || c == 's' || c == 'S');
                lemma_ascii_len(c);
                assert forall|k: int| 0 <= k < reps2.len() implies (#[trigger] reps2[k]).end < encode_utf8(word2).len() by {
                    lemma_fits_within(word, reps[k]);
                }
            }
        },
    }
}

/// The byte offset of a character position has a character position.
proof fn lemma_has_position(w: Seq<char>, k: int, b: int)
    requires
        0 <= k <= w.len(),
        byte_offset(w, k) == b,
    ensures
        char_position(w, b) is Some,
{
}

/// The machine that finds words and their potential special characters.
#[derive(Debug)]
pub struct StateMachine {
    state: State,
    word: Word,
    transition: Option<Transition>,
    rereads: bool,
}

impl StateMachine {
    /// The machine as plain values.
    pub closed spec fn view_machine(&self) -> MachineView {
        (self.state, self.word.chars(), self.word.found())
    }

    /// Whether a pending eszett that the next character does not complete lets that
    /// character begin a special character of its own.
    pub closed spec fn rereads_spec(&self) -> bool {
        self.rereads
    }

    /// Whether the machine is well-formed (see [`machine_wf`]).
    pub closed spec fn wf(&self) -> bool {
        machine_wf(self.view_machine())
    }

    /// A machine outside any word, with an empty word. A pending eszett that is not
    /// completed ends in a plain word.
    pub fn new() -> (m: Self)
        ensures
            m.wf(),
            m.view_machine() == (State::Other, Seq::<char>::empty(), Seq::<Replacement>::empty()),
            !m.rereads_spec(),
    {
        StateMachine { state: State::Other, word: Word::new(), transition: None, rereads: false }
    }

    /// A machine outside any word, with an empty word, that reads the character after a
    /// pending eszett afresh (so that in `Sue` the `ue` is found).
    pub fn rereading() -> (m: Self)
        ensures
            m.wf(),
            m.view_machine() == (State::Other, Seq::<char>::empty(), Seq::<Replacement>::empty()),
            m.rereads_spec(),
    {
        StateMachine { state: State::Other, word: Word::new(), transition: None, rereads: true }
    }

    /// The current word.
    pub fn current_word(&self) -> (w: &Word)
        requires
            self.wf(),
        ensures
            w.chars() == self.view_machine().1,
            w.found() == self.view_machine().2,
            in_order(w.chars(), w.found()),
    {
        &self.word
    }

    fn pre_transition(&mut self)
        ensures
            final(self).state == old(self).state,
            final(self).rereads == old(self).rereads,
            old(self).state is Other ==> final(self).word.chars() == Seq::<char>::empty()
                && final(self).word.found() == Seq::<Replacement>::empty(),
            !(old(self).state is Other) ==> final(self).word.chars() == old(self).word.chars()
                && final(self).word.found() == old(self).word.found(),
    {
        if let State::Other = self.state {
            self.word.clear();
        }
    }

    /// Reads one character, giving the transition it made.
    pub fn transition(&mut self, input: &char) -> (t: Transition)
        requires
            old(self).wf(),
            (*input == 'e' || *input == 'E' || *input == 's' || *input == 'S')
                ==> encode_utf8(old(self).view_machine().1).len() < usize::MAX,
        ensures
            final(self).wf(),
            final(self).rereads_spec() == old(self).rereads_spec(),
            (final(self).view_machine(), t) == machine_step(old(self).view_machine(), *input, old(self).rereads_spec()),
    {
        proof {
            lemma_step_wf(self.view_machine(), *input, self.rereads);
        }
        self.pre_transition();
        let c = *input;
        proof {
            let w = self.word.chars();
            if self.state matches State::Word(Some(_)) {
                lemma_offset_strict(w, 0, w.len() as int);
                assert(w.take(w.len() as int) =~= w);
            }
        }
        let next = match self.state {
            State::Word(Some(SpecialCharacter::Umlaut(u))) if c == 'e' || c == 'E' => {
                let pos = self.word.len();
                self.word.add_replacement(pos - 1, pos + 1, SpecialCharacter::Umlaut(u));
                State::Word(None)
            },
            State::Word(Some(SpecialCharacter::Eszett(casing))) if c == 's' || c == 'S' => {
                let pos = self.word.len();
                self.word.add_replacement(pos - 1, pos + 1, SpecialCharacter::Eszett(casing));
                State::Word(None)
            },
            State::Word(Some(SpecialCharacter::Eszett(_))) if !self.rereads => {
                if is_alphabetic(c) {
                    State::Word(None)
                } else {
                    State::Other
                }
            },
            _ => plain_state(c),
        };
        let transition = Transition::from_states(&self.state, &next);
        self.state = next;
        self.transition = Some(transition);
        self.post_transition(input);
        transition
    }

    fn post_transition(&mut self, input: &char)
        requires
            old(self).transition is Some,
        ensures
            final(self).state == old(self).state,
            final(self).rereads == old(self).rereads,
            final(self).transition == old(self).transition,
            final(self).word.found() == old(self).word.found(),
            (old(self).transition == Some(Transition::Entered) || old(self).transition == Some(Transition::Internal))
                ==> final(self).word.chars() == old(self).word.chars().push(*input),
            !(old(self).transition == Some(Transition::Entered) || old(self).transition == Some(Transition::Internal))
                ==> final(self).word.chars() == old(self).word.chars(),
    {
        match self.transition {
            Some(Transition::Entered) | Some(Transition::Internal) => {
                self.word.push(*input);
            },
            _ => {},
        }
    }
}

/// The machine and output after reading `c` while driving (see [`drive_from`]).
#[verifier::opaque]
pub open spec fn drive_step(
    pick: spec_fn(Seq<char>, Seq<Replacement>) -> Seq<char>,
    rereads: bool,
    m: MachineView,
    out: Seq<char>,
    c: char,
) -> (MachineView, Seq<char>) {
    let (m2, t) = machine_step(m, c, rereads);
    let out2 = match t {
        Transition::External => out.push(c),
        Transition::Exited => out + pick(m2.1, m2.2).push(c),
        _ => out,
    };
    (m2, out2)
}

/// What the text driven through the machine becomes, from machine `m` and output `out`
/// on: characters outside words are kept, and each word, once left, is replaced by
/// what `pick` makes of it and its replacements, followed by the character that ended
/// it.
pub open spec fn drive_from(
    pick: spec_fn(Seq<char>, Seq<Replacement>) -> Seq<char>,
    rereads: bool,
    m: MachineView,
    out: Seq<char>,
    rest: Seq<char>,
) -> Seq<char>
    decreases rest.len(),
{
    if rest.len() == 0 {
        out
    } else {
        let (m2, out2) = drive_step(pick, rereads, m, out, rest[0]);
        drive_from(pick, rereads, m2, out2, rest.drop_first())
    }
}

/// The text `input` driven through a fresh machine (rereading after a pending eszett as
/// `rereads` says), with a NUL character appended so that the last word is left too,
/// and the last character of the output dropped.
pub open spec fn driven(pick: spec_fn(Seq<char>, Seq<Replacement>) -> Seq<char>, rereads: bool, input: Seq<char>) -> Seq<char> {
    let o = drive_from(pick, rereads, (State::Other, Seq::empty(), Seq::empty()), Seq::empty(), input.push('\0'));
    if o.len() > 0 {
        o.drop_last()
    } else {
        o
    }
}

/// Whether `x` may begin an umlaut spelling (`a`, `o` or `u`, in any casing).
pub open spec fn umlaut_base(x: char) -> bool {
    x == 'a' || x == 'A' || x == 'o' || x == 'O' || x == 'u' || x == 'U'
}

/// Whether `x` then `y` spell a special character: `ae`, `oe`, `ue` or `ss`, in any
/// casing.
pub open spec fn spells_special(x: char, y: char) -> bool {
    ||| umlaut_base(x) && (y == 'e' || y == 'E')
    ||| (x == 's' || x == 'S') && (y == 's' || y == 'S')
}

/// Whether no two neighbouring characters of `s` spell a special character.
pub open spec fn free_of_spellings(s: Seq<char>) -> bool {
    forall|i: int| 0 <= i < s.len() - 1 ==> !spells_special(#[trigger] s[i], s[i + 1])
}

/// What holds while driving text without spellings of special characters: no
/// replacement has been found, the output and the current word make up what was read,
/// and a pending special character was begun by the last character read.
pub open spec fn untouched_so_far(m: MachineView, out: Seq<char>, read: Seq<char>) -> bool {
    let (st, word, reps) = m;
    &&& reps.len() == 0
    &&& st is Other ==> out == read
    &&& st is Word ==> out + word == read
    &&& st matches State::Word(Some(SpecialCharacter::Umlaut(_))) ==> read.len() > 0 && umlaut_base(read.last())
    &&& st matches State::Word(Some(SpecialCharacter::Eszett(_))) ==> read.len() > 0 && (read.last() == 's' || read.last() == 'S')
}

proof fn lemma_step_untouched(
    pick: spec_fn(Seq<char>, Seq<Replacement>) -> Seq<char>,
    rereads: bool,
    m: MachineView,
    out: Seq<char>,
    read: Seq<char>,
    c: char,
)
    requires
        forall|w: Seq<char>| #[trigger] pick(w, Seq::<Replacement>::empty()) == w,
        untouched_so_far(m, out, read),
        read.len() > 0 ==> !spells_special(read.last(), c),
    ensures
        untouched_so_far(drive_step(pick, rereads, m, out, c).0, drive_step(pick, rereads, m, out, c).1, read.push(c)),
        c == '\0' ==> drive_step(pick, rereads, m, out, c).0.0 is Other,
{
    reveal(drive_step);
    let (m2, t) = machine_step(m, c, rereads);
    let read2 = read.push(c);
    assert(m2.2.len() == 0);
    assert(m2.2 =~= Seq::<Replacement>::empty());
    match t {
        Transition::Exited => {
            assert(pick(m2.1, Seq::<Replacement>::empty()) == m2.1);
            assert(out + m2.1.push(c) =~= read2);
        },
        Transition::Entered => {
            assert(out + seq![c] =~= read2);
        },
        Transition::Internal => {
            assert(out + m.1.push(c) =~= read2);
        },
        Transition::External => {},
    }
}

proof fn lemma_drive_untouched(
    pick: spec_fn(Seq<char>, Seq<Replacement>) -> Seq<char>,
    rereads: bool,
    m: MachineView,
    out: Seq<char>,
    read: Seq<char>,
    rest: Seq<char>,
)
    requires
        forall|w: Seq<char>| #[trigger] pick(w, Seq::<Replacement>::empty()) == w,
        untouched_so_far(m, out, read),
        free_of_spellings(read + rest),
        rest.len() > 0,
        rest.last() == '\0',
    ensures
        drive_from(pick, rereads, m, out, rest) == read + rest,
    decreases rest.len(),
{
    let c = rest[0];
    let (m2, out2) = drive_step(pick, rereads, m, out, c);
    let read2 = read.push(c);
    if read.len() > 0 {
        assert((read + rest)[read.len() - 1] == read.last());
        assert((read + rest)[read.len() as int] == c);
    }
    lemma_step_untouched(pick, rereads, m, out, read, c);
    assert(drive_from(pick, rereads, m, out, rest) == drive_from(pick, rereads, m2, out2, rest.drop_first()));
    if rest.len() == 1 {
        assert(rest.drop_first() =~= Seq::<char>::empty());
        assert(read2 =~= read + rest);
    } else {
        assert(read2 + rest.drop_first() =~= read + rest);
        assert(rest.drop_first().last() == '\0');
        lemma_drive_untouched(pick, rereads, m2, out2, read2, rest.drop_first());
    }
}

/// Text in which no two neighbouring characters spell a special character (`ae`, `oe`,
/// `ue`, `ss`, in any casing) comes out of the machine unchanged, whatever the words are
/// replaced by where replacements were found: other characters are left untouched.
pub proof fn lemma_driven_untouched(
    pick: spec_fn(Seq<char>, Seq<Replacement>) -> Seq<char>,
    rereads: bool,
    input: Seq<char>,
)
    requires
        forall|w: Seq<char>| #[trigger] pick(w, Seq::<Replacement>::empty()) == w,
        free_of_spellings(input),
    ensures
        driven(pick, rereads, input) == input,
{
    let all = input.push('\0');
    assert forall|i: int| 0 <= i < all.len() - 1 implies !spells_special(#[trigger] all[i], all[i + 1]) by {
        if i < input.len() - 1 {
            assert(all[i] == input[i] && all[i + 1] == input[i + 1]);
        } else {
            assert(all[i + 1] == '\0');
        }
    }
    assert(Seq::<char>::empty() + all =~= all);
    lemma_drive_untouched(pick, rereads, (State::Other, Seq::empty(), Seq::empty()), Seq::empty(), Seq::empty(), all);
    assert(all.drop_last() =~= input);
}

/// Whether `pick` keeps texts without newlines free of them, and makes something of
/// every word.
pub open spec fn picks_within_lines(pick: spec_fn(Seq<char>, Seq<Replacement>) -> Seq<char>) -> bool {
    forall|w: Seq<char>, reps: Seq<Replacement>|
        nl_free(w) ==> nl_free(#[trigger] pick(w, reps)) && (w.len() > 0 ==> pick(w, reps).len() > 0)
}

/// What holds of the lines while driving text: the output has as many newlines as what
/// was read, a word being read is not empty and has no newline, and outside a word the
/// output ends with the last character read.
pub open spec fn lines_so_far(m: MachineView, out: Seq<char>, read: Seq<char>) -> bool {
    let (st, word, reps) = m;
    &&& newlines(out) == newlines(read)
    &&& st is Word ==> word.len() > 0 && nl_free(word) && read.len() > 0 && read.last() != '\n'
    &&& st is Other && read.len() > 0 ==> out.len() > 0 && out.last() == read.last()
}

/// The machine and output after driving `rest` from machine `m` and output `out`.
pub open spec fn drive_state(
    pick: spec_fn(Seq<char>, Seq<Replacement>) -> Seq<char>,
    rereads: bool,
    m: MachineView,
    out: Seq<char>,
    rest: Seq<char>,
) -> (MachineView, Seq<char>)
    decreases rest.len(),
{
    if rest.len() == 0 {
        (m, out)
    } else {
        let (m2, out2) = drive_step(pick, rereads, m, out, rest[0]);
        drive_state(pick, rereads, m2, out2, rest.drop_first())
    }
}

/// Driving `a` then `b` is driving `b` from where driving `a` left off.
proof fn lemma_drive_split(
    pick: spec_fn(Seq<char>, Seq<Replacement>) -> Seq<char>,
    rereads: bool,
    m: MachineView,
    out: Seq<char>,
    a: Seq<char>,
    b: Seq<char>,
)
    ensures
        drive_from(pick, rereads, m, out, a + b) == drive_from(
            pick,
            rereads,
            drive_state(pick, rereads, m, out, a).0,
            drive_state(pick, rereads, m, out, a).1,
            b,
        ),
    decreases a.len(),
{
    if a.len() == 0 {
        assert(a + b =~= b);
    } else {
        let (m2, out2) = drive_step(pick, rereads, m, out, a[0]);
        assert((a + b)[0] == a[0]);
        assert((a + b).drop_first() =~= a.drop_first() + b);
        lemma_drive_split(pick, rereads, m2, out2, a.drop_first(), b);
    }
}

/// A character that keeps or puts the machine within a word is no newline.
proof fn lemma_word_char(st: State, len: int, c: char, rereads: bool)
    requires
        next_state(st, len, c, rereads).0 is Word,
    ensures
        c != '\n',
{
}

/// Appending a character adds a newline exactly when it is one.
proof fn lemma_newlines_push(s: Seq<char>, c: char)
    ensures
        newlines(s.push(c)) == newlines(s) + if c == '\n' {
            1nat
        } else {
            0nat
        },
{
    assert(s.push(c).drop_last() =~= s);
}

proof fn lemma_step_lines(
    pick: spec_fn(Seq<char>, Seq<Replacement>) -> Seq<char>,
    rereads: bool,
    m: MachineView,
    out: Seq<char>,
    read: Seq<char>,
    c: char,
)
    requires
        picks_within_lines(pick),
        lines_so_far(m, out, read),
    ensures
        lines_so_far(drive_step(pick, rereads, m, out, c).0, drive_step(pick, rereads, m, out, c).1, read.push(c)),
{
    reveal(drive_step);
    let (st, word0, reps0) = m;
    let (word, reps) = if st is Other {
        (Seq::<char>::empty(), Seq::<Replacement>::empty())
    } else {
        (word0, reps0)
    };
    let (next, rep) = next_state(st, encode_utf8(word).len() as int, c, rereads);
    let (m2, t) = machine_step(m, c, rereads);
    let read2 = read.push(c);
    lemma_newlines_push(read, c);
    assert(read2.last() == c);
    match t {
        Transition::External => {
            lemma_newlines_push(out, c);
        },
        Transition::Exited => {
            let p = pick(m2.1, m2.2);
            assert(m2.1 == word0);
            lemma_newlines_free(p);
            lemma_newlines_concat(out, p.push(c));
            lemma_newlines_push(p, c);
            assert((out + p.push(c)).last() == c);
        },
        _ => {
            lemma_word_char(st, encode_utf8(word).len() as int, c, rereads);
            assert(m2.1 == word.push(c));
            assert forall|i: int| 0 <= i < word.push(c).len() implies word.push(c)[i] != '\n' by {
                if i < word.len() {
                    assert(word.push(c)[i] == word[i]);
                }
            }
        },
    }
}

/// Driving on keeps what holds of the lines.
proof fn lemma_run_lines(
    pick: spec_fn(Seq<char>, Seq<Replacement>) -> Seq<char>,
    rereads: bool,
    m: MachineView,
    out: Seq<char>,
    read: Seq<char>,
    rest: Seq<char>,
)
    requires
        picks_within_lines(pick),
        lines_so_far(m, out, read),
    ensures
        lines_so_far(drive_state(pick, rereads, m, out, rest).0, drive_state(pick, rereads, m, out, rest).1, read + rest),
    decreases rest.len(),
{
    if rest.len() == 0 {
        assert(read + rest =~= read);
    } else {
        let (m2, out2) = drive_step(pick, rereads, m, out, rest[0]);
        lemma_step_lines(pick, rereads, m, out, read, rest[0]);
        lemma_run_lines(pick, rereads, m2, out2, read.push(rest[0]), rest.drop_first());
        assert(read.push(rest[0]) + rest.drop_first() =~= read + rest);
    }
}

/// A line driven through the machine comes out as a line, ending in a newline exactly
/// when it did, where words are replaced by texts without newlines (and words that are
/// not empty by texts that are not).
pub proof fn lemma_driven_keeps_lines(
    pick: spec_fn(Seq<char>, Seq<Replacement>) -> Seq<char>,
    rereads: bool,
    x: Seq<char>,
)
    requires
        picks_within_lines(pick),
        is_line(x),
    ensures
        is_line(driven(pick, rereads, x)),
        ends_line(driven(pick, rereads, x)) == ends_line(x),
{
    let init: MachineView = (State::Other, Seq::empty(), Seq::empty());
    let e = Seq::<char>::empty();
    assert(x.push('\0') =~= x + seq!['\0']);
    lemma_drive_split(pick, rereads, init, e, x, seq!['\0']);
    assert(e + x =~= x);
    lemma_run_lines(pick, rereads, init, e, e, x);
    let (m, out) = drive_state(pick, rereads, init, e, x);
    reveal(drive_step);
    let (m2, t) = machine_step(m, '\0', rereads);
    let (_, o) = drive_step(pick, rereads, m, out, '\0');
    assert(seq!['\0'].drop_first() =~= Seq::<char>::empty());
    assert(seq!['\0'][0] == '\0');
    assert(drive_from(pick, rereads, drive_step(pick, rereads, m, out, '\0').0, o, Seq::<char>::empty()) == o);
    assert(drive_from(pick, rereads, m, out, seq!['\0']) == o);
    assert(m2.0 is Other);
    lemma_line_newlines(x);
    let d = driven(pick, rereads, x);
    if t == Transition::Exited {
        let p = pick(m2.1, m2.2);
        assert(m2.1 == m.1);
        assert(o == out + p.push('\0'));
        assert(o.drop_last() =~= out + p);
        lemma_newlines_free(p);
        lemma_newlines_concat(out, p);
        assert(d == out + p);
        assert(p.len() > 0);
        assert(d.last() == p.last());
        assert(ends_line(x) ==> false);
    } else {
        assert(t == Transition::External);
        assert(o == out.push('\0'));
        assert(o.drop_last() =~= out);
        assert(d == out);
    }
    lemma_line_newlines(d);
}

/// Drives `input` through a fresh machine, replacing each word by what `pick` makes of
/// it and its replacements (see [`driven`]).
pub(crate) fn drive<F: Fn(&str, &Vec<Replacement>) -> String>(
    input: &str,
    rereads: bool,
    pick: &F,
    Ghost(spec_pick): Ghost<spec_fn(Seq<char>, Seq<Replacement>) -> Seq<char>>,
) -> (r: String)
    requires
        forall|w: &str, reps: &Vec<Replacement>| in_order(w@, reps@) ==> #[trigger] pick.requires((w, reps)),
        forall|w: &str, reps: &Vec<Replacement>, s: String| #[trigger] pick.ensures((w, reps), s) ==> s@ == spec_pick(w@, reps@),
    ensures
        r@ == driven(spec_pick, rereads, input@),
{
    let mut cs = to_chars(input);
    cs.push('\0');
    let n = cs.len();
    let mut machine = if rereads {
        StateMachine::rereading()
    } else {
        StateMachine::new()
    };
    let mut output = String::new();
    let mut i: usize = 0;
    let ghost all = input@.push('\0');
    let total = input.as_bytes().len();
    proof {
        assert(cs@ =~= all);
        assert(all.take(0) =~= Seq::<char>::empty());
        assert(all.skip(0) =~= all);
    }
    while i < n
        invariant
            i <= n,
            n == cs@.len(),
            cs@ == all,
            all == input@.push('\0'),
            machine.wf(),
            machine.rereads_spec() == rereads,
            encode_utf8(machine.view_machine().1).len() <= byte_offset(all, i as int),
            encode_utf8(input@).len() <= usize::MAX,
            forall|w: &str, reps: &Vec<Replacement>| in_order(w@, reps@) ==> #[trigger] pick.requires((w, reps)),
            forall|w: &str, reps: &Vec<Replacement>, s: String| #[trigger] pick.ensures((w, reps), s) ==> s@ == spec_pick(w@, reps@),
            drive_from(spec_pick, rereads, machine.view_machine(), output@, all.skip(i as int))
                == drive_from(spec_pick, rereads, (State::Other, Seq::empty(), Seq::empty()), Seq::empty(), all),
        decreases n - i,
    {
        let c = cs[i];
        let ghost rest = all.skip(i as int);
        proof {
            assert(rest[0] == c);
            assert(rest.drop_first() =~= all.skip(i + 1));
            reveal(drive_step);
            let w0 = machine.view_machine().1;
            lemma_offset_step(all, i as int);
            crate::literal::lemma_scalar_len(c);
            if i + 1 < n {
                lemma_offset_monotone(all, i + 1, n - 1);
                assert(all.take(n - 1) =~= input@);
            } else {
                assert(c == '\0');
            }
            let (st, w1, reps1) = machine.view_machine();
            let base = if st is Other { Seq::<char>::empty() } else { w1 };
            lemma_bytes_push(base, c);
        }
        let t = machine.transition(&c);
        match t {
            Transition::External => {
                push_char(&mut output, c);
            },
            Transition::Exited => {
                let word = machine.current_word();
                let chosen = pick(word.content(), word.replacements());
                push_str(&mut output, chosen.as_str());
                push_char(&mut output, c);
            },
            _ => {},
        }
        i = i + 1;
    }
    proof {
        assert(all.skip(n as int) =~= Seq::<char>::empty());
    }
    if !output.as_str().is_empty() {
        output = pop_last(output);
    }
    output
}

/// `s` without its last character.
fn pop_last(s: String) -> (r: String)
    requires
        s@.len() > 0,
    ensures
        r@ == s@.drop_last(),
{
    let cs = to_chars(s.as_str());
    let n = cs.len();
    crate::strs::from_chars(vstd::slice::slice_subrange(cs.as_slice(), 0, n - 1))
}

} // verus!
