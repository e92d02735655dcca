use srgn::betterletters::modules::german::machine::{StateMachine, Transition};
use srgn::actions::{Action, German};
use srgn::betterletters::modules::german::processor::German as CoreGerman;
use srgn::betterletters::stages::german::driver::{self as core_driver, GermanStage};
use srgn::betterletters::stages::german::words::{apply_replacements, Replacement, WordCasing, WordCasingError};
use srgn::betterletters::stages::Stage;
use srgn::betterletters::modules::german::special_characters::{LetterCasing, SpecialCharacter, Umlaut};
use srgn::modules::german::German as ListGerman;
use srgn::modules::TextProcessor;

#[test]
fn german_action_substitutions() {
    let cases = [
        ("Dübel", "Dübel"),
        ("\0Kuebel", "\0Kübel"),
        ("\0Duebel\0", "\0Dübel\0"),
        ("🤩Duebel", "🤩Dübel"),
        ("🤩Duebel🤐", "🤩Dübel🤐"),
        ("Abenteuer sind toll!", "Abenteuer sind toll!"),
        ("Koeffizient", "Koeffizient"),
        ("kongruent", "kongruent"),
        ("Ich mag Aepfel, aber nicht Aerger.", "Ich mag Äpfel, aber nicht Ärger."),
        ("Wer mag Aepfel?!", "Wer mag Äpfel?!"),
        ("Was sind aepfel?", "Was sind aepfel?"),
        ("Wir schliessen nicht ab.", "Wir schließen nicht ab."),
        ("Suess!", "Süß!"),
        ("Oel ist ein wichtiger Bestandteil von Oel.", "Öl ist ein wichtiger Bestandteil von Öl."),
    ];
    let action = German::default();
    for (input, expected) in cases {
        assert_eq!(action.act(input), expected, "input: {input:?}");
    }
}

#[test]
fn german_action_documented_cases() {
    let action = German::default();
    let f = |word: &str| -> String { action.act(word) };
    assert_eq!(f("Gruess Gott!"), "Grüß Gott!");
    assert_eq!(f("Du Suesswassertagtraeumer!"), "Du Süßwassertagträumer!");
    for word in ["Aerodynamik", "Israel", "Schufaeintrag", "Koeffizient", "Dominoeffekt", "Poet", "Abenteuer", "Mauer", "Steuerung"] {
        assert_eq!(f(word), word);
    }
    assert_eq!(f("aEpFeL"), "aEpFeL");
    assert_eq!(f("AePfEl"), "ÄPfEl");
    assert_eq!(f("Voll suess!"), "Voll süß!");
    assert_eq!(f("Suesses Eis!"), "Süßes Eis!");
    assert_eq!(f("Aepfel"), "Äpfel");
    assert_eq!(f("aepfel"), "aepfel");
    assert_eq!(f("AEPFEL"), "ÄPFEL");
    assert_eq!(f("SCHLIESSEN"), "SCHLIEẞEN");
    assert_eq!(f("fUeLleN"), "fÜLleN");
    assert_eq!(f("FuElLEn"), "FülLEn");
    assert_eq!(f("\0Schoener    你好 Satz... 👋🏻\r\n\n"), "\0Schöner    你好 Satz... 👋🏻\r\n\n");
    for (input, output) in [("Busse", "Buße"), ("Masse", "Maße")] {
        assert_eq!(f(input), output);
    }
}

#[test]
fn german_action_casing() {
    let action = German::default();
    assert_eq!(action.act("Ich mag AEPFEL!! 😍"), "Ich mag ÄPFEL!! 😍");
    assert_eq!(action.act("WARUM SCHLIESSEN WIR NICHT AB?"), "WARUM SCHLIEẞEN WIR NICHT AB?");
}

#[test]
fn german_action_options() {
    let mut action = German::default();
    assert_eq!(action.act("Busse"), "Buße");
    action.prefer_original();
    assert_eq!(action.act("Busse"), "Busse");
    action.prefer_replacement().naive();
    assert_eq!(action.act("Mauer"), "Maür");
    action.sophisticated();
    assert_eq!(action.act("Mauer"), "Mauer");
    assert_eq!(German::new(true, true).act("Mauer"), "Mauer");
}

#[test]
fn german_stage_substitutions() {
    let f = |word: &str| -> String { GermanStage.substitute(word).unwrap() };
    assert_eq!(f("Gruess Gott!"), "Grüß Gott!");
    assert_eq!(f("Voll suess!"), "Voll süß!");
    assert_eq!(f("Aepfel"), "Äpfel");
    assert_eq!(f("aepfel"), "aepfel");
    assert_eq!(f("AEPFEL"), "ÄPFEL");
    assert_eq!(f("SCHLIESSEN"), "SCHLIEẞEN");
    assert_eq!(f("Masse"), "Maße");
    assert_eq!(f("Busse"), "Buße");
    for word in ["Aerodynamik", "Israel", "Koeffizient", "Poet", "Abenteuer", "Mauer", "Steuerung"] {
        assert_eq!(f(word), word);
    }
    assert_eq!(f("\0Schoener    你好 Satz... 👋🏻\r\n\n"), "\0Schöner    你好 Satz... 👋🏻\r\n\n");
    assert_eq!(f("aEpFeL"), "aEpFeL");
    assert_eq!(f("AePfEl"), "ÄPfEl");
    assert_eq!(f("Suesses Eis!"), "Süßes Eis!");
    assert_eq!(f("fUeLleN"), "fÜLleN");
    assert_eq!(f("FuElLEn"), "FülLEn");
}

#[test]
fn german_stage_compound_words() {
    let f = |word: &str| -> String { GermanStage.substitute(word).unwrap() };
    assert_eq!(f("Suesswasserbaeder"), "Süßwasserbäder");
    assert_eq!(f("Du Suesswassertagtraeumer!"), "Du Süßwassertagträumer!");
    assert!(core_driver::is_valid("Mauerdübel", &core_driver::contained_in_global_word_list));
    assert!(!core_driver::is_valid("Maürdübel", &core_driver::contained_in_global_word_list));
}

#[test]
fn german_processors_substitute_in_place() {
    let mut input = "Oel und Gruess!".to_owned();
    assert!(CoreGerman.process(&mut input).is_ok());
    assert_eq!(input, "Öl und Grüß!");
    // After a pending eszett, these machines read on in a plain word: the `ue` after
    // the `S` is not found.
    let mut input = "Suess".to_owned();
    assert!(CoreGerman.process(&mut input).is_ok());
    assert_eq!(input, "Suess");
    let mut input = "Ich mag Aepfel, aber nicht Aerger.".to_owned();
    assert!(ListGerman.process(&mut input).is_ok());
    assert_eq!(input, "Ich mag Äpfel, aber nicht Ärger.");
}

#[test]
fn word_casing_of_strings() {
    assert_eq!(WordCasing::try_from("hello"), Ok(WordCasing::AllLowercase));
    assert_eq!(WordCasing::try_from("bItTe"), Ok(WordCasing::Mixed));
    assert_eq!(WordCasing::try_from("dANKE"), Ok(WordCasing::Mixed));
    assert_eq!(WordCasing::try_from("übel"), Ok(WordCasing::AllLowercase));
    assert_eq!(WordCasing::try_from("Hello"), Ok(WordCasing::Titlecase));
    assert_eq!(WordCasing::try_from("SCREAMING"), Ok(WordCasing::AllUppercase));
    assert_eq!(WordCasing::try_from("ẞß"), Ok(WordCasing::Titlecase));
    assert_eq!(WordCasing::try_from("😀"), Err(WordCasingError::UndecidableCasing));
    assert_eq!(WordCasing::try_from("WOW!!"), Err(WordCasingError::UndecidableCasing));
    assert_eq!(WordCasing::try_from(""), Err(WordCasingError::EmptyString));
}

#[test]
fn replacements_are_made_from_the_back() {
    let mut s = "Maeusse".to_owned();
    let reps = vec![
        Replacement::new(1, 3, SpecialCharacter::Umlaut(Umlaut::Ae(LetterCasing::Lower))),
        Replacement::new(4, 6, SpecialCharacter::Eszett(LetterCasing::Lower)),
    ];
    apply_replacements(&mut s, reps);
    assert_eq!(s, "Mäuße");
}

#[test]
fn text_without_spellings_is_untouched() {
    let inputs = ["Hallo Welt! 👋 Mauer? nein.\n", "Ein Haus, ein Baum.", "", "\0 \r\n", "Seife Kai Boot"];
    for input in inputs {
        assert_eq!(German::default().act(input), input);
        assert_eq!(German::new(true, true).act(input), input);
        assert_eq!(GermanStage.substitute(input).unwrap(), input);
        let mut s = input.to_owned();
        assert!(CoreGerman.process(&mut s).is_ok());
        assert_eq!(s, input);
        let mut s = input.to_owned();
        assert!(ListGerman.process(&mut s).is_ok());
        assert_eq!(s, input);
    }
}

#[test]
fn spellings_after_special_characters_are_found() {
    // The `ss` comes after `ü`, two bytes long: its place is counted in bytes.
    assert_eq!(German::default().act("Grüss Gott!"), "Grüß Gott!");
    assert_eq!(GermanStage.substitute("Grüss Gott!").unwrap(), "Grüß Gott!");
}

#[test]
fn machine_transitions_follow_alphabetic_characters() {
    let mut m = StateMachine::new();
    let expected = [
        ('a', Transition::Entered),
        ('b', Transition::Internal),
        (' ', Transition::Exited),
        ('!', Transition::External),
        ('Ü', Transition::Entered),
    ];
    for (c, t) in expected {
        assert_eq!(m.transition(&c), t);
    }
    assert_eq!(m.current_word().content(), "Ü");
    assert_eq!(m.transition(&'x'), Transition::Internal);
    assert_eq!(m.current_word().content(), "Üx");
}

#[test]
fn word_list_lookup_finds_exactly_its_lines() {
    assert!(srgn::actions::german::contained_in_global_word_list("Mauer"));
    assert!(srgn::actions::german::contained_in_global_word_list("süß"));
    assert!(!srgn::actions::german::contained_in_global_word_list("Maue"));
    assert!(!srgn::actions::german::contained_in_global_word_list(""));
    assert!(!srgn::actions::german::contained_in_global_word_list("Mauer\n"));
}
