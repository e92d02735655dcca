use srgn::common::strings::decompose_compound_word;
use srgn::common::{is_compound_word, titlecase};
use srgn::instrament::sanitize_for_filename_use;
use srgn::betterletters::macros::sanitize_for_filename_use as sanitize_again;

#[test]
fn test_titlecase() {
    let cases = [
        ("hello", "Hello"),
        ("bItTe", "Bitte"),
        ("dANKE", "Danke"),
        ("übel", "Übel"),
        ("uebel", "Uebel"),
        ("😀", "😀"),
        ("ßuper", "SSuper"),
        ("ẞuperduper", "ẞuperduper"),
        ("WOW!!", "Wow!!"),
        ("ẞß", "ẞß"),
        ("", ""),
    ];
    for (word, expected) in cases {
        assert_eq!(titlecase(word), expected);
    }
}

const WORDS: &[&str] = &["Süßwasser", "schwimm", "Bäder", "Mauer", "Dübel", "Kübel"];

#[test]
fn test_is_compound_word() {
    let cases = [
        ("Süßwasserschwimmbäder", true),
        ("Mauerdübel", true),
        ("Mauerdübelkübel", true),
        ("Not a compound word", false),
        ("Mauer好", false),
        ("Mauerdjieojoid", false),
    ];
    for (word, expected) in cases {
        assert_eq!(is_compound_word(word, &|w| WORDS.contains(&w)), expected, "{word}");
    }
}

#[test]
fn test_decompose_compound_word() {
    let cases: Vec<(&str, Option<Vec<&str>>)> = vec![
        ("Süßwasserschwimmbäder", Some(vec!["Süßwasser", "schwimm", "Bäder"])),
        ("Mauerdübel", Some(vec!["Mauer", "Dübel"])),
        ("Mauerdübelkübel", Some(vec!["Mauer", "Dübel", "Kübel"])),
        ("Not a compound word", None),
        ("Mauer好", None),
        ("Mauerdjieojoid", None),
    ];
    for (word, expected) in cases {
        let expected: Option<Vec<String>> = expected.map(|v| v.into_iter().map(|s| s.to_owned()).collect());
        assert_eq!(decompose_compound_word(word, &|w| WORDS.contains(&w)), expected, "{word}");
    }
}

#[test]
fn sanitizing_file_names() {
    let cases = [
        ("hello world", "hello_world"),
        ("a  b", "a_b"),
        ("__a__", "a"),
        ("x:y<z>\"w/v\\u|t?s*r\nq\rp", "x_y_z_w_v_u_t_s_r_q_p"),
        ("", ""),
        ("???", ""),
        ("a_b", "a_b"),
    ];
    for (input, expected) in cases {
        assert_eq!(sanitize_for_filename_use(input), expected);
        assert_eq!(sanitize_again(input), expected);
    }
}

#[test]
fn decompositions_record_suffixes_tried() {
    let words = ["Haus", "Tür", "Schloss"];
    let is_word = |w: &str| words.contains(&w);
    assert_eq!(
        decompose_compound_word("Haustür", &is_word),
        Some(vec!["Haus".to_owned(), "Tür".to_owned()])
    );
    assert_eq!(
        decompose_compound_word("Haustürschloss", &is_word),
        Some(vec!["Haus".to_owned(), "Tür".to_owned(), "Schloss".to_owned()])
    );
    assert_eq!(decompose_compound_word("Haus", &is_word), None);
    assert_eq!(decompose_compound_word("", &is_word), None);
}

#[test]
fn titlecased_suffixes_may_grow() {
    // Titlecasing `ß` gives `Ss`, so this takes more levels than the word has characters.
    let accept = |w: &str| w == "a" || w == "S";
    assert!(decompose_compound_word("aßßß", &accept).is_some());
}
