use srgn::actions::german as actions_german;
use srgn::betterletters::modules::german::processor as core_processor;
use srgn::betterletters::stages::german::driver as core_driver;
use srgn::modules::german::machine as modules_machine;
use srgn::modules::german::processor as modules_processor;

fn lines_sorted(list: &str) -> bool {
    let original: Vec<&str> = list.lines().collect();
    let mut sorted = original.clone();
    sorted.sort();
    original == sorted
}

fn lines_unique(list: &str) -> bool {
    let original: Vec<&str> = list.lines().collect();
    let mut unique = original.clone();
    unique.sort();
    unique.dedup();
    original == unique
}

#[test]
fn processor_test_words_are_sorted() {
    assert!(lines_sorted(core_processor::VALID_GERMAN_WORDS));
    let original = modules_processor::VALID_GERMAN_WORDS.to_vec();
    let mut sorted = original.clone();
    sorted.sort();
    assert_eq!(original, sorted);
}

#[test]
fn processor_test_words_are_unique() {
    assert!(lines_unique(core_processor::VALID_GERMAN_WORDS));
    let original = modules_processor::VALID_GERMAN_WORDS.to_vec();
    let mut unique = original.clone();
    unique.sort();
    unique.dedup();
    assert_eq!(original, unique);
}

#[test]
fn processor_test_word_list_is_not_filtered() {
    assert!(
        core_processor::VALID_GERMAN_WORDS.lines().any(|word| word.is_ascii()),
        "Looks like you're using a filtered word list containing only special characters."
    );
}

#[test]
fn processor_test_is_valid_on_empty_input() {
    assert!(!core_processor::is_valid("", &core_processor::contained_in_global_word_list));
}

#[test]
fn driver_test_words_are_sorted() {
    assert!(lines_sorted(core_driver::VALID_GERMAN_WORDS));
}

#[test]
fn driver_test_words_are_unique() {
    assert!(lines_unique(core_driver::VALID_GERMAN_WORDS));
}

#[test]
fn driver_test_word_list_is_not_filtered() {
    assert!(
        core_driver::VALID_GERMAN_WORDS.lines().any(|word| word.is_ascii()),
        "Looks like you're using a filtered word list containing only special characters."
    );
}

#[test]
fn driver_test_is_valid_on_empty_input() {
    assert!(!core_driver::is_valid("", &core_driver::contained_in_global_word_list));
    assert!(!actions_german::is_valid(""));
}

#[test]
fn machine_test_words_are_sorted() {
    let original = modules_machine::WORDS.to_vec();
    let mut sorted = original.clone();
    sorted.sort();
    assert_eq!(original, sorted);
}

#[test]
fn machine_test_words_are_unique() {
    let original = modules_machine::WORDS.to_vec();
    let mut unique = original.clone();
    unique.sort();
    unique.dedup();
    assert_eq!(original, unique);
}

#[test]
fn word_lists_agree() {
    let lines: Vec<&str> = core_driver::VALID_GERMAN_WORDS.lines().collect();
    assert_eq!(lines, modules_processor::VALID_GERMAN_WORDS.to_vec());
}

#[test]
fn lookups_find_listed_words_only() {
    for word in core_driver::VALID_GERMAN_WORDS.lines() {
        assert!(core_driver::contained_in_global_word_list(word), "{word}");
        assert!(actions_german::contained_in_global_word_list(word), "{word}");
    }
    for word in ["Maür", "Duebel", "mauer", "Mauerdübel"] {
        assert!(!core_driver::contained_in_global_word_list(word), "{word}");
        assert!(!actions_german::contained_in_global_word_list(word), "{word}");
    }
    // Bisection finds the empty word; the set does not hold it.
    assert!(core_driver::contained_in_global_word_list(""));
    assert!(!actions_german::contained_in_global_word_list(""));
}

#[test]
fn lowercase_compounds_are_split_by_the_word_list() {
    // `süß` and `Wasser` are listed, `süßwasser` itself is not.
    assert!(!actions_german::contained_in_global_word_list("süßwasser"));
    assert!(actions_german::is_valid("süßwasser"));
    assert!(!actions_german::is_valid("süßxyz"));
}
