use srgn::actions::{Action, Deletion, Lower, Replacement, Symbols, Upper};
use srgn::regex::{CaptureGroup, Regex};
use srgn::scope::{ROScope, ROScopes, Scope, ScopeContext};
use srgn::run::lines_to_emit;
use srgn::view::{acted_lines, apply_actions, has_any_in_scope, squeeze};
use srgn::Scoper;

#[test]
fn actions_apply_to_parts_in_scope_only() {
    let input = "Hello -> WORLD -> Yes";
    let regex = Regex::try_from("[A-Z]+".to_owned()).unwrap();
    let scopes = regex.scope(input);
    assert!(has_any_in_scope(&scopes));
    let actions: Vec<Box<dyn Action>> = vec![Box::new(Lower::default()), Box::new(Symbols::default())];
    assert_eq!(apply_actions(&scopes, &actions).unwrap(), "hello -> world -> yes");
    let symbols: Vec<Box<dyn Action>> = vec![Box::new(Symbols::default())];
    let all = Regex::try_from("->".to_owned()).unwrap().scope(input);
    assert_eq!(apply_actions(&all, &symbols).unwrap(), "Hello → WORLD → Yes");
    let none: Vec<Box<dyn Action>> = vec![];
    assert_eq!(apply_actions(&scopes, &none).unwrap(), input);
}

#[test]
fn replacements_see_capture_groups() {
    let regex = Regex::try_from(r"(\w+)@(\w+)".to_owned()).unwrap();
    let scopes = regex.scope("mail me: a@b, or c@d");
    let swap: Vec<Box<dyn Action>> = vec![Box::new(Replacement::try_from("$2 at $1".to_owned()).unwrap())];
    assert_eq!(apply_actions(&scopes, &swap).unwrap(), "mail me: b at a, or d at c");
    let undefined: Vec<Box<dyn Action>> = vec![Box::new(Replacement::try_from("$3".to_owned()).unwrap())];
    assert!(apply_actions(&scopes, &undefined).is_err());
}

#[test]
fn squeezing_keeps_first_of_runs_in_scope() {
    let input = "a   b  c d";
    let scopes = Regex::try_from(" ".to_owned()).unwrap().scope(input);
    let squeezed = squeeze(scopes);
    let plain: Vec<Box<dyn Action>> = vec![];
    assert_eq!(apply_actions(&squeezed, &plain).unwrap(), "a b c d");
    let deleting: Vec<Box<dyn Action>> = vec![Box::new(Deletion::default())];
    assert_eq!(apply_actions(&squeezed, &deleting).unwrap(), "abcd");
    let handmade = ROScopes(vec![ROScope(Scope::Out("x")), ROScope(Scope::Out("y"))]);
    assert!(!has_any_in_scope(&handmade));
    assert_eq!(squeeze(handmade).0.len(), 2);
}

#[test]
fn scoping_by_regex_gives_parts_with_context() {
    let scopes = Regex::try_from(r"[a-zA-Z]+".to_owned()).unwrap().scope("Hello, world!!");
    assert_eq!(scopes.0.len(), 4);
    match &scopes.0[0].0 {
        Scope::In(t, Some(ScopeContext::CaptureGroups(cgs))) => {
            assert_eq!(*t, "Hello");
            assert_eq!(cgs, &vec![(CaptureGroup::Numbered(0), "Hello")]);
        },
        other => panic!("unexpected: {other:?}"),
    }
    assert!(matches!(scopes.0[1].0, Scope::Out(", ")));
    assert!(matches!(scopes.0[2].0, Scope::In("world", Some(_))));
    assert!(matches!(scopes.0[3].0, Scope::Out("!!")));
}

#[test]
fn library_examples() {
    let scopes = Regex::try_from(r"[a-z]+".to_owned()).unwrap().scope("Hello, world!!");
    let wave: Vec<Box<dyn Action>> = vec![Box::new(Replacement::try_from("👋".to_owned()).unwrap())];
    assert_eq!(apply_actions(&scopes, &wave).unwrap(), "H👋, 👋!!");

    let input = "Assume π <= 4 < α -> β, ∀ x ∈ ℝ";
    let all = ROScopes(vec![ROScope(Scope::In(input, None))]);
    let actions: Vec<Box<dyn Action>> = vec![Box::new(Symbols::default()), Box::new(srgn::actions::Upper::default())];
    assert_eq!(apply_actions(&all, &actions).unwrap(), "ASSUME Π ≤ 4 < Α → Β, ∀ X ∈ ℝ");

    let input = "Der Ueberflieger-Kaefer! 🛩️";
    let all = ROScopes(vec![ROScope(Scope::In(input, None))]);
    let german: Vec<Box<dyn Action>> = vec![Box::new(srgn::actions::German::new(true, false))];
    assert_eq!(apply_actions(&all, &german).unwrap(), "Der Überflieger-Käfer! 🛩️");
}

#[test]
fn named_groups_are_variables() {
    let regex = Regex::try_from(r"(?<user>\w+)@(?<host>\w+)".to_owned()).unwrap();
    let scopes = regex.scope("to: ann@box");
    let swap: Vec<Box<dyn Action>> = vec![Box::new(Replacement::try_from("${host}/${user} ($0)".to_owned()).unwrap())];
    assert_eq!(apply_actions(&scopes, &swap).unwrap(), "to: box/ann (ann@box)");
    // Named groups are known by name only.
    let numbered: Vec<Box<dyn Action>> = vec![Box::new(Replacement::try_from("$1".to_owned()).unwrap())];
    assert!(apply_actions(&scopes, &numbered).is_err());
}

#[test]
fn acted_lines_mark_lines_in_scope() {
    let input = "abc\nxyz\nabx";
    let scopes = Regex::try_from("b".to_owned()).unwrap().scope(input);
    let actions: Vec<Box<dyn Action>> = vec![Box::new(Upper::default())];
    let lines = acted_lines(&scopes, &actions).unwrap();
    assert_eq!(
        lines,
        vec![("aBc\n".to_owned(), true), ("xyz\n".to_owned(), false), ("aBx".to_owned(), true)]
    );
    let in_scope: Vec<bool> = lines.iter().map(|(_, b)| *b).collect();
    assert_eq!(lines_to_emit(&in_scope, true), vec![1, 3]);
    assert_eq!(lines_to_emit(&in_scope, false), vec![1, 2, 3]);
}

#[test]
fn test_regex_scoping() {
    let re = Regex::new(fancy_regex::Regex::new(r"Hello (\w+)").unwrap());
    let raw = re.scope_raw("Hello World");
    assert_eq!(raw.len(), 1);
    assert_eq!(raw[0].0, 0..11);
    match &raw[0].1 {
        Some(ScopeContext::CaptureGroups(groups)) => assert_eq!(
            groups,
            &vec![(CaptureGroup::Numbered(0), "Hello World"), (CaptureGroup::Numbered(1), "World")]
        ),
        None => panic!("expected context"),
    }
}

#[test]
fn scoping_that_can_be_done_is_done() {
    let re = Regex::try_from("o".to_owned()).unwrap();
    assert!(re.can_scope("foo"));
    let scopes = re.try_scope("foo").unwrap();
    assert!(has_any_in_scope(&scopes));
    assert_eq!(scopes, re.scope("foo"));
}
