use srgn::find::{keeps, FileType};
use srgn::actions::{Action, ActionError, ReplacementError};
use srgn::actions::replace::variables::VariableExpressionError;
use srgn::literal::LiteralError;
use srgn::options::{
    assemble_common_actions, get_general_scoper, CommonAction, ComposableActions, GeneralScoper, GermanOptions,
    ScoperBuildError, StandaloneAction, StandaloneActions,
};
use srgn::regex::CaptureGroup;
use srgn::run::{
    choose_input, is_search_mode, level_index, lines_to_emit, path_write, record_entry, scope_gate, walk_verdict,
    ApplicationError, InputKind, PathOutcome, PathWrite, RunFailure, WalkAbort, WalkPolicy, WalkStep, WalkTally,
};
use srgn::Scoper;

use log::LevelFilter;
use std::str::FromStr;

#[test]
fn test_level_filter_from_env_and_verbosity() {
    let available: Vec<LevelFilter> = LevelFilter::iter().collect();
    let from_env = |env_value: Option<&str>| -> LevelFilter {
        match env_value {
            // The default of the logger when the variable is not set.
            None => LevelFilter::Error,
            Some(v) => LevelFilter::from_str(v).unwrap(),
        }
    };
    for (env_value, additional_verbosity, expected) in [
        (None, 0, LevelFilter::Error),
        (None, 1, LevelFilter::Warn),
        (None, 2, LevelFilter::Info),
        (None, 3, LevelFilter::Debug),
        (None, 4, LevelFilter::Trace),
        (None, 5, LevelFilter::Trace),
        (None, 128, LevelFilter::Trace),
        (Some("off"), 0, LevelFilter::Off),
        (Some("off"), 1, LevelFilter::Error),
        (Some("off"), 2, LevelFilter::Warn),
        (Some("off"), 3, LevelFilter::Info),
        (Some("off"), 4, LevelFilter::Debug),
        (Some("off"), 5, LevelFilter::Trace),
        (Some("off"), 6, LevelFilter::Trace),
        (Some("off"), 128, LevelFilter::Trace),
        (Some("error"), 0, LevelFilter::Error),
        (Some("error"), 1, LevelFilter::Warn),
        (Some("error"), 2, LevelFilter::Info),
        (Some("error"), 3, LevelFilter::Debug),
        (Some("error"), 4, LevelFilter::Trace),
        (Some("error"), 5, LevelFilter::Trace),
        (Some("error"), 128, LevelFilter::Trace),
        (Some("warn"), 0, LevelFilter::Warn),
        (Some("warn"), 1, LevelFilter::Info),
        (Some("warn"), 2, LevelFilter::Debug),
        (Some("warn"), 3, LevelFilter::Trace),
        (Some("warn"), 4, LevelFilter::Trace),
        (Some("warn"), 128, LevelFilter::Trace),
        (Some("info"), 0, LevelFilter::Info),
        (Some("info"), 1, LevelFilter::Debug),
        (Some("info"), 2, LevelFilter::Trace),
        (Some("info"), 3, LevelFilter::Trace),
        (Some("info"), 128, LevelFilter::Trace),
        (Some("debug"), 0, LevelFilter::Debug),
        (Some("debug"), 1, LevelFilter::Trace),
        (Some("debug"), 2, LevelFilter::Trace),
        (Some("debug"), 128, LevelFilter::Trace),
        (Some("trace"), 0, LevelFilter::Trace),
        (Some("trace"), 1, LevelFilter::Trace),
        (Some("trace"), 128, LevelFilter::Trace),
    ] {
        let default = from_env(env_value);
        let i = level_index(default as usize, additional_verbosity, available.len());
        assert_eq!(available[i], expected, "{env_value:?} {additional_verbosity}");
    }
}

#[test]
fn input_is_chosen_by_precedence() {
    assert_eq!(choose_input(true, false, false), InputKind::Stdin);
    assert_eq!(choose_input(true, true, true), InputKind::Stdin);
    assert_eq!(choose_input(false, true, true), InputKind::WalkGlob);
    assert_eq!(choose_input(false, false, true), InputKind::WalkLanguage);
    assert_eq!(choose_input(false, false, false), InputKind::Stdin);
    assert!(is_search_mode(true, true));
    assert!(!is_search_mode(false, true));
    assert!(!is_search_mode(true, false));
}

fn policy(search_mode: bool, sorted: bool, fail_any: bool) -> WalkPolicy {
    WalkPolicy { fail_any, fail_none: false, fail_no_files: false, search_mode, sorted }
}

#[test]
fn walk_entries_are_tallied() {
    let t = WalkTally { seen: 0, processed: 0 };
    let p = policy(false, true, false);
    let (t, s) = record_entry(t, PathOutcome::Processed, p);
    assert_eq!((t.seen, t.processed, s), (1, 1, WalkStep::Continue));
    let (t, s) = record_entry(t, PathOutcome::NotAFile, p);
    assert_eq!((t.seen, t.processed, s), (1, 1, WalkStep::Continue));
    let (t, s) = record_entry(t, PathOutcome::InvalidFile, p);
    assert_eq!((t.seen, t.processed, s), (1, 1, WalkStep::Continue));
    let (t, s) = record_entry(t, PathOutcome::NoneInScope, p);
    assert_eq!((t.seen, t.processed, s), (2, 1, WalkStep::Continue));
    let (t, s) = record_entry(t, PathOutcome::SomeInScope, p);
    assert_eq!((t.seen, t.processed, s), (3, 1, WalkStep::Continue));
}

#[test]
fn walk_failures_abort_or_are_passed_over() {
    let t = WalkTally { seen: 0, processed: 0 };
    assert_eq!(record_entry(t, PathOutcome::SomeInScope, policy(false, true, true)).1, WalkStep::Abort(WalkAbort::SomethingProcessed));
    assert_eq!(record_entry(t, PathOutcome::SomeInScope, policy(false, false, true)).1, WalkStep::Abort(WalkAbort::PathFailed));
    assert_eq!(record_entry(t, PathOutcome::ActionFailed, policy(false, true, false)).1, WalkStep::Abort(WalkAbort::PathFailed));
    assert_eq!(record_entry(t, PathOutcome::ActionFailed, policy(true, true, false)).1, WalkStep::Continue);
    assert_eq!(record_entry(t, PathOutcome::IoFailed { broken_pipe: true }, policy(true, true, false)).1, WalkStep::Stop);
    assert_eq!(record_entry(t, PathOutcome::IoFailed { broken_pipe: true }, policy(false, true, false)).1, WalkStep::Abort(WalkAbort::PathFailed));
    assert_eq!(record_entry(t, PathOutcome::IoFailed { broken_pipe: false }, policy(true, false, false)).1, WalkStep::Continue);
    assert_eq!(record_entry(t, PathOutcome::WalkFailed, policy(false, false, false)).1, WalkStep::Abort(WalkAbort::WalkFailed));
    let (t2, s) = record_entry(t, PathOutcome::WalkFailed, policy(true, false, false));
    assert_eq!((t2.seen, t2.processed, s), (0, 0, WalkStep::Continue));
}

#[test]
fn walk_verdicts() {
    let mut p = policy(false, true, false);
    p.fail_no_files = true;
    p.fail_none = true;
    assert_eq!(walk_verdict(WalkTally { seen: 0, processed: 0 }, p), Err(RunFailure::NoFilesFound));
    assert_eq!(walk_verdict(WalkTally { seen: 3, processed: 0 }, p), Err(RunFailure::NothingProcessed));
    assert_eq!(walk_verdict(WalkTally { seen: 3, processed: 1 }, p), Ok(()));
    assert_eq!(walk_verdict(WalkTally { seen: 0, processed: 0 }, policy(false, true, false)), Ok(()));
}

#[test]
fn file_writes() {
    assert_eq!(path_write(true, 10, true, true), PathWrite::Keep);
    assert_eq!(path_write(true, 10, false, false), PathWrite::Print);
    assert_eq!(path_write(false, 10, true, true), PathWrite::Refuse);
    assert_eq!(path_write(false, 0, true, true), PathWrite::Write);
    assert_eq!(path_write(false, 10, false, true), PathWrite::Write);
    assert_eq!(path_write(false, 10, false, false), PathWrite::Keep);
}

#[test]
fn scope_gates_and_emitted_lines() {
    assert!(matches!(scope_gate(true, false, false), Err(ApplicationError::NoneInScope)));
    assert!(matches!(scope_gate(true, true, true), Err(ApplicationError::SomeInScope)));
    assert!(matches!(scope_gate(false, true, false), Ok(())));
    assert!(matches!(scope_gate(false, false, true), Ok(())));
    assert_eq!(lines_to_emit(&vec![false, true, false, true], true), vec![2, 4]);
    assert_eq!(lines_to_emit(&vec![false, true, false], false), vec![1, 2, 3]);
    assert_eq!(lines_to_emit(&vec![], true), Vec::<usize>::new());
}

#[test]
fn standalone_actions_from_flags() {
    assert_eq!(StandaloneAction::from(StandaloneActions { delete: true, squeeze: true }), StandaloneAction::Delete);
    assert_eq!(StandaloneAction::from(StandaloneActions { delete: false, squeeze: true }), StandaloneAction::Squeeze);
    assert_eq!(StandaloneAction::from(StandaloneActions::default()), StandaloneAction::Unset);
    let g = GermanOptions::default();
    assert!(!g.german_prefer_original && !g.german_naive);
}

#[test]
fn common_actions_in_order() {
    let composable = ComposableActions {
        replace: Some("X\\ty".to_owned()),
        upper: true,
        lower: false,
        titlecase: true,
        normalize: true,
        german: true,
        symbols: true,
    };
    let actions = assemble_common_actions(&composable, StandaloneAction::Delete).unwrap();
    assert_eq!(actions.len(), 5);
    assert!(matches!(actions[0], CommonAction::Replacement(_)));
    assert!(matches!(actions[1], CommonAction::Deletion(_)));
    assert!(matches!(actions[2], CommonAction::Upper(_)));
    assert!(matches!(actions[3], CommonAction::Titlecase(_)));
    assert!(matches!(actions[4], CommonAction::Normalization(_)));
    assert_eq!(actions[0].act("anything"), "X\ty");
    assert_eq!(actions[1].act("anything"), "");
    assert_eq!(actions[2].act("straße"), "STRASSE");
    assert_eq!(actions[3].act("hELLO wORLD"), "Hello world");
    assert_eq!(actions[4].act("Naïve"), "Naive");

    let none = assemble_common_actions(&ComposableActions::default(), StandaloneAction::Squeeze).unwrap();
    assert!(none.is_empty());
    let lower = ComposableActions { lower: true, ..Default::default() };
    let actions = assemble_common_actions(&lower, StandaloneAction::Unset).unwrap();
    assert_eq!(actions.len(), 1);
    assert_eq!(actions[0].act("ÄB"), "äb");

    let bad = ComposableActions { replace: Some("\\z".to_owned()), ..Default::default() };
    match assemble_common_actions(&bad, StandaloneAction::Unset) {
        Err(ReplacementError::InvalidEscapeSequences(s)) => assert_eq!(s, "\\z"),
        other => panic!("unexpected: {other:?}"),
    }
}

#[test]
fn general_scopers() {
    let literal = get_general_scoper(true, "a.b".to_owned()).unwrap();
    assert!(matches!(literal, GeneralScoper::Literal(_)));
    assert!(literal.scope("xa.bxaxb").eq_str("xa.bxaxb"));
    let raw = literal.scope_raw("xa.bxaxb");
    assert_eq!(raw.len(), 1);
    assert_eq!(raw[0].0, 1..4);

    let regex = get_general_scoper(false, "a.b".to_owned()).unwrap();
    assert!(matches!(regex, GeneralScoper::Regex(_)));
    let raw = regex.scope_raw("xa.bxaxb");
    assert_eq!(raw.iter().map(|r| r.0.clone()).collect::<Vec<_>>(), vec![1..4, 5..8]);

    match get_general_scoper(false, "(".to_owned()) {
        Err(e @ ScoperBuildError::RegexError(_)) => assert!(e.to_string().starts_with("Regex error: Invalid regex: ")),
        other => panic!("unexpected: {other:?}"),
    }
    match get_general_scoper(true, "\\q".to_owned()) {
        Err(e @ ScoperBuildError::LiteralError(_)) => {
            assert_eq!(e.to_string(), "Literal error: Contains invalid escape sequences: '\\q'")
        },
        other => panic!("unexpected: {other:?}"),
    }
}

#[test]
fn error_messages() {
    assert_eq!(ApplicationError::SomeInScope.to_string(), "Some input was in scope");
    assert_eq!(ApplicationError::NoneInScope.to_string(), "No input was in scope");
    let e = ActionError::ReplacementError(ReplacementError::VariableError(VariableExpressionError::UndefinedVariable(
        "x".to_owned(),
    )));
    assert_eq!(
        ApplicationError::ActionError(e).to_string(),
        "Error in an action: Action failed in replacement: Error in variable expressions: Undefined variable, unable to substitute: 'x'"
    );
    assert_eq!(
        VariableExpressionError::MismatchedBraces("y".to_owned()).to_string(),
        "Mismatched braces for variable: 'y'"
    );
    assert_eq!(
        ReplacementError::InvalidEscapeSequences("\\z".to_owned()).to_string(),
        "Contains invalid escape sequences: '\\z'"
    );
    assert_eq!(LiteralError::InvalidEscapeSequences("a".to_owned()).to_string(), "Contains invalid escape sequences: 'a'");
    assert_eq!(CaptureGroup::Named("name".to_owned()).to_string(), "name (named)");
    assert_eq!(CaptureGroup::Numbered(0).to_string(), "0 (numbered)");
    assert_eq!(CaptureGroup::Numbered(1203).to_string(), "1203 (numbered)");
}

#[test]
fn file_types_keep_files_by_extension_or_interpreter() {
    assert!(keeps(&FileType::Rust, Some("rs"), None));
    assert!(!keeps(&FileType::Rust, Some("py"), Some("python")));
    assert!(keeps(&FileType::Python, None, Some("python3")));
    assert!(!keeps(&FileType::Python, None, Some("ruby")));
    assert!(!keeps(&FileType::Python, None, None));
    assert!(!keeps(&FileType::Go, None, Some("go")));
    assert!(keeps(&FileType::CSharp, Some("csx"), None));
}
