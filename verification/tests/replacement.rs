use srgn::actions::replace::variables::{inject_variables, width, VariableExpressionError};
use srgn::actions::verbatim::{Replacement as VerbatimReplacement, ReplacementCreationError};
use srgn::actions::{Action, ActionError, Deletion, Print, Replacement, ReplacementError};
use srgn::regex::CaptureGroup;
use srgn::scope::ScopeContext;

fn variables() -> Vec<(CaptureGroup, &'static str)> {
    vec![
        (CaptureGroup::Named("var1".to_owned()), "val1"),
        (CaptureGroup::Named("VAR_2".to_owned()), "val2"),
        (CaptureGroup::Numbered(2), "nval"),
    ]
}

fn ok(s: &str) -> Result<String, VariableExpressionError> {
    Ok(s.to_owned())
}

fn undefined(s: &str) -> Result<String, VariableExpressionError> {
    Err(VariableExpressionError::UndefinedVariable(s.to_owned()))
}

fn braces(s: &str) -> Result<String, VariableExpressionError> {
    Err(VariableExpressionError::MismatchedBraces(s.to_owned()))
}

#[test]
fn test_inject_variables() {
    let cases = vec![
        ("", ok("")),
        ("Regular content", ok("Regular content")),
        ("I have $$5", ok("I have $5")),
        ("$var1", ok("val1")),
        ("$var1 ", ok("val1 ")),
        (" $var1", ok(" val1")),
        (" $var1 ", ok(" val1 ")),
        ("$var1 $VAR_2", ok("val1 val2")),
        ("$var1$VAR_2", ok("val1val2")),
        (" $var1 $VAR_2 ", ok(" val1 val2 ")),
        ("$2", ok("nval")),
        ("$2 ", ok("nval ")),
        (" $2 ", ok(" nval ")),
        ("Hello $2 World $var1", ok("Hello nval World val1")),
        ("${var1}", ok("val1")),
        ("X${var1}X", ok("Xval1X")),
        ("${2}", ok("nval")),
        ("3${2}3", ok("3nval3")),
        ("Hello${2}2U Sir${var1}Mister", ok("Hellonval2U Sirval1Mister")),
        ("$var1$var1", ok("val1val1")),
        ("${var1}${var1}", ok("val1val1")),
        ("${var1}$var1", ok("val1val1")),
        ("${2}$2", ok("nvalnval")),
        ("${var1}$var1 ${2}$2", ok("val1val1 nvalnval")),
        ("$NO", undefined("NO")),
        ("$NO such thing", undefined("NO")),
        ("$NO$ON", undefined("NO")),
        ("$1337", undefined("1337")),
        ("$1337 is missing", undefined("1337")),
        ("$1337$7331", undefined("1337")),
        ("${var1", braces("var1")),
        ("${var1 woops", braces("var1")),
        ("${var1}}", ok("val1}")),
        ("$?", ok("$?")),
        ("${?", ok("${?")),
    ];
    let vars = variables();
    for (expression, expected) in cases {
        assert_eq!(inject_variables(expression, &vars), expected, "expression: {expression:?}");
    }
}

#[test]
fn inject_variables_edge_cases() {
    let vars = variables();
    assert_eq!(inject_variables("$", &vars), ok("$"));
    assert_eq!(inject_variables("${", &vars), ok("${"));
    assert_eq!(inject_variables("${2", &vars), braces("2"));
    assert_eq!(inject_variables("$002", &vars), ok("$0nval"));
    assert_eq!(inject_variables("$99999999999999999999999", &vars), undefined("99999999999999999999999"));
    assert_eq!(inject_variables("$007", &vars), undefined("7"));
}

#[test]
fn test_width() {
    for (num, expected) in [(0, 1), (1, 1), (9, 1), (10, 2), (99, 2), (100, 3), (usize::MAX, 20)] {
        assert_eq!(width(num), expected);
    }
}

#[test]
fn replacement_creation_processes_escapes() {
    let r = Replacement::try_from("Some Replacement".to_owned()).unwrap();
    assert_eq!(r.act("anything"), "Some Replacement");
    let r = Replacement::try_from(r"Some \t Escape".to_owned()).unwrap();
    assert_eq!(r.act("x"), "Some \t Escape");
    assert_eq!(
        Replacement::try_from(r"Invalid \z Escape".to_owned()),
        Err(ReplacementError::InvalidEscapeSequences("Invalid \\z Escape".to_owned()))
    );
}

#[test]
fn replacement_with_context_injects_variables() {
    let r = Replacement::try_from("<$1>".to_owned()).unwrap();
    let context = ScopeContext::CaptureGroups(vec![(CaptureGroup::Numbered(0), "ab"), (CaptureGroup::Numbered(1), "b")]);
    assert_eq!(r.act_with_context("ab", &context), Ok("<b>".to_owned()));
    let r = Replacement::try_from("$x".to_owned()).unwrap();
    assert_eq!(
        r.act_with_context("ab", &context),
        Err(ActionError::ReplacementError(ReplacementError::VariableError(
            VariableExpressionError::UndefinedVariable("x".to_owned())
        )))
    );
}

#[test]
fn verbatim_replacement() {
    let r = VerbatimReplacement::try_from("x\\ny".to_owned()).unwrap();
    assert_eq!(r.act("whatever"), "x\ny");
    assert_eq!(
        VerbatimReplacement::try_from(r"\z".to_owned()),
        Err(ReplacementCreationError::InvalidEscapeSequences("\\z".to_owned()))
    );
}

#[test]
fn constant_actions_are_idempotent() {
    let r = Replacement::try_from("Y".to_owned()).unwrap();
    let once = r.act("xyz");
    assert_eq!(r.act(&once), once);
    let d = Deletion::default();
    let once = d.act("xyz");
    assert_eq!(once, "");
    assert_eq!(d.act(&once), once);
    let p = Print::default();
    assert_eq!(p.act(&p.act("xyz")), "xyz");
}
