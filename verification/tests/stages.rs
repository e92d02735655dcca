use srgn::betterletters::apply;
use srgn::betterletters::stages::german::GermanStage;
use srgn::betterletters::stages::symbols::Symbols as SymbolsStage;
use srgn::betterletters::stages::{substitute_line, Stage};
use srgn::iterext::{ParallelZip, ParallelZipExt};

#[test]
fn apply_processes_line_by_line() {
    let stages: Vec<Box<dyn Stage>> = vec![Box::new(GermanStage), Box::new(SymbolsStage)];
    let (out, res) = apply(&stages, "Gruess Gott!\nAepfel sind toll\n\nMauer");
    assert!(res.is_ok());
    assert_eq!(out, "Grüß Gott!\nÄpfel sind toll\n\nMauer");
    let (out, res) = apply(&stages, "");
    assert!(res.is_ok());
    assert_eq!(out, "");
    let none: Vec<Box<dyn Stage>> = vec![];
    let (out, res) = apply(&none, "Gruess\n");
    assert!(res.is_ok());
    assert_eq!(out, "Gruess\n");
}

#[test]
fn pipelines_of_stages() {
    let stages: Vec<Box<dyn Stage>> = vec![Box::new(SymbolsStage), Box::new(GermanStage)];
    assert_eq!(substitute_line(&stages, "Voll suess!\n").unwrap(), "Voll süß!\n");
    assert_eq!(SymbolsStage.substitute("a -> b").unwrap(), "a -> b");
}

#[test]
fn parallel_zip_yields_nth_items() {
    let mut z = vec![vec![1, 2, 3], vec![4, 5], vec![6, 7, 8]].parallel_zip();
    assert_eq!(z.next(), Some(vec![1, 4, 6]));
    assert_eq!(z.next(), Some(vec![2, 5, 7]));
    assert_eq!(z.next(), None);
    // The first part moved on before the second ran out.
    assert_eq!(z.next(), None);
    let mut empty: ParallelZip<u8> = ParallelZip::new(vec![]);
    assert_eq!(empty.next(), Some(vec![]));
    let mut single = ParallelZip::new(vec![vec!['a']]);
    assert_eq!(single.next(), Some(vec!['a']));
    assert_eq!(single.next(), None);
}

#[test]
fn chained_stages_equal_piping() {
    let source = "Gruess Gott!\nAepfel -> Baeume\n\nMasse";
    let both: Vec<Box<dyn Stage>> = vec![Box::new(GermanStage), Box::new(SymbolsStage)];
    let first: Vec<Box<dyn Stage>> = vec![Box::new(GermanStage)];
    let second: Vec<Box<dyn Stage>> = vec![Box::new(SymbolsStage)];
    let (chained, res) = apply(&both, source);
    assert!(res.is_ok());
    let (piped_once, res1) = apply(&first, source);
    let (piped, res2) = apply(&second, &piped_once);
    assert!(res1.is_ok() && res2.is_ok());
    assert_eq!(chained, piped);
}
