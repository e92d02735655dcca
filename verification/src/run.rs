//! The decisions of a run over standard input or many files: where input comes from,
//! what the outcome of processing each file means for the run, whether a file is
//! written, and which lines are written out.
use vstd::prelude::*;

use crate::actions::ActionError;

verus! {

/// Errors when applying actions to scoped views.
#[derive(Debug)]
pub enum ApplicationError {
    /// Something was *unexpectedly* in scope.
    SomeInScope,
    /// Nothing was in scope, *unexpectedly*.
    NoneInScope,
    /// Error with an action.
    ActionError(ActionError),
}

impl ApplicationError {
    /// What the error says.
    pub fn to_string(&self) -> (r: String)
        ensures
            self is SomeInScope ==> r@ == "Some input was in scope"@,
            self is NoneInScope ==> r@ == "No input was in scope"@,
            self matches ApplicationError::ActionError(e) ==> r@ == "Error in an action: "@ + crate::actions::action_error_text(&e),
    {
        match self {
            ApplicationError::SomeInScope => {
                let mut r = String::new();
                crate::strs::push_str(&mut r, "Some input was in scope");
                proof {
                    assert(Seq::<char>::empty() + "Some input was in scope"@ =~= "Some input was in scope"@);
                }
                r
            },
            ApplicationError::NoneInScope => {
                let mut r = String::new();
                crate::strs::push_str(&mut r, "No input was in scope");
                proof {
                    assert(Seq::<char>::empty() + "No input was in scope"@ =~= "No input was in scope"@);
                }
                r
            },
            ApplicationError::ActionError(e) => {
                let text = e.to_string();
                let mut r = String::new();
                crate::strs::push_str(&mut r, "Error in an action: ");
                crate::strs::push_str(&mut r, text.as_str());
                proof {
                    assert(Seq::<char>::empty() + "Error in an action: "@ + text@ =~= "Error in an action: "@ + text@);
                }
                r
            },
        }
    }
}

/// Where input is read from.
#[derive(Debug, Clone, Copy, PartialEq, Eq)]
pub enum InputKind {
    /// Standard input.
    Stdin,
    /// A walk over the file tree, taking the files that the glob pattern matches.
    WalkGlob,
    /// A walk over the file tree, taking the files that the language scopers accept.
    WalkLanguage,
}

/// Where input is read from: standard input if it is to be used, else the files that
/// a glob pattern matches, else the files for the language scopers, and with none of
/// these standard input after all (an interactive prompt).
pub open spec fn input_kind_of(use_stdin: bool, has_glob: bool, has_language_scopers: bool) -> InputKind {
    if use_stdin {
        InputKind::Stdin
    } else if has_glob {
        InputKind::WalkGlob
    } else if has_language_scopers {
        InputKind::WalkLanguage
    } else {
        InputKind::Stdin
    }
}

/// Where input is read from (see [`input_kind_of`]).
pub fn choose_input(use_stdin: bool, has_glob: bool, has_language_scopers: bool) -> (r: InputKind)
    ensures
        r == input_kind_of(use_stdin, has_glob, has_language_scopers),
{
    if use_stdin {
        InputKind::Stdin
    } else if has_glob {
        InputKind::WalkGlob
    } else if has_language_scopers {
        InputKind::WalkLanguage
    } else {
        InputKind::Stdin
    }
}

/// Search mode is on when no action is given and a language scoper is.
pub fn is_search_mode(no_actions: bool, has_language_scopers: bool) -> (r: bool)
    ensures
        r == (no_actions && has_language_scopers),
{
    no_actions && has_language_scopers
}

/// The position of the log level to use among `available` levels ordered from least to
/// most verbose: the default level's position raised by the additional verbosity, at
/// most the last level.
pub fn level_index(default_index: usize, additional_verbosity: u8, available: usize) -> (r: usize)
    requires
        default_index < available,
    ensures
        r == if default_index + additional_verbosity < available {
            default_index + additional_verbosity
        } else {
            available - 1
        },
{
    let extra = additional_verbosity as usize;
    if extra < available - default_index {
        default_index + extra
    } else {
        available - 1
    }
}

/// How processing one entry of the walk ended.
#[derive(Debug, Clone, Copy, PartialEq, Eq)]
pub enum PathOutcome {
    /// The file was processed.
    Processed,
    /// The entry is not a file.
    NotAFile,
    /// The file is not one to process.
    InvalidFile,
    /// Something was in scope, and that was to fail.
    SomeInScope,
    /// Nothing was in scope, and that was to fail.
    NoneInScope,
    /// An action failed.
    ActionFailed,
    /// Reading or writing failed; `broken_pipe` if the output was closed.
    IoFailed { broken_pipe: bool },
    /// The walk itself failed at this entry.
    WalkFailed,
}

/// What the run is asked to fail on, and how it walks.
#[derive(Debug, Clone, Copy, PartialEq, Eq)]
pub struct WalkPolicy {
    /// Fail once anything is in scope.
    pub fail_any: bool,
    /// Fail if nothing was processed.
    pub fail_none: bool,
    /// Fail if no file was seen.
    pub fail_no_files: bool,
    /// Search mode: errors at single files do not stop the walk.
    pub search_mode: bool,
    /// Files are walked one by one in sorted order (else by several threads).
    pub sorted: bool,
}

/// How many files were seen and processed so far.
#[derive(Debug, Clone, Copy, PartialEq, Eq)]
pub struct WalkTally {
    /// Files seen: every processed entry but those that are no file or not to process.
    pub seen: usize,
    /// Files processed.
    pub processed: usize,
}

/// Why a walk is aborted.
#[derive(Debug, Clone, Copy, PartialEq, Eq)]
pub enum WalkAbort {
    /// Something was in scope, and that was to fail.
    SomethingProcessed,
    /// Processing a file failed; the run fails with that file's error.
    PathFailed,
    /// The walk failed; the run fails with the walk's error.
    WalkFailed,
}

/// What the walk does after an entry.
#[derive(Debug, Clone, Copy, PartialEq, Eq)]
pub enum WalkStep {
    /// Go on with the next entry.
    Continue,
    /// Stop quietly; the run ends as if the walk were done.
    Stop,
    /// Stop, failing the run.
    Abort(WalkAbort),
}

/// The tally after an entry that ended with `o`: a file is seen unless the entry was no
/// file, not to process, or a failure of the walk itself; it is processed if it was.
pub open spec fn tally_after(t: WalkTally, o: PathOutcome) -> (int, int) {
    let seen = match o {
        PathOutcome::NotAFile | PathOutcome::InvalidFile | PathOutcome::WalkFailed => t.seen as int,
        _ => t.seen + 1,
    };
    let processed = match o {
        PathOutcome::Processed => t.processed + 1,
        _ => t.processed as int,
    };
    (seen, processed)
}

/// What the walk does after an entry that ended with `o`: something in scope aborts it
/// if the run is to fail on that (sorted walks fail as such, threaded walks with the
/// file's error); a closed output stops a search quietly; failures at a file or of the
/// walk are passed over in search mode and abort the walk otherwise; anything else goes
/// on.
pub open spec fn step_after(o: PathOutcome, p: WalkPolicy) -> WalkStep {
    match o {
        PathOutcome::SomeInScope => if p.fail_any {
            if p.sorted {
                WalkStep::Abort(WalkAbort::SomethingProcessed)
            } else {
                WalkStep::Abort(WalkAbort::PathFailed)
            }
        } else {
            WalkStep::Continue
        },
        PathOutcome::IoFailed { broken_pipe } => if broken_pipe && p.search_mode {
            WalkStep::Stop
        } else if p.search_mode {
            WalkStep::Continue
        } else {
            WalkStep::Abort(WalkAbort::PathFailed)
        },
        PathOutcome::ActionFailed => if p.search_mode {
            WalkStep::Continue
        } else {
            WalkStep::Abort(WalkAbort::PathFailed)
        },
        PathOutcome::WalkFailed => if p.search_mode {
            WalkStep::Continue
        } else {
            WalkStep::Abort(WalkAbort::WalkFailed)
        },
        _ => WalkStep::Continue,
    }
}

/// Records the entry that ended with `outcome` (see [`tally_after`] and
/// [`step_after`]).
pub fn record_entry(tally: WalkTally, outcome: PathOutcome, policy: WalkPolicy) -> (r: (WalkTally, WalkStep))
    requires
        tally.seen < usize::MAX,
        tally.processed < usize::MAX,
    ensures
        r.0.seen == tally_after(tally, outcome).0,
        r.0.processed == tally_after(tally, outcome).1,
        r.1 == step_after(outcome, policy),
{
    let seen = match outcome {
        PathOutcome::NotAFile | PathOutcome::InvalidFile | PathOutcome::WalkFailed => tally.seen,
        _ => tally.seen + 1,
    };
    let processed = match outcome {
        PathOutcome::Processed => tally.processed + 1,
        _ => tally.processed,
    };
    let step = match outcome {
        PathOutcome::SomeInScope => {
            if policy.fail_any {
                if policy.sorted {
                    WalkStep::Abort(WalkAbort::SomethingProcessed)
                } else {
                    WalkStep::Abort(WalkAbort::PathFailed)
                }
            } else {
                WalkStep::Continue
            }
        },
        PathOutcome::IoFailed { broken_pipe } => {
            if broken_pipe && policy.search_mode {
                WalkStep::Stop
            } else if policy.search_mode {
                WalkStep::Continue
            } else {
                WalkStep::Abort(WalkAbort::PathFailed)
            }
        },
        PathOutcome::ActionFailed => {
            if policy.search_mode {
                WalkStep::Continue
            } else {
                WalkStep::Abort(WalkAbort::PathFailed)
            }
        },
        PathOutcome::WalkFailed => {
            if policy.search_mode {
                WalkStep::Continue
            } else {
                WalkStep::Abort(WalkAbort::WalkFailed)
            }
        },
        _ => WalkStep::Continue,
    };
    (WalkTally { seen, processed }, step)
}

/// How a finished walk fails.
#[derive(Debug, Clone, Copy, PartialEq, Eq)]
pub enum RunFailure {
    /// No files were found, unexpectedly.
    NoFilesFound,
    /// Files were found but nothing ended up being processed, unexpectedly.
    NothingProcessed,
}

/// How a finished walk ends: failing if no file was seen and that was to fail, else if
/// nothing was processed and that was to fail.
pub fn walk_verdict(tally: WalkTally, policy: WalkPolicy) -> (r: Result<(), RunFailure>)
    ensures
        r == (if tally.seen == 0 && policy.fail_no_files {
            Err(RunFailure::NoFilesFound)
        } else if tally.processed == 0 && policy.fail_none {
            Err(RunFailure::NothingProcessed)
        } else {
            Ok(())
        }),
{
    if tally.seen == 0 && policy.fail_no_files {
        Err(RunFailure::NoFilesFound)
    } else if tally.processed == 0 && policy.fail_none {
        Err(RunFailure::NothingProcessed)
    } else {
        Ok(())
    }
}

/// What becomes of a processed file's new contents.
#[derive(Debug, Clone, Copy, PartialEq, Eq)]
pub enum PathWrite {
    /// Printed with the file's path (search mode).
    Print,
    /// Written to the file, whose path is then printed.
    Write,
    /// Refused: a nonempty file would be wiped.
    Refuse,
    /// Nothing is done.
    Keep,
}

/// What becomes of a processed file's new contents: in search mode they are printed
/// unless empty; otherwise a nonempty file is never wiped, and a changed one is written.
pub fn path_write(search_mode: bool, file_size: u64, new_is_empty: bool, changed: bool) -> (r: PathWrite)
    ensures
        r == (if search_mode {
            if new_is_empty {
                PathWrite::Keep
            } else {
                PathWrite::Print
            }
        } else if file_size > 0 && new_is_empty {
            PathWrite::Refuse
        } else if changed {
            PathWrite::Write
        } else {
            PathWrite::Keep
        }),
{
    if search_mode {
        if new_is_empty {
            PathWrite::Keep
        } else {
            PathWrite::Print
        }
    } else if file_size > 0 && new_is_empty {
        PathWrite::Refuse
    } else if changed {
        PathWrite::Write
    } else {
        PathWrite::Keep
    }
}

/// Whether the scopes found may be acted on: not if nothing is in scope and that is to
/// fail, nor if something is and that is to fail.
pub fn scope_gate(fail_none: bool, fail_any: bool, has_any_in_scope: bool) -> (r: Result<(), ApplicationError>)
    ensures
        fail_none && !has_any_in_scope ==> r matches Err(ApplicationError::NoneInScope),
        !(fail_none && !has_any_in_scope) && fail_any && has_any_in_scope ==> r matches Err(ApplicationError::SomeInScope),
        !(fail_none && !has_any_in_scope) && !(fail_any && has_any_in_scope) ==> r is Ok,
{
    if fail_none && !has_any_in_scope {
        return Err(ApplicationError::NoneInScope);
    }
    if fail_any && has_any_in_scope {
        return Err(ApplicationError::SomeInScope);
    }
    Ok(())
}

/// The numbers, counting from 1, of the lines that are written out when output goes by
/// lines: all of them, or with `only_matching` those with something in scope.
pub open spec fn emitted(in_scope: Seq<bool>, only_matching: bool) -> Seq<usize>
    decreases in_scope.len(),
{
    if in_scope.len() == 0 {
        seq![]
    } else {
        let before = emitted(in_scope.drop_last(), only_matching);
        if !only_matching || in_scope.last() {
            before.push(in_scope.len() as usize)
        } else {
            before
        }
    }
}

/// The numbers of the lines that are written out (see [`emitted`]), given for each line
/// whether something of it is in scope.
pub fn lines_to_emit(in_scope: &Vec<bool>, only_matching: bool) -> (r: Vec<usize>)
    ensures
        r@ == emitted(in_scope@, only_matching),
{
    let n = in_scope.len();
    let mut r: Vec<usize> = Vec::new();
    let mut i: usize = 0;
    while i < n
        invariant
            i <= n,
            n == in_scope@.len(),
            r@ == emitted(in_scope@.take(i as int), only_matching),
        decreases n - i,
    {
        proof {
            assert(in_scope@.take(i + 1).drop_last() =~= in_scope@.take(i as int));
            assert(in_scope@.take(i + 1).last() == in_scope@[i as int]);
        }
        if !only_matching || in_scope[i] {
            r.push(i + 1);
        }
        i = i + 1;
    }
    proof {
        assert(in_scope@.take(n as int) =~= in_scope@);
    }
    r
}

} // verus!
