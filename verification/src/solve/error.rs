//! How a solve can fail, and the exit codes that tell.
use crate::text::{decimal, decimal_text};
use vstd::prelude::*;

verus! {

broadcast use vstd::seq_lib::group_seq_properties;

/// All went well.
pub const EXIT_OK: i32 = 0;

/// The command line or the surroundings are not in order.
pub const EXIT_USAGE: i32 = 1;

/// The solver's message could not be read.
pub const EXIT_UNPARSEABLE: i32 = 2;

/// Nothing is left to try.
pub const EXIT_EXHAUSTED: i32 = 3;

/// The number of rounds is used up.
pub const EXIT_MAX_ITERS: i32 = 4;

/// The environment solves, and a module of it does not import.
pub const EXIT_SMOKE_FAILED: i32 = 5;

/// The user stopped the solve.
pub const EXIT_INTERRUPTED: i32 = 130;

/// How a solve failed.
#[derive(Debug)]
#[allow(inconsistent_fields)]
pub enum SolveError {
    Usage(String),
    Unparseable { stderr_tail: String },
    Exhausted { package: String },
    MaxIters(u32),
    SmokeFailed { module: String, stderr_tail: String },
    Interrupted,
}

/// What a `SolveError` says.
pub enum ErrorView {
    Usage(Seq<char>),
    Unparseable { stderr_tail: Seq<char> },
    Exhausted { package: Seq<char> },
    MaxIters(u32),
    SmokeFailed { module: Seq<char>, stderr_tail: Seq<char> },
    Interrupted,
}

impl DeepView for SolveError {
    type V = ErrorView;

    open spec fn deep_view(&self) -> ErrorView {
        match self {
            SolveError::Usage(text) => ErrorView::Usage(text@),
            SolveError::Unparseable { stderr_tail } => ErrorView::Unparseable {
                stderr_tail: stderr_tail@,
            },
            SolveError::Exhausted { package } => ErrorView::Exhausted { package: package@ },
            SolveError::MaxIters(n) => ErrorView::MaxIters(*n),
            SolveError::SmokeFailed { module, stderr_tail } => ErrorView::SmokeFailed {
                module: module@,
                stderr_tail: stderr_tail@,
            },
            SolveError::Interrupted => ErrorView::Interrupted,
        }
    }
}

/// The exit code of a failure.
pub open spec fn code_of(e: ErrorView) -> i32 {
    match e {
        ErrorView::Usage(_) => EXIT_USAGE,
        ErrorView::Unparseable { .. } => EXIT_UNPARSEABLE,
        ErrorView::Exhausted { .. } => EXIT_EXHAUSTED,
        ErrorView::MaxIters(_) => EXIT_MAX_ITERS,
        ErrorView::SmokeFailed { .. } => EXIT_SMOKE_FAILED,
        ErrorView::Interrupted => EXIT_INTERRUPTED,
    }
}

/// What is told of a failure.
pub open spec fn message_of(e: ErrorView) -> Seq<char> {
    match e {
        ErrorView::Usage(text) => text,
        ErrorView::Unparseable { .. } => "retread solve: could not parse conflict"@,
        ErrorView::Exhausted { package } => "retread solve: exhausted repair strategies for "@
            + package,
        ErrorView::MaxIters(n) => "retread solve: max iterations reached ("@ + decimal(n as nat)
            + ")"@,
        ErrorView::SmokeFailed { module, .. } => "retread solve: smoke test failed importing "@
            + module,
        ErrorView::Interrupted => "retread solve: interrupted"@,
    }
}

impl SolveError {
    /// The exit code of the failure.
    pub fn exit_code(&self) -> (r: i32)
        ensures
            r == code_of(self.deep_view()),
    {
        match self {
            SolveError::Usage(_) => EXIT_USAGE,
            SolveError::Unparseable { .. } => EXIT_UNPARSEABLE,
            SolveError::Exhausted { .. } => EXIT_EXHAUSTED,
            SolveError::MaxIters(_) => EXIT_MAX_ITERS,
            SolveError::SmokeFailed { .. } => EXIT_SMOKE_FAILED,
            SolveError::Interrupted => EXIT_INTERRUPTED,
        }
    }

    /// What is told of the failure.
    pub fn message(&self) -> (r: String)
        ensures
            r@ == message_of(self.deep_view()),
    {
        match self {
            SolveError::Usage(text) => text.clone(),
            SolveError::Unparseable { .. } => "retread solve: could not parse conflict".to_owned(),
            SolveError::Exhausted { package } => {
                "retread solve: exhausted repair strategies for ".to_owned().concat(package)
            },
            SolveError::MaxIters(n) => {
                let mut s: String = "retread solve: max iterations reached (".to_owned();
                s.append(&decimal_text(*n as u64));
                s.append(")");
                s
            },
            SolveError::SmokeFailed { module, .. } => {
                "retread solve: smoke test failed importing ".to_owned().concat(module)
            },
            SolveError::Interrupted => "retread solve: interrupted".to_owned(),
        }
    }
}

/// A failure's exit code tells its kind: two failures of different kinds have
/// different codes, and none has that of success.
pub proof fn law_exit_codes_tell_kinds(a: ErrorView, b: ErrorView)
    ensures
        code_of(a) != EXIT_OK,
        code_of(a) == code_of(b) <==> ((a is Usage && b is Usage) || (a is Unparseable
            && b is Unparseable) || (a is Exhausted && b is Exhausted) || (a is MaxIters
            && b is MaxIters) || (a is SmokeFailed && b is SmokeFailed) || (a is Interrupted
            && b is Interrupted)),
{
}

/// Each kind of failure has an exit code of its own, and none has that of success.
pub proof fn law_exit_codes_tell_the_failures(e: ErrorView)
    ensures
        code_of(e) != 0,
        code_of(e) == 1 <==> e is Usage,
        code_of(e) == 2 <==> e is Unparseable,
        code_of(e) == 3 <==> e is Exhausted,
        code_of(e) == 4 <==> e is MaxIters,
        code_of(e) == 5 <==> e is SmokeFailed,
        code_of(e) == 130 <==> e is Interrupted,
{
}

/// What is told of a failure ends in what it is about: the package, the number of rounds
/// or the module; a failure of usage is told as it is.
pub proof fn law_messages_tell_what_failed(text: Seq<char>, tail: Seq<char>, n: u32)
    ensures
        message_of(ErrorView::Usage(text)) == text,
        message_of(ErrorView::Exhausted { package: text })
            == "retread solve: exhausted repair strategies for "@ + text,
        message_of(ErrorView::SmokeFailed { module: text, stderr_tail: tail })
            == "retread solve: smoke test failed importing "@ + text,
        message_of(ErrorView::MaxIters(n)) == "retread solve: max iterations reached ("@ + decimal(
            n as nat,
        ) + ")"@,
{
}

} // verus!
