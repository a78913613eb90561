use vstd::prelude::*;
use vstd::string::StringExecFns;

use crate::ast::{Argument, Identifier, Span, Variable};

verus! {

/// What went wrong; the names it carries are those written in the source.
pub enum ErrorKind {
    /// A path's head names nothing in the frame (`name`, `frame`).
    UnknownSymbol(String, String),
    /// A `.` follows a slot that holds no sub-frame.
    NotASubFrame,
    /// A path names a block where a slot was expected.
    NotASlot(String),
    /// A `SubFrame` parameter got a slot without a sub-frame (expected frame).
    MissingSubFrame(String),
    /// A `SubFrame` parameter got a slot of another frame (expected, got).
    WrongSubFrame(String, String),
    /// A block was passed to a slot or sub-frame parameter.
    BlockForSlot(String),
    /// A variable was passed to a block parameter.
    VariableForBlock(String),
    /// A macro call with the wrong number of arguments (expected, got).
    WrongArity(usize, usize),
    UnknownMacro(String),
    UnknownFrame(String),
    /// A frame that contains itself through its sub-frames.
    FrameCycle(String),
    /// A frame whose size does not fit in a machine word.
    FrameTooLarge(String),
    /// A tape position that does not fit in a machine word.
    OffsetTooLarge,
    /// Macro calls, block arguments and nested regions deeper than the limit.
    TooDeep,
    /// A `]` at another position than its `[`.
    LoopMismatch,
    TooManyClosingBrackets,
    TooManyOpenBrackets,
    /// `<` or `>` outside a moving block.
    RawMotion,
    VariableInMovingBlock,
    MacroInMovingBlock,
    /// A character that no rule of the source format allows there.
    Unexpected,
    /// The source ends in the middle of a definition.
    UnexpectedEnd,
    /// A path without components.
    EmptyPath,
    /// Two frames or two macros of one name.
    MultipleDefinitions(String),
}

pub struct Error {
    pub span: Span,
    pub kind: ErrorKind,
}

pub type Result<T> = core::result::Result<T, Error>;

/// An error together with the file whose text its span points into.
pub struct Diagnostic {
    pub file_path: Option<String>,
    pub error: Error,
}

/// The span from the first to the last component of a path.
pub open spec fn spec_variable_span(variable: Seq<Identifier>) -> Span {
    (variable[0].span.0, variable.last().span.1)
}

/// The span of an argument; a path without components has the empty span.
pub open spec fn spec_argument_span(argument: Argument) -> Span {
    match argument {
        Argument::Variable(v) => if v@.len() == 0 {
            (0, 0)
        } else {
            spec_variable_span(v@)
        },
        Argument::Block(b) => b.span,
    }
}

/// The components of a path joined by `.`.
pub open spec fn joined(variable: Seq<Identifier>) -> Seq<char>
    decreases variable.len(),
{
    if variable.len() == 0 {
        Seq::empty()
    } else if variable.len() == 1 {
        variable[0].value@
    } else {
        joined(variable.drop_last()) + seq!['.'] + variable.last().value@
    }
}

pub fn variable_span(variable: &Variable) -> (r: Span)
    requires
        variable@.len() > 0,
    ensures
        r == spec_variable_span(variable@),
{
    let (start, _) = variable[0].span;
    let (_, end) = variable[variable.len() - 1].span;
    (start, end)
}

pub fn argument_span(argument: &Argument) -> (r: Span)
    ensures
        r == spec_argument_span(*argument),
{
    match argument {
        Argument::Variable(variable) => if variable.len() == 0 {
            (0, 0)
        } else {
            variable_span(variable)
        },
        Argument::Block(block) => block.span,
    }
}

/// The span from the first to the last argument, if there is any.
pub fn arguments_span(arguments: &[Argument]) -> (r: Option<Span>)
    ensures
        arguments@.len() == 0 ==> r is None,
        arguments@.len() > 0 ==> r == Some(
            (
                spec_argument_span(arguments@[0]).0,
                spec_argument_span(arguments@.last()).1,
            ),
        ),
{
    if arguments.len() == 0 {
        return None;
    }
    let (start, _) = argument_span(&arguments[0]);
    let (_, end) = argument_span(&arguments[arguments.len() - 1]);
    Some((start, end))
}

/// The path written out with `.` between its components.
pub fn variable_string(variable: &Variable) -> (r: String)
    ensures
        r@ == joined(variable@),
{
    let mut out = String::new();
    let mut i: usize = 0;
    while i < variable.len()
        invariant
            0 <= i <= variable@.len(),
            out@ == joined(variable@.take(i as int)),
        decreases variable@.len() - i,
    {
        proof {
            reveal_strlit(".");
            let t = variable@.take(i as int + 1);
            assert(t.drop_last() == variable@.take(i as int));
        }
        if i > 0 {
            out.append(".");
        }
        out.append(variable[i].value.as_str());
        i += 1;
    }
    assert(variable@.take(variable@.len() as int) == variable@);
    out
}

/// The number of line breaks among the first `n` characters.
pub open spec fn breaks_before(text: Seq<char>, n: int) -> nat
    decreases n,
{
    if n <= 0 || n > text.len() {
        0
    } else {
        breaks_before(text, n - 1) + if text[n - 1] == '\n' {
            1nat
        } else {
            0nat
        }
    }
}

/// Where the line holding character `offset` of a source lies: its 1-based
/// number, the index of its first character and the index just past its last
/// (its line break excluded). An offset past the end counts as the end.
pub fn error_location(source: &[char], offset: usize) -> (r: (usize, usize, usize))
    requires
        source@.len() < usize::MAX,
    ensures
        ({
            let at = if offset <= source@.len() { offset as int } else { source@.len() as int };
            &&& r.0 == 1 + breaks_before(source@, r.1 as int)
            &&& r.1 <= at <= r.2 <= source@.len()
            &&& (r.1 == 0 || source@[r.1 - 1] == '\n')
            &&& (r.2 == source@.len() || source@[r.2 as int] == '\n')
            &&& forall|k: int| r.1 <= k < at ==> source@[k] != '\n'
            &&& forall|k: int| at <= k < r.2 ==> source@[k] != '\n'
        }),
{
    let n = source.len();
    let at = if offset <= n {
        offset
    } else {
        n
    };
    let mut line: usize = 1;
    let mut start: usize = 0;
    let mut i: usize = 0;
    while i < at
        invariant
            at <= n == source@.len(),
            n < usize::MAX,
            0 <= start <= i <= at,
            line == 1 + breaks_before(source@, i as int),
            line <= i + 1,
            start == 0 || source@[start - 1] == '\n',
            forall|k: int| start <= k < i ==> source@[k] != '\n',
            breaks_before(source@, i as int) == breaks_before(source@, start as int),
        decreases at - i,
    {
        if source[i] == '\n' {
            line += 1;
            start = i + 1;
        }
        i += 1;
    }
    let mut end: usize = at;
    while end < n && source[end] != '\n'
        invariant
            at <= end <= n == source@.len(),
            forall|k: int| at <= k < end ==> source@[k] != '\n',
        decreases n - end,
    {
        end += 1;
    }
    (line, start, end)
}

/// Errors that end the compilation of a file: a frame that cannot be
/// resolved, a macro call with the wrong number or the wrong kind of
/// arguments, and errors of the text or the definitions themselves. The
/// others are reported and compilation goes on.
pub open spec fn is_fatal(kind: ErrorKind) -> bool {
    match kind {
        ErrorKind::UnknownFrame(_) | ErrorKind::FrameCycle(_) | ErrorKind::FrameTooLarge(_)
        | ErrorKind::WrongArity(_, _) | ErrorKind::BlockForSlot(_) | ErrorKind::VariableForBlock(
            _,
        ) | ErrorKind::Unexpected | ErrorKind::UnexpectedEnd | ErrorKind::MultipleDefinitions(
            _,
        ) => true,
        _ => false,
    }
}

impl ErrorKind {
    pub fn is_fatal(&self) -> (r: bool)
        ensures
            r == is_fatal(*self),
    {
        match self {
            ErrorKind::UnknownFrame(_) | ErrorKind::FrameCycle(_) | ErrorKind::FrameTooLarge(_)
            | ErrorKind::WrongArity(_, _) | ErrorKind::BlockForSlot(_)
            | ErrorKind::VariableForBlock(_) | ErrorKind::Unexpected | ErrorKind::UnexpectedEnd
            | ErrorKind::MultipleDefinitions(_) => true,
            _ => false,
        }
    }
}

/// How many of a file's diagnostics to report: all of them when none is
/// fatal, else those up to and including the first fatal one, where the
/// compilation of the file stops.
pub fn fatal_cut(diagnostics: &[Diagnostic]) -> (r: usize)
    ensures
        r <= diagnostics@.len(),
        forall|k: int| 0 <= k < r - 1 ==> !is_fatal(#[trigger] diagnostics@[k].error.kind),
        (exists|k: int| 0 <= k < diagnostics@.len() && is_fatal(#[trigger] diagnostics@[k].error.kind))
            <==> (r > 0 && is_fatal(diagnostics@[r - 1].error.kind)),
        !(exists|k: int|
            0 <= k < diagnostics@.len() && is_fatal(#[trigger] diagnostics@[k].error.kind))
            ==> r == diagnostics@.len(),
{
    let mut i: usize = 0;
    while i < diagnostics.len()
        invariant
            0 <= i <= diagnostics@.len(),
            forall|k: int| 0 <= k < i ==> !is_fatal(#[trigger] diagnostics@[k].error.kind),
        decreases diagnostics@.len() - i,
    {
        if diagnostics[i].error.kind.is_fatal() {
            return i + 1;
        }
        i += 1;
    }
    i
}

} // verus!
