use vstd::prelude::*;

use crate::ast::{Block, Instruction, Using};
use crate::bf::{Instruction as Op, BF};
use crate::error::{spec_argument_span, variable_span, Diagnostic, Error, ErrorKind};
use crate::frame::{frame_from_definition, lookup_of, macro_frame_of, Frame, FrameM, Lookup, LookupM};
use crate::scope::{frame_of, macro_of, Scope, ScopeView};

verus! {

/// How deep macro calls, block arguments, moving blocks and nested `using`
/// regions may nest inside one another.
pub const MAX_DEPTH: usize = 200;

/// What emitting a block produced: the code, the tape position at its end, the
/// errors reported, the net pointer motion written inside moving blocks, the
/// cells crossed moving between slots, and the `<` and `>` written as such
/// inside moving blocks.
pub struct Emission {
    pub code: Seq<Op>,
    pub offset: usize,
    pub errors: Seq<Diagnostic>,
    pub moved: int,
    pub travel: nat,
    pub raw: nat,
}

/// The state of frame-aware emission part way through a block; `stack` holds
/// the position of each `[` not closed yet.
pub struct Walk {
    pub code: Seq<Op>,
    pub offset: usize,
    pub errors: Seq<Diagnostic>,
    pub moved: int,
    pub stack: Seq<usize>,
    pub travel: nat,
    pub raw: nat,
}

/// The number of `<` and `>` in a stretch of code.
pub open spec fn motions(code: Seq<Op>) -> nat
    decreases code.len(),
{
    if code.len() == 0 {
        0
    } else {
        motions(code.drop_last()) + if code.last() == Op::Left || code.last() == Op::Right {
            1nat
        } else {
            0nat
        }
    }
}

/// The distance between two tape positions.
pub open spec fn distance(from: usize, to: usize) -> nat {
    if to >= from {
        (to - from) as nat
    } else {
        (from - to) as nat
    }
}

/// Moving-mode emission: the code, the errors, how many `[` are still open,
/// the cells crossed between slots by nested `using` regions, and the `<` and
/// `>` written as such.
pub struct Raw {
    pub code: Seq<Op>,
    pub errors: Seq<Diagnostic>,
    pub open: nat,
    pub travel: nat,
    pub raw: nat,
}

pub open spec fn diagnostic(file_path: Option<String>, span: (usize, usize), kind: ErrorKind) -> Diagnostic {
    Diagnostic { file_path, error: Error { span, kind } }
}

/// `>` minus `<` in a stretch of code.
pub open spec fn net(code: Seq<Op>) -> int
    decreases code.len(),
{
    if code.len() == 0 {
        0
    } else {
        net(code.drop_last()) + match code.last() {
            Op::Right => 1int,
            Op::Left => -1int,
            _ => 0int,
        }
    }
}

/// The shortest motion from tape position `from` to `to`.
pub open spec fn motion(from: usize, to: usize) -> Seq<Op> {
    if to >= from {
        Seq::new((to - from) as nat, |_i: int| Op::Right)
    } else {
        Seq::new((from - to) as nat, |_i: int| Op::Left)
    }
}

/// The BF atom an AST instruction is emitted as verbatim, if it is one.
pub open spec fn atom(instruction: Instruction, raw: bool) -> Option<Op> {
    match instruction {
        Instruction::Add => Some(Op::Add),
        Instruction::Subtract => Some(Op::Subtract),
        Instruction::Input => Some(Op::Input),
        Instruction::Output => Some(Op::Output),
        Instruction::Left(_) => if raw {
            Some(Op::Left)
        } else {
            None
        },
        Instruction::Right(_) => if raw {
            Some(Op::Right)
        } else {
            None
        },
        _ => None,
    }
}

/// Moving-mode emission of the first `n` instructions of a block.
pub open spec fn moving_prefix(scope: ScopeView, block: Block, depth: nat, n: int) -> Raw
    decreases depth, n,
{
    if n <= 0 || n > block.instructions@.len() {
        Raw { code: Seq::empty(), errors: Seq::empty(), open: 0, travel: 0, raw: 0 }
    } else {
        let w = moving_prefix(scope, block, depth, n - 1);
        let file = block.file_path;
        let instruction = block.instructions@[n - 1];
        match atom(instruction, true) {
            Some(op) => Raw {
                code: w.code.push(op),
                raw: if op == Op::Left || op == Op::Right {
                    w.raw + 1
                } else {
                    w.raw
                },
                ..w
            },
            None => match instruction {
                Instruction::OpenLoop(_) => Raw { code: w.code.push(Op::OpenLoop), open: w.open + 1, ..w },
                Instruction::CloseLoop(span) => if w.open == 0 {
                    Raw {
                        code: w.code.push(Op::CloseLoop),
                        errors: w.errors.push(diagnostic(file, span, ErrorKind::TooManyClosingBrackets)),
                        ..w
                    }
                } else {
                    Raw { code: w.code.push(Op::CloseLoop), open: (w.open - 1) as nat, ..w }
                },
                Instruction::MovingBlock(b) => if depth == 0 {
                    Raw { errors: w.errors.push(diagnostic(file, b.span, ErrorKind::TooDeep)), ..w }
                } else {
                    let m = moving(scope, b, (depth - 1) as nat);
                    Raw {
                        code: w.code + m.code,
                        errors: w.errors + m.errors,
                        travel: w.travel + m.travel,
                        raw: w.raw + m.raw,
                        ..w
                    }
                },
                Instruction::Using(u) => if depth == 0 {
                    Raw { errors: w.errors.push(diagnostic(file, u.frame.span, ErrorKind::TooDeep)), ..w }
                } else {
                    let e = using_emission(scope, u, (depth - 1) as nat);
                    Raw {
                        code: w.code + e.code,
                        errors: w.errors + e.errors,
                        travel: w.travel + e.travel,
                        raw: w.raw + e.raw,
                        ..w
                    }
                },
                Instruction::Variable(v) => Raw {
                    errors: w.errors.push(
                        diagnostic(
                            file,
                            spec_argument_span(crate::ast::Argument::Variable(v)),
                            ErrorKind::VariableInMovingBlock,
                        ),
                    ),
                    ..w
                },
                Instruction::MacroInvoke(name, _) => Raw {
                    errors: w.errors.push(diagnostic(file, name.span, ErrorKind::MacroInMovingBlock)),
                    ..w
                },
                _ => w,
            },
        }
    }
}

/// Moving-mode emission of a block: atoms verbatim, `<` and `>` included;
/// nested moving blocks and `using` regions allowed; variables and macro
/// calls are errors, as are unbalanced brackets.
pub open spec fn moving(scope: ScopeView, block: Block, depth: nat) -> Raw
    decreases depth, block.instructions@.len() + 1,
{
    let w = moving_prefix(scope, block, depth, block.instructions@.len() as int);
    if w.open > 0 {
        Raw {
            errors: w.errors.push(diagnostic(block.file_path, block.span, ErrorKind::TooManyOpenBrackets)),
            ..w
        }
    } else {
        w
    }
}

/// Frame-aware emission of the first `n` instructions of a block, starting at
/// tape position `start` of `frame`.
pub open spec fn block_prefix(
    scope: ScopeView,
    frame: FrameM,
    start: usize,
    block: Block,
    depth: nat,
    n: int,
) -> Walk
    decreases depth, n,
{
    if n <= 0 || n > block.instructions@.len() {
        Walk {
            code: Seq::empty(),
            offset: start,
            errors: Seq::empty(),
            moved: 0,
            stack: Seq::empty(),
            travel: 0,
            raw: 0,
        }
    } else {
        let w = block_prefix(scope, frame, start, block, depth, n - 1);
        let file = block.file_path;
        let instruction = block.instructions@[n - 1];
        match atom(instruction, false) {
            Some(op) => Walk { code: w.code.push(op), ..w },
            None => match instruction {
                Instruction::OpenLoop(_) => Walk {
                    code: w.code.push(Op::OpenLoop),
                    stack: w.stack.push(w.offset),
                    ..w
                },
                Instruction::CloseLoop(span) => if w.stack.len() == 0 {
                    Walk {
                        code: w.code.push(Op::CloseLoop),
                        errors: w.errors.push(
                            diagnostic(file, span, ErrorKind::TooManyClosingBrackets),
                        ),
                        ..w
                    }
                } else if w.stack.last() != w.offset {
                    Walk {
                        code: w.code.push(Op::CloseLoop),
                        errors: w.errors.push(diagnostic(file, span, ErrorKind::LoopMismatch)),
                        stack: w.stack.drop_last(),
                        ..w
                    }
                } else {
                    Walk { code: w.code.push(Op::CloseLoop), stack: w.stack.drop_last(), ..w }
                },
                Instruction::Left(span) => Walk {
                    errors: w.errors.push(diagnostic(file, span, ErrorKind::RawMotion)),
                    ..w
                },
                Instruction::Right(span) => Walk {
                    errors: w.errors.push(diagnostic(file, span, ErrorKind::RawMotion)),
                    ..w
                },
                Instruction::MovingBlock(b) => if depth == 0 {
                    Walk { errors: w.errors.push(diagnostic(file, b.span, ErrorKind::TooDeep)), ..w }
                } else {
                    let m = moving(scope, b, (depth - 1) as nat);
                    Walk {
                        code: w.code + m.code,
                        errors: w.errors + m.errors,
                        moved: w.moved + net(m.code),
                        travel: w.travel + m.travel,
                        raw: w.raw + m.raw,
                        ..w
                    }
                },
                Instruction::Using(u) => if depth == 0 {
                    Walk {
                        errors: w.errors.push(diagnostic(file, u.frame.span, ErrorKind::TooDeep)),
                        ..w
                    }
                } else {
                    let e = using_emission(scope, u, (depth - 1) as nat);
                    if w.offset + e.offset > usize::MAX {
                        Walk {
                            code: w.code + e.code,
                            errors: (w.errors + e.errors).push(
                                diagnostic(file, u.frame.span, ErrorKind::OffsetTooLarge),
                            ),
                            moved: w.moved + e.moved,
                            travel: w.travel + e.travel,
                            raw: w.raw + e.raw,
                            ..w
                        }
                    } else {
                        Walk {
                            code: w.code + e.code,
                            offset: (w.offset + e.offset) as usize,
                            errors: w.errors + e.errors,
                            moved: w.moved + e.moved,
                            travel: w.travel + e.travel,
                            raw: w.raw + e.raw,
                            ..w
                        }
                    }
                },
                Instruction::Variable(v) => match lookup_of(frame, v@) {
                    Err(e) => Walk {
                        errors: w.errors.push(Diagnostic { file_path: file, error: e }),
                        ..w
                    },
                    Ok(LookupM::Slot(target)) => Walk {
                        code: w.code + motion(w.offset, target),
                        offset: target,
                        travel: w.travel + distance(w.offset, target),
                        ..w
                    },
                    Ok(LookupM::Block(b, fr)) => if depth == 0 {
                        Walk {
                            errors: w.errors.push(
                                diagnostic(
                                    file,
                                    spec_argument_span(crate::ast::Argument::Variable(v)),
                                    ErrorKind::TooDeep,
                                ),
                            ),
                            ..w
                        }
                    } else {
                        let e = emit_block(scope, fr, w.offset, b, (depth - 1) as nat);
                        Walk {
                            code: w.code + e.code,
                            offset: e.offset,
                            errors: w.errors + e.errors,
                            moved: w.moved + e.moved,
                            travel: w.travel + e.travel,
                            raw: w.raw + e.raw,
                            ..w
                        }
                    },
                },
                Instruction::MacroInvoke(name, arguments) => match macro_of(scope, name.value@) {
                    None => Walk {
                        errors: w.errors.push(
                            diagnostic(file, name.span, ErrorKind::UnknownMacro(name.value)),
                        ),
                        ..w
                    },
                    Some(m) => match macro_frame_of(frame, m.name, m.parameters@, arguments@) {
                        Err(e) => Walk {
                            errors: w.errors.push(Diagnostic { file_path: file, error: e }),
                            ..w
                        },
                        Ok(body_frame) => if depth == 0 {
                            Walk {
                                errors: w.errors.push(diagnostic(file, name.span, ErrorKind::TooDeep)),
                                ..w
                            }
                        } else {
                            let e = emit_block(scope, body_frame, w.offset, m.block, (depth - 1) as nat);
                            Walk {
                                code: w.code + e.code,
                                offset: e.offset,
                                errors: w.errors + e.errors,
                                moved: w.moved + e.moved,
                                travel: w.travel + e.travel,
                                raw: w.raw + e.raw,
                                ..w
                            }
                        },
                    },
                },
                _ => w,
            },
        }
    }
}

/// Frame-aware emission of a whole block from tape position `start`; a `[`
/// left open is an error.
pub open spec fn emit_block(scope: ScopeView, frame: FrameM, start: usize, block: Block, depth: nat) -> Emission
    decreases depth, block.instructions@.len() + 1,
{
    let w = block_prefix(scope, frame, start, block, depth, block.instructions@.len() as int);
    Emission {
        code: w.code,
        offset: w.offset,
        errors: if w.stack.len() > 0 {
            w.errors.push(diagnostic(block.file_path, block.span, ErrorKind::TooManyOpenBrackets))
        } else {
            w.errors
        },
        moved: w.moved,
        travel: w.travel,
        raw: w.raw,
    }
}

/// Emission of a `using` region: its block in a fresh frame, from position 0.
pub open spec fn using_emission(scope: ScopeView, using: Using, depth: nat) -> Emission
    decreases depth, using.block.instructions@.len() + 2,
{
    let file = using.block.file_path;
    match frame_of(scope, using.frame.value@) {
        None => Emission {
            code: Seq::empty(),
            offset: 0,
            errors: seq![diagnostic(file, using.frame.span, ErrorKind::UnknownFrame(using.frame.value))],
            moved: 0,
            travel: 0,
            raw: 0,
        },
        Some(def) => match frame_from_definition(scope, def) {
            Err(e) => Emission {
                code: Seq::empty(),
                offset: 0,
                errors: seq![Diagnostic { file_path: file, error: e }],
                moved: 0,
                travel: 0,
                raw: 0,
            },
            Ok(frame) => emit_block(scope, frame, 0, using.block, depth),
        },
    }
}

/// The code and errors of the first `n` of a program's `using` regions, each
/// emitted on its own from position 0.
pub open spec fn program_emission(scope: ScopeView, usings: Seq<Using>, n: int) -> (
    Seq<Op>,
    Seq<Diagnostic>,
)
    decreases n,
{
    if n <= 0 || n > usings.len() {
        (Seq::empty(), Seq::empty())
    } else {
        let (code, errors) = program_emission(scope, usings, n - 1);
        let e = using_emission(scope, usings[n - 1], MAX_DEPTH as nat);
        (code + e.code, errors + e.errors)
    }
}

fn copy_path(path: &Option<String>) -> (r: Option<String>)
    ensures
        r == *path,
{
    match path {
        Some(p) => Some(p.clone()),
        None => None,
    }
}

fn report(errors: &mut Vec<Diagnostic>, file_path: &Option<String>, span: (usize, usize), kind: ErrorKind)
    ensures
        final(errors)@ == old(errors)@.push(diagnostic(*file_path, span, kind)),
{
    errors.push(Diagnostic { file_path: copy_path(file_path), error: Error { span, kind } });
}

/// Writes the shortest motion from position `from` to position `to`.
fn emit_motion(output: &mut BF, from: usize, to: usize)
    ensures
        final(output).spec_code() == old(output).spec_code() + motion(from, to),
{
    let ghost start = output.spec_code();
    let (count, op) = if to >= from {
        (to - from, Op::Right)
    } else {
        (from - to, Op::Left)
    };
    let mut i: usize = 0;
    while i < count
        invariant
            0 <= i <= count,
            op == (if to >= from { Op::Right } else { Op::Left }),
            count == (if to >= from { to - from } else { from - to }),
            output.spec_code() == start + Seq::new(i as nat, |_k: int| op),
        decreases count - i,
    {
        output.push(op);
        assert(Seq::new((i + 1) as nat, |_k: int| op) =~= Seq::new(i as nat, |_k: int| op).push(op));
        i += 1;
    }
    assert(motion(from, to) =~= Seq::new(count as nat, |_k: int| op));
}

fn atom_of(instruction: &Instruction, raw: bool) -> (r: Option<Op>)
    ensures
        r == atom(*instruction, raw),
{
    match instruction {
        Instruction::Add => Some(Op::Add),
        Instruction::Subtract => Some(Op::Subtract),
        Instruction::Input => Some(Op::Input),
        Instruction::Output => Some(Op::Output),
        Instruction::Left(_) => if raw {
            Some(Op::Left)
        } else {
            None
        },
        Instruction::Right(_) => if raw {
            Some(Op::Right)
        } else {
            None
        },
        _ => None,
    }
}

/// Emits a moving block: atoms verbatim, with `<` and `>`; nested moving
/// blocks and `using` regions in their own modes; variables and macro calls
/// are errors, as are unbalanced brackets. Returns whether any error was
/// reported.
fn evaluate_moving_block(
    output: &mut BF,
    errors: &mut Vec<Diagnostic>,
    block: &Block,
    scope: &Scope,
    depth: usize,
) -> (r: bool)
    requires
        scope.wf(),
    ensures
        final(output).spec_code() == old(output).spec_code() + moving(scope@, *block, depth as nat).code,
        final(errors)@ == old(errors)@ + moving(scope@, *block, depth as nat).errors,
        r == (moving(scope@, *block, depth as nat).errors.len() > 0),
    decreases depth, 0nat,
{
    let ghost code0 = output.spec_code();
    let ghost errors0 = errors@;
    let errors_start = errors.len();
    let mut loop_depth: usize = 0;
    let mut i: usize = 0;
    while i < block.instructions.len()
        invariant
            scope.wf(),
            0 <= i <= block.instructions@.len(),
            loop_depth <= i,
            code0 == old(output).spec_code(),
            errors0 == old(errors)@,
            moving_prefix(scope@, *block, depth as nat, i as int).open == loop_depth as nat,
            output.spec_code() == code0 + moving_prefix(scope@, *block, depth as nat, i as int).code,
            errors@ == errors0 + moving_prefix(scope@, *block, depth as nat, i as int).errors,
            errors_start == errors0.len(),
        decreases block.instructions@.len() - i,
    {
        let ghost code_before = output.spec_code();
        let ghost errors_before = errors@;
        let instruction = &block.instructions[i];
        match atom_of(instruction, true) {
            Some(op) => {
                output.push(op);
            },
            None => match instruction {
                Instruction::OpenLoop(_) => {
                    output.push(Op::OpenLoop);
                    loop_depth += 1;
                },
                Instruction::CloseLoop(span) => {
                    if loop_depth == 0 {
                        report(errors, &block.file_path, *span, ErrorKind::TooManyClosingBrackets);
                    } else {
                        loop_depth -= 1;
                    }
                    output.push(Op::CloseLoop);
                },
                Instruction::MovingBlock(inner) => {
                    if depth == 0 {
                        report(errors, &block.file_path, inner.span, ErrorKind::TooDeep);
                    } else {
                        evaluate_moving_block(output, errors, inner, scope, depth - 1);
                    }
                },
                Instruction::Using(using) => {
                    if depth == 0 {
                        report(errors, &block.file_path, using.frame.span, ErrorKind::TooDeep);
                    } else {
                        evaluate_using(output, errors, using, scope, depth - 1);
                    }
                },
                Instruction::Variable(variable) => {
                    let span = if variable.len() == 0 {
                        (0, 0)
                    } else {
                        variable_span(variable)
                    };
                    report(errors, &block.file_path, span, ErrorKind::VariableInMovingBlock);
                },
                Instruction::MacroInvoke(name, _) => {
                    report(errors, &block.file_path, name.span, ErrorKind::MacroInMovingBlock);
                },
                _ => {},
            },
        }
        proof {
            let w2 = moving_prefix(scope@, *block, depth as nat, i as int + 1);
            assert(output.spec_code() =~= code0 + w2.code);
            assert(errors@ =~= errors0 + w2.errors);
        }
        i += 1;
    }
    let did_error = if loop_depth > 0 {
        report(errors, &block.file_path, block.span, ErrorKind::TooManyOpenBrackets);
        true
    } else {
        errors.len() > errors_start
    };
    proof {
        assert(errors@ =~= errors0 + moving(scope@, *block, depth as nat).errors);
    }
    did_error
}

/// Emits a block in frame-aware mode from tape position `frame_offset` of
/// `frame`, tracking the position across slot accesses, block arguments,
/// macro bodies and nested `using` regions. Returns whether any error was
/// reported and the position at the end of the block.
fn evaluate(
    output: &mut BF,
    errors: &mut Vec<Diagnostic>,
    frame: &Frame,
    frame_offset: usize,
    block: &Block,
    scope: &Scope,
    depth: usize,
) -> (r: (bool, usize))
    requires
        scope.wf(),
    ensures
        final(output).spec_code() == old(output).spec_code() + emit_block(
            scope@,
            frame@,
            frame_offset,
            *block,
            depth as nat,
        ).code,
        final(errors)@ == old(errors)@ + emit_block(
            scope@,
            frame@,
            frame_offset,
            *block,
            depth as nat,
        ).errors,
        r.0 == (emit_block(scope@, frame@, frame_offset, *block, depth as nat).errors.len() > 0),
        r.1 == emit_block(scope@, frame@, frame_offset, *block, depth as nat).offset,
    decreases depth, 0nat,
{
    let ghost code0 = output.spec_code();
    let ghost errors0 = errors@;
    let errors_start = errors.len();
    let mut offset = frame_offset;
    let mut loop_stack: Vec<usize> = Vec::new();
    let mut i: usize = 0;
    while i < block.instructions.len()
        invariant
            scope.wf(),
            0 <= i <= block.instructions@.len(),
            code0 == old(output).spec_code(),
            errors0 == old(errors)@,
            errors_start == errors0.len(),
            output.spec_code() == code0 + block_prefix(
                scope@,
                frame@,
                frame_offset,
                *block,
                depth as nat,
                i as int,
            ).code,
            errors@ == errors0 + block_prefix(
                scope@,
                frame@,
                frame_offset,
                *block,
                depth as nat,
                i as int,
            ).errors,
            offset == block_prefix(scope@, frame@, frame_offset, *block, depth as nat, i as int).offset,
            loop_stack@ == block_prefix(
                scope@,
                frame@,
                frame_offset,
                *block,
                depth as nat,
                i as int,
            ).stack,
        decreases block.instructions@.len() - i,
    {
        let instruction = &block.instructions[i];
        match atom_of(instruction, false) {
            Some(op) => {
                output.push(op);
            },
            None => match instruction {
                Instruction::OpenLoop(_) => {
                    loop_stack.push(offset);
                    output.push(Op::OpenLoop);
                },
                Instruction::CloseLoop(span) => {
                    match loop_stack.pop() {
                        Some(start) => {
                            if start != offset {
                                report(errors, &block.file_path, *span, ErrorKind::LoopMismatch);
                            }
                        },
                        None => {
                            report(
                                errors,
                                &block.file_path,
                                *span,
                                ErrorKind::TooManyClosingBrackets,
                            );
                        },
                    }
                    output.push(Op::CloseLoop);
                },
                Instruction::Left(span) => {
                    report(errors, &block.file_path, *span, ErrorKind::RawMotion);
                },
                Instruction::Right(span) => {
                    report(errors, &block.file_path, *span, ErrorKind::RawMotion);
                },
                Instruction::MovingBlock(inner) => {
                    if depth == 0 {
                        report(errors, &block.file_path, inner.span, ErrorKind::TooDeep);
                    } else {
                        evaluate_moving_block(output, errors, inner, scope, depth - 1);
                    }
                },
                Instruction::Using(using) => {
                    if depth == 0 {
                        report(errors, &block.file_path, using.frame.span, ErrorKind::TooDeep);
                    } else {
                        let (_, using_offset) = evaluate_using(
                            output,
                            errors,
                            using,
                            scope,
                            depth - 1,
                        );
                        if using_offset > usize::MAX - offset {
                            report(
                                errors,
                                &block.file_path,
                                using.frame.span,
                                ErrorKind::OffsetTooLarge,
                            );
                        } else {
                            offset = offset + using_offset;
                        }
                    }
                },
                Instruction::Variable(variable) => {
                    match frame.lookup(variable.as_slice()) {
                        Err(e) => {
                            errors.push(Diagnostic { file_path: copy_path(&block.file_path), error: e });
                        },
                        Ok(Lookup::Slot(target)) => {
                            emit_motion(output, offset, target);
                            offset = target;
                        },
                        Ok(Lookup::Block(argument_block, captured)) => {
                            if depth == 0 {
                                let span = if variable.len() == 0 {
                                    (0, 0)
                                } else {
                                    variable_span(variable)
                                };
                                report(errors, &block.file_path, span, ErrorKind::TooDeep);
                            } else {
                                let (_, block_offset) = evaluate(
                                    output,
                                    errors,
                                    captured,
                                    offset,
                                    argument_block,
                                    scope,
                                    depth - 1,
                                );
                                offset = block_offset;
                            }
                        },
                    }
                },
                Instruction::MacroInvoke(name, arguments) => {
                    match scope.macro_(name.value.as_str()) {
                        None => {
                            report(
                                errors,
                                &block.file_path,
                                name.span,
                                ErrorKind::UnknownMacro(name.value.clone()),
                            );
                        },
                        Some(macro_) => {
                            match frame.macro_frame(
                                &macro_.name,
                                macro_.parameters.as_slice(),
                                arguments.as_slice(),
                            ) {
                                Err(e) => {
                                    errors.push(
                                        Diagnostic { file_path: copy_path(&block.file_path), error: e },
                                    );
                                },
                                Ok(body_frame) => {
                                    if depth == 0 {
                                        report(errors, &block.file_path, name.span, ErrorKind::TooDeep);
                                    } else {
                                        let (_, macro_offset) = evaluate(
                                            output,
                                            errors,
                                            &body_frame,
                                            offset,
                                            &macro_.block,
                                            scope,
                                            depth - 1,
                                        );
                                        offset = macro_offset;
                                    }
                                },
                            }
                        },
                    }
                },
                _ => {},
            },
        }
        proof {
            let w2 = block_prefix(scope@, frame@, frame_offset, *block, depth as nat, i as int + 1);
            assert(output.spec_code() =~= code0 + w2.code);
            assert(errors@ =~= errors0 + w2.errors);
        }
        i += 1;
    }
    if loop_stack.len() > 0 {
        report(errors, &block.file_path, block.span, ErrorKind::TooManyOpenBrackets);
    }
    proof {
        let e = emit_block(scope@, frame@, frame_offset, *block, depth as nat);
        assert(errors@ =~= errors0 + e.errors);
    }
    (errors.len() > errors_start, offset)
}

/// Emits a `using` region: its block in a fresh frame, from position 0.
/// Returns whether any error was reported and the position at its end.
fn evaluate_using(
    output: &mut BF,
    errors: &mut Vec<Diagnostic>,
    using: &Using,
    scope: &Scope,
    depth: usize,
) -> (r: (bool, usize))
    requires
        scope.wf(),
    ensures
        final(output).spec_code() == old(output).spec_code() + using_emission(
            scope@,
            *using,
            depth as nat,
        ).code,
        final(errors)@ == old(errors)@ + using_emission(scope@, *using, depth as nat).errors,
        r.0 == (using_emission(scope@, *using, depth as nat).errors.len() > 0),
        r.1 == using_emission(scope@, *using, depth as nat).offset,
    decreases depth, 1nat,
{
    match scope.frame_definition(using.frame.value.as_str()) {
        None => {
            report(
                errors,
                &using.block.file_path,
                using.frame.span,
                ErrorKind::UnknownFrame(using.frame.value.clone()),
            );
            assert(output.spec_code() =~= old(output).spec_code() + Seq::<Op>::empty());
            (true, 0)
        },
        Some(definition) => match Frame::from_definition(definition, scope) {
            Err(e) => {
                errors.push(Diagnostic { file_path: copy_path(&using.block.file_path), error: e });
                assert(output.spec_code() =~= old(output).spec_code() + Seq::<Op>::empty());
                (true, 0)
            },
            Ok(frame) => evaluate(output, errors, &frame, 0, &using.block, scope, depth),
        },
    }
}

/// Emits each `using` region of a program on its own, from position 0 of its
/// frame, one after another. Returns the code and every error reported.
/// Macro calls, block arguments, moving blocks and nested regions nest at
/// most `MAX_DEPTH` deep; deeper nesting is reported as an error.
pub fn evaluate_program(usings: &Vec<Using>, scope: &Scope) -> (r: (BF, Vec<Diagnostic>))
    requires
        scope.wf(),
    ensures
        r.0.spec_code() == program_emission(scope@, usings@, usings@.len() as int).0,
        r.1@ == program_emission(scope@, usings@, usings@.len() as int).1,
{
    let mut output = BF::new();
    let mut errors: Vec<Diagnostic> = Vec::new();
    let mut i: usize = 0;
    while i < usings.len()
        invariant
            scope.wf(),
            0 <= i <= usings@.len(),
            output.spec_code() == program_emission(scope@, usings@, i as int).0,
            errors@ == program_emission(scope@, usings@, i as int).1,
        decreases usings@.len() - i,
    {
        evaluate_using(&mut output, &mut errors, &usings[i], scope, MAX_DEPTH);
        i += 1;
    }
    (output, errors)
}

/// A moving block leaves the tracked tape position where it was: after it the
/// emitter believes the pointer is where it stood before it.
pub proof fn law_moving_block_keeps_offset(
    scope: ScopeView,
    frame: FrameM,
    start: usize,
    block: Block,
    depth: nat,
    n: int,
)
    requires
        0 < n <= block.instructions@.len(),
        block.instructions@[n - 1] is MovingBlock,
    ensures
        block_prefix(scope, frame, start, block, depth, n).offset == block_prefix(
            scope,
            frame,
            start,
            block,
            depth,
            n - 1,
        ).offset,
        block_prefix(scope, frame, start, block, depth, n).stack == block_prefix(
            scope,
            frame,
            start,
            block,
            depth,
            n - 1,
        ).stack,
{
}

/// A macro call emits exactly what its body emits in the frame that binds
/// its parameters to the call's arguments, from the position of the call, and
/// the position after the call is the position after that body.
pub proof fn law_macro_call_is_body_inlined(
    scope: ScopeView,
    frame: FrameM,
    start: usize,
    block: Block,
    depth: nat,
    n: int,
)
    requires
        0 < n <= block.instructions@.len(),
        block.instructions@[n - 1] is MacroInvoke,
        depth > 0,
        macro_of(scope, block.instructions@[n - 1]->MacroInvoke_0.value@) is Some,
        macro_frame_of(
            frame,
            macro_of(scope, block.instructions@[n - 1]->MacroInvoke_0.value@)->Some_0.name,
            macro_of(scope, block.instructions@[n - 1]->MacroInvoke_0.value@)->Some_0.parameters@,
            block.instructions@[n - 1]->MacroInvoke_1@,
        ) is Ok,
    ensures
        ({
            let m = macro_of(scope, block.instructions@[n - 1]->MacroInvoke_0.value@)->Some_0;
            let body_frame = macro_frame_of(
                frame,
                m.name,
                m.parameters@,
                block.instructions@[n - 1]->MacroInvoke_1@,
            )->Ok_0;
            let before = block_prefix(scope, frame, start, block, depth, n - 1);
            let after = block_prefix(scope, frame, start, block, depth, n);
            let body = emit_block(scope, body_frame, before.offset, m.block, (depth - 1) as nat);
            &&& after.code == before.code + body.code
            &&& after.offset == body.offset
            &&& after.errors == before.errors + body.errors
            &&& after.stack == before.stack
        }),
{
}

/// Top-level `using` regions are independent: the code and errors of two runs
/// of regions one after the other are those of each run, concatenated; each
/// region starts at position 0 of its frame.
pub proof fn law_usings_independent(scope: ScopeView, first: Seq<Using>, second: Seq<Using>)
    ensures
        program_emission(scope, first + second, (first + second).len() as int) == (
            program_emission(scope, first, first.len() as int).0 + program_emission(
                scope,
                second,
                second.len() as int,
            ).0,
            program_emission(scope, first, first.len() as int).1 + program_emission(
                scope,
                second,
                second.len() as int,
            ).1,
        ),
    decreases second.len(),
{
    let all = first + second;
    if second.len() == 0 {
        assert(all =~= first);
        assert(program_emission(scope, second, 0) == (Seq::<Op>::empty(), Seq::<Diagnostic>::empty()));
        let (c, e) = program_emission(scope, first, first.len() as int);
        assert(c + Seq::<Op>::empty() =~= c);
        assert(e + Seq::<Diagnostic>::empty() =~= e);
    } else {
        let shorter = second.drop_last();
        law_usings_independent(scope, first, shorter);
        assert(all.take(all.len() - 1) =~= (first + shorter).take(all.len() - 1));
        lemma_program_emission_prefix(scope, all, first + shorter, all.len() - 1);
        assert(all[all.len() - 1] == second[second.len() - 1]);
        assert(second.take(shorter.len() as int) =~= shorter.take(shorter.len() as int));
        lemma_program_emission_prefix(scope, second, shorter, shorter.len() as int);
        let (c1, e1) = program_emission(scope, first, first.len() as int);
        let (c2, e2) = program_emission(scope, shorter, shorter.len() as int);
        let u = using_emission(scope, second.last(), MAX_DEPTH as nat);
        assert((c1 + c2) + u.code =~= c1 + (c2 + u.code));
        assert((e1 + e2) + u.errors =~= e1 + (e2 + u.errors));
    }
}

/// The emission of a program's first `n` regions depends on those regions alone.
proof fn lemma_program_emission_prefix(scope: ScopeView, a: Seq<Using>, b: Seq<Using>, n: int)
    requires
        0 <= n <= a.len(),
        n <= b.len(),
        a.take(n) == b.take(n),
    ensures
        program_emission(scope, a, n) == program_emission(scope, b, n),
    decreases n,
{
    if n > 0 {
        assert(a.take(n - 1) == a.take(n).take(n - 1));
        assert(b.take(n - 1) == b.take(n).take(n - 1));
        assert(a[n - 1] == a.take(n)[n - 1]);
        assert(b[n - 1] == b.take(n)[n - 1]);
        lemma_program_emission_prefix(scope, a, b, n - 1);
    }
}

/// `[` minus `]` in a stretch of code.
pub open spec fn bracket_depth(code: Seq<Op>) -> int
    decreases code.len(),
{
    if code.len() == 0 {
        0
    } else {
        bracket_depth(code.drop_last()) + match code.last() {
            Op::OpenLoop => 1int,
            Op::CloseLoop => -1int,
            _ => 0int,
        }
    }
}

/// The lowest bracket depth reached by any prefix of the code.
pub open spec fn lowest_depth(code: Seq<Op>) -> int
    decreases code.len(),
{
    if code.len() == 0 {
        0
    } else {
        let rest = lowest_depth(code.drop_last());
        let here = bracket_depth(code);
        if here < rest {
            here
        } else {
            rest
        }
    }
}

/// Every `[` has its `]` and no `]` comes before its `[`.
pub open spec fn balanced(code: Seq<Op>) -> bool {
    bracket_depth(code) == 0 && lowest_depth(code) >= 0
}

proof fn lemma_concat(a: Seq<Op>, b: Seq<Op>)
    ensures
        net(a + b) == net(a) + net(b),
        motions(a + b) == motions(a) + motions(b),
        bracket_depth(a + b) == bracket_depth(a) + bracket_depth(b),
        lowest_depth(a + b) == (if bracket_depth(a) + lowest_depth(b) < lowest_depth(a) {
            bracket_depth(a) + lowest_depth(b)
        } else {
            lowest_depth(a)
        }),
    decreases b.len(),
{
    if b.len() == 0 {
        assert(a + b =~= a);
    } else {
        lemma_concat(a, b.drop_last());
        assert((a + b).drop_last() =~= a + b.drop_last());
        assert((a + b).last() == b.last());
    }
}

proof fn lemma_push(a: Seq<Op>, op: Op)
    ensures
        motions(a.push(op)) == motions(a) + (if op == Op::Left || op == Op::Right {
            1nat
        } else {
            0nat
        }),
        net(a.push(op)) == net(a) + (if op == Op::Right {
            1int
        } else if op == Op::Left {
            -1int
        } else {
            0int
        }),
        bracket_depth(a.push(op)) == bracket_depth(a) + (if op == Op::OpenLoop {
            1int
        } else if op == Op::CloseLoop {
            -1int
        } else {
            0int
        }),
        lowest_depth(a.push(op)) == (if bracket_depth(a.push(op)) < lowest_depth(a) {
            bracket_depth(a.push(op))
        } else {
            lowest_depth(a)
        }),
{
    assert(a.push(op).drop_last() =~= a);
    assert(a.push(op).last() == op);
}

proof fn lemma_motion(from: usize, to: usize)
    ensures
        net(motion(from, to)) == to - from,
        motions(motion(from, to)) == distance(from, to),
        bracket_depth(motion(from, to)) == 0,
        lowest_depth(motion(from, to)) == 0,
{
    if to >= from {
        lemma_run(Op::Right, (to - from) as nat);
    } else {
        lemma_run(Op::Left, (from - to) as nat);
    }
}

proof fn lemma_run(op: Op, k: nat)
    requires
        op == Op::Right || op == Op::Left,
    ensures
        net(Seq::new(k, |_i: int| op)) == (if op == Op::Right { k as int } else { -k }),
        motions(Seq::new(k, |_i: int| op)) == k,
        bracket_depth(Seq::new(k, |_i: int| op)) == 0,
        lowest_depth(Seq::new(k, |_i: int| op)) == 0,
    decreases k,
{
    if k > 0 {
        lemma_run(op, (k - 1) as nat);
        assert(Seq::new(k, |_i: int| op).drop_last() =~= Seq::new((k - 1) as nat, |_i: int| op));
    }
}

/// Moving-mode emission without errors: its brackets are balanced.
proof fn lemma_moving_prefix_balanced(scope: ScopeView, block: Block, depth: nat, n: int)
    requires
        0 <= n <= block.instructions@.len(),
        moving_prefix(scope, block, depth, n).errors.len() == 0,
    ensures
        bracket_depth(moving_prefix(scope, block, depth, n).code) == moving_prefix(
            scope,
            block,
            depth,
            n,
        ).open,
        lowest_depth(moving_prefix(scope, block, depth, n).code) >= 0,
    decreases depth, n,
{
    if n > 0 {
        let w = moving_prefix(scope, block, depth, n - 1);
        let w2 = moving_prefix(scope, block, depth, n);
        let instruction = block.instructions@[n - 1];
        assert(w.errors.len() <= w2.errors.len()) by {
            match atom(instruction, true) {
                Some(op) => {},
                None => match instruction {
                    Instruction::MovingBlock(b) => if depth > 0 {
                        let m = moving(scope, b, (depth - 1) as nat);
                        assert((w.errors + m.errors).len() == w.errors.len() + m.errors.len());
                    },
                    Instruction::Using(u) => if depth > 0 {
                        let e = using_emission(scope, u, (depth - 1) as nat);
                        assert((w.errors + e.errors).len() == w.errors.len() + e.errors.len());
                    },
                    _ => {},
                },
            }
        }
        lemma_moving_prefix_balanced(scope, block, depth, n - 1);
        match atom(instruction, true) {
            Some(op) => {
                lemma_push(w.code, op);
            },
            None => match instruction {
                Instruction::OpenLoop(_) => {
                    lemma_push(w.code, Op::OpenLoop);
                },
                Instruction::CloseLoop(_) => {
                    lemma_push(w.code, Op::CloseLoop);
                },
                Instruction::MovingBlock(b) => if depth > 0 {
                    let m = moving(scope, b, (depth - 1) as nat);
                    assert((w.errors + m.errors).len() == w.errors.len() + m.errors.len());
                    lemma_moving_balanced(scope, b, (depth - 1) as nat);
                    lemma_concat(w.code, m.code);
                },
                Instruction::Using(u) => if depth > 0 {
                    let e = using_emission(scope, u, (depth - 1) as nat);
                    assert((w.errors + e.errors).len() == w.errors.len() + e.errors.len());
                    lemma_using_tracks(scope, u, (depth - 1) as nat);
                    lemma_concat(w.code, e.code);
                },
                _ => {},
            },
        }
    }
}

proof fn lemma_moving_balanced(scope: ScopeView, block: Block, depth: nat)
    requires
        moving(scope, block, depth).errors.len() == 0,
    ensures
        balanced(moving(scope, block, depth).code),
    decreases depth, block.instructions@.len() + 1,
{
    lemma_moving_prefix_balanced(scope, block, depth, block.instructions@.len() as int);
}

/// Frame-aware emission without errors: the position moved by exactly the
/// net motion written outside moving blocks, and the brackets opened are those
/// still on the loop stack.
proof fn lemma_prefix_tracks(
    scope: ScopeView,
    frame: FrameM,
    start: usize,
    block: Block,
    depth: nat,
    n: int,
)
    requires
        0 <= n <= block.instructions@.len(),
        block_prefix(scope, frame, start, block, depth, n).errors.len() == 0,
    ensures
        ({
            let w = block_prefix(scope, frame, start, block, depth, n);
            &&& w.offset - start == net(w.code) - w.moved
            &&& bracket_depth(w.code) == w.stack.len()
            &&& lowest_depth(w.code) >= 0
        }),
    decreases depth, n,
{
    if n > 0 {
        let w = block_prefix(scope, frame, start, block, depth, n - 1);
        let w2 = block_prefix(scope, frame, start, block, depth, n);
        let instruction = block.instructions@[n - 1];
        assert(w.errors.len() <= w2.errors.len()) by {
            match atom(instruction, false) {
                Some(op) => {},
                None => match instruction {
                    Instruction::MovingBlock(b) => if depth > 0 {
                        let m = moving(scope, b, (depth - 1) as nat);
                        assert((w.errors + m.errors).len() == w.errors.len() + m.errors.len());
                    },
                    Instruction::Using(u) => if depth > 0 {
                        let e = using_emission(scope, u, (depth - 1) as nat);
                        assert((w.errors + e.errors).len() == w.errors.len() + e.errors.len());
                    },
                    Instruction::Variable(v) => match lookup_of(frame, v@) {
                        Ok(LookupM::Block(b, fr)) => if depth > 0 {
                            let e = emit_block(scope, fr, w.offset, b, (depth - 1) as nat);
                            assert((w.errors + e.errors).len() == w.errors.len() + e.errors.len());
                        },
                        _ => {},
                    },
                    Instruction::MacroInvoke(name, arguments) => match macro_of(scope, name.value@) {
                        Some(m) => match macro_frame_of(frame, m.name, m.parameters@, arguments@) {
                            Ok(body_frame) => if depth > 0 {
                                let e = emit_block(scope, body_frame, w.offset, m.block, (depth - 1) as nat);
                                assert((w.errors + e.errors).len() == w.errors.len() + e.errors.len());
                            },
                            _ => {},
                        },
                        _ => {},
                    },
                    _ => {},
                },
            }
        }
        lemma_prefix_tracks(scope, frame, start, block, depth, n - 1);
        match atom(instruction, false) {
            Some(op) => {
                lemma_push(w.code, op);
            },
            None => match instruction {
                Instruction::OpenLoop(_) => {
                    lemma_push(w.code, Op::OpenLoop);
                },
                Instruction::CloseLoop(_) => {
                    lemma_push(w.code, Op::CloseLoop);
                },
                Instruction::MovingBlock(b) => if depth > 0 {
                    let m = moving(scope, b, (depth - 1) as nat);
                    assert((w.errors + m.errors).len() == w.errors.len() + m.errors.len());
                    lemma_concat(w.code, m.code);
                    lemma_moving_balanced(scope, b, (depth - 1) as nat);
                },
                Instruction::Using(u) => if depth > 0 {
                    let e = using_emission(scope, u, (depth - 1) as nat);
                    assert((w.errors + e.errors).len() == w.errors.len() + e.errors.len());
                    lemma_concat(w.code, e.code);
                    lemma_using_tracks(scope, u, (depth - 1) as nat);
                },
                Instruction::Variable(v) => match lookup_of(frame, v@) {
                    Ok(LookupM::Slot(target)) => {
                        lemma_concat(w.code, motion(w.offset, target));
                        lemma_motion(w.offset, target);
                    },
                    Ok(LookupM::Block(b, fr)) => if depth > 0 {
                        let e = emit_block(scope, fr, w.offset, b, (depth - 1) as nat);
                        assert((w.errors + e.errors).len() == w.errors.len() + e.errors.len());
                        lemma_concat(w.code, e.code);
                        lemma_block_tracks(scope, fr, w.offset, b, (depth - 1) as nat);
                    },
                    _ => {},
                },
                Instruction::MacroInvoke(name, arguments) => match macro_of(scope, name.value@) {
                    Some(m) => match macro_frame_of(frame, m.name, m.parameters@, arguments@) {
                        Ok(body_frame) => if depth > 0 {
                            let e = emit_block(scope, body_frame, w.offset, m.block, (depth - 1) as nat);
                            assert((w.errors + e.errors).len() == w.errors.len() + e.errors.len());
                            lemma_concat(w.code, e.code);
                            lemma_block_tracks(scope, body_frame, w.offset, m.block, (depth - 1) as nat);
                        },
                        _ => {},
                    },
                    _ => {},
                },
                _ => {},
            },
        }
    }
}

proof fn lemma_block_tracks(scope: ScopeView, frame: FrameM, start: usize, block: Block, depth: nat)
    requires
        emit_block(scope, frame, start, block, depth).errors.len() == 0,
    ensures
        ({
            let e = emit_block(scope, frame, start, block, depth);
            &&& e.offset - start == net(e.code) - e.moved
            &&& balanced(e.code)
        }),
    decreases depth, block.instructions@.len() + 1,
{
    lemma_prefix_tracks(scope, frame, start, block, depth, block.instructions@.len() as int);
}

proof fn lemma_using_tracks(scope: ScopeView, using: Using, depth: nat)
    requires
        using_emission(scope, using, depth).errors.len() == 0,
    ensures
        ({
            let e = using_emission(scope, using, depth);
            &&& e.offset == net(e.code) - e.moved
            &&& balanced(e.code)
        }),
    decreases depth, using.block.instructions@.len() + 2,
{
    match frame_of(scope, using.frame.value@) {
        None => {},
        Some(def) => match frame_from_definition(scope, def) {
            Err(_) => {},
            Ok(frame) => {
                lemma_block_tracks(scope, frame, 0, using.block, depth);
            },
        },
    }
}

/// In an emission without errors the tape position the emitter ends at is
/// where it started plus the `>` minus the `<` it wrote, apart from those
/// written inside moving blocks (whose net motion is `moved`, zero when each
/// moving block returns the pointer where it found it).
pub proof fn law_offset_is_net_motion(scope: ScopeView, frame: FrameM, start: usize, block: Block, depth: nat)
    requires
        emit_block(scope, frame, start, block, depth).errors.len() == 0,
    ensures
        emit_block(scope, frame, start, block, depth).offset - start == net(
            emit_block(scope, frame, start, block, depth).code,
        ) - emit_block(scope, frame, start, block, depth).moved,
{
    lemma_block_tracks(scope, frame, start, block, depth);
}

/// In an emission without errors every `[` has a matching `]` after it, and
/// no `]` comes before its `[`. (That a `]` is reached at the position of its
/// `[` is checked by the emitter itself: otherwise it reports an error.)
pub proof fn law_brackets_balanced(scope: ScopeView, frame: FrameM, start: usize, block: Block, depth: nat)
    requires
        emit_block(scope, frame, start, block, depth).errors.len() == 0,
    ensures
        balanced(emit_block(scope, frame, start, block, depth).code),
{
    lemma_block_tracks(scope, frame, start, block, depth);
}

proof fn lemma_moving_prefix_motions(scope: ScopeView, block: Block, depth: nat, n: int)
    requires
        0 <= n <= block.instructions@.len(),
    ensures
        motions(moving_prefix(scope, block, depth, n).code) == moving_prefix(
            scope,
            block,
            depth,
            n,
        ).travel + moving_prefix(scope, block, depth, n).raw,
    decreases depth, n,
{
    if n > 0 {
        let w = moving_prefix(scope, block, depth, n - 1);
        let instruction = block.instructions@[n - 1];
        lemma_moving_prefix_motions(scope, block, depth, n - 1);
        match atom(instruction, true) {
            Some(op) => {
                lemma_push(w.code, op);
            },
            None => match instruction {
                Instruction::OpenLoop(_) => {
                    lemma_push(w.code, Op::OpenLoop);
                },
                Instruction::CloseLoop(_) => {
                    lemma_push(w.code, Op::CloseLoop);
                },
                Instruction::MovingBlock(b) => if depth > 0 {
                    let m = moving(scope, b, (depth - 1) as nat);
                    lemma_concat(w.code, m.code);
                    lemma_moving_prefix_motions(scope, b, (depth - 1) as nat, b.instructions@.len() as int);
                },
                Instruction::Using(u) => if depth > 0 {
                    let e = using_emission(scope, u, (depth - 1) as nat);
                    lemma_concat(w.code, e.code);
                    lemma_using_motions(scope, u, (depth - 1) as nat);
                },
                _ => {},
            },
        }
    }
}

proof fn lemma_prefix_motions(
    scope: ScopeView,
    frame: FrameM,
    start: usize,
    block: Block,
    depth: nat,
    n: int,
)
    requires
        0 <= n <= block.instructions@.len(),
    ensures
        motions(block_prefix(scope, frame, start, block, depth, n).code) == block_prefix(
            scope,
            frame,
            start,
            block,
            depth,
            n,
        ).travel + block_prefix(scope, frame, start, block, depth, n).raw,
    decreases depth, n,
{
    if n > 0 {
        let w = block_prefix(scope, frame, start, block, depth, n - 1);
        let instruction = block.instructions@[n - 1];
        lemma_prefix_motions(scope, frame, start, block, depth, n - 1);
        match atom(instruction, false) {
            Some(op) => {
                lemma_push(w.code, op);
            },
            None => match instruction {
                Instruction::OpenLoop(_) => {
                    lemma_push(w.code, Op::OpenLoop);
                },
                Instruction::CloseLoop(_) => {
                    lemma_push(w.code, Op::CloseLoop);
                },
                Instruction::MovingBlock(b) => if depth > 0 {
                    let m = moving(scope, b, (depth - 1) as nat);
                    lemma_concat(w.code, m.code);
                    lemma_moving_prefix_motions(scope, b, (depth - 1) as nat, b.instructions@.len() as int);
                },
                Instruction::Using(u) => if depth > 0 {
                    let e = using_emission(scope, u, (depth - 1) as nat);
                    lemma_concat(w.code, e.code);
                    lemma_using_motions(scope, u, (depth - 1) as nat);
                },
                Instruction::Variable(v) => match lookup_of(frame, v@) {
                    Ok(LookupM::Slot(target)) => {
                        lemma_concat(w.code, motion(w.offset, target));
                        lemma_motion(w.offset, target);
                    },
                    Ok(LookupM::Block(b, fr)) => if depth > 0 {
                        let e = emit_block(scope, fr, w.offset, b, (depth - 1) as nat);
                        lemma_concat(w.code, e.code);
                        lemma_prefix_motions(scope, fr, w.offset, b, (depth - 1) as nat, b.instructions@.len() as int);
                    },
                    _ => {},
                },
                Instruction::MacroInvoke(name, arguments) => match macro_of(scope, name.value@) {
                    Some(m) => match macro_frame_of(frame, m.name, m.parameters@, arguments@) {
                        Ok(body_frame) => if depth > 0 {
                            let e = emit_block(scope, body_frame, w.offset, m.block, (depth - 1) as nat);
                            lemma_concat(w.code, e.code);
                            lemma_prefix_motions(
                                scope,
                                body_frame,
                                w.offset,
                                m.block,
                                (depth - 1) as nat,
                                m.block.instructions@.len() as int,
                            );
                        },
                        _ => {},
                    },
                    _ => {},
                },
                _ => {},
            },
        }
    }
}

proof fn lemma_using_motions(scope: ScopeView, using: Using, depth: nat)
    ensures
        motions(using_emission(scope, using, depth).code) == using_emission(scope, using, depth).travel
            + using_emission(scope, using, depth).raw,
    decreases depth, using.block.instructions@.len() + 2,
{
    match frame_of(scope, using.frame.value@) {
        None => {},
        Some(def) => match frame_from_definition(scope, def) {
            Err(_) => {},
            Ok(frame) => {
                lemma_prefix_motions(scope, frame, 0, using.block, depth, using.block.instructions@.len() as int);
            },
        },
    }
}

/// Every `<` and `>` the emitter writes comes from one of two places: moving
/// between slots in frame-aware mode (`travel` counts the cells crossed, the
/// shortest way each time) or a `<` or `>` written inside a moving block
/// (`raw`), directly or through macro bodies, block arguments and nested
/// regions; no other construct writes any.
pub proof fn law_motion_sources(scope: ScopeView, frame: FrameM, start: usize, block: Block, depth: nat)
    ensures
        motions(emit_block(scope, frame, start, block, depth).code) == emit_block(
            scope,
            frame,
            start,
            block,
            depth,
        ).travel + emit_block(scope, frame, start, block, depth).raw,
{
    lemma_prefix_motions(scope, frame, start, block, depth, block.instructions@.len() as int);
}

/// In frame-aware mode a `[` records the tape position it was written at,
/// and a `]` that reports no error is written at the very position its `[`
/// recorded: the net motion between them is zero.
pub proof fn law_loop_closes_where_it_opened(
    scope: ScopeView,
    frame: FrameM,
    start: usize,
    block: Block,
    depth: nat,
    n: int,
)
    requires
        0 < n <= block.instructions@.len(),
        block_prefix(scope, frame, start, block, depth, n).errors.len() == block_prefix(
            scope,
            frame,
            start,
            block,
            depth,
            n - 1,
        ).errors.len(),
    ensures
        block.instructions@[n - 1] is OpenLoop ==> block_prefix(
            scope,
            frame,
            start,
            block,
            depth,
            n,
        ).stack == block_prefix(scope, frame, start, block, depth, n - 1).stack.push(
            block_prefix(scope, frame, start, block, depth, n - 1).offset,
        ),
        block.instructions@[n - 1] is CloseLoop ==> {
            let before = block_prefix(scope, frame, start, block, depth, n - 1);
            &&& before.stack.len() > 0
            &&& before.stack.last() == before.offset
        },
{
}

} // verus!
