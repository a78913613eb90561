use bfmacro::ast::{Definition, Instruction as Node};
use bfmacro::bf::{Instruction, BF};
use bfmacro::error::{Diagnostic, ErrorKind};
use bfmacro::evaluate::evaluate_program;
use bfmacro::parser::parse_program;
use bfmacro::scope::Scope;
use bfmacro::simplify::simplify_program;

fn emit(source: &str) -> (BF, Vec<Diagnostic>) {
    let mut program = match parse_program(source) {
        Ok(program) => program,
        Err(e) => panic!("parse error at {:?}", e.span),
    };
    let mut scope = Scope::new();
    let usings = match scope.add_program(&mut program) {
        Ok((_, usings)) => usings,
        Err(e) => panic!("scope error at {:?}", e.span),
    };
    evaluate_program(&usings, &scope)
}

fn compile(source: &str) -> String {
    let (bf, errors) = emit(source);
    assert!(errors.is_empty(), "unexpected errors: {}", errors.len());
    String::from_utf8(simplify_program(&bf).write()).unwrap()
}

fn raw(source: &str) -> String {
    let (bf, errors) = emit(source);
    assert!(errors.is_empty(), "unexpected errors: {}", errors.len());
    let text = String::from_utf8(bf.write()).unwrap();
    text.trim_end_matches('\n').to_string()
}

fn error_kinds(source: &str) -> Vec<ErrorKind> {
    emit(source).1.into_iter().map(|d| d.error.kind).collect()
}

#[test]
fn minimum_access() {
    let source = "frame F { a b c }\nusing F { b }";
    assert_eq!(raw(source), ">");
    assert_eq!(compile(source), ">\n");
}

#[test]
fn move_within_frame() {
    assert_eq!(compile("frame F { a b c }\nusing F { c + a - }"), ">>+<<-\n");
}

#[test]
fn loop_discipline_valid() {
    assert_eq!(compile("frame F { x y }\nusing F { x [ - ] }"), "[-]\n");
}

#[test]
fn loop_discipline_invalid() {
    let kinds = error_kinds("frame F { x y }\nusing F { x [ y - ] }");
    assert_eq!(kinds.len(), 1);
    assert!(matches!(kinds[0], ErrorKind::LoopMismatch));
}

#[test]
fn block_argument_captures_caller_frame() {
    let source = "frame F { a b }\nmacro twice(block body) { body body }\nusing F { twice({ a + b + }) }";
    // The block runs against the caller's frame each time: the first run ends
    // at `b`, so the second starts by moving back to `a`.
    assert_eq!(raw(source), "+>+<+>+");
}

#[test]
fn sub_frame_access() {
    let source = "frame Pair { x y }\nframe Wrap { p : Pair q }\nusing Wrap { p.y + q - }";
    assert_eq!(raw(source), ">+>-");
}

#[test]
fn empty_program_is_a_newline() {
    assert_eq!(compile(""), "\n");
}

#[test]
fn macro_without_parameters() {
    let source = "frame F { a }\nmacro bump() { + + }\nusing F { bump() bump() }";
    assert_eq!(compile(source), "++++\n");
}

#[test]
fn deeply_nested_sub_frame_path() {
    let source = "frame A { p q }\nframe B { z a : A }\nframe C { y b : B }\nframe D { x c : C }\nusing D { c.b.a.q + }";
    // x=0, c=1: y=1, b=2: z=2, a=3: p=3, q=4
    assert_eq!(raw(source), ">>>>+");
}

#[test]
fn nested_using_switches_frames() {
    let source = "frame F { a b }\nframe G { x y z }\nusing F { b using G { z + } a }";
    // b at 1; inner region starts where the pointer is and ends at z (2), so
    // the outer position becomes 1 + 2 = 3; then a (0) is 3 cells left.
    assert_eq!(raw(source), ">>>+<<<");
}

#[test]
fn moving_block_is_transparent() {
    let source = "frame F { a b }\nusing F { b moving { >>> <<< } a }";
    assert_eq!(raw(source), ">>>><<<<");
}

#[test]
fn using_regions_start_at_zero() {
    let source = "frame F { a b }\nusing F { b + }\nusing F { b - }";
    assert_eq!(raw(source), ">+>-");
}

#[test]
fn duplicate_include_changes_nothing() {
    let mut once = parse_program("include \"lib.bfm\"\nframe F { a }").ok().unwrap();
    let mut twice =
        parse_program("include \"lib.bfm\"\ninclude \"lib.bfm\"\nframe F { a }").ok().unwrap();
    let mut first = Scope::new();
    let mut second = Scope::new();
    let (paths_once, _) = first.add_program(&mut once).ok().unwrap();
    let (paths_twice, _) = second.add_program(&mut twice).ok().unwrap();
    assert_eq!(paths_once, vec!["lib.bfm".to_string()]);
    assert_eq!(paths_twice, paths_once);
    assert!(first.frame_definition("F").is_some());
    assert!(second.frame_definition("F").is_some());
}

#[test]
fn raw_motion_outside_moving_block_is_reported() {
    let kinds = error_kinds("frame F { a }\nusing F { > }");
    assert!(matches!(kinds.as_slice(), [ErrorKind::RawMotion]));
}

#[test]
fn variable_inside_moving_block_is_reported() {
    let kinds = error_kinds("frame F { a }\nusing F { moving { a } }");
    assert!(matches!(kinds.as_slice(), [ErrorKind::VariableInMovingBlock]));
}

#[test]
fn macro_inside_moving_block_is_reported() {
    let kinds = error_kinds("frame F { a }\nmacro m() { + }\nusing F { moving { m() } }");
    assert!(matches!(kinds.as_slice(), [ErrorKind::MacroInMovingBlock]));
}

#[test]
fn unknown_variable_is_reported() {
    let kinds = error_kinds("frame F { a }\nusing F { b }");
    assert!(matches!(kinds.as_slice(), [ErrorKind::UnknownSymbol(_, _)]));
}

#[test]
fn unknown_macro_is_reported() {
    let kinds = error_kinds("frame F { a }\nusing F { nothing() }");
    assert!(matches!(kinds.as_slice(), [ErrorKind::UnknownMacro(_)]));
}

#[test]
fn unknown_frame_is_reported() {
    let kinds = error_kinds("using Missing { + }");
    assert!(matches!(kinds.as_slice(), [ErrorKind::UnknownFrame(_)]));
}

#[test]
fn wrong_arity_is_reported() {
    let kinds = error_kinds("frame F { a b }\nmacro m(x) { x + }\nusing F { m(a, b) }");
    assert!(matches!(kinds.as_slice(), [ErrorKind::WrongArity(1, 2)]));
}

#[test]
fn block_for_slot_is_reported() {
    let kinds = error_kinds("frame F { a }\nmacro m(x) { x + }\nusing F { m({ + }) }");
    assert!(matches!(kinds.as_slice(), [ErrorKind::BlockForSlot(_)]));
}

#[test]
fn variable_for_block_is_reported() {
    let kinds = error_kinds("frame F { a }\nmacro m(block b) { b }\nusing F { m(a) }");
    assert!(matches!(kinds.as_slice(), [ErrorKind::VariableForBlock(_)]));
}

#[test]
fn sub_frame_parameter_checks_the_frame() {
    let source = "frame P { x }\nframe Q { y }\nframe F { p : P q : Q }\nmacro m(s : P) { s.x + }\nusing F { m(q) }";
    let kinds = error_kinds(source);
    assert!(matches!(kinds.as_slice(), [ErrorKind::WrongSubFrame(_, _)]));
    let good = "frame P { x }\nframe F { a p : P }\nmacro m(s : P) { s.x + }\nusing F { m(p) }";
    assert_eq!(raw(good), ">+");
}

#[test]
fn missing_sub_frame_is_reported() {
    let source = "frame P { x }\nframe F { a }\nmacro m(s : P) { s.x + }\nusing F { m(a) }";
    let kinds = error_kinds(source);
    assert!(matches!(kinds.as_slice(), [ErrorKind::MissingSubFrame(_)]));
}

#[test]
fn dot_after_plain_slot_is_reported() {
    let kinds = error_kinds("frame F { a }\nusing F { a.b }");
    assert!(matches!(kinds.as_slice(), [ErrorKind::NotASubFrame]));
}

#[test]
fn unbalanced_brackets_are_reported() {
    let open = error_kinds("frame F { a }\nusing F { [ }");
    assert!(matches!(open.as_slice(), [ErrorKind::TooManyOpenBrackets]));
    let close = error_kinds("frame F { a }\nusing F { ] }");
    assert!(matches!(close.as_slice(), [ErrorKind::TooManyClosingBrackets]));
    let moving_close = error_kinds("frame F { a }\nusing F { moving { ] } }");
    assert!(matches!(moving_close.as_slice(), [ErrorKind::TooManyClosingBrackets]));
    let moving_open = error_kinds("frame F { a }\nusing F { moving { [ } }");
    assert!(matches!(moving_open.as_slice(), [ErrorKind::TooManyOpenBrackets]));
}

#[test]
fn frame_cycle_is_reported() {
    let direct = error_kinds("frame F { a f : F }\nusing F { a }");
    assert!(matches!(direct.as_slice(), [ErrorKind::FrameCycle(_)]));
    let indirect = error_kinds("frame F { g : G }\nframe G { f : F }\nusing F { + }");
    assert!(matches!(indirect.as_slice(), [ErrorKind::FrameCycle(_)]));
}

#[test]
fn runaway_macro_recursion_is_reported() {
    let kinds = error_kinds("frame F { a }\nmacro m() { m() }\nusing F { m() }");
    assert!(matches!(kinds.as_slice(), [ErrorKind::TooDeep]));
}

#[test]
fn duplicate_definitions_are_fatal() {
    let mut program = parse_program("frame F { a }\nframe F { b }").ok().unwrap();
    let mut scope = Scope::new();
    match scope.add_program(&mut program) {
        Err(e) => assert!(matches!(e.kind, ErrorKind::MultipleDefinitions(_))),
        Ok(_) => panic!("expected an error"),
    }
    let mut macros = parse_program("macro m() { + }\nmacro m() { - }").ok().unwrap();
    let mut scope = Scope::new();
    assert!(scope.add_program(&mut macros).is_err());
}

#[test]
fn comments_and_io_atoms_pass_through() {
    let source = "# a counter\nframe F { a b }\nusing F { b , . # read and echo\n }";
    assert_eq!(raw(source), ">,.");
}

#[test]
fn parser_keeps_spans() {
    let program = parse_program("frame F { a }\nusing F { a [ ] }").ok().unwrap();
    assert_eq!(program.len(), 2);
    match &program[1] {
        Definition::Using(using) => {
            assert_eq!(using.frame.value, "F");
            assert_eq!(using.frame.span, (20, 21));
            assert_eq!(using.block.span, (22, 31));
            assert!(matches!(using.block.instructions[1], Node::OpenLoop((26, 27))));
            assert!(matches!(using.block.instructions[2], Node::CloseLoop((28, 29))));
        }
        _ => panic!("expected a using region"),
    }
}

#[test]
fn parser_rejects_stray_text() {
    assert!(parse_program("frame F { a }\nusing F { ( }").is_err());
    assert!(parse_program("banana").is_err());
    assert!(parse_program("frame F { a").is_err());
}

#[test]
fn emitted_stream_is_plain_bf() {
    let (bf, _) = emit("frame F { a b }\nusing F { b [ - a + b ] }");
    assert_eq!(
        bf.code(),
        &[
            Instruction::Right,
            Instruction::OpenLoop,
            Instruction::Subtract,
            Instruction::Left,
            Instruction::Add,
            Instruction::Right,
            Instruction::CloseLoop,
        ]
    );
}

#[test]
fn macro_call_equals_inlined_body() {
    let called = raw("frame F { a b c }\nmacro m(x, y) { x + y - }\nusing F { m(c, a) b }");
    let inlined = raw("frame F { a b c }\nusing F { c + a - b }");
    assert_eq!(called, inlined);
    assert_eq!(called, ">>+<<->");
}

#[test]
fn offset_follows_net_motion() {
    // After the nested region the emitter believes the pointer is at 1 + 2;
    // moving to `b` (1) then takes exactly two `<`.
    let text = raw("frame F { a b }\nframe G { x y z }\nusing F { b using G { z } b + }");
    let right = text.matches('>').count() as i64;
    let left = text.matches('<').count() as i64;
    assert_eq!(right - left, 1);
    assert_eq!(text, ">>><<+");
}

#[test]
fn motions_come_from_slots_and_moving_blocks() {
    // Three cells to reach `d`, two raw moves, three cells back to `a`.
    let text = raw("frame F { a b c d }\nusing F { d moving { > < } a }");
    assert_eq!(text.matches(|c| c == '<' || c == '>').count(), 3 + 2 + 3);
}

#[test]
fn trivia_only_source_is_empty() {
    assert_eq!(parse_program("  # nothing here\n\n\t# more\n").ok().unwrap().len(), 0);
    assert!(parse_program("# comment\nx").is_err());
}

#[test]
fn missing_sub_frame_definition_is_unknown() {
    let kinds = error_kinds("frame A { x : Missing }\nusing A { }");
    assert!(matches!(kinds.as_slice(), [ErrorKind::UnknownFrame(_)]));
}

#[test]
fn reporting_stops_at_the_first_fatal_error() {
    let (_, errors) = emit("frame F { a }\nmacro m(x) { x }\nusing F { b m() b }");
    assert_eq!(errors.len(), 3);
    assert_eq!(bfmacro::error::fatal_cut(&errors), 2);
    assert!(errors[1].error.kind.is_fatal());
    assert!(!errors[0].error.kind.is_fatal());
    let (_, reported) = emit("frame F { a }\nusing F { b }");
    assert_eq!(bfmacro::error::fatal_cut(&reported), 1);
}

#[test]
fn every_rejected_text_is_an_error_and_every_accepted_one_parses() {
    assert!(parse_program("frame F { a b : G }\nmacro m(x, y : G, block b) { x + b }\nusing F { m(a, b, { moving { < > } }) }\ninclude \"x.bfm\"").is_ok());
    assert!(parse_program("frame F { a").is_err());
    assert!(parse_program("using F { m(a,) }").is_err());
    assert!(parse_program("include x").is_err());
}
