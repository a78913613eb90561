use bfmacro::ast::{
    set_program_file_path, Argument, Block, Definition, FrameDefinition, Identifier, Instruction as Node,
    Parameter, SlotDefinition,
};
use bfmacro::bf::{Instruction, BF};
use bfmacro::error::{argument_span, arguments_span, variable_span, variable_string, ErrorKind};
use bfmacro::frame::{Frame, Lookup};
use bfmacro::parser::parse_program;
use bfmacro::scope::Scope;
use bfmacro::simplify::simplify_program;

fn ident(value: &str, start: usize) -> Identifier {
    Identifier { value: value.to_string(), span: (start, start + value.len()) }
}

fn scope_of(source: &str) -> Scope {
    let mut program = parse_program(source).ok().unwrap();
    let mut scope = Scope::new();
    assert!(scope.add_program(&mut program).is_ok());
    scope
}

fn frame<'a>(scope: &Scope, name: &str) -> Frame<'a> {
    Frame::from_definition(scope.frame_definition(name).unwrap(), scope).ok().unwrap()
}

fn slot_index(frame: &Frame, path: &[Identifier]) -> usize {
    match frame.lookup(path) {
        Ok(Lookup::Slot(index)) => index,
        _ => panic!("expected a slot"),
    }
}

#[test]
fn frame_size_counts_sub_frames() {
    let scope = scope_of("frame Pair { x y }\nframe Wrap { p : Pair q }\nframe Empty { }");
    assert_eq!(frame(&scope, "Pair").size(), 2);
    assert_eq!(frame(&scope, "Wrap").size(), 3);
    assert_eq!(frame(&scope, "Empty").size(), 0);
}

#[test]
fn slots_are_laid_out_in_definition_order() {
    let scope = scope_of("frame Pair { x y }\nframe Wrap { a p : Pair q }");
    let wrap = frame(&scope, "Wrap");
    assert_eq!(slot_index(&wrap, &[ident("a", 0)]), 0);
    assert_eq!(slot_index(&wrap, &[ident("p", 0)]), 1);
    assert_eq!(slot_index(&wrap, &[ident("p", 0), ident("y", 2)]), 2);
    assert_eq!(slot_index(&wrap, &[ident("q", 0)]), 3);
    assert_eq!(wrap.name, "Wrap");
}

#[test]
fn lookup_reports_unknown_names() {
    let scope = scope_of("frame F { a }");
    let f = frame(&scope, "F");
    match f.lookup(&[ident("zz", 7)]) {
        Err(e) => {
            assert_eq!(e.span, (7, 9));
            match e.kind {
                ErrorKind::UnknownSymbol(name, frame) => {
                    assert_eq!(name, "zz");
                    assert_eq!(frame, "F");
                }
                _ => panic!("wrong error"),
            }
        }
        Ok(_) => panic!("expected an error"),
    }
    assert!(matches!(f.lookup(&[]), Err(_)));
}

#[test]
fn macro_frame_binds_slots_and_blocks() {
    let scope = scope_of("frame Pair { x y }\nframe Wrap { a p : Pair }");
    let wrap = frame(&scope, "Wrap");
    let parameters = vec![Parameter::SubFrame(ident("s", 0), ident("Pair", 0)), Parameter::Block(ident("b", 0))];
    let body = Block { instructions: vec![Node::Add], span: (5, 8), file_path: None };
    let arguments = vec![Argument::Variable(vec![ident("p", 0)]), Argument::Block(body)];
    let inner = wrap.macro_frame(&ident("m", 0), &parameters, &arguments).ok().unwrap();
    assert_eq!(slot_index(&inner, &[ident("s", 0), ident("y", 0)]), 2);
    match inner.lookup(&[ident("b", 0)]) {
        Ok(Lookup::Block(block, captured)) => {
            assert_eq!(block.span, (5, 8));
            assert_eq!(captured.name, "Wrap");
        }
        _ => panic!("expected a block"),
    }
    match wrap.macro_frame(&ident("m", 3), &parameters, &[]) {
        Err(e) => {
            assert_eq!(e.span, (3, 4));
            assert!(matches!(e.kind, ErrorKind::WrongArity(2, 0)));
        }
        Ok(_) => panic!("expected an error"),
    }
}

#[test]
fn scope_finds_frames_and_macros() {
    let scope = scope_of("frame F { a }\nmacro m(x) { x }");
    assert_eq!(scope.frame_definition("F").unwrap().slots.len(), 1);
    assert_eq!(scope.macro_("m").unwrap().parameters.len(), 1);
    assert!(scope.frame_definition("G").is_none());
    assert!(scope.macro_("n").is_none());
}

#[test]
fn frame_definition_by_hand() {
    let definition = FrameDefinition {
        name: ident("F", 0),
        slots: vec![SlotDefinition::Variable(ident("a", 0)), SlotDefinition::Variable(ident("b", 0))],
    };
    let mut program = vec![Definition::Frame(definition)];
    let mut scope = Scope::new();
    assert!(scope.add_program(&mut program).is_ok());
    assert!(program.is_empty());
    assert_eq!(frame(&scope, "F").size(), 2);
}

#[test]
fn simplify_folds_runs() {
    let bf = BF::parse(b"+++--><<<>.[-]");
    let simplified = simplify_program(&bf);
    assert_eq!(
        simplified.code(),
        &[
            Instruction::Add,
            Instruction::Left,
            Instruction::Output,
            Instruction::OpenLoop,
            Instruction::Subtract,
            Instruction::CloseLoop,
        ]
    );
    assert_eq!(simplify_program(&BF::parse(b"+-<>")).len(), 0);
}

#[test]
fn parse_reads_code_and_input() {
    let bf = BF::parse(b"+ comment > * !ab!");
    assert_eq!(bf.code(), &[Instruction::Add, Instruction::Right, Instruction::Break]);
    assert_eq!(bf.input, b"ab!".to_vec());
}

#[test]
fn write_wraps_at_eighty_columns() {
    let mut bf = BF::new();
    for _ in 0..85 {
        bf.push(Instruction::Add);
    }
    let text = String::from_utf8(bf.write()).unwrap();
    let expected = format!("{}\n{}\n", "+".repeat(80), "+".repeat(5));
    assert_eq!(text, expected);
    assert_eq!(BF::new().write(), b"\n".to_vec());
}

#[test]
fn spans_of_paths_and_arguments() {
    let path = vec![ident("a", 3), ident("bc", 5)];
    assert_eq!(variable_span(&path), (3, 7));
    assert_eq!(variable_string(&path), "a.bc");
    let block = Block { instructions: vec![], span: (10, 12), file_path: None };
    let arguments = vec![Argument::Variable(path), Argument::Block(block)];
    assert_eq!(argument_span(&arguments[1]), (10, 12));
    assert_eq!(arguments_span(&arguments), Some((3, 12)));
    assert_eq!(arguments_span(&[]), None);
}

#[test]
fn file_path_reaches_nested_blocks() {
    let mut program = parse_program("frame F { a }\nmacro m(block b) { b moving { } }\nusing F { m({ + }) using F { } }").ok().unwrap();
    set_program_file_path(&mut program, &"main.bfm".to_string());
    let path = Some("main.bfm".to_string());
    match &program[1] {
        Definition::Macro(m) => {
            assert_eq!(m.block.file_path, path);
            match &m.block.instructions[1] {
                Node::MovingBlock(b) => assert_eq!(b.file_path, path),
                _ => panic!("expected a moving block"),
            }
        }
        _ => panic!("expected a macro"),
    }
    match &program[2] {
        Definition::Using(u) => {
            assert_eq!(u.block.file_path, path);
            match &u.block.instructions[0] {
                Node::MacroInvoke(_, arguments) => match &arguments[0] {
                    Argument::Block(b) => assert_eq!(b.file_path, path),
                    _ => panic!("expected a block argument"),
                },
                _ => panic!("expected a macro call"),
            }
            match &u.block.instructions[1] {
                Node::Using(inner) => assert_eq!(inner.block.file_path, path),
                _ => panic!("expected a using region"),
            }
        }
        _ => panic!("expected a using region"),
    }
}

#[test]
fn definition_outside_the_scope_resolves() {
    let scope = scope_of("frame Pair { x y }");
    let wrap = FrameDefinition {
        name: ident("Wrap", 0),
        slots: vec![
            SlotDefinition::SubFrame(ident("p", 0), ident("Pair", 0)),
            SlotDefinition::Variable(ident("q", 0)),
        ],
    };
    let frame = Frame::from_definition(&wrap, &scope).ok().unwrap();
    assert_eq!(slot_index(&frame, &[ident("p", 0)]), 0);
    assert_eq!(slot_index(&frame, &[ident("q", 0)]), 2);
    assert_eq!(frame.size(), 3);
}
