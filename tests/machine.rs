use bfmacro::bf::BF;
use bfmacro::error::error_location;
use bfmacro::interpreter::{Event, Machine};

fn run(source: &[u8]) -> (Vec<u8>, Event) {
    let program = BF::parse(source);
    let mut machine = Machine::new();
    let mut output = Vec::new();
    for _ in 0..100_000 {
        match machine.step(&program) {
            Event::Continue => {}
            Event::Output(byte) => output.push(byte),
            Event::Break => {}
            event => return (output, event),
        }
    }
    panic!("program did not stop");
}

#[test]
fn prints_a_letter() {
    // 8 * 8 + 1 = 65, 'A'
    let (output, end) = run(b"++++++++[>++++++++<-]>+.");
    assert_eq!(output, b"A".to_vec());
    assert!(end == Event::Halted);
}

#[test]
fn cells_wrap_around() {
    let (output, _) = run(b"-.+.");
    assert_eq!(output, vec![255, 0]);
}

#[test]
fn input_comes_after_the_mark() {
    let (output, _) = run(b",.,.,.!xy");
    assert_eq!(output, vec![b'x', b'y', 0]);
}

#[test]
fn loops_on_zero_are_skipped() {
    let (output, end) = run(b"[[+]+].");
    assert_eq!(output, vec![0]);
    assert!(end == Event::Halted);
}

#[test]
fn faults_are_reported() {
    assert!(run(b"<").1 == Event::Fault);
    assert!(run(b"+]").1 == Event::Fault);
    assert!(run(b"[").1 == Event::Fault);
}

#[test]
fn break_is_an_event() {
    let program = BF::parse(b"+*");
    let mut machine = Machine::new();
    assert!(machine.step(&program) == Event::Continue);
    assert!(machine.step(&program) == Event::Break);
    assert_eq!(machine.memory(), &[1]);
    assert_eq!(machine.pointer(), 0);
    assert!(machine.step(&program) == Event::Halted);
}

#[test]
fn error_location_finds_the_line() {
    let source: Vec<char> = "frame F { a }\nusing F { b }\n".chars().collect();
    assert_eq!(error_location(&source, 24), (2, 14, 27));
    assert_eq!(error_location(&source, 0), (1, 0, 13));
    let last: Vec<char> = "one\ntwo".chars().collect();
    assert_eq!(error_location(&last, 5), (2, 4, 7));
    assert_eq!(error_location(&last, 99), (2, 4, 7));
}
