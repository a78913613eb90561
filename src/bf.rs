use vstd::prelude::*;

verus! {

#[derive(Copy, Clone, PartialEq, Eq, Debug, Structural)]
pub enum Instruction {
    Add,
    Subtract,
    Left,
    Right,
    Input,
    Output,
    OpenLoop,
    CloseLoop,
    Break,
}

/// A linear BF program together with the input bytes given after a `!`.
pub struct BF {
    code: Vec<Instruction>,
    pub input: Vec<u8>,
}

/// The instruction a source byte stands for, if any.
pub open spec fn decode(b: u8) -> Option<Instruction> {
    if b == 43 {
        Some(Instruction::Add)
    } else if b == 45 {
        Some(Instruction::Subtract)
    } else if b == 60 {
        Some(Instruction::Left)
    } else if b == 62 {
        Some(Instruction::Right)
    } else if b == 44 {
        Some(Instruction::Input)
    } else if b == 46 {
        Some(Instruction::Output)
    } else if b == 91 {
        Some(Instruction::OpenLoop)
    } else if b == 93 {
        Some(Instruction::CloseLoop)
    } else if b == 42 {
        Some(Instruction::Break)
    } else {
        None
    }
}

/// The byte that spells an instruction.
pub open spec fn encode(i: Instruction) -> u8 {
    match i {
        Instruction::Add => 43,
        Instruction::Subtract => 45,
        Instruction::Left => 60,
        Instruction::Right => 62,
        Instruction::Input => 44,
        Instruction::Output => 46,
        Instruction::OpenLoop => 91,
        Instruction::CloseLoop => 93,
        Instruction::Break => 42,
    }
}

/// The byte `!` that separates code from input.
pub const INPUT_MARK: u8 = 33;

/// The byte `\n`.
pub const NEWLINE: u8 = 10;

/// The number of instructions on one output line.
pub const LINE_WIDTH: usize = 80;

/// Reading the first `n` bytes: the code so far, the input so far, and whether
/// the input mark has been passed.
pub open spec fn parsed(bytes: Seq<u8>, n: int) -> (Seq<Instruction>, Seq<u8>, bool)
    decreases n,
{
    if n <= 0 {
        (Seq::empty(), Seq::empty(), false)
    } else {
        let (code, input, is_input) = parsed(bytes, n - 1);
        let b = bytes[n - 1];
        if is_input {
            (code, input.push(b), true)
        } else if b == INPUT_MARK {
            (code, input, true)
        } else {
            match decode(b) {
                Some(i) => (code.push(i), input, false),
                None => (code, input, false),
            }
        }
    }
}

/// The text of a program: one byte per instruction, a line break after every
/// `LINE_WIDTH` of them.
pub open spec fn rendered_body(code: Seq<Instruction>) -> Seq<u8>
    decreases code.len(),
{
    if code.len() == 0 {
        Seq::empty()
    } else {
        let before = rendered_body(code.drop_last()).push(encode(code.last()));
        if code.len() % (LINE_WIDTH as nat) == 0 {
            before.push(NEWLINE)
        } else {
            before
        }
    }
}

/// The text of a program followed by a final line break.
pub open spec fn rendered(code: Seq<Instruction>) -> Seq<u8> {
    rendered_body(code).push(NEWLINE)
}

fn decode_byte(b: u8) -> (r: Option<Instruction>)
    ensures
        r == decode(b),
{
    if b == 43 {
        Some(Instruction::Add)
    } else if b == 45 {
        Some(Instruction::Subtract)
    } else if b == 60 {
        Some(Instruction::Left)
    } else if b == 62 {
        Some(Instruction::Right)
    } else if b == 44 {
        Some(Instruction::Input)
    } else if b == 46 {
        Some(Instruction::Output)
    } else if b == 91 {
        Some(Instruction::OpenLoop)
    } else if b == 93 {
        Some(Instruction::CloseLoop)
    } else if b == 42 {
        Some(Instruction::Break)
    } else {
        None
    }
}

fn encode_instruction(i: Instruction) -> (r: u8)
    ensures
        r == encode(i),
{
    match i {
        Instruction::Add => 43,
        Instruction::Subtract => 45,
        Instruction::Left => 60,
        Instruction::Right => 62,
        Instruction::Input => 44,
        Instruction::Output => 46,
        Instruction::OpenLoop => 91,
        Instruction::CloseLoop => 93,
        Instruction::Break => 42,
    }
}

impl BF {
    pub closed spec fn spec_code(&self) -> Seq<Instruction> {
        self.code@
    }

    pub closed spec fn spec_input(&self) -> Seq<u8> {
        self.input@
    }

    pub fn new() -> (r: Self)
        ensures
            r.spec_code() == Seq::<Instruction>::empty(),
            r.spec_input() == Seq::<u8>::empty(),
    {
        Self { code: Vec::new(), input: Vec::new() }
    }

    /// Reads a program from its bytes: every byte before the first `!` that
    /// spells an instruction becomes one, other bytes there are comments, and
    /// the bytes after that `!` are the program's input.
    pub fn parse(stream: &[u8]) -> (r: Self)
        ensures
            r.spec_code() == parsed(stream@, stream@.len() as int).0,
            r.spec_input() == parsed(stream@, stream@.len() as int).1,
    {
        let mut code = Vec::new();
        let mut input = Vec::new();
        let mut is_input = false;
        let mut i: usize = 0;
        while i < stream.len()
            invariant
                0 <= i <= stream@.len(),
                (code@, input@, is_input) == parsed(stream@, i as int),
            decreases stream@.len() - i,
        {
            let b = stream[i];
            if is_input {
                input.push(b);
            } else if b == INPUT_MARK {
                is_input = true;
            } else {
                match decode_byte(b) {
                    Some(instruction) => code.push(instruction),
                    None => {},
                }
            }
            i += 1;
        }
        Self { code, input }
    }

    pub fn push(&mut self, instruction: Instruction)
        ensures
            final(self).spec_code() == old(self).spec_code().push(instruction),
            final(self).spec_input() == old(self).spec_input(),
    {
        self.code.push(instruction);
    }

    pub fn code(&self) -> (r: &[Instruction])
        ensures
            r@ == self.spec_code(),
    {
        self.code.as_slice()
    }

    /// The input bytes given after the program's `!`.
    pub fn input(&self) -> (r: &[u8])
        ensures
            r@ == self.spec_input(),
    {
        self.input.as_slice()
    }

    pub fn len(&self) -> (r: usize)
        ensures
            r == self.spec_code().len(),
    {
        self.code.len()
    }

    /// The program's text: one byte per instruction, a line break after every
    /// `LINE_WIDTH` instructions, and a final line break.
    pub fn write(&self) -> (r: Vec<u8>)
        ensures
            r@ == rendered(self.spec_code()),
    {
        let mut output: Vec<u8> = Vec::new();
        let mut column: usize = 0;
        let mut i: usize = 0;
        while i < self.code.len()
            invariant
                0 <= i <= self.code@.len(),
                column == i % LINE_WIDTH,
                output@ == rendered_body(self.code@.take(i as int)),
            decreases self.code@.len() - i,
        {
            proof {
                let t = self.code@.take(i as int + 1);
                assert(t.drop_last() == self.code@.take(i as int));
                assert(t.last() == self.code@[i as int]);
            }
            output.push(encode_instruction(self.code[i]));
            column += 1;
            if column >= LINE_WIDTH {
                output.push(NEWLINE);
                column = 0;
            }
            i += 1;
        }
        assert(self.code@.take(self.code@.len() as int) == self.code@);
        output.push(NEWLINE);
        output
    }
}

} // verus!
