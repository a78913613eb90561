use vstd::prelude::*;

use crate::bf::{Instruction, BF};

verus! {

/// The state of a running BF program: the tape (grown on demand), the cell
/// under the pointer, the next instruction, the open loops and how much of
/// the input has been read.
pub struct Machine {
    memory: Vec<u8>,
    pointer: usize,
    pc: usize,
    stack: Vec<usize>,
    input_pointer: usize,
}

/// What one step asks of the world around the machine.
#[derive(PartialEq, Eq, Structural)]
pub enum Event {
    /// Nothing: go on.
    Continue,
    /// Print this byte.
    Output(u8),
    /// Show the tape and wait before going on.
    Break,
    /// The program has ended.
    Halted,
    /// The program moved left of the first cell, closed a loop it never
    /// opened, or opened one it never closes.
    Fault,
}

pub struct MachineView {
    pub memory: Seq<u8>,
    pub pointer: int,
    pub pc: int,
    pub stack: Seq<usize>,
    pub input_pointer: int,
}

impl View for Machine {
    type V = MachineView;

    closed spec fn view(&self) -> MachineView {
        MachineView {
            memory: self.memory@,
            pointer: self.pointer as int,
            pc: self.pc as int,
            stack: self.stack@,
            input_pointer: self.input_pointer as int,
        }
    }
}

/// The position just past the `]` that closes the loop `depth` levels up
/// from `from`, if the code has one.
pub open spec fn loop_exit(code: Seq<Instruction>, from: int, depth: nat) -> Option<int>
    decreases code.len() - from,
{
    if from < 0 || from >= code.len() {
        None
    } else {
        match code[from] {
            Instruction::OpenLoop => loop_exit(code, from + 1, depth + 1),
            Instruction::CloseLoop => if depth <= 1 {
                Some(from + 1)
            } else {
                loop_exit(code, from + 1, (depth - 1) as nat)
            },
            _ => loop_exit(code, from + 1, depth),
        }
    }
}

/// One step of the machine on a program with its input: the next state and
/// the event. A fault or the end leaves the state as it was.
pub open spec fn stepped(m: MachineView, code: Seq<Instruction>, input: Seq<u8>) -> (MachineView, Event) {
    if m.pc < 0 || m.pc >= code.len() || m.pointer < 0 || m.pointer >= m.memory.len() {
        (m, Event::Halted)
    } else {
        let next = MachineView { pc: m.pc + 1, ..m };
        let cell = m.memory[m.pointer];
        match code[m.pc] {
            Instruction::Add => (
                MachineView {
                    memory: m.memory.update(m.pointer, (if cell == 255 { 0 } else { cell + 1 }) as u8),
                    ..next
                },
                Event::Continue,
            ),
            Instruction::Subtract => (
                MachineView {
                    memory: m.memory.update(m.pointer, (if cell == 0 { 255 } else { cell - 1 }) as u8),
                    ..next
                },
                Event::Continue,
            ),
            Instruction::Left => if m.pointer == 0 {
                (m, Event::Fault)
            } else {
                (MachineView { pointer: m.pointer - 1, ..next }, Event::Continue)
            },
            Instruction::Right => (
                MachineView {
                    pointer: m.pointer + 1,
                    memory: if m.pointer + 1 >= m.memory.len() {
                        m.memory.push(0)
                    } else {
                        m.memory
                    },
                    ..next
                },
                Event::Continue,
            ),
            Instruction::Input => if m.input_pointer < input.len() {
                (
                    MachineView {
                        memory: m.memory.update(m.pointer, input[m.input_pointer]),
                        input_pointer: m.input_pointer + 1,
                        ..next
                    },
                    Event::Continue,
                )
            } else {
                (MachineView { memory: m.memory.update(m.pointer, 0), ..next }, Event::Continue)
            },
            Instruction::Output => (next, Event::Output(cell)),
            Instruction::OpenLoop => if cell == 0 {
                match loop_exit(code, m.pc + 1, 1) {
                    Some(exit) => (MachineView { pc: exit, ..m }, Event::Continue),
                    None => (m, Event::Fault),
                }
            } else {
                (MachineView { stack: m.stack.push(m.pc as usize), ..next }, Event::Continue)
            },
            Instruction::CloseLoop => if m.stack.len() == 0 {
                (m, Event::Fault)
            } else {
                (
                    MachineView { pc: m.stack.last() as int, stack: m.stack.drop_last(), ..m },
                    Event::Continue,
                )
            },
            Instruction::Break => (next, Event::Break),
        }
    }
}

impl Machine {
    pub open spec fn wf(&self) -> bool {
        0 <= self@.pointer < self@.memory.len()
    }

    /// A machine at the start: one cell of 0, the first instruction next.
    pub fn new() -> (r: Self)
        ensures
            r.wf(),
            r@.memory == seq![0u8],
            r@.pointer == 0,
            r@.pc == 0,
            r@.stack.len() == 0,
            r@.input_pointer == 0,
    {
        let mut memory = Vec::new();
        memory.push(0u8);
        Machine { memory, pointer: 0, pc: 0, stack: Vec::new(), input_pointer: 0 }
    }

    /// The tape, for display.
    pub fn memory(&self) -> (r: &[u8])
        ensures
            r@ == self@.memory,
    {
        self.memory.as_slice()
    }

    pub fn pointer(&self) -> (r: usize)
        ensures
            r == self@.pointer,
    {
        self.pointer
    }

    fn find_loop_exit(code: &[Instruction], from: usize) -> (r: Option<usize>)
        requires
            0 < from <= code@.len(),
        ensures
            match loop_exit(code@, from as int, 1) {
                Some(e) => r == Some(e as usize) && from < e <= code@.len(),
                None => r is None,
            },
    {
        let n = code.len();
        let mut depth: usize = 1;
        let mut i = from;
        while i < n
            invariant
                n == code@.len(),
                from <= i <= code@.len(),
                1 <= depth <= i,
                loop_exit(code@, from as int, 1) == loop_exit(code@, i as int, depth as nat),
            decreases code@.len() - i,
        {
            match code[i] {
                Instruction::OpenLoop => {
                    depth += 1;
                },
                Instruction::CloseLoop => {
                    if depth <= 1 {
                        return Some(i + 1);
                    }
                    depth -= 1;
                },
                _ => {},
            }
            i += 1;
        }
        None
    }

    /// Runs one instruction of `program`, reading input from the bytes the
    /// program carries (0 once they run out), and says what the world must do.
    pub fn step(&mut self, program: &BF) -> (r: Event)
        requires
            old(self).wf(),
        ensures
            final(self).wf(),
            (final(self)@, r) == stepped(old(self)@, program.spec_code(), program.spec_input()),
    {
        let code = program.code();
        let input = program.input();
        if self.pc >= code.len() {
            return Event::Halted;
        }
        let pc = self.pc;
        let p = self.pointer;
        let size = self.memory.len();
        let cell = self.memory[p];
        match code[pc] {
            Instruction::Add => {
                self.memory.set(p, if cell == 255 { 0 } else { cell + 1 });
                self.pc = pc + 1;
                Event::Continue
            },
            Instruction::Subtract => {
                self.memory.set(p, if cell == 0 { 255 } else { cell - 1 });
                self.pc = pc + 1;
                Event::Continue
            },
            Instruction::Left => {
                if p == 0 {
                    return Event::Fault;
                }
                self.pointer = p - 1;
                self.pc = pc + 1;
                Event::Continue
            },
            Instruction::Right => {
                if p + 1 >= size {
                    self.memory.push(0);
                }
                self.pointer = p + 1;
                self.pc = pc + 1;
                Event::Continue
            },
            Instruction::Input => {
                if self.input_pointer < input.len() {
                    self.memory.set(p, input[self.input_pointer]);
                    self.input_pointer = self.input_pointer + 1;
                } else {
                    self.memory.set(p, 0);
                }
                self.pc = pc + 1;
                Event::Continue
            },
            Instruction::Output => {
                self.pc = pc + 1;
                Event::Output(cell)
            },
            Instruction::OpenLoop => {
                if cell == 0 {
                    match Machine::find_loop_exit(code, pc + 1) {
                        Some(exit) => {
                            self.pc = exit;
                            Event::Continue
                        },
                        None => Event::Fault,
                    }
                } else {
                    self.stack.push(pc);
                    self.pc = pc + 1;
                    Event::Continue
                }
            },
            Instruction::CloseLoop => match self.stack.pop() {
                Some(start) => {
                    self.pc = start;
                    Event::Continue
                },
                None => Event::Fault,
            },
            Instruction::Break => {
                self.pc = pc + 1;
                Event::Break
            },
        }
    }
}

} // verus!
