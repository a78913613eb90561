use vstd::prelude::*;

verus! {

/// A pair of byte offsets `(start, end)` into a source text.
pub type Span = (usize, usize);

/// A whole source file: its top-level definitions in order.
pub type Program = Vec<Definition>;

/// A dotted path `a.b.c` naming a slot.
pub type Variable = Vec<Identifier>;

pub enum Definition {
    Include(String),
    Frame(FrameDefinition),
    Macro(Macro),
    Using(Using),
}

pub struct FrameDefinition {
    pub name: Identifier,
    pub slots: Vec<SlotDefinition>,
}

pub enum SlotDefinition {
    Variable(Identifier),
    SubFrame(Identifier, Identifier),
}

pub struct Macro {
    pub name: Identifier,
    pub parameters: Vec<Parameter>,
    pub block: Block,
}

pub enum Parameter {
    Slot(Identifier),
    SubFrame(Identifier, Identifier),
    Block(Identifier),
}

pub struct Using {
    pub frame: Identifier,
    pub block: Block,
}

pub enum Instruction {
    Add,
    Subtract,
    Left(Span),
    Right(Span),
    Input,
    Output,
    OpenLoop(Span),
    CloseLoop(Span),
    MovingBlock(Block),
    Using(Using),
    Variable(Variable),
    MacroInvoke(Identifier, Vec<Argument>),
}

pub enum Argument {
    Variable(Variable),
    Block(Block),
}

pub struct Block {
    pub instructions: Vec<Instruction>,
    pub span: Span,
    pub file_path: Option<String>,
}

pub struct Identifier {
    pub value: String,
    pub span: Span,
}

/// `new` is `old` with `path` stamped on it and on every block nested inside it;
/// nothing else differs.
pub open spec fn stamped_block(old: Block, new: Block, path: Seq<char>) -> bool
    decreases old,
{
    &&& new.span == old.span
    &&& new.file_path is Some
    &&& new.file_path->Some_0@ == path
    &&& new.instructions@.len() == old.instructions@.len()
    &&& forall|i: int|
        0 <= i < old.instructions@.len() ==> stamped_instruction(
            #[trigger] old.instructions@[i],
            new.instructions@[i],
            path,
        )
}

pub open spec fn stamped_instruction(old: Instruction, new: Instruction, path: Seq<char>) -> bool
    decreases old,
{
    match old {
        Instruction::MovingBlock(b) => match new {
            Instruction::MovingBlock(nb) => stamped_block(b, nb, path),
            _ => false,
        },
        Instruction::Using(u) => match new {
            Instruction::Using(nu) => nu.frame == u.frame && stamped_block(u.block, nu.block, path),
            _ => false,
        },
        Instruction::MacroInvoke(name, args) => match new {
            Instruction::MacroInvoke(nname, nargs) => {
                &&& nname == name
                &&& nargs@.len() == args@.len()
                &&& forall|j: int|
                    0 <= j < args@.len() ==> stamped_argument(
                        #[trigger] args@[j],
                        nargs@[j],
                        path,
                    )
            },
            _ => false,
        },
        _ => new == old,
    }
}

pub open spec fn stamped_argument(old: Argument, new: Argument, path: Seq<char>) -> bool
    decreases old,
{
    match old {
        Argument::Block(b) => match new {
            Argument::Block(nb) => stamped_block(b, nb, path),
            _ => false,
        },
        Argument::Variable(_) => new == old,
    }
}

/// Stamps `file_path` on `block` and on every block nested inside it: moving
/// blocks, nested `using` regions and block arguments of macro calls.
fn set_block_file_path(block: &mut Block, file_path: &String)
    ensures
        stamped_block(*old(block), *final(block), file_path@),
    decreases *old(block),
{
    block.file_path = Some(file_path.clone());
    let n = block.instructions.len();
    let ghost before = block.instructions@;
    let mut i: usize = 0;
    while i < n
        invariant
            n == block.instructions@.len(),
            n == before.len(),
            before == old(block).instructions@,
            block.span == old(block).span,
            block.file_path is Some,
            block.file_path->Some_0@ == file_path@,
            0 <= i <= n,
            forall|k: int| 0 <= k < i ==> stamped_instruction(#[trigger] before[k], block.instructions@[k], file_path@),
            forall|k: int| i <= k < n ==> block.instructions@[k] == #[trigger] before[k],
        decreases n - i,
    {
        proof {
            broadcast use vstd::std_specs::vec::group_vec_axioms;
            assert(decreases_to!(old(block).instructions => old(block).instructions[i as int]));
        }
        set_instruction_file_path(&mut block.instructions[i], file_path);
        i += 1;
    }
}

fn set_instruction_file_path(instruction: &mut Instruction, file_path: &String)
    ensures
        stamped_instruction(*old(instruction), *final(instruction), file_path@),
    decreases *old(instruction),
{
    let ghost whole = *instruction;
    match instruction {
        Instruction::MovingBlock(block) => {
            set_block_file_path(block, file_path);
        },
        Instruction::Using(using) => {
            set_block_file_path(&mut using.block, file_path);
        },
        Instruction::MacroInvoke(name, arguments) => {
            let n = arguments.len();
            let ghost old_args = *arguments;
            let ghost before = arguments@;
            let mut i: usize = 0;
            while i < n
                invariant
                    n == arguments@.len(),
                    n == before.len(),
                    whole == Instruction::MacroInvoke(*name, old_args),
                    whole == *old(instruction),
                    old_args@ == before,
                    0 <= i <= n,
                    forall|k: int| 0 <= k < i ==> stamped_argument(#[trigger] before[k], arguments@[k], file_path@),
                    forall|k: int| i <= k < n ==> arguments@[k] == #[trigger] before[k],
                decreases n - i,
            {
                proof {
                    broadcast use vstd::std_specs::vec::group_vec_axioms;
                    assert(decreases_to!(old_args => old_args[i as int]));
                }
                match &mut arguments[i] {
                    Argument::Block(block) => {
                        proof {
                            broadcast use vstd::std_specs::vec::group_vec_axioms;
                            assert(old_args[i as int] == Argument::Block(*block));
                            assert(decreases_to!(old_args => old_args[i as int]));
                            assert(decreases_to!(old_args[i as int] => *block));
                            assert(whole->MacroInvoke_1 == old_args);
                            assert(decreases_to!(whole => whole->MacroInvoke_1));
                        }
                        set_block_file_path(block, file_path);
                    },
                    Argument::Variable(_) => {},
                }
                i += 1;
            }
        },
        _ => {},
    }
}

/// Stamps `file_path` on the body of every macro and `using` definition of
/// `program`, and on every block nested inside them.
pub fn set_program_file_path(program: &mut Program, file_path: &String)
    ensures
        final(program)@.len() == old(program)@.len(),
        forall|i: int|
            0 <= i < old(program)@.len() ==> match #[trigger] old(program)@[i] {
                Definition::Macro(m) => match final(program)@[i] {
                    Definition::Macro(nm) => {
                        &&& nm.name == m.name
                        &&& nm.parameters == m.parameters
                        &&& stamped_block(m.block, nm.block, file_path@)
                    },
                    _ => false,
                },
                Definition::Using(u) => match final(program)@[i] {
                    Definition::Using(nu) => nu.frame == u.frame && stamped_block(
                        u.block,
                        nu.block,
                        file_path@,
                    ),
                    _ => false,
                },
                d => final(program)@[i] == d,
            },
{
    let n = program.len();
    let ghost before = program@;
    let mut i: usize = 0;
    while i < n
        invariant
            n == program@.len(),
            n == before.len(),
            0 <= i <= n,
            forall|k: int|
                0 <= k < i ==> match #[trigger] before[k] {
                    Definition::Macro(m) => match program@[k] {
                        Definition::Macro(nm) => {
                            &&& nm.name == m.name
                            &&& nm.parameters == m.parameters
                            &&& stamped_block(m.block, nm.block, file_path@)
                        },
                        _ => false,
                    },
                    Definition::Using(u) => match program@[k] {
                        Definition::Using(nu) => nu.frame == u.frame && stamped_block(
                            u.block,
                            nu.block,
                            file_path@,
                        ),
                        _ => false,
                    },
                    d => program@[k] == d,
                },
            forall|k: int| i <= k < n ==> program@[k] == #[trigger] before[k],
        decreases n - i,
    {
        match &mut program[i] {
            Definition::Macro(macro_) => {
                set_block_file_path(&mut macro_.block, file_path);
            },
            Definition::Using(using) => {
                set_block_file_path(&mut using.block, file_path);
            },
            _ => {},
        }
        i += 1;
    }
}

} // verus!
