use vstd::prelude::*;

use crate::ast::{Argument, Block, FrameDefinition, Identifier, Parameter, SlotDefinition};
use crate::error::{argument_span, arguments_span, spec_argument_span, Error, ErrorKind, Result};
use crate::scope::{frame_of, has_frame, Scope, ScopeView};

verus! {

/// A resolved memory layout: each name bound to a tape slot or to a block
/// argument. A name bound twice means its later binding.
pub struct Frame<'a> {
    pub name: String,
    symbols: Vec<(String, Symbol<'a>)>,
}

pub enum Symbol<'a> {
    Slot(Slot<'a>),
    /// A block argument, with the frame of the call that passed it.
    Block(&'a Block, &'a Frame<'a>),
}

pub struct Slot<'a> {
    /// The absolute tape index of the slot within its `using` region.
    pub index: usize,
    pub sub_frame: SubFrame<'a>,
}

/// The nested layout of a slot: none, one of its own, or one borrowed from the
/// frame of a macro's caller.
pub enum SubFrame<'a> {
    Absent,
    Owned(Box<Frame<'a>>),
    Shared(&'a Frame<'a>),
}

/// What a path names: a tape index, or a block with the frame it was written in.
pub enum Lookup<'a> {
    Slot(usize),
    Block(&'a Block, &'a Frame<'a>),
}

/// A frame as a value.
pub struct FrameM {
    pub name: String,
    pub symbols: Seq<(Seq<char>, SymbolM)>,
}

pub enum SymbolM {
    Slot(usize, Option<FrameM>),
    Block(Block, FrameM),
}

pub enum LookupM {
    Slot(usize),
    Block(Block, FrameM),
}

pub closed spec fn view_frame(f: &Frame) -> FrameM
    decreases f,
    via view_frame_decreases
{
    FrameM { name: f.name, symbols: view_entries(f.symbols@, f.symbols@.len() as int) }
}

#[via_fn]
proof fn view_frame_decreases(f: &Frame) {
    broadcast use vstd::std_specs::vec::group_vec_axioms;

    assert(decreases_to!(f.symbols => f.symbols@));
}

/// The first `n` entries of a symbol table, as values.
pub open spec fn view_entries(s: Seq<(String, Symbol)>, n: int) -> Seq<(Seq<char>, SymbolM)>
    decreases s, n,
    via view_entries_decreases
{
    if n <= 0 || n > s.len() {
        Seq::empty()
    } else {
        view_entries(s, n - 1).push((s[n - 1].0@, view_symbol(s[n - 1].1)))
    }
}

#[via_fn]
proof fn view_entries_decreases(s: Seq<(String, Symbol)>, n: int) {
    if 0 < n <= s.len() {
        assert(decreases_to!(s => s[n - 1]));
    }
}

pub open spec fn view_symbol(symbol: Symbol) -> SymbolM
    decreases symbol,
{
    match symbol {
        Symbol::Slot(slot) => SymbolM::Slot(slot.index, view_sub(slot.sub_frame)),
        Symbol::Block(b, fr) => SymbolM::Block(*b, view_frame(fr)),
    }
}

pub open spec fn view_sub(sub: SubFrame) -> Option<FrameM>
    decreases sub,
{
    match sub {
        SubFrame::Absent => None,
        SubFrame::Owned(b) => Some(view_frame(&*b)),
        SubFrame::Shared(r) => Some(view_frame(r)),
    }
}

/// The view of a table's first `n` entries depends on those entries alone.
proof fn lemma_view_entries_prefix(s: Seq<(String, Symbol)>, t: Seq<(String, Symbol)>, n: int)
    requires
        0 <= n <= s.len(),
        n <= t.len(),
        s.take(n) == t.take(n),
    ensures
        view_entries(s, n) == view_entries(t, n),
    decreases n,
{
    if n > 0 {
        assert(s.take(n - 1) == t.take(n - 1)) by {
            assert(s.take(n - 1) == s.take(n).take(n - 1));
            assert(t.take(n - 1) == t.take(n).take(n - 1));
        }
        assert(s[n - 1] == s.take(n)[n - 1]);
        assert(t[n - 1] == t.take(n)[n - 1]);
        lemma_view_entries_prefix(s, t, n - 1);
    }
}

/// Pushing an entry extends the view by that entry.
proof fn lemma_view_entries_push(s: Seq<(String, Symbol)>, e: (String, Symbol))
    ensures
        view_entries(s.push(e), s.len() as int + 1) == view_entries(s, s.len() as int).push(
            (e.0@, view_symbol(e.1)),
        ),
{
    assert(s.push(e).take(s.len() as int) == s.take(s.len() as int));
    lemma_view_entries_prefix(s.push(e), s, s.len() as int);
}

impl<'a> View for Frame<'a> {
    type V = FrameM;

    open spec fn view(&self) -> FrameM {
        view_frame(self)
    }
}

/// The latest binding of `name` among the first `n` symbols.
pub open spec fn binding(symbols: Seq<(Seq<char>, SymbolM)>, name: Seq<char>, n: int) -> Option<
    SymbolM,
>
    decreases n,
{
    if n <= 0 || n > symbols.len() {
        None
    } else if symbols[n - 1].0 == name {
        Some(symbols[n - 1].1)
    } else {
        binding(symbols, name, n - 1)
    }
}

pub open spec fn symbol_of(f: FrameM, name: Seq<char>) -> Option<SymbolM> {
    binding(f.symbols, name, f.symbols.len() as int)
}

/// Where a symbol's cells end: after its sub-frame, after its one cell, or
/// nowhere for a block.
pub open spec fn end_of(s: SymbolM) -> nat
    decreases s,
{
    match s {
        SymbolM::Slot(index, Some(sub)) => index as nat + size_of_from(
            sub.symbols,
            sub.symbols.len() as int,
        ),
        SymbolM::Slot(index, None) => index as nat + 1,
        SymbolM::Block(_, _) => 0,
    }
}

/// The largest end among the first `n` symbols of a table.
pub open spec fn size_of_from(symbols: Seq<(Seq<char>, SymbolM)>, n: int) -> nat
    decreases symbols, n,
    via size_decreases
{
    if n <= 0 || n > symbols.len() {
        0
    } else {
        let here = end_of(symbols[n - 1].1);
        let rest = size_of_from(symbols, n - 1);
        if here > rest {
            here
        } else {
            rest
        }
    }
}

#[via_fn]
proof fn size_decreases(symbols: Seq<(Seq<char>, SymbolM)>, n: int) {
    if 0 < n <= symbols.len() {
        assert(decreases_to!(symbols => symbols[n - 1]));
    }
}

/// The size of a frame: the largest end of its slots, 0 when it has none.
pub open spec fn size_of(f: FrameM) -> nat {
    size_of_from(f.symbols, f.symbols.len() as int)
}

/// What a path of at least one component resolves to in `f`: the slot's
/// absolute index and its sub-frame.
pub open spec fn slot_of(f: FrameM, path: Seq<Identifier>) -> Result<(usize, Option<FrameM>)>
    decreases path.len(),
{
    if path.len() == 0 {
        Err(Error { span: (0, 0), kind: ErrorKind::EmptyPath })
    } else {
        let head = path[0];
        match symbol_of(f, head.value@) {
            None => Err(
                Error { span: head.span, kind: ErrorKind::UnknownSymbol(head.value, f.name) },
            ),
            Some(SymbolM::Block(_, _)) => Err(
                Error { span: head.span, kind: ErrorKind::NotASlot(head.value) },
            ),
            Some(SymbolM::Slot(index, sub)) => if path.len() == 1 {
                Ok((index, sub))
            } else {
                match sub {
                    None => Err(Error { span: head.span, kind: ErrorKind::NotASubFrame }),
                    Some(sf) => match slot_of(sf, path.drop_first()) {
                        Err(e) => Err(e),
                        Ok((j, s)) => if index + j > usize::MAX {
                            Err(Error { span: head.span, kind: ErrorKind::OffsetTooLarge })
                        } else {
                            Ok(((index + j) as usize, s))
                        },
                    },
                }
            },
        }
    }
}

/// What a path names in `f`: a block argument (named by a path of one
/// component) or a slot's absolute index.
pub open spec fn lookup_of(f: FrameM, path: Seq<Identifier>) -> Result<LookupM> {
    if path.len() == 0 {
        Err(Error { span: (0, 0), kind: ErrorKind::EmptyPath })
    } else {
        let head = path[0];
        match symbol_of(f, head.value@) {
            None => Err(
                Error { span: head.span, kind: ErrorKind::UnknownSymbol(head.value, f.name) },
            ),
            Some(SymbolM::Block(b, fr)) => if path.len() == 1 {
                Ok(LookupM::Block(b, fr))
            } else {
                Err(Error { span: head.span, kind: ErrorKind::NotASubFrame })
            },
            Some(SymbolM::Slot(_, _)) => match slot_of(f, path) {
                Err(e) => Err(e),
                Ok((index, _)) => Ok(LookupM::Slot(index)),
            },
        }
    }
}

/// The binding a macro parameter gets from its argument in the caller's frame `f`.
pub open spec fn parameter_binding(f: FrameM, parameter: Parameter, argument: Argument) -> Result<
    (Seq<char>, SymbolM),
> {
    match argument {
        Argument::Variable(path) => match slot_of(f, path@) {
            Err(e) => Err(e),
            Ok((index, sub)) => match parameter {
                Parameter::Slot(name) => Ok((name.value@, SymbolM::Slot(index, sub))),
                Parameter::SubFrame(name, expected) => match sub {
                    None => Err(
                        Error {
                            span: spec_argument_span(argument),
                            kind: ErrorKind::MissingSubFrame(expected.value),
                        },
                    ),
                    Some(sf) => if sf.name@ != expected.value@ {
                        Err(
                            Error {
                                span: spec_argument_span(argument),
                                kind: ErrorKind::WrongSubFrame(expected.value, sf.name),
                            },
                        )
                    } else {
                        Ok((name.value@, SymbolM::Slot(index, sub)))
                    },
                },
                Parameter::Block(name) => Err(
                    Error {
                        span: spec_argument_span(argument),
                        kind: ErrorKind::VariableForBlock(name.value),
                    },
                ),
            },
        },
        Argument::Block(b) => match parameter {
            Parameter::Block(name) => Ok((name.value@, SymbolM::Block(b, f))),
            Parameter::Slot(name) => Err(
                Error { span: b.span, kind: ErrorKind::BlockForSlot(name.value) },
            ),
            Parameter::SubFrame(name, _) => Err(
                Error { span: b.span, kind: ErrorKind::BlockForSlot(name.value) },
            ),
        },
    }
}

/// The bindings of the first `n` parameters, or the first error.
pub open spec fn parameter_bindings(
    f: FrameM,
    parameters: Seq<Parameter>,
    arguments: Seq<Argument>,
    n: int,
) -> Result<Seq<(Seq<char>, SymbolM)>>
    decreases n,
{
    if n <= 0 {
        Ok(Seq::empty())
    } else {
        match parameter_bindings(f, parameters, arguments, n - 1) {
            Err(e) => Err(e),
            Ok(s) => match parameter_binding(f, parameters[n - 1], arguments[n - 1]) {
                Err(e) => Err(e),
                Ok(b) => Ok(s.push(b)),
            },
        }
    }
}

/// The frame of a macro body called from frame `f`: each parameter bound to
/// its argument. A wrong number of arguments is an error spanning them all
/// (or the macro's name when there are none).
pub open spec fn macro_frame_of(
    f: FrameM,
    name: Identifier,
    parameters: Seq<Parameter>,
    arguments: Seq<Argument>,
) -> Result<FrameM> {
    if parameters.len() != arguments.len() {
        Err(
            Error {
                span: if arguments.len() == 0 {
                    name.span
                } else {
                    (spec_argument_span(arguments[0]).0, spec_argument_span(arguments.last()).1)
                },
                kind: ErrorKind::WrongArity(parameters.len() as usize, arguments.len() as usize),
            },
        )
    } else {
        match parameter_bindings(f, parameters, arguments, parameters.len() as int) {
            Err(e) => Err(e),
            Ok(symbols) => Ok(FrameM { name: f.name, symbols }),
        }
    }
}

proof fn lemma_view_entries_index(s: Seq<(String, Symbol)>, n: int, k: int)
    requires
        0 <= k < n <= s.len(),
    ensures
        view_entries(s, n).len() == n,
        view_entries(s, n)[k] == (s[k].0@, view_symbol(s[k].1)),
    decreases n,
{
    lemma_view_entries_len(s, n);
    if k < n - 1 {
        lemma_view_entries_index(s, n - 1, k);
    }
}

proof fn lemma_view_entries_len(s: Seq<(String, Symbol)>, n: int)
    requires
        0 <= n <= s.len(),
    ensures
        view_entries(s, n).len() == n,
    decreases n,
{
    if n > 0 {
        lemma_view_entries_len(s, n - 1);
    }
}

/// Each symbol ends no later than the frame's size.
proof fn lemma_end_within_size(f: FrameM, n: int, k: int)
    requires
        0 <= k < n <= f.symbols.len(),
    ensures
        end_of(f.symbols[k].1) <= size_of_from(f.symbols, n),
    decreases n,
{
    if k < n - 1 {
        lemma_end_within_size(f, n - 1, k);
    }
}

impl<'a> Frame<'a> {
    /// The index of the latest binding of `name`.
    fn find(&self, name: &String) -> (r: Option<usize>)
        ensures
            match r {
                Some(i) => i < self.symbols@.len() && symbol_of(self@, name@) == Some(
                    view_symbol(self.symbols@[i as int].1),
                ),
                None => symbol_of(self@, name@) is None,
            },
    {
        let ghost s = self.symbols@;
        let ghost n = s.len() as int;
        proof {
            lemma_view_entries_len(s, n);
        }
        let mut i: usize = self.symbols.len();
        while i > 0
            invariant
                0 <= i <= n,
                n == s.len(),
                s == self.symbols@,
                self@.symbols == view_entries(s, n),
                view_entries(s, n).len() == n,
                binding(self@.symbols, name@, n) == binding(self@.symbols, name@, i as int),
            decreases i,
        {
            proof {
                lemma_view_entries_index(s, n, i - 1);
            }
            if self.symbols[i - 1].0 == *name {
                return Some(i - 1);
            }
            i -= 1;
        }
        None
    }

    /// The size of the frame: the largest `index + size` of its slots, where a
    /// slot without a sub-frame has size 1; 0 for a frame without slots.
    pub fn size(&self) -> (r: usize)
        requires
            size_of(self@) <= usize::MAX,
        ensures
            r == size_of(self@),
        decreases self,
    {
        let ghost s = self.symbols@;
        let ghost n = s.len() as int;
        proof {
            lemma_view_entries_len(s, n);
        }
        let mut largest: usize = 0;
        let mut i: usize = 0;
        while i < self.symbols.len()
            invariant
                0 <= i <= n,
                n == s.len(),
                s == self.symbols@,
                self@.symbols == view_entries(s, n),
                view_entries(s, n).len() == n,
                size_of(self@) <= usize::MAX,
                largest == size_of_from(self@.symbols, i as int),
            decreases n - i,
        {
            proof {
                lemma_view_entries_index(s, n, i as int);
                lemma_end_within_size(self@, n, i as int);
            }
            let end: usize = match &self.symbols[i].1 {
                Symbol::Slot(slot) => match &slot.sub_frame {
                    SubFrame::Absent => slot.index + 1,
                    SubFrame::Owned(sub) => {
                        proof {
                            broadcast use vstd::std_specs::vec::group_vec_axioms;
                            assert(decreases_to!(self.symbols => self.symbols[i as int]));
                        }
                        slot.index + sub.size()
                    },
                    SubFrame::Shared(sub) => {
                        proof {
                            broadcast use vstd::std_specs::vec::group_vec_axioms;
                            assert(decreases_to!(self.symbols => self.symbols[i as int]));
                        }
                        slot.index + sub.size()
                    },
                },
                Symbol::Block(_, _) => 0,
            };
            if end > largest {
                largest = end;
            }
            i += 1;
        }
        largest
    }

    /// Resolves `path[k..]`: the slot it names and its absolute index.
    fn slot_from<'b>(&'b self, path: &[Identifier], k: usize) -> (r: Result<(&'b Slot<'a>, usize)>)
        requires
            k <= path@.len(),
        ensures
            match slot_of(self@, path@.subrange(k as int, path@.len() as int)) {
                Ok((i, sub)) => r matches Ok((sl, ri)) && ri == i && view_sub(sl.sub_frame) == sub,
                Err(e) => r == Err::<(&Slot, usize), Error>(e),
            },
        decreases path@.len() - k,
    {
        let ghost rest = path@.subrange(k as int, path@.len() as int);
        if k >= path.len() {
            return Err(Error { span: (0, 0), kind: ErrorKind::EmptyPath });
        }
        let name = &path[k];
        assert(rest[0] == *name);
        let found = self.find(&name.value);
        match found {
            None => Err(
                Error {
                    span: name.span,
                    kind: ErrorKind::UnknownSymbol(name.value.clone(), self.name.clone()),
                },
            ),
            Some(i) => match &self.symbols[i].1 {
                Symbol::Block(_, _) => Err(
                    Error { span: name.span, kind: ErrorKind::NotASlot(name.value.clone()) },
                ),
                Symbol::Slot(slot) => {
                    if k + 1 == path.len() {
                        Ok((slot, slot.index))
                    } else {
                        assert(rest.drop_first() =~= path@.subrange(k + 1, path@.len() as int));
                        let inner = match &slot.sub_frame {
                            SubFrame::Absent => {
                                return Err(Error { span: name.span, kind: ErrorKind::NotASubFrame });
                            },
                            SubFrame::Owned(sub) => sub.slot_from(path, k + 1),
                            SubFrame::Shared(sub) => sub.slot_from(path, k + 1),
                        };
                        match inner {
                            Err(e) => Err(e),
                            Ok((sub_slot, sub_index)) => {
                                if sub_index > usize::MAX - slot.index {
                                    Err(Error { span: name.span, kind: ErrorKind::OffsetTooLarge })
                                } else {
                                    Ok((sub_slot, slot.index + sub_index))
                                }
                            },
                        }
                    }
                },
            },
        }
    }

    /// Resolves a path of slots, descending into sub-frames at each `.`: the
    /// slot it names and its absolute index (the sum of its ancestors' indices).
    fn slot<'b>(&'b self, path: &[Identifier]) -> (r: Result<(&'b Slot<'a>, usize)>)
        ensures
            match slot_of(self@, path@) {
                Ok((i, sub)) => r matches Ok((sl, ri)) && ri == i && view_sub(sl.sub_frame) == sub,
                Err(e) => r == Err::<(&Slot, usize), Error>(e),
            },
    {
        assert(path@.subrange(0, path@.len() as int) =~= path@);
        self.slot_from(path, 0)
    }

    /// What a path names: a block argument (with the frame it was written in)
    /// or the absolute index of a slot.
    pub fn lookup<'b>(&'b self, path: &[Identifier]) -> (r: Result<Lookup<'b>>)
        ensures
            match lookup_of(self@, path@) {
                Ok(LookupM::Slot(i)) => r matches Ok(Lookup::Slot(ri)) && ri == i,
                Ok(LookupM::Block(b, fr)) => r matches Ok(Lookup::Block(rb, rf)) && *rb == b
                    && rf@ == fr,
                Err(e) => r == Err::<Lookup, Error>(e),
            },
    {
        if path.len() == 0 {
            return Err(Error { span: (0, 0), kind: ErrorKind::EmptyPath });
        }
        let name = &path[0];
        match self.find(&name.value) {
            None => Err(
                Error {
                    span: name.span,
                    kind: ErrorKind::UnknownSymbol(name.value.clone(), self.name.clone()),
                },
            ),
            Some(i) => match &self.symbols[i].1 {
                Symbol::Block(block, frame) => {
                    if path.len() == 1 {
                        Ok(Lookup::Block(*block, *frame))
                    } else {
                        Err(Error { span: name.span, kind: ErrorKind::NotASubFrame })
                    }
                },
                Symbol::Slot(_) => match self.slot(path) {
                    Err(e) => Err(e),
                    Ok((_, index)) => Ok(Lookup::Slot(index)),
                },
            },
        }
    }
}

/// The same sub-frame, borrowed.
fn share<'b, 'a: 'b>(sub: &'b SubFrame<'a>) -> (r: SubFrame<'b>)
    ensures
        view_sub(r) == view_sub(*sub),
{
    match sub {
        SubFrame::Absent => SubFrame::Absent,
        SubFrame::Owned(b) => SubFrame::Shared(&**b),
        SubFrame::Shared(f) => SubFrame::Shared(*f),
    }
}

/// The frame a sub-frame holds, if any.
fn sub_frame_of<'b, 'a: 'b>(sub: &'b SubFrame<'a>) -> (r: Option<&'b Frame<'a>>)
    ensures
        match r {
            Some(f) => view_sub(*sub) == Some(f@),
            None => view_sub(*sub) is None,
        },
{
    match sub {
        SubFrame::Absent => None,
        SubFrame::Owned(b) => Some(&**b),
        SubFrame::Shared(f) => Some(*f),
    }
}

impl<'a> Frame<'a> {
    /// Binds one macro parameter to its argument: a slot (or sub-frame) to the
    /// slot that a path names in this frame, a block parameter to the block
    /// together with this frame.
    fn evaluate_macro_parameter<'b>(&'b self, parameter: &Parameter, argument: &'b Argument) -> (r:
        Result<(String, Symbol<'b>)>)
        ensures
            match parameter_binding(self@, *parameter, *argument) {
                Ok((n, sym)) => r matches Ok((rn, rs)) && rn@ == n && view_symbol(rs) == sym,
                Err(e) => r == Err::<(String, Symbol), Error>(e),
            },
    {
        match argument {
            Argument::Variable(variable) => {
                let (slot, index) = match self.slot(variable.as_slice()) {
                    Ok(found) => found,
                    Err(e) => {
                        return Err(e);
                    },
                };
                match parameter {
                    Parameter::Slot(name) => Ok(
                        (
                            name.value.clone(),
                            Symbol::Slot(Slot { index, sub_frame: share(&slot.sub_frame) }),
                        ),
                    ),
                    Parameter::SubFrame(name, expected) => match sub_frame_of(&slot.sub_frame) {
                        None => Err(
                            Error {
                                span: argument_span(argument),
                                kind: ErrorKind::MissingSubFrame(expected.value.clone()),
                            },
                        ),
                        Some(sub) => {
                            if sub.name != expected.value {
                                Err(
                                    Error {
                                        span: argument_span(argument),
                                        kind: ErrorKind::WrongSubFrame(
                                            expected.value.clone(),
                                            sub.name.clone(),
                                        ),
                                    },
                                )
                            } else {
                                Ok(
                                    (
                                        name.value.clone(),
                                        Symbol::Slot(
                                            Slot { index, sub_frame: share(&slot.sub_frame) },
                                        ),
                                    ),
                                )
                            }
                        },
                    },
                    Parameter::Block(name) => Err(
                        Error {
                            span: argument_span(argument),
                            kind: ErrorKind::VariableForBlock(name.value.clone()),
                        },
                    ),
                }
            },
            Argument::Block(block) => match parameter {
                Parameter::Block(name) => Ok((name.value.clone(), Symbol::Block(block, self))),
                Parameter::Slot(name) => Err(
                    Error { span: block.span, kind: ErrorKind::BlockForSlot(name.value.clone()) },
                ),
                Parameter::SubFrame(name, _) => Err(
                    Error { span: block.span, kind: ErrorKind::BlockForSlot(name.value.clone()) },
                ),
            },
        }
    }

    /// The frame of a macro body called from this frame: each parameter bound
    /// to its argument, in order.
    pub fn macro_frame<'b>(
        &'b self,
        name: &Identifier,
        parameters: &[Parameter],
        arguments: &'b [Argument],
    ) -> (r: Result<Frame<'b>>)
        ensures
            match macro_frame_of(self@, *name, parameters@, arguments@) {
                Ok(fm) => r matches Ok(f) && f@ == fm,
                Err(e) => r == Err::<Frame, Error>(e),
            },
    {
        if parameters.len() != arguments.len() {
            let span = match arguments_span(arguments) {
                Some(span) => span,
                None => name.span,
            };
            return Err(
                Error { span, kind: ErrorKind::WrongArity(parameters.len(), arguments.len()) },
            );
        }
        let mut symbols: Vec<(String, Symbol<'b>)> = Vec::new();
        let mut i: usize = 0;
        while i < parameters.len()
            invariant
                0 <= i <= parameters@.len(),
                parameters@.len() == arguments@.len(),
                symbols@.len() == i,
                parameter_bindings(self@, parameters@, arguments@, i as int) == Ok::<
                    Seq<(Seq<char>, SymbolM)>,
                    Error,
                >(view_entries(symbols@, i as int)),
            decreases parameters@.len() - i,
        {
            match self.evaluate_macro_parameter(&parameters[i], &arguments[i]) {
                Err(e) => {
                    proof {
                        lemma_bindings_error_persists(
                            self@,
                            parameters@,
                            arguments@,
                            i as int + 1,
                            parameters@.len() as int,
                        );
                    }
                    return Err(e);
                },
                Ok(binding) => {
                    proof {
                        lemma_view_entries_push(symbols@, binding);
                    }
                    symbols.push(binding);
                },
            }
            i += 1;
        }
        let frame = Frame { name: self.name.clone(), symbols };
        assert(frame@ == FrameM { name: self.name, symbols: view_entries(symbols@, i as int) });
        Ok(frame)
    }
}

/// Once binding parameters has failed, binding more fails with the same error.
proof fn lemma_bindings_error_persists(
    f: FrameM,
    parameters: Seq<Parameter>,
    arguments: Seq<Argument>,
    k: int,
    m: int,
)
    requires
        0 <= k <= m,
        parameter_bindings(f, parameters, arguments, k) is Err,
    ensures
        parameter_bindings(f, parameters, arguments, m) == parameter_bindings(
            f,
            parameters,
            arguments,
            k,
        ),
    decreases m - k,
{
    if m > k {
        lemma_bindings_error_persists(f, parameters, arguments, k, m - 1);
    }
}

/// How many of the scope's frame definitions are not named in `visited`.
pub open spec fn unvisited(frames: Seq<FrameDefinition>, visited: Seq<Seq<char>>) -> nat
    decreases frames.len(),
{
    if frames.len() == 0 {
        0
    } else {
        unvisited(frames.drop_last(), visited) + if visited.contains(frames.last().name.value@) {
            0nat
        } else {
            1nat
        }
    }
}

/// Marking a frame of the scope as visited leaves fewer frames unvisited.
proof fn lemma_unvisited_drops(frames: Seq<FrameDefinition>, visited: Seq<Seq<char>>, g: Seq<char>)
    ensures
        unvisited(frames, visited.push(g)) <= unvisited(frames, visited),
        (exists|i: int| 0 <= i < frames.len() && (#[trigger] frames[i]).name.value@ == g)
            && !visited.contains(g) ==> unvisited(frames, visited.push(g)) < unvisited(
            frames,
            visited,
        ),
    decreases frames.len(),
{
    if frames.len() > 0 {
        let rest = frames.drop_last();
        lemma_unvisited_drops(rest, visited, g);
        let last = frames.last().name.value@;
        assert(visited.push(g).contains(last) == (visited.contains(last) || last == g)) by {
            if visited.push(g).contains(last) {
                let k = choose|k: int| 0 <= k < visited.push(g).len() && visited.push(g)[k] == last;
                if k < visited.len() {
                    assert(visited[k] == last);
                }
            }
            if visited.contains(last) {
                let k = choose|k: int| 0 <= k < visited.len() && visited[k] == last;
                assert(visited.push(g)[k] == last);
            }
            if last == g {
                assert(visited.push(g)[visited.len() as int] == last);
            }
        }
        if (exists|i: int| 0 <= i < frames.len() && (#[trigger] frames[i]).name.value@ == g)
            && !visited.contains(g) {
            let i = choose|i: int| 0 <= i < frames.len() && (#[trigger] frames[i]).name.value@ == g;
            if i < frames.len() - 1 {
                assert(rest[i] == frames[i]);
            }
        }
    }
}

/// The frame a definition resolves to, and its size; `visited` holds the
/// frames being resolved around it, so that meeting one again is a cycle.
pub open spec fn resolved(scope: ScopeView, def: FrameDefinition, visited: Seq<Seq<char>>) -> Result<
    (FrameM, usize),
>
    decreases unvisited(scope.frames, visited), def.slots@.len() + 1,
{
    match resolved_slots(scope, def.slots@, visited, def.slots@.len() as int) {
        Err(e) => Err(e),
        Ok((symbols, size)) => Ok((FrameM { name: def.name.value, symbols }, size)),
    }
}

/// The first `n` slots laid out in order from index 0, each advancing the
/// cursor by 1 or by its sub-frame's size; and the final cursor.
pub open spec fn resolved_slots(
    scope: ScopeView,
    slots: Seq<SlotDefinition>,
    visited: Seq<Seq<char>>,
    n: int,
) -> Result<(Seq<(Seq<char>, SymbolM)>, usize)>
    decreases unvisited(scope.frames, visited), n,
    via resolved_slots_decreases
{
    if n <= 0 || n > slots.len() {
        Ok((Seq::empty(), 0))
    } else {
        match resolved_slots(scope, slots, visited, n - 1) {
            Err(e) => Err(e),
            Ok((symbols, cursor)) => match slots[n - 1] {
                SlotDefinition::Variable(name) => if cursor + 1 > usize::MAX {
                    Err(Error { span: name.span, kind: ErrorKind::FrameTooLarge(name.value) })
                } else {
                    Ok(
                        (
                            symbols.push((name.value@, SymbolM::Slot(cursor, None))),
                            (cursor + 1) as usize,
                        ),
                    )
                },
                SlotDefinition::SubFrame(name, frame_name) => match frame_of(
                    scope,
                    frame_name.value@,
                ) {
                    None => Err(
                        Error {
                            span: frame_name.span,
                            kind: ErrorKind::UnknownFrame(frame_name.value),
                        },
                    ),
                    Some(sub_def) => if visited.contains(frame_name.value@) {
                        Err(
                            Error {
                                span: frame_name.span,
                                kind: ErrorKind::FrameCycle(frame_name.value),
                            },
                        )
                    } else {
                        match resolved(scope, sub_def, visited.push(frame_name.value@)) {
                            Err(e) => Err(e),
                            Ok((sub, size)) => if cursor + size > usize::MAX {
                                Err(
                                    Error {
                                        span: name.span,
                                        kind: ErrorKind::FrameTooLarge(name.value),
                                    },
                                )
                            } else {
                                Ok(
                                    (
                                        symbols.push((name.value@, SymbolM::Slot(cursor, Some(sub)))),
                                        (cursor + size) as usize,
                                    ),
                                )
                            },
                        }
                    },
                },
            },
        }
    }
}

#[via_fn]
proof fn resolved_slots_decreases(
    scope: ScopeView,
    slots: Seq<SlotDefinition>,
    visited: Seq<Seq<char>>,
    n: int,
) {
    if 0 < n <= slots.len() {
        match slots[n - 1] {
            SlotDefinition::SubFrame(_, frame_name) => {
                if has_frame(scope, frame_name.value@) {
                    lemma_unvisited_drops(scope.frames, visited, frame_name.value@);
                }
            },
            _ => {},
        }
    }
}

/// The frame a top-level definition resolves to.
pub open spec fn frame_from_definition(scope: ScopeView, def: FrameDefinition) -> Result<FrameM> {
    match resolved(scope, def, seq![def.name.value@]) {
        Err(e) => Err(e),
        Ok((f, _)) => Ok(f),
    }
}

proof fn lemma_slots_error_persists(
    scope: ScopeView,
    slots: Seq<SlotDefinition>,
    visited: Seq<Seq<char>>,
    k: int,
    m: int,
)
    requires
        0 <= k <= m <= slots.len(),
        resolved_slots(scope, slots, visited, k) is Err,
    ensures
        resolved_slots(scope, slots, visited, m) == resolved_slots(scope, slots, visited, k),
    decreases m - k,
{
    if m > k {
        lemma_slots_error_persists(scope, slots, visited, k, m - 1);
    }
}

fn contains_name(names: &Vec<String>, name: &String) -> (r: bool)
    ensures
        r == names@.map_values(|s: String| s@).contains(name@),
{
    let ghost v = names@.map_values(|s: String| s@);
    let mut i: usize = 0;
    while i < names.len()
        invariant
            0 <= i <= names@.len(),
            v == names@.map_values(|s: String| s@),
            forall|k: int| 0 <= k < i ==> names@[k]@ != name@,
        decreases names@.len() - i,
    {
        if names[i] == *name {
            assert(v[i as int] == name@);
            return true;
        }
        i += 1;
    }
    proof {
        if v.contains(name@) {
            let k = choose|k: int| 0 <= k < v.len() && v[k] == name@;
            assert(names@[k]@ == name@);
        }
    }
    false
}

impl<'a> Frame<'a> {
    fn resolve(definition: &FrameDefinition, scope: &Scope, visited: &mut Vec<String>) -> (r: Result<
        (Frame<'a>, usize),
    >)
        requires
            scope.wf(),
        ensures
            final(visited)@ == old(visited)@,
            match resolved(scope@, *definition, old(visited)@.map_values(|s: String| s@)) {
                Ok((fm, size)) => r matches Ok((f, rsize)) && f@ == fm && rsize == size,
                Err(e) => r == Err::<(Frame, usize), Error>(e),
            },
        decreases unvisited(scope@.frames, old(visited)@.map_values(|s: String| s@)),
    {
        let ghost vis = visited@.map_values(|s: String| s@);
        let ghost slots = definition.slots@;
        let mut symbols: Vec<(String, Symbol<'a>)> = Vec::new();
        let mut cursor: usize = 0;
        let mut i: usize = 0;
        while i < definition.slots.len()
            invariant
                scope.wf(),
                0 <= i <= slots.len(),
                slots == definition.slots@,
                visited@ == old(visited)@,
                vis == visited@.map_values(|s: String| s@),
                symbols@.len() == i,
                resolved_slots(scope@, slots, vis, i as int) == Ok::<
                    (Seq<(Seq<char>, SymbolM)>, usize),
                    Error,
                >((view_entries(symbols@, i as int), cursor)),
            decreases slots.len() - i,
        {
            let step: Result<((String, Symbol<'a>), usize)> = match &definition.slots[i] {
                SlotDefinition::Variable(name) => {
                    if cursor == usize::MAX {
                        Err(
                            Error {
                                span: name.span,
                                kind: ErrorKind::FrameTooLarge(name.value.clone()),
                            },
                        )
                    } else {
                        Ok(
                            (
                                (
                                    name.value.clone(),
                                    Symbol::Slot(Slot { index: cursor, sub_frame: SubFrame::Absent }),
                                ),
                                1,
                            ),
                        )
                    }
                },
                SlotDefinition::SubFrame(name, frame_name) => {
                    match scope.frame_definition(frame_name.value.as_str()) {
                        None => Err(
                            Error {
                                span: frame_name.span,
                                kind: ErrorKind::UnknownFrame(frame_name.value.clone()),
                            },
                        ),
                        Some(sub_definition) => {
                            if contains_name(visited, &frame_name.value) {
                                Err(
                                    Error {
                                        span: frame_name.span,
                                        kind: ErrorKind::FrameCycle(frame_name.value.clone()),
                                    },
                                )
                            } else {
                                proof {
                                    lemma_unvisited_drops(scope@.frames, vis, frame_name.value@);
                                }
                                visited.push(frame_name.value.clone());
                                assert(visited@.map_values(|s: String| s@) =~= vis.push(
                                    frame_name.value@,
                                ));
                                let sub = Frame::resolve(sub_definition, scope, visited);
                                visited.pop();
                                assert(visited@ =~= old(visited)@);
                                match sub {
                                    Err(e) => Err(e),
                                    Ok((sub_frame, size)) => {
                                        if size > usize::MAX - cursor {
                                            Err(
                                                Error {
                                                    span: name.span,
                                                    kind: ErrorKind::FrameTooLarge(
                                                        name.value.clone(),
                                                    ),
                                                },
                                            )
                                        } else {
                                            Ok(
                                                (
                                                    (
                                                        name.value.clone(),
                                                        Symbol::Slot(
                                                            Slot {
                                                                index: cursor,
                                                                sub_frame: SubFrame::Owned(
                                                                    Box::new(sub_frame),
                                                                ),
                                                            },
                                                        ),
                                                    ),
                                                    size,
                                                ),
                                            )
                                        }
                                    },
                                }
                            }
                        },
                    }
                },
            };
            match step {
                Err(e) => {
                    proof {
                        lemma_slots_error_persists(
                            scope@,
                            slots,
                            vis,
                            i as int + 1,
                            slots.len() as int,
                        );
                    }
                    return Err(e);
                },
                Ok((entry, width)) => {
                    proof {
                        lemma_view_entries_push(symbols@, entry);
                    }
                    symbols.push(entry);
                    cursor = cursor + width;
                },
            }
            i += 1;
        }
        let frame = Frame { name: definition.name.value.clone(), symbols };
        Ok((frame, cursor))
    }

    /// Resolves a frame definition: its slots laid out in definition order from
    /// index 0, each sub-frame resolved from its own definition in `scope`.
    /// A sub-frame that names no frame, or that leads back to a frame being
    /// resolved, is an error.
    pub fn from_definition(definition: &FrameDefinition, scope: &Scope) -> (r: Result<Frame<'a>>)
        requires
            scope.wf(),
        ensures
            match frame_from_definition(scope@, *definition) {
                Ok(fm) => r matches Ok(f) && f@ == fm,
                Err(e) => r == Err::<Frame, Error>(e),
            },
    {
        let mut visited: Vec<String> = Vec::new();
        visited.push(definition.name.value.clone());
        assert(visited@.map_values(|s: String| s@) =~= seq![definition.name.value@]);
        match Frame::resolve(definition, scope, &mut visited) {
            Err(e) => Err(e),
            Ok((frame, _)) => Ok(frame),
        }
    }
}

/// The name a slot definition binds.
pub open spec fn slot_name(slot: SlotDefinition) -> Seq<char> {
    match slot {
        SlotDefinition::Variable(name) => name.value@,
        SlotDefinition::SubFrame(name, _) => name.value@,
    }
}

/// Where the `k`-th symbol of a table starts when each follows the one before.
pub open spec fn start_of(symbols: Seq<(Seq<char>, SymbolM)>, k: int) -> nat {
    if k <= 0 {
        0
    } else {
        end_of(symbols[k - 1].1)
    }
}

/// The first `n` symbols bind the first `n` slot definitions in order, each a
/// slot starting where the one before it ends, with a sub-frame exactly when
/// its definition names one.
pub open spec fn laid_out(symbols: Seq<(Seq<char>, SymbolM)>, slots: Seq<SlotDefinition>, n: int) -> bool {
    &&& symbols.len() == n
    &&& forall|k: int|
        0 <= k < n ==> {
            &&& (#[trigger] symbols[k]).0 == slot_name(slots[k])
            &&& symbols[k].1 is Slot
            &&& symbols[k].1->Slot_0 as nat == start_of(symbols, k)
            &&& (slots[k] is Variable <==> symbols[k].1->Slot_1 is None)
        }
}

/// The size of a table's first `n` symbols depends on those symbols alone.
proof fn lemma_size_prefix(a: Seq<(Seq<char>, SymbolM)>, b: Seq<(Seq<char>, SymbolM)>, n: int)
    requires
        0 <= n <= a.len(),
        n <= b.len(),
        a.take(n) == b.take(n),
    ensures
        size_of_from(a, n) == size_of_from(b, n),
    decreases n,
{
    if n > 0 {
        assert(a.take(n - 1) == a.take(n).take(n - 1));
        assert(b.take(n - 1) == b.take(n).take(n - 1));
        assert(a[n - 1] == a.take(n)[n - 1]);
        assert(b[n - 1] == b.take(n)[n - 1]);
        lemma_size_prefix(a, b, n - 1);
    }
}

proof fn lemma_resolved_layout(scope: ScopeView, def: FrameDefinition, visited: Seq<Seq<char>>)
    requires
        resolved(scope, def, visited) is Ok,
    ensures
        resolved(scope, def, visited)->Ok_0.1 as nat == size_of(resolved(scope, def, visited)->Ok_0.0),
        laid_out(
            resolved(scope, def, visited)->Ok_0.0.symbols,
            def.slots@,
            def.slots@.len() as int,
        ),
    decreases unvisited(scope.frames, visited), def.slots@.len() + 1,
{
    lemma_slots_layout(scope, def.slots@, visited, def.slots@.len() as int);
}

proof fn lemma_slots_layout(
    scope: ScopeView,
    slots: Seq<SlotDefinition>,
    visited: Seq<Seq<char>>,
    n: int,
)
    requires
        0 <= n <= slots.len(),
        resolved_slots(scope, slots, visited, n) is Ok,
    ensures
        ({
            let (symbols, cursor) = resolved_slots(scope, slots, visited, n)->Ok_0;
            &&& laid_out(symbols, slots, n)
            &&& cursor as nat == size_of_from(symbols, n)
            &&& cursor as nat == start_of(symbols, n)
        }),
    decreases unvisited(scope.frames, visited), n,
{
    if n > 0 {
        lemma_slots_layout(scope, slots, visited, n - 1);
        let (prev, cursor) = resolved_slots(scope, slots, visited, n - 1)->Ok_0;
        let (symbols, next) = resolved_slots(scope, slots, visited, n)->Ok_0;
        assert(symbols == prev.push(symbols[n - 1]));
        match slots[n - 1] {
            SlotDefinition::SubFrame(name, frame_name) => {
                let sub_def = frame_of(scope, frame_name.value@)->Some_0;
                lemma_unvisited_drops(scope.frames, visited, frame_name.value@);
                lemma_resolved_layout(scope, sub_def, visited.push(frame_name.value@));
                let (sub, size) = resolved(scope, sub_def, visited.push(frame_name.value@))->Ok_0;
                assert(symbols[n - 1].1 == SymbolM::Slot(cursor, Some(sub)));
                assert(end_of(symbols[n - 1].1) == cursor + size_of(sub));
                assert(end_of(symbols[n - 1].1) == next as nat);
            },
            SlotDefinition::Variable(name) => {
                assert(symbols[n - 1].1 == SymbolM::Slot(cursor, None));
                assert(end_of(symbols[n - 1].1) == next as nat);
            },
        }
        assert(symbols.take(n - 1) =~= prev.take(n - 1));
        lemma_size_prefix(symbols, prev, n - 1);
        assert(size_of_from(symbols, n - 1) == cursor as nat);
        assert(start_of(symbols, n) == next as nat);
        assert(size_of_from(symbols, n) == next as nat);
        assert forall|k: int| 0 <= k < n - 1 implies start_of(symbols, k) == start_of(prev, k) by {
            if k > 0 {
                assert(symbols[k - 1] == prev[k - 1]);
            }
        }
        assert(laid_out(symbols, slots, n)) by {
            assert forall|k: int| 0 <= k < n implies {
                &&& (#[trigger] symbols[k]).0 == slot_name(slots[k])
                &&& symbols[k].1 is Slot
                &&& symbols[k].1->Slot_0 as nat == start_of(symbols, k)
                &&& (slots[k] is Variable <==> symbols[k].1->Slot_1 is None)
            } by {
                if k < n - 1 {
                    assert(symbols[k] == prev[k]);
                }
            }
        }
    }
}

/// Resolving a frame lays its slots out in definition order from index 0,
/// each starting where the one before it ends: one cell after a variable, the
/// sub-frame's size after a sub-frame. The frame's size, the largest end of
/// its slots, is where the last one ends, and it fits in a machine word.
pub proof fn law_frame_layout(scope: ScopeView, def: FrameDefinition)
    requires
        frame_from_definition(scope, def) is Ok,
    ensures
        laid_out(
            frame_from_definition(scope, def)->Ok_0.symbols,
            def.slots@,
            def.slots@.len() as int,
        ),
        size_of(frame_from_definition(scope, def)->Ok_0) == start_of(
            frame_from_definition(scope, def)->Ok_0.symbols,
            def.slots@.len() as int,
        ),
        size_of(frame_from_definition(scope, def)->Ok_0) <= usize::MAX,
{
    lemma_resolved_layout(scope, def, seq![def.name.value@]);
    lemma_slots_layout(scope, def.slots@, seq![def.name.value@], def.slots@.len() as int);
}

} // verus!
