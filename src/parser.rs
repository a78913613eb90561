use vstd::prelude::*;
use vstd::string::StrSliceExecFns;

use crate::ast::{
    Argument, Block, Definition, FrameDefinition, Identifier, Instruction, Macro, Parameter, Program,
    SlotDefinition, Span, Using,
};
use crate::error::{Error, ErrorKind, Result};

verus! {

/// Letters, digits and `_`.
pub open spec fn is_word_char(c: char) -> bool {
    ('a' <= c && c <= 'z') || ('A' <= c && c <= 'Z') || ('0' <= c && c <= '9') || c == '_'
}

pub open spec fn at(t: Seq<char>, p: int, c: char) -> bool {
    0 <= p < t.len() && t[p] == c
}

pub open spec fn word_at(t: Seq<char>, p: int) -> bool {
    0 <= p < t.len() && is_word_char(t[p])
}

/// The characters that are instructions on their own.
pub open spec fn is_atom_char(c: char) -> bool {
    c == '+' || c == '-' || c == ',' || c == '.' || c == '[' || c == ']' || c == '<' || c == '>'
}

/// Past the line break that ends a comment running from `q`, or the end.
pub open spec fn comment_end(t: Seq<char>, q: int) -> int
    decreases t.len() - q,
{
    if q < 0 || q >= t.len() {
        t.len() as int
    } else if t[q] == '\n' {
        q + 1
    } else {
        comment_end(t, q + 1)
    }
}

/// The first position at or after `p` that is not white space or comment.
pub open spec fn skip(t: Seq<char>, p: int) -> int
    decreases t.len() - p,
{
    if p < 0 || p >= t.len() {
        p
    } else if is_space(t[p]) {
        skip(t, p + 1)
    } else if t[p] == '#' {
        let c = comment_end(t, p + 1);
        if p < c <= t.len() {
            skip(t, c)
        } else {
            p
        }
    } else {
        p
    }
}

/// The end of the run of word characters from `p`.
pub open spec fn word_end(t: Seq<char>, p: int) -> int
    decreases t.len() - p,
{
    if word_at(t, p) {
        word_end(t, p + 1)
    } else {
        p
    }
}

/// The end of a dotted path whose first word ends at `q`.
pub open spec fn path_rest(t: Seq<char>, q: int) -> int
    decreases t.len() - q,
{
    if at(t, q, '.') && word_at(t, q + 1) {
        let w = word_end(t, q + 1);
        if q < w <= t.len() {
            path_rest(t, w)
        } else {
            q
        }
    } else {
        q
    }
}

pub open spec fn path_end(t: Seq<char>, p: int) -> Option<int> {
    if word_end(t, p) <= p {
        None
    } else {
        Some(path_rest(t, word_end(t, p)))
    }
}

/// The closing quote of a string whose text starts at `q`, or the end.
pub open spec fn quote_end(t: Seq<char>, q: int) -> int
    decreases t.len() - q,
{
    if q < 0 || q >= t.len() {
        t.len() as int
    } else if t[q] == '"' {
        q
    } else {
        quote_end(t, q + 1)
    }
}

/// Where the block `{ instruction* }` starting at `p` ends, if one does.
pub open spec fn block_end(t: Seq<char>, p: int) -> Option<int>
    decreases t.len() - p, 0nat,
{
    if at(t, p, '{') {
        items_end(t, p + 1)
    } else {
        None
    }
}

/// Where the instructions from `p` up to and including their `}` end.
pub open spec fn items_end(t: Seq<char>, p: int) -> Option<int>
    decreases t.len() - p, 1nat,
{
    let q = skip(t, p);
    if p < 0 || q < p || q >= t.len() {
        None
    } else if t[q] == '}' {
        Some(q + 1)
    } else {
        match instr_end(t, q) {
            Some(e) => if p < e <= t.len() {
                items_end(t, e)
            } else {
                None
            },
            None => None,
        }
    }
}

/// Where the instruction at `q` ends: a BF character, `moving { ... }`,
/// `using F { ... }`, a macro call `m(...)` or a dotted path.
pub open spec fn instr_end(t: Seq<char>, q: int) -> Option<int>
    decreases t.len() - q, 0nat,
{
    if q < 0 || q >= t.len() {
        None
    } else if is_atom_char(t[q]) {
        Some(q + 1)
    } else {
        let w = word_end(t, q);
        if w <= q {
            None
        } else if t.subrange(q, w) == "moving"@ {
            let b = skip(t, w);
            if q < b <= t.len() {
                block_end(t, b)
            } else {
                None
            }
        } else if t.subrange(q, w) == "using"@ {
            if w <= t.len() {
                using_end(t, w)
            } else {
                None
            }
        } else {
            let pe = path_rest(t, w);
            let a = skip(t, pe);
            if pe == w && at(t, a, '(') && a > q {
                args_end(t, a)
            } else {
                Some(pe)
            }
        }
    }
}

/// Where `F { ... }` after a `using` keyword ending at `p` ends.
pub open spec fn using_end(t: Seq<char>, p: int) -> Option<int>
    decreases t.len() - p, 0nat,
{
    let q = skip(t, p);
    let w = word_end(t, q);
    if q < p || w <= q {
        None
    } else {
        let b = skip(t, w);
        if p < b <= t.len() {
            block_end(t, b)
        } else {
            None
        }
    }
}

/// Where the argument list `( ... )` starting at `p` ends.
pub open spec fn args_end(t: Seq<char>, p: int) -> Option<int>
    decreases t.len() - p, 0nat,
{
    if !at(t, p, '(') {
        None
    } else {
        let q = skip(t, p + 1);
        if q <= p || q > t.len() {
            None
        } else if at(t, q, ')') {
            Some(q + 1)
        } else {
            args_items(t, q)
        }
    }
}

/// Where one argument (a block or a path) starting at `q` ends.
pub open spec fn arg_end(t: Seq<char>, q: int) -> Option<int>
    decreases t.len() - q, 1nat,
{
    if q > t.len() {
        None
    } else if at(t, q, '{') {
        block_end(t, q)
    } else {
        path_end(t, q)
    }
}

/// Where the arguments from `p` up to and including the `)` end.
pub open spec fn args_items(t: Seq<char>, p: int) -> Option<int>
    decreases t.len() - p, 2nat,
{
    let q = skip(t, p);
    if q < p || q > t.len() {
        None
    } else {
        match arg_end(t, q) {
            None => None,
            Some(e) => {
                let c = skip(t, e);
                if at(t, c, ')') {
                    Some(c + 1)
                } else if at(t, c, ',') && c + 1 > p {
                    args_items(t, c + 1)
                } else {
                    None
                }
            },
        }
    }
}

/// The identifier that the word at `p` spells.
#[verifier::opaque]
pub open spec fn ident_is(id: Identifier, t: Seq<char>, p: int) -> bool {
    &&& p < word_end(t, p)
    &&& id.span.0 == p
    &&& id.span.1 == word_end(t, p)
    &&& id.value@ == t.subrange(p, word_end(t, p))
}

/// Each word after the first follows a dot just after the word before it.
pub open spec fn dotted(v: Seq<Identifier>, t: Seq<char>) -> bool {
    forall|k: int|
        1 <= k < v.len() ==> at(t, v[k - 1].span.1 as int, '.') && ident_is(
            #[trigger] v[k],
            t,
            v[k - 1].span.1 + 1,
        )
}

proof fn lemma_dotted_push(v: Seq<Identifier>, id: Identifier, t: Seq<char>)
    requires
        v.len() >= 1,
        dotted(v, t),
        at(t, v.last().span.1 as int, '.'),
        ident_is(id, t, v.last().span.1 + 1),
    ensures
        dotted(v.push(id), t),
{
    let w = v.push(id);
    assert forall|k: int| 1 <= k < w.len() implies at(t, w[k - 1].span.1 as int, '.') && ident_is(
        #[trigger] w[k],
        t,
        w[k - 1].span.1 + 1,
    ) by {
        if k < v.len() {
            assert(w[k] == v[k]);
            assert(w[k - 1] == v[k - 1]);
        } else {
            assert(w[k] == id);
            assert(w[k - 1] == v.last());
        }
    }
}

/// The path that the text at `p` spells: its words, joined by dots.
pub open spec fn path_is(v: Seq<Identifier>, t: Seq<char>, p: int) -> bool {
    &&& v.len() >= 1
    &&& ident_is(v[0], t, p)
    &&& dotted(v, t)
    &&& v.last().span.1 == path_rest(t, word_end(t, p))
}

pub open spec fn slots_is(s: Seq<SlotDefinition>, t: Seq<char>, p: int) -> bool {
    let o = skip(t, p);
    at(t, o, '{') && slot_items_is(s, t, o + 1)
}

/// The block that the text at `p` spells.
pub open spec fn block_is(b: Block, t: Seq<char>, p: int) -> bool
    decreases t.len() - p, 0nat,
{
    &&& at(t, p, '{')
    &&& b.span.0 == p
    &&& block_end(t, p) == Some(b.span.1 as int)
    &&& b.file_path is None
    &&& items_is(b.instructions@, t, p + 1)
}

/// The instructions that the text from `p` up to its `}` spells.
pub open spec fn items_is(s: Seq<Instruction>, t: Seq<char>, p: int) -> bool
    decreases t.len() - p, 1nat,
{
    let q = skip(t, p);
    if p < 0 || q < p || q >= t.len() {
        false
    } else if t[q] == '}' {
        s.len() == 0
    } else {
        &&& s.len() > 0
        &&& match instr_end(t, q) {
            Some(e) => p < e <= t.len() && instr_is(s[0], t, q) && items_is(s.drop_first(), t, e),
            None => false,
        }
    }
}

/// The instruction that the text at `q` spells.
pub open spec fn instr_is(i: Instruction, t: Seq<char>, q: int) -> bool
    decreases t.len() - q, 0nat,
{
    if q < 0 || q >= t.len() {
        false
    } else if t[q] == '+' {
        i == Instruction::Add
    } else if t[q] == '-' {
        i == Instruction::Subtract
    } else if t[q] == ',' {
        i == Instruction::Input
    } else if t[q] == '.' {
        i == Instruction::Output
    } else if t[q] == '[' {
        i matches Instruction::OpenLoop(s) && s.0 == q && s.1 == q + 1
    } else if t[q] == ']' {
        i matches Instruction::CloseLoop(s) && s.0 == q && s.1 == q + 1
    } else if t[q] == '<' {
        i matches Instruction::Left(s) && s.0 == q && s.1 == q + 1
    } else if t[q] == '>' {
        i matches Instruction::Right(s) && s.0 == q && s.1 == q + 1
    } else {
        let w = word_end(t, q);
        if w <= q {
            false
        } else if t.subrange(q, w) == "moving"@ {
            let b = skip(t, w);
            q < b <= t.len() && match i {
                Instruction::MovingBlock(bl) => block_is(bl, t, b),
                _ => false,
            }
        } else if t.subrange(q, w) == "using"@ {
            w <= t.len() && match i {
                Instruction::Using(u) => using_is(u, t, w),
                _ => false,
            }
        } else {
            let pe = path_rest(t, w);
            let a = skip(t, pe);
            if pe == w && at(t, a, '(') && a > q {
                match i {
                    Instruction::MacroInvoke(n, args) => ident_is(n, t, q) && args_is(args@, t, a),
                    _ => false,
                }
            } else {
                match i {
                    Instruction::Variable(v) => path_is(v@, t, q),
                    _ => false,
                }
            }
        }
    }
}

/// The region that `F { ... }` after a `using` keyword ending at `p` spells.
pub open spec fn using_is(u: Using, t: Seq<char>, p: int) -> bool
    decreases t.len() - p, 0nat,
{
    let q = skip(t, p);
    let w = word_end(t, q);
    let b = skip(t, w);
    q >= p && w > q && ident_is(u.frame, t, q) && p < b <= t.len() && block_is(u.block, t, b)
}

/// The arguments that the list `( ... )` at `p` spells.
pub open spec fn args_is(s: Seq<Argument>, t: Seq<char>, p: int) -> bool
    decreases t.len() - p, 0nat,
{
    let q = skip(t, p + 1);
    at(t, p, '(') && p < q <= t.len() && if at(t, q, ')') {
        s.len() == 0
    } else {
        args_items_is(s, t, q)
    }
}

/// The argument that the text at `q` spells.
pub open spec fn arg_is(a: Argument, t: Seq<char>, q: int) -> bool
    decreases t.len() - q, 1nat,
{
    if q > t.len() {
        false
    } else if at(t, q, '{') {
        a matches Argument::Block(b) && block_is(b, t, q)
    } else {
        a matches Argument::Variable(v) && path_is(v@, t, q)
    }
}

/// The arguments that the text from `p` up to its `)` spells.
pub open spec fn args_items_is(s: Seq<Argument>, t: Seq<char>, p: int) -> bool
    decreases t.len() - p, 2nat,
{
    let q = skip(t, p);
    &&& p <= q <= t.len()
    &&& s.len() > 0
    &&& arg_is(s[0], t, q)
    &&& match arg_end(t, q) {
        Some(e) => {
            let c = skip(t, e);
            if at(t, c, ')') {
                s.len() == 1
            } else {
                at(t, c, ',') && c + 1 > p && args_items_is(s.drop_first(), t, c + 1)
            }
        },
        None => false,
    }
}

/// Where the slots `{ ... }` of a frame after `p` end.
pub open spec fn slots_end(t: Seq<char>, p: int) -> Option<int> {
    let o = skip(t, p);
    if at(t, o, '{') {
        slot_items(t, o + 1)
    } else {
        None
    }
}

/// Where a slot `name` or `name : Frame` at `q` ends.
pub open spec fn slot_end(t: Seq<char>, q: int) -> Option<int> {
    let w = word_end(t, q);
    let c = skip(t, w);
    if w <= q {
        None
    } else if at(t, c, ':') {
        let s = skip(t, c + 1);
        let sw = word_end(t, s);
        if sw <= s {
            None
        } else {
            Some(sw)
        }
    } else {
        Some(w)
    }
}

pub open spec fn slot_items(t: Seq<char>, p: int) -> Option<int>
    decreases t.len() - p,
{
    let q = skip(t, p);
    if q < p {
        None
    } else if at(t, q, '}') {
        Some(q + 1)
    } else {
        match slot_end(t, q) {
            Some(e) => if p < e <= t.len() {
                slot_items(t, e)
            } else {
                None
            },
            None => None,
        }
    }
}

/// The slot that the text at `q` spells.
pub open spec fn slot_is(s: SlotDefinition, t: Seq<char>, q: int) -> bool {
    let c = skip(t, word_end(t, q));
    if at(t, c, ':') {
        s matches SlotDefinition::SubFrame(n, f) && ident_is(n, t, q) && ident_is(f, t, skip(t, c + 1))
    } else {
        s matches SlotDefinition::Variable(n) && ident_is(n, t, q)
    }
}

pub open spec fn slot_items_is(s: Seq<SlotDefinition>, t: Seq<char>, p: int) -> bool
    decreases t.len() - p,
{
    let q = skip(t, p);
    if q < p {
        false
    } else if at(t, q, '}') {
        s.len() == 0
    } else {
        &&& s.len() > 0
        &&& slot_is(s[0], t, q)
        &&& match slot_end(t, q) {
            Some(e) => p < e <= t.len() && slot_items_is(s.drop_first(), t, e),
            None => false,
        }
    }
}

/// Where a parameter `name`, `name : Frame` or `block name` at `q` ends.
pub open spec fn param_end(t: Seq<char>, q: int) -> Option<int> {
    let w = word_end(t, q);
    let a = skip(t, w);
    if w <= q {
        None
    } else if t.subrange(q, w) == "block"@ && word_at(t, a) {
        Some(word_end(t, a))
    } else if at(t, a, ':') {
        let s = skip(t, a + 1);
        let sw = word_end(t, s);
        if sw <= s {
            None
        } else {
            Some(sw)
        }
    } else {
        Some(w)
    }
}

/// The parameter that the text at `q` spells.
pub open spec fn param_is(x: Parameter, t: Seq<char>, q: int) -> bool {
    let w = word_end(t, q);
    let a = skip(t, w);
    if t.subrange(q, w) == "block"@ && word_at(t, a) {
        x matches Parameter::Block(n) && ident_is(n, t, a)
    } else if at(t, a, ':') {
        x matches Parameter::SubFrame(n, f) && ident_is(n, t, q) && ident_is(f, t, skip(t, a + 1))
    } else {
        x matches Parameter::Slot(n) && ident_is(n, t, q)
    }
}

pub open spec fn params_end(t: Seq<char>, p: int) -> Option<int> {
    let o = skip(t, p);
    let q = skip(t, o + 1);
    if !at(t, o, '(') {
        None
    } else if at(t, q, ')') {
        Some(q + 1)
    } else {
        param_items(t, q)
    }
}

pub open spec fn param_items(t: Seq<char>, p: int) -> Option<int>
    decreases t.len() - p,
{
    let q = skip(t, p);
    if q < p {
        None
    } else {
        match param_end(t, q) {
            None => None,
            Some(e) => {
                let c = skip(t, e);
                if at(t, c, ')') {
                    Some(c + 1)
                } else if at(t, c, ',') && c + 1 > p {
                    param_items(t, c + 1)
                } else {
                    None
                }
            },
        }
    }
}

pub open spec fn params_is(s: Seq<Parameter>, t: Seq<char>, p: int) -> bool {
    let o = skip(t, p);
    let q = skip(t, o + 1);
    at(t, o, '(') && if at(t, q, ')') {
        s.len() == 0
    } else {
        param_items_is(s, t, q)
    }
}

pub open spec fn param_items_is(s: Seq<Parameter>, t: Seq<char>, p: int) -> bool
    decreases t.len() - p,
{
    let q = skip(t, p);
    &&& q >= p
    &&& s.len() > 0
    &&& param_is(s[0], t, q)
    &&& match param_end(t, q) {
        Some(e) => {
            let c = skip(t, e);
            if at(t, c, ')') {
                s.len() == 1
            } else {
                at(t, c, ',') && c + 1 > p && param_items_is(s.drop_first(), t, c + 1)
            }
        },
        None => false,
    }
}

/// Where the definition at `p` ends: `include "path"`, `using F { ... }`,
/// `frame F { slots }` or `macro m(parameters) { ... }`.
#[verifier::opaque]
pub open spec fn def_end(t: Seq<char>, p: int) -> Option<int> {
    let w = word_end(t, p);
    let kw = t.subrange(p, w);
    if p < 0 || w <= p {
        None
    } else if kw == "include"@ {
        let o = skip(t, w);
        let c = quote_end(t, o + 1);
        if at(t, o, '"') && c < t.len() {
            Some(c + 1)
        } else {
            None
        }
    } else if kw == "using"@ {
        using_end(t, w)
    } else if kw == "frame"@ || kw == "macro"@ {
        let n = skip(t, w);
        let nw = word_end(t, n);
        if nw <= n {
            None
        } else if kw == "frame"@ {
            slots_end(t, nw)
        } else {
            match params_end(t, nw) {
                Some(e) => block_end(t, skip(t, e)),
                None => None,
            }
        }
    } else {
        None
    }
}

/// The definition that the text at `p` spells.
#[verifier::opaque]
pub open spec fn def_is(d: Definition, t: Seq<char>, p: int) -> bool {
    let w = word_end(t, p);
    let kw = t.subrange(p, w);
    let n = skip(t, w);
    let nw = word_end(t, n);
    if kw == "include"@ {
        let o = skip(t, w);
        d matches Definition::Include(path) && path@ == t.subrange(o + 1, quote_end(t, o + 1))
    } else if kw == "using"@ {
        d matches Definition::Using(u) && using_is(u, t, w)
    } else if kw == "frame"@ {
        d matches Definition::Frame(f) && ident_is(f.name, t, n) && slots_is(f.slots@, t, nw)
    } else {
        &&& d matches Definition::Macro(m)
        &&& ident_is(m.name, t, n)
        &&& params_is(m.parameters@, t, nw)
        &&& params_end(t, nw) matches Some(e)
        &&& block_is(m.block, t, skip(t, e))
    }
}

/// The text from `p` is a sequence of definitions.
pub open spec fn program_ok(t: Seq<char>, p: int) -> bool
    decreases t.len() - p,
{
    let q = skip(t, p);
    if p < 0 || q < p {
        false
    } else if q >= t.len() {
        true
    } else {
        match def_end(t, q) {
            Some(e) => p < e <= t.len() && program_ok(t, e),
            None => false,
        }
    }
}

/// The definitions that the text from `p` spells, in order.
pub open spec fn program_is(s: Seq<Definition>, t: Seq<char>, p: int) -> bool
    decreases t.len() - p,
{
    let q = skip(t, p);
    if p < 0 || q < p {
        false
    } else if q >= t.len() {
        s.len() == 0
    } else {
        &&& s.len() > 0
        &&& def_is(s[0], t, q)
        &&& match def_end(t, q) {
            Some(e) => p < e <= t.len() && program_is(s.drop_first(), t, e),
            None => false,
        }
    }
}

/// A source text that the grammar accepts.
pub open spec fn grammatical(t: Seq<char>) -> bool {
    program_ok(t, 0)
}

pub open spec fn is_space(c: char) -> bool {
    c == ' ' || c == '\t' || c == '\n' || c == '\r'
}

/// Character `k` lies in a comment: a `#` at or before it with no line break
/// in between.
pub open spec fn in_comment(text: Seq<char>, k: int) -> bool {
    exists|m: int|
        0 <= m <= k && #[trigger] text[m] == '#' && forall|q: int| m < q <= k ==> text[q] != '\n'
}

/// Characters `i` to `j` (excluded) are white space or comments only.
pub open spec fn trivia(text: Seq<char>, i: int, j: int) -> bool {
    forall|k: int| i <= k < j ==> is_space(#[trigger] text[k]) || in_comment(text, k)
}

proof fn lemma_comment_end(t: Seq<char>, q: int)
    requires
        0 <= q <= t.len(),
    ensures
        q <= comment_end(t, q) <= t.len(),
    decreases t.len() - q,
{
    if q < t.len() && t[q] != '\n' {
        lemma_comment_end(t, q + 1);
    }
}

proof fn lemma_word_end(t: Seq<char>, p: int)
    requires
        0 <= p <= t.len(),
    ensures
        p <= word_end(t, p) <= t.len(),
    decreases t.len() - p,
{
    if word_at(t, p) {
        lemma_word_end(t, p + 1);
    }
}

proof fn lemma_quote_end(t: Seq<char>, q: int)
    requires
        0 <= q <= t.len(),
    ensures
        q <= quote_end(t, q) <= t.len(),
    decreases t.len() - q,
{
    if q < t.len() && t[q] != '"' {
        lemma_quote_end(t, q + 1);
    }
}

/// The source being read: its text and its characters.
struct Source<'t> {
    text: &'t str,
    chars: Vec<char>,
}

impl<'t> Source<'t> {
    spec fn wf(&self) -> bool {
        self.chars@ == self.text@ && self.chars@.len() <= usize::MAX
    }

    fn len(&self) -> (r: usize)
        ensures
            r == self.chars@.len(),
    {
        self.chars.len()
    }

    fn unexpected(&self, pos: usize) -> (r: Error) {
        if pos < self.chars.len() {
            Error { span: (pos, pos + 1), kind: ErrorKind::Unexpected }
        } else {
            Error { span: (pos, pos), kind: ErrorKind::UnexpectedEnd }
        }
    }

    fn is_word_char_at(&self, pos: usize) -> (r: bool)
        ensures
            r == (pos < self.chars@.len() && is_word_char(self.chars@[pos as int])),
            self.chars@.len() <= usize::MAX,
    {
        let _ = self.chars.len();
        if pos >= self.chars.len() {
            return false;
        }
        let c = self.chars[pos];
        ('a' <= c && c <= 'z') || ('A' <= c && c <= 'Z') || ('0' <= c && c <= '9') || c == '_'
    }

    fn is_at(&self, pos: usize, c: char) -> (r: bool)
        ensures
            r == (pos < self.chars@.len() && self.chars@[pos as int] == c),
            self.chars@.len() <= usize::MAX,
    {
        let n = self.chars.len();
        pos < n && self.chars[pos] == c
    }

    /// Skips whitespace and `#` comments, which run to the end of the line.
    fn skip_trivia(&self, pos: usize) -> (r: usize)
        requires
            pos <= self.chars@.len(),
        ensures
            r == skip(self.chars@, pos as int),
            pos <= r,
            pos <= self.chars@.len() ==> r <= self.chars@.len(),
            trivia(self.chars@, pos as int, r as int),
            r < self.chars@.len() ==> !is_space(self.chars@[r as int]) && self.chars@[r as int]
                != '#',
            r < self.chars@.len() ==> forall|m: int|
                pos <= m < r && #[trigger] self.chars@[m] == '#' ==> exists|q: int|
                    m < q < r && self.chars@[q] == '\n',
    {
        let mut p = pos;
        while p < self.chars.len()
            invariant
                pos <= p,
                pos <= self.chars@.len() ==> p <= self.chars@.len(),
                trivia(self.chars@, pos as int, p as int),
                skip(self.chars@, pos as int) == skip(self.chars@, p as int),
                p < self.chars@.len() ==> forall|m: int|
                    pos <= m < p && #[trigger] self.chars@[m] == '#' ==> exists|q: int|
                        m < q < p && self.chars@[q] == '\n',
            decreases self.chars@.len() - p,
        {
            let c = self.chars[p];
            if c == ' ' || c == '\t' || c == '\n' || c == '\r' {
                p += 1;
            } else if c == '#' {
                let comment = p;
                proof {
                    lemma_comment_end(self.chars@, comment + 1);
                }
                p += 1;
                while p < self.chars.len() && self.chars[p] != '\n'
                    invariant
                        pos <= comment < p,
                        comment < self.chars@.len(),
                        self.chars@[comment as int] == '#',
                        forall|q: int| comment < q < p ==> self.chars@[q] != '\n',
                        trivia(self.chars@, pos as int, p as int),
                        skip(self.chars@, pos as int) == skip(
                            self.chars@,
                            comment_end(self.chars@, comment + 1),
                        ),
                        comment_end(self.chars@, comment + 1) == comment_end(self.chars@, p as int),
                        forall|m: int|
                            pos <= m < comment && #[trigger] self.chars@[m] == '#' ==> exists|q: int|
                                m < q < comment && self.chars@[q] == '\n',
                        pos <= self.chars@.len() ==> p <= self.chars@.len(),
                    decreases self.chars@.len() - p,
                {
                    assert(in_comment(self.chars@, p as int)) by {
                        assert(self.chars@[comment as int] == '#');
                    }
                    p += 1;
                }
                if p < self.chars.len() {
                    let newline = p;
                    p += 1;
                    assert forall|m: int|
                        pos <= m < p && #[trigger] self.chars@[m] == '#' implies exists|q: int|
                            m < q < p && self.chars@[q] == '\n' by {
                        if m >= comment {
                            assert(self.chars@[newline as int] == '\n');
                        } else {
                            let q0 = choose|q: int| m < q < comment && self.chars@[q] == '\n';
                            assert(m < q0 < p);
                        }
                    }
                }
            } else {
                return p;
            }
        }
        p
    }

    /// The end of the run of word characters starting at `pos`.
    fn word_end(&self, pos: usize) -> (r: usize)
        requires
            pos <= self.chars@.len(),
        ensures
            pos <= r <= self.chars@.len(),
            r == word_end(self.chars@, pos as int),
    {
        let mut p = pos;
        while self.is_word_char_at(p)
            invariant
                pos <= p <= self.chars@.len(),
                word_end(self.chars@, pos as int) == word_end(self.chars@, p as int),
            decreases self.chars@.len() - p,
        {
            p += 1;
        }
        p
    }

    /// Whether the characters from `start` to `end` spell `word`.
    fn spells(&self, start: usize, end: usize, word: &str) -> (r: bool)
        requires
            start <= end <= self.chars@.len(),
        ensures
            r == (self.chars@.subrange(start as int, end as int) == word@),
    {
        let n = word.unicode_len();
        if end - start != n {
            return false;
        }
        let mut i: usize = 0;
        while i < n
            invariant
                start <= end <= self.chars@.len(),
                end - start == n,
                n == word@.len(),
                i <= n,
                forall|k: int| 0 <= k < i ==> self.chars@[start + k] == word@[k],
            decreases n - i,
        {
            if self.chars[start + i] != word.get_char(i) {
                assert(self.chars@.subrange(start as int, end as int)[i as int] != word@[i as int]);
                return false;
            }
            i += 1;
        }
        assert(self.chars@.subrange(start as int, end as int) =~= word@);
        true
    }

    /// The identifier spelled by the word characters at `pos`.
    fn identifier(&self, pos: usize) -> (r: Result<(Identifier, usize)>)
        requires
            self.wf(),
            pos <= self.chars@.len(),
        ensures
            match r {
                Ok((id, end)) => ident_is(id, self.chars@, pos as int) && end == word_end(
                    self.chars@,
                    pos as int,
                ) && pos < end <= self.chars@.len() && id.span.0 == pos && id.span.1 == end,
                Err(_) => word_end(self.chars@, pos as int) <= pos,
            },
    {
        let end = self.word_end(pos);
        if end == pos {
            return Err(self.unexpected(pos));
        }
        let value = self.text.substring_char(pos, end).to_string();
        proof {
            reveal(ident_is);
        }
        Ok((Identifier { value, span: (pos, end) }, end))
    }

    /// A dotted path of identifiers, with no space around its dots.
    #[verifier::rlimit(60)]
    fn path(&self, pos: usize) -> (r: Result<(Vec<Identifier>, usize)>)
        requires
            self.wf(),
            pos <= self.chars@.len(),
        ensures
            match path_end(self.chars@, pos as int) {
                Some(e) => r matches Ok((v, end)) && end == e && path_is(v@, self.chars@, pos as int)
                    && pos < end <= self.chars@.len() && (v@.len() == 1 <==> e == word_end(
                    self.chars@,
                    pos as int,
                )),
                None => r is Err,
            },
    {
        let ghost t = self.chars@;
        let (first, mut p) = match self.identifier(pos) {
            Ok(found) => found,
            Err(e) => {
                return Err(e);
            },
        };
        let ghost w = p as int;
        let mut path: Vec<Identifier> = Vec::new();
        path.push(first);
        assert(dotted(path@, t));
        while self.is_at(p, '.') && self.is_word_char_at(p + 1)
            invariant
                self.wf(),
                t == self.chars@,
                pos < w <= p <= t.len(),
                w == word_end(t, pos as int),
                path_rest(t, w) == path_rest(t, p as int),
                path@.len() >= 1,
                ident_is(path@[0], t, pos as int),
                dotted(path@, t),
                path@.last().span.1 == p,
                path@.len() == 1 <==> p == w,
            decreases self.chars@.len() - p,
        {
            proof {
                lemma_word_end(t, p + 2);
            }
            match self.identifier(p + 1) {
                Ok((id, end)) => {
                    let ghost before = path@;
                    let ghost old_p = p as int;
                    proof {
                        lemma_dotted_push(before, id, t);
                    }
                    path.push(id);
                    p = end;
                    assert(path_rest(t, old_p) == path_rest(t, p as int));
                    assert(path@[0] == before[0]);
                },
                Err(e) => {
                    return Err(e);
                },
            }
        }
        proof {
            lemma_word_end(t, pos as int);
            assert(path_rest(t, p as int) == p);
            assert(path_rest(t, w) == p);
            assert(word_end(t, pos as int) == w && w > pos);
            assert(path_end(t, pos as int) == Some(p as int));
            assert(path@.last().span.1 == path_rest(t, word_end(t, pos as int)));
            assert(path_is(path@, t, pos as int));
        }
        Ok((path, p))
    }
}

impl<'t> Source<'t> {
    /// `{ instruction* }`, starting at its `{`.
    fn block(&self, pos: usize) -> (r: Result<(Block, usize)>)
        requires
            self.wf(),
            pos < self.chars@.len(),
            self.chars@[pos as int] == '{',
        ensures
            match block_end(self.chars@, pos as int) {
                Some(e) => r matches Ok((b, end)) && end == e && block_is(b, self.chars@, pos as int)
                    && pos < end <= self.chars@.len(),
                None => r is Err,
            },
        decreases self.chars@.len() - pos, 1nat,
    {
        let ghost t = self.chars@;
        let ghost p0 = pos + 1;
        let mut instructions: Vec<Instruction> = Vec::new();
        let mut p = pos + 1;
        loop
            invariant
                self.wf(),
                t == self.chars@,
                pos < p <= t.len(),
                p0 == pos + 1,
                t[pos as int] == '{',
                items_end(t, p0) == items_end(t, p as int),
                forall|rest: Seq<Instruction>|
                    #[trigger] items_is(rest, t, p as int) ==> items_is(instructions@ + rest, t, p0),
            decreases self.chars@.len() - p,
        {
            let q = self.skip_trivia(p);
            if q >= self.len() {
                return Err(self.unexpected(q));
            }
            if self.is_at(q, '}') {
                proof {
                    assert(items_is(Seq::<Instruction>::empty(), t, p as int));
                    assert(instructions@ + Seq::<Instruction>::empty() =~= instructions@);
                }
                let b = Block { instructions, span: (pos, q + 1), file_path: None };
                return Ok((b, q + 1));
            }
            match self.instruction(q) {
                Err(e) => {
                    return Err(e);
                },
                Ok((instruction, end)) => {
                    let ghost before = instructions@;
                    let ghost x = instruction;
                    instructions.push(instruction);
                    proof {
                        assert forall|rest: Seq<Instruction>|
                            #[trigger] items_is(rest, t, end as int) implies items_is(
                                instructions@ + rest,
                                t,
                                p0,
                            ) by {
                            let r2 = seq![x] + rest;
                            assert(r2.drop_first() =~= rest);
                            assert(r2[0] == x);
                            assert(items_is(r2, t, p as int));
                            assert(before + r2 =~= instructions@ + rest);
                        }
                    }
                    p = end;
                },
            }
        }
    }

    /// One instruction: a BF character, `moving { ... }`, `using F { ... }`,
    /// a path, or a macro call `name(arguments)`.
    fn instruction(&self, pos: usize) -> (r: Result<(Instruction, usize)>)
        requires
            self.wf(),
            pos < self.chars@.len(),
        ensures
            match instr_end(self.chars@, pos as int) {
                Some(e) => r matches Ok((i, end)) && end == e && instr_is(i, self.chars@, pos as int)
                    && pos < end <= self.chars@.len(),
                None => r is Err,
            },
        decreases self.chars@.len() - pos, 0nat,
    {
        let c = self.chars[pos];
        let span = (pos, pos + 1);
        if c == '+' {
            return Ok((Instruction::Add, pos + 1));
        } else if c == '-' {
            return Ok((Instruction::Subtract, pos + 1));
        } else if c == ',' {
            return Ok((Instruction::Input, pos + 1));
        } else if c == '.' {
            return Ok((Instruction::Output, pos + 1));
        } else if c == '[' {
            return Ok((Instruction::OpenLoop(span), pos + 1));
        } else if c == ']' {
            return Ok((Instruction::CloseLoop(span), pos + 1));
        } else if c == '<' {
            return Ok((Instruction::Left(span), pos + 1));
        } else if c == '>' {
            return Ok((Instruction::Right(span), pos + 1));
        }
        let word_end = self.word_end(pos);
        if word_end == pos {
            return Err(self.unexpected(pos));
        }
        if self.spells(pos, word_end, "moving") {
            let p = self.skip_trivia(word_end);
            if !self.is_at(p, '{') {
                return Err(self.unexpected(p));
            }
            return match self.block(p) {
                Ok((b, end)) => Ok((Instruction::MovingBlock(b), end)),
                Err(e) => Err(e),
            };
        }
        if self.spells(pos, word_end, "using") {
            return match self.using(word_end) {
                Ok((u, end)) => Ok((Instruction::Using(u), end)),
                Err(e) => Err(e),
            };
        }
        let (path, end) = match self.path(pos) {
            Ok(found) => found,
            Err(e) => {
                return Err(e);
            },
        };
        let p = self.skip_trivia(end);
        if path.len() == 1 && self.is_at(p, '(') {
            let name = path[0].clone_identifier();
            return match self.arguments(p) {
                Ok((arguments, end)) => Ok((Instruction::MacroInvoke(name, arguments), end)),
                Err(e) => Err(e),
            };
        }
        Ok((Instruction::Variable(path), end))
    }

    /// The frame name and block of a `using`, after its keyword.
    fn using(&self, pos: usize) -> (r: Result<(Using, usize)>)
        requires
            self.wf(),
            pos <= self.chars@.len(),
        ensures
            match using_end(self.chars@, pos as int) {
                Some(e) => r matches Ok((u, end)) && end == e && using_is(u, self.chars@, pos as int)
                    && pos < end <= self.chars@.len(),
                None => r is Err,
            },
        decreases self.chars@.len() - pos, 2nat,
    {
        let p = self.skip_trivia(pos);
        let (frame, end) = match self.identifier(p) {
            Ok(found) => found,
            Err(e) => {
                return Err(e);
            },
        };
        let p = self.skip_trivia(end);
        if !self.is_at(p, '{') {
            return Err(self.unexpected(p));
        }
        match self.block(p) {
            Ok((block, end)) => Ok((Using { frame, block }, end)),
            Err(e) => Err(e),
        }
    }

    /// `( argument, ... )`, starting at its `(`; an argument is a path or a block.
    fn arguments(&self, pos: usize) -> (r: Result<(Vec<Argument>, usize)>)
        requires
            self.wf(),
            pos < self.chars@.len(),
            self.chars@[pos as int] == '(',
        ensures
            match args_end(self.chars@, pos as int) {
                Some(e) => r matches Ok((args, end)) && end == e && args_is(
                    args@,
                    self.chars@,
                    pos as int,
                ) && pos < end <= self.chars@.len(),
                None => r is Err,
            },
        decreases self.chars@.len() - pos, 0nat,
    {
        let ghost t = self.chars@;
        let mut arguments: Vec<Argument> = Vec::new();
        let q0 = self.skip_trivia(pos + 1);
        if self.is_at(q0, ')') {
            return Ok((arguments, q0 + 1));
        }
        let mut p = q0;
        loop
            invariant
                self.wf(),
                t == self.chars@,
                pos < q0 <= p <= t.len(),
                q0 == skip(t, pos + 1),
                at(t, pos as int, '('),
                !at(t, q0 as int, ')'),
                args_items(t, q0 as int) == args_items(t, p as int),
                forall|rest: Seq<Argument>|
                    #[trigger] args_items_is(rest, t, p as int) ==> args_items_is(
                        arguments@ + rest,
                        t,
                        q0 as int,
                    ),
            decreases self.chars@.len() - p,
        {
            let q = self.skip_trivia(p);
            let (x, end) = if self.is_at(q, '{') {
                match self.block(q) {
                    Ok((b, end)) => (Argument::Block(b), end),
                    Err(e) => {
                        return Err(e);
                    },
                }
            } else {
                match self.path(q) {
                    Ok((path, end)) => (Argument::Variable(path), end),
                    Err(e) => {
                        return Err(e);
                    },
                }
            };
            assert(arg_is(x, t, q as int));
            assert(arg_end(t, q as int) == Some(end as int));
            let c = self.skip_trivia(end);
            let ghost before = arguments@;
            arguments.push(x);
            if self.is_at(c, ')') {
                proof {
                    assert(args_items_is(seq![x], t, p as int)) by {
                        assert(seq![x][0] == x);
                    }
                    assert(before + seq![x] =~= arguments@);
                    assert(args_items_is(arguments@, t, q0 as int));
                    assert(skip(t, p as int) == q);
                    assert(p <= q <= t.len());
                    assert(skip(t, end as int) == c);
                    assert(at(t, c as int, ')'));
                    assert(args_items(t, p as int) == Some(c + 1));
                    assert(args_end(t, pos as int) == Some(c + 1));
                    assert(args_is(arguments@, t, pos as int));
                }
                return Ok((arguments, c + 1));
            }
            if !self.is_at(c, ',') {
                return Err(self.unexpected(c));
            }
            proof {
                assert forall|rest: Seq<Argument>|
                    #[trigger] args_items_is(rest, t, c + 1) implies args_items_is(
                        arguments@ + rest,
                        t,
                        q0 as int,
                    ) by {
                    let r2 = seq![x] + rest;
                    assert(r2.drop_first() =~= rest);
                    assert(r2[0] == x);
                    assert(args_items_is(r2, t, p as int));
                    assert(before + r2 =~= arguments@ + rest);
                }
            }
            p = c + 1;
        }
    }

    /// One top-level definition: `include "path"`, `frame F { slots }`,
    /// `macro m(parameters) { ... }` or `using F { ... }`.
    fn definition(&self, pos: usize) -> (r: Result<(Definition, usize)>)
        requires
            self.wf(),
            pos < self.chars@.len(),
        ensures
            match def_end(self.chars@, pos as int) {
                Some(e) => r matches Ok((d, end)) && end == e && def_is(d, self.chars@, pos as int)
                    && pos < end <= self.chars@.len(),
                None => r is Err,
            },
    {
        let ghost t = self.chars@;
        reveal(def_end);
        reveal(def_is);
        let word_end = self.word_end(pos);
        if word_end == pos {
            return Err(self.unexpected(pos));
        }
        if self.spells(pos, word_end, "include") {
            let open = self.skip_trivia(word_end);
            if !self.is_at(open, '"') {
                return Err(self.unexpected(open));
            }
            let mut close = open + 1;
            while close < self.len() && !self.is_at(close, '"')
                invariant
                    self.wf(),
                    t == self.chars@,
                    open < close <= self.chars@.len(),
                    quote_end(t, open + 1) == quote_end(t, close as int),
                decreases self.chars@.len() - close,
            {
                close += 1;
            }
            if close >= self.len() {
                return Err(self.unexpected(close));
            }
            let path = self.text.substring_char(open + 1, close).to_string();
            return Ok((Definition::Include(path), close + 1));
        }
        if self.spells(pos, word_end, "using") {
            return match self.using(word_end) {
                Ok((u, end)) => Ok((Definition::Using(u), end)),
                Err(e) => Err(e),
            };
        }
        let is_frame = self.spells(pos, word_end, "frame");
        let is_macro = self.spells(pos, word_end, "macro");
        if !is_frame && !is_macro {
            return Err(self.unexpected(pos));
        }
        let (name, end) = match self.identifier(self.skip_trivia(word_end)) {
            Ok(found) => found,
            Err(e) => {
                return Err(e);
            },
        };
        if is_frame {
            match self.slots(end) {
                Ok((slots, end)) => Ok((Definition::Frame(FrameDefinition { name, slots }), end)),
                Err(e) => Err(e),
            }
        } else {
            let (parameters, end) = match self.parameters(end) {
                Ok(found) => found,
                Err(e) => {
                    return Err(e);
                },
            };
            let p = self.skip_trivia(end);
            if !self.is_at(p, '{') {
                return Err(self.unexpected(p));
            }
            match self.block(p) {
                Ok((block, end)) => Ok((Definition::Macro(Macro { name, parameters, block }), end)),
                Err(e) => Err(e),
            }
        }
    }

    /// `{ slot* }` of a frame, where a slot is `name` or `name : Frame`.
    fn slots(&self, pos: usize) -> (r: Result<(Vec<SlotDefinition>, usize)>)
        requires
            self.wf(),
            pos <= self.chars@.len(),
        ensures
            match slots_end(self.chars@, pos as int) {
                Some(e) => r matches Ok((slots, end)) && end == e && slots_is(
                    slots@,
                    self.chars@,
                    pos as int,
                ) && pos < end <= self.chars@.len(),
                None => r is Err,
            },
    {
        let ghost t = self.chars@;
        let o = self.skip_trivia(pos);
        if !self.is_at(o, '{') {
            return Err(self.unexpected(o));
        }
        let mut p = o + 1;
        let mut slots: Vec<SlotDefinition> = Vec::new();
        loop
            invariant
                self.wf(),
                t == self.chars@,
                pos <= o < p <= t.len(),
                o == skip(t, pos as int),
                at(t, o as int, '{'),
                slot_items(t, o + 1) == slot_items(t, p as int),
                forall|rest: Seq<SlotDefinition>|
                    #[trigger] slot_items_is(rest, t, p as int) ==> slot_items_is(
                        slots@ + rest,
                        t,
                        o + 1,
                    ),
            decreases self.chars@.len() - p,
        {
            let ghost p_old = p as int;
            let q = self.skip_trivia(p);
            if self.is_at(q, '}') {
                proof {
                    assert(slot_items_is(Seq::<SlotDefinition>::empty(), t, p as int));
                    assert(slots@ + Seq::<SlotDefinition>::empty() =~= slots@);
                    assert(slot_items_is(slots@, t, o + 1));
                    assert(skip(t, p as int) == q);
                    assert(p <= q);
                    assert(at(t, q as int, '}'));
                    assert(slot_items(t, p as int) == Some(q + 1));
                    assert(slots_end(t, pos as int) == Some(q + 1));
                    assert(slots_is(slots@, t, pos as int));
                }
                return Ok((slots, q + 1));
            }
            let (name, end) = match self.identifier(q) {
                Ok(found) => found,
                Err(e) => {
                    return Err(e);
                },
            };
            let c = self.skip_trivia(end);
            let ghost before = slots@;
            let x = if self.is_at(c, ':') {
                let (frame, end2) = match self.identifier(self.skip_trivia(c + 1)) {
                    Ok(found) => found,
                    Err(e) => {
                        return Err(e);
                    },
                };
                p = end2;
                SlotDefinition::SubFrame(name, frame)
            } else {
                p = end;
                SlotDefinition::Variable(name)
            };
            slots.push(x);
            proof {
                assert(slot_is(x, t, q as int));
                assert(slot_end(t, q as int) == Some(p as int));
                assert(slot_items(t, p_old) == slot_items(t, p as int));
            }
            assert forall|rest: Seq<SlotDefinition>|
                #[trigger] slot_items_is(rest, t, p as int) implies slot_items_is(
                    slots@ + rest,
                    t,
                    o + 1,
                ) by {
                let r2 = seq![x] + rest;
                assert(r2.drop_first() =~= rest);
                assert(r2[0] == x);
                assert(slot_items_is(r2, t, p_old));
                assert(before + r2 =~= slots@ + rest);
            }
        }
    }

    /// `( parameter, ... )` of a macro, where a parameter is `name`,
    /// `name : Frame` or `block name`.
    fn parameters(&self, pos: usize) -> (r: Result<(Vec<Parameter>, usize)>)
        requires
            self.wf(),
            pos <= self.chars@.len(),
        ensures
            match params_end(self.chars@, pos as int) {
                Some(e) => r matches Ok((parameters, end)) && end == e && params_is(
                    parameters@,
                    self.chars@,
                    pos as int,
                ) && pos < end <= self.chars@.len(),
                None => r is Err,
            },
    {
        let ghost t = self.chars@;
        let o = self.skip_trivia(pos);
        if !self.is_at(o, '(') {
            return Err(self.unexpected(o));
        }
        let mut parameters: Vec<Parameter> = Vec::new();
        let q0 = self.skip_trivia(o + 1);
        if self.is_at(q0, ')') {
            return Ok((parameters, q0 + 1));
        }
        let mut p = q0;
        loop
            invariant
                self.wf(),
                t == self.chars@,
                pos <= o < q0 <= p <= t.len(),
                o == skip(t, pos as int),
                q0 == skip(t, o + 1),
                at(t, o as int, '('),
                !at(t, q0 as int, ')'),
                param_items(t, q0 as int) == param_items(t, p as int),
                forall|rest: Seq<Parameter>|
                    #[trigger] param_items_is(rest, t, p as int) ==> param_items_is(
                        parameters@ + rest,
                        t,
                        q0 as int,
                    ),
            decreases self.chars@.len() - p,
        {
            let q = self.skip_trivia(p);
            let (name, end) = match self.identifier(q) {
                Ok(found) => found,
                Err(e) => {
                    return Err(e);
                },
            };
            let a = self.skip_trivia(end);
            let x;
            let e;
            if self.spells(name.span.0, name.span.1, "block") && self.is_word_char_at(a) {
                proof {
                    lemma_word_end(t, a + 1);
                }
                let (block_name, end2) = match self.identifier(a) {
                    Ok(found) => found,
                    Err(err) => {
                        return Err(err);
                    },
                };
                x = Parameter::Block(block_name);
                e = end2;
            } else if self.is_at(a, ':') {
                let (frame, end2) = match self.identifier(self.skip_trivia(a + 1)) {
                    Ok(found) => found,
                    Err(err) => {
                        return Err(err);
                    },
                };
                x = Parameter::SubFrame(name, frame);
                e = end2;
            } else {
                x = Parameter::Slot(name);
                e = end;
            }
            proof {
                assert(param_is(x, t, q as int));
                assert(param_end(t, q as int) == Some(e as int));
            }
            let ghost before = parameters@;
            parameters.push(x);
            let c = self.skip_trivia(e);
            if self.is_at(c, ')') {
                proof {
                    assert(param_items_is(seq![x], t, p as int)) by {
                        assert(seq![x][0] == x);
                    }
                    assert(before + seq![x] =~= parameters@);
                    assert(param_items_is(parameters@, t, q0 as int));
                    assert(param_items(t, p as int) == Some(c + 1));
                    assert(params_end(t, pos as int) == Some(c + 1));
                    assert(params_is(parameters@, t, pos as int));
                }
                return Ok((parameters, c + 1));
            }
            if !self.is_at(c, ',') {
                return Err(self.unexpected(c));
            }
            proof {
                assert forall|rest: Seq<Parameter>|
                    #[trigger] param_items_is(rest, t, c + 1) implies param_items_is(
                        parameters@ + rest,
                        t,
                        q0 as int,
                    ) by {
                    let r2 = seq![x] + rest;
                    assert(r2.drop_first() =~= rest);
                    assert(r2[0] == x);
                    assert(param_items_is(r2, t, p as int));
                    assert(before + r2 =~= parameters@ + rest);
                }
            }
            p = c + 1;
        }
    }
}

/// Parses the text of a source file into its definitions, in order. It
/// succeeds exactly on the texts the grammar accepts, and the result is the
/// one the text spells: each definition, instruction, identifier and block as
/// written, spans counting characters from the start of the text. Blocks carry
/// no file path yet. The result is empty exactly when the text holds nothing
/// but white space and comments.
#[verifier::rlimit(60)]
pub fn parse_program(text: &str) -> (r: Result<Program>)
    ensures
        grammatical(text@) <==> r is Ok,
        r matches Ok(program) ==> program_is(program@, text@, 0),
        trivia(text@, 0, text@.len() as int) <==> (r matches Ok(program) && program@.len() == 0),
{
    let n = text.unicode_len();
    let mut chars: Vec<char> = Vec::new();
    let mut i: usize = 0;
    while i < n
        invariant
            0 <= i <= n,
            n == text@.len(),
            chars@ == text@.take(i as int),
        decreases n - i,
    {
        chars.push(text.get_char(i));
        assert(chars@ =~= text@.take(i as int + 1));
        i += 1;
    }
    assert(chars@ =~= text@);
    let source = Source { text, chars };
    let ghost t = text@;
    let mut program: Program = Vec::new();
    let mut p: usize = 0;
    loop
        invariant
            source.wf(),
            source.text@ == text@,
            t == text@,
            source.chars@ == t,
            p <= source.chars@.len(),
            program_ok(t, 0) == program_ok(t, p as int),
            forall|rest: Seq<Definition>|
                #[trigger] program_is(rest, t, p as int) ==> program_is(program@ + rest, t, 0),
            program@.len() == 0 ==> p == 0,
            program@.len() > 0 ==> !trivia(text@, 0, text@.len() as int),
        decreases source.chars@.len() - p,
    {
        let start = p;
        let q = source.skip_trivia(p);
        if q >= source.len() {
            proof {
                assert(program_is(Seq::<Definition>::empty(), t, p as int));
                assert(program@ + Seq::<Definition>::empty() =~= program@);
            }
            return Ok(program);
        }
        proof {
            if start == 0 {
                let c = text@[q as int];
                assert(!is_space(c));
                assert(!in_comment(text@, q as int)) by {
                    if in_comment(text@, q as int) {
                        let m = choose|m: int|
                            0 <= m <= q && #[trigger] text@[m] == '#' && forall|k: int|
                                m < k <= q ==> text@[k] != '\n';
                        if m < q {
                            let k = choose|k: int| m < k < q && source.chars@[k] == '\n';
                        }
                    }
                }
                assert(!trivia(text@, 0, text@.len() as int));
            }
        }
        match source.definition(q) {
            Err(e) => {
                return Err(e);
            },
            Ok((definition, end)) => {
                let ghost before = program@;
                let ghost x = definition;
                program.push(definition);
                proof {
                    assert forall|rest: Seq<Definition>|
                        #[trigger] program_is(rest, t, end as int) implies program_is(
                            program@ + rest,
                            t,
                            0,
                        ) by {
                        let r2 = seq![x] + rest;
                        assert(r2.drop_first() =~= rest);
                        assert(r2[0] == x);
                        assert(program_is(r2, t, p as int));
                        assert(before + r2 =~= program@ + rest);
                    }
                }
                p = end;
            },
        }
    }
}

impl Identifier {
    /// A copy of the identifier.
    pub fn clone_identifier(&self) -> (r: Identifier)
        ensures
            r == *self,
    {
        Identifier { value: self.value.clone(), span: self.span }
    }
}

} // verus!
