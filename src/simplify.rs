use vstd::prelude::*;

use crate::bf::{Instruction, BF};

verus! {

/// `count` copies of `up` when `count` is positive, `-count` copies of `down`
/// when it is negative.
pub open spec fn run_of(count: int, up: Instruction, down: Instruction) -> Seq<Instruction> {
    if count > 0 {
        Seq::new(count as nat, |_i: int| up)
    } else {
        Seq::new((-count) as nat, |_i: int| down)
    }
}

pub open spec fn moves(count: int) -> Seq<Instruction> {
    run_of(count, Instruction::Right, Instruction::Left)
}

pub open spec fn changes(count: int) -> Seq<Instruction> {
    run_of(count, Instruction::Add, Instruction::Subtract)
}

/// After reading `code`: what has been written, the pending net pointer motion
/// and the pending net cell change.
pub open spec fn folding(code: Seq<Instruction>) -> (Seq<Instruction>, int, int)
    decreases code.len(),
{
    if code.len() == 0 {
        (Seq::empty(), 0, 0)
    } else {
        let (out, mv, ch) = folding(code.drop_last());
        match code.last() {
            Instruction::Left => (out + changes(ch), mv - 1, 0),
            Instruction::Right => (out + changes(ch), mv + 1, 0),
            Instruction::Add => (out + moves(mv), 0, ch + 1),
            Instruction::Subtract => (out + moves(mv), 0, ch - 1),
            other => ((out + moves(mv) + changes(ch)).push(other), 0, 0),
        }
    }
}

/// `code` with every run of `<`/`>` replaced by its net motion and every run of
/// `+`/`-` by its net change.
pub open spec fn simplified(code: Seq<Instruction>) -> Seq<Instruction> {
    let (out, mv, ch) = folding(code);
    out + moves(mv) + changes(ch)
}

fn resolve_run(out: &mut BF, count: &mut i64, up: Instruction, down: Instruction)
    requires
        *old(count) > i64::MIN,
    ensures
        final(out).spec_code() == old(out).spec_code() + run_of(*old(count) as int, up, down),
        final(out).spec_input() == old(out).spec_input(),
        *final(count) == 0,
{
    let n: u64 = if *count >= 0 {
        *count as u64
    } else {
        (-*count) as u64
    };
    let ghost start = out.spec_code();
    let mut i: u64 = 0;
    while i < n
        invariant
            0 <= i <= n,
            n == if *count >= 0 { *count as int } else { -*count },
            out.spec_code() == start + run_of(
                if *count >= 0 { i as int } else { -(i as int) },
                up,
                down,
            ),
            out.spec_input() == old(out).spec_input(),
            start == old(out).spec_code(),
            *count == *old(count),
        decreases n - i,
    {
        if *count > 0 {
            out.push(up);
        } else {
            out.push(down);
        }
        proof {
            let k: int = if *count >= 0 { i as int } else { -(i as int) };
            let k1: int = if *count >= 0 { i as int + 1 } else { -(i as int + 1) };
            assert(run_of(k1, up, down) == run_of(k, up, down).push(if *count > 0 { up } else { down }));
        }
        i += 1;
    }
    *count = 0;
}

/// Appends the net pointer motion `count` to `out` and clears it.
fn resolve_combined_move(out: &mut BF, count: &mut i64)
    requires
        *old(count) > i64::MIN,
    ensures
        final(out).spec_code() == old(out).spec_code() + moves(*old(count) as int),
        final(out).spec_input() == old(out).spec_input(),
        *final(count) == 0,
{
    resolve_run(out, count, Instruction::Right, Instruction::Left);
}

/// Appends the net cell change `count` to `out` and clears it.
fn resolve_combined_change(out: &mut BF, count: &mut i64)
    requires
        *old(count) > i64::MIN,
    ensures
        final(out).spec_code() == old(out).spec_code() + changes(*old(count) as int),
        final(out).spec_input() == old(out).spec_input(),
        *final(count) == 0,
{
    resolve_run(out, count, Instruction::Add, Instruction::Subtract);
}

/// Folds each run of `<`/`>` into its net motion and each run of `+`/`-` into
/// its net change; every other instruction is kept in place.
pub fn simplify_program(program: &BF) -> (r: BF)
    requires
        program.spec_code().len() < i64::MAX,
    ensures
        r.spec_code() == simplified(program.spec_code()),
        r.spec_input() == Seq::<u8>::empty(),
{
    let mut simplified_bf = BF::new();
    let mut combined_move: i64 = 0;
    let mut combined_change: i64 = 0;
    let code = program.code();
    let mut i: usize = 0;
    while i < code.len()
        invariant
            code@ == program.spec_code(),
            0 <= i <= code@.len(),
            code@.len() < i64::MAX,
            -(i as int) <= combined_move <= i,
            -(i as int) <= combined_change <= i,
            folding(code@.take(i as int)) == (
                simplified_bf.spec_code(),
                combined_move as int,
                combined_change as int,
            ),
            simplified_bf.spec_input() == Seq::<u8>::empty(),
        decreases code@.len() - i,
    {
        proof {
            let t = code@.take(i as int + 1);
            assert(t.drop_last() == code@.take(i as int));
            assert(t.last() == code@[i as int]);
        }
        match code[i] {
            Instruction::Left => {
                resolve_combined_change(&mut simplified_bf, &mut combined_change);
                combined_move -= 1;
            },
            Instruction::Right => {
                resolve_combined_change(&mut simplified_bf, &mut combined_change);
                combined_move += 1;
            },
            Instruction::Add => {
                resolve_combined_move(&mut simplified_bf, &mut combined_move);
                combined_change += 1;
            },
            Instruction::Subtract => {
                resolve_combined_move(&mut simplified_bf, &mut combined_move);
                combined_change -= 1;
            },
            instruction => {
                resolve_combined_move(&mut simplified_bf, &mut combined_move);
                resolve_combined_change(&mut simplified_bf, &mut combined_change);
                simplified_bf.push(instruction);
            },
        }
        i += 1;
    }
    assert(code@.take(code@.len() as int) == code@);
    resolve_combined_move(&mut simplified_bf, &mut combined_move);
    resolve_combined_change(&mut simplified_bf, &mut combined_change);
    simplified_bf
}

} // verus!
