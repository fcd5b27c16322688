//! Straight code: cell changes and pointer moves one after the other, and
//! what coalescing them leaves of their effect, which is all of it.

use vstd::prelude::*;
use crate::compiler::{DOWN, LEFT, RIGHT, UP, coalesce_add, coalesce_move};
use crate::instruction::Instruction;
use crate::machine::{
    MachineState,
    Progress,
    RuntimeError,
    apply,
    lemma_apply_keeps_wf,
    lemma_run_split,
    run,
    wrap_cell,
    wrap_cursor,
};
use crate::source::{interpret, lemma_run_source_split, run_source};
use crate::token::Token;

verus! {

/// The instruction that does what one token other than a bracket does.
pub open spec fn unit(t: Token) -> Instruction {
    match t {
        Token::Increment => Instruction::AddCell(UP),
        Token::Decrement => Instruction::AddCell(DOWN),
        Token::MoveRight => Instruction::MoveCursor(RIGHT),
        Token::MoveLeft => Instruction::MoveCursor(LEFT),
        Token::Output => Instruction::Output,
        _ => Instruction::Input,
    }
}

/// The instructions of a token sequence, one for each token.
pub open spec fn units(tokens: Seq<Token>) -> Seq<Instruction> {
    Seq::new(tokens.len(), |i: int| unit(tokens[i]))
}

/// Whether every instruction is a cell change or a pointer move.
pub open spec fn all_arith(code: Seq<Instruction>) -> bool {
    forall|i: int| 0 <= i < code.len() ==> (#[trigger] code[i]).is_arith()
}

/// The state after the instructions of a straight piece of code, one after
/// the other.
pub open spec fn perform(code: Seq<Instruction>, s: MachineState) -> MachineState
    decreases code.len(),
{
    if code.len() == 0 {
        s
    } else {
        let before = perform(code.drop_last(), s);
        match apply(code.last(), before) {
            Some(after) => after,
            None => before,
        }
    }
}

/// Whether two states differ in the program counter at most.
pub open spec fn same_data(a: MachineState, b: MachineState) -> bool {
    a == (MachineState { pc: a.pc, ..b })
}

/// Straight code keeps the state well formed and moves the program counter
/// by its length, where it holds cell changes and pointer moves only.
pub proof fn lemma_perform(code: Seq<Instruction>, s: MachineState)
    requires
        s.wf(),
    ensures
        perform(code, s).wf(),
        all_arith(code) ==> perform(code, s).pc == s.pc + code.len(),
    decreases code.len(),
{
    if code.len() > 0 {
        lemma_perform(code.drop_last(), s);
        lemma_apply_keeps_wf(code.last(), perform(code.drop_last(), s));
        if all_arith(code) {
            assert(code.last().is_arith());
            assert forall|i: int| 0 <= i < code.drop_last().len() implies (
            #[trigger] code.drop_last()[i]).is_arith() by {
                assert(code[i].is_arith());
            }
        }
    }
}

/// A cell change or pointer move does the same to states with the same data.
pub proof fn lemma_apply_same_data(i: Instruction, a: MachineState, b: MachineState)
    requires
        i.is_arith(),
        same_data(a, b),
    ensures
        same_data(apply(i, a)->Some_0, apply(i, b)->Some_0),
        apply(i, a) is Some,
        apply(i, b) is Some,
{
}

/// Two cell changes in a row change the cell by their wrapping sum.
proof fn lemma_cell_changes_add_up(c: u8, p: i8, q: i8)
    ensures
        wrap_cell(wrap_cell(c + p) + q) == wrap_cell(
            c + vstd::wrapping::i8_specs::wrapping_add(p, q),
        ),
        wrap_cell(c + 0) == c,
{
    let sum = vstd::wrapping::i8_specs::wrapping_add(p, q) as int;
    let turns: int = if p + q > 127 {
        -1
    } else if p + q < -128 {
        1
    } else {
        0
    };
    assert(sum == p + q + 256 * turns);
    vstd::arithmetic::div_mod::lemma_add_mod_noop(c + p, q as int, 256);
    vstd::arithmetic::div_mod::lemma_mod_multiples_vanish(turns, c + p + q, 256);
    let qi = q as int;
    assert((c + p) % 256 + qi % 256 == ((c + p) % 256 + qi) - 256 * (qi / 256)) by {
        vstd::arithmetic::div_mod::lemma_fundamental_div_mod(qi, 256);
    }
    vstd::arithmetic::div_mod::lemma_mod_multiples_vanish(-(qi / 256), (c + p) % 256 + qi, 256);
    vstd::arithmetic::div_mod::lemma_small_mod(c as nat, 256);
}

/// Two pointer moves in a row move the pointer by their wrapping sum.
proof fn lemma_moves_add_up(dp: nat, p: i16, q: i16)
    requires
        dp < 65536,
    ensures
        wrap_cursor(wrap_cursor(dp, p as int), q as int) == wrap_cursor(
            dp,
            vstd::wrapping::i16_specs::wrapping_add(p, q) as int,
        ),
        wrap_cursor(dp, 0) == dp,
{
    let sum = vstd::wrapping::i16_specs::wrapping_add(p, q) as int;
    let turns: int = if p + q > 32767 {
        -1
    } else if p + q < -32768 {
        1
    } else {
        0
    };
    assert(sum == p + q + 65536 * turns);
    vstd::arithmetic::div_mod::lemma_add_mod_noop(dp + p, q as int, 65536);
    vstd::arithmetic::div_mod::lemma_mod_multiples_vanish(turns, dp + p + q, 65536);
    let qi = q as int;
    assert((dp + p) % 65536 + qi % 65536 == ((dp + p) % 65536 + qi) - 65536 * (qi / 65536)) by {
        vstd::arithmetic::div_mod::lemma_fundamental_div_mod(qi, 65536);
    }
    vstd::arithmetic::div_mod::lemma_mod_multiples_vanish(
        -(qi / 65536),
        (dp + p) % 65536 + qi,
        65536,
    );
    vstd::arithmetic::div_mod::lemma_small_mod(dp, 65536);
}

/// The instruction that two cell changes, or two pointer moves, merge into.
pub open spec fn merged(first: Instruction, second: Instruction) -> Instruction {
    match first {
        Instruction::AddCell(p) => Instruction::AddCell(
            vstd::wrapping::i8_specs::wrapping_add(p, second->AddCell_0),
        ),
        _ => Instruction::MoveCursor(
            vstd::wrapping::i16_specs::wrapping_add(first->MoveCursor_0, second->MoveCursor_0),
        ),
    }
}

/// Whether an instruction changes the cell or moves the pointer by zero.
pub open spec fn is_noop(i: Instruction) -> bool {
    i == Instruction::AddCell(0) || i == Instruction::MoveCursor(0)
}

/// Whether the second instruction merges into the first.
pub open spec fn merges(first: Instruction, second: Instruction) -> bool {
    first is AddCell && second is AddCell || first is MoveCursor && second is MoveCursor
}

/// Two cell changes in a row do what their wrapping sum does, and two pointer
/// moves likewise; a change or move by zero does nothing.
pub proof fn lemma_merge(first: Instruction, second: Instruction, s: MachineState)
    requires
        s.wf(),
        merges(first, second),
    ensures
        same_data(
            apply(merged(first, second), s)->Some_0,
            apply(second, apply(first, s)->Some_0)->Some_0,
        ),
        is_noop(merged(first, second)) ==> same_data(
            s,
            apply(second, apply(first, s)->Some_0)->Some_0,
        ),
{
    let both = apply(second, apply(first, s)->Some_0)->Some_0;
    match first {
        Instruction::AddCell(p) => {
            let q = second->AddCell_0;
            let sum = vstd::wrapping::i8_specs::wrapping_add(p, q);
            lemma_cell_changes_add_up(s.cell(), p, q);
            assert(both.tape =~= s.tape.update(s.dp as int, wrap_cell(s.cell() + sum)));
            if sum == 0 {
                assert(both.tape =~= s.tape);
            }
        },
        _ => {
            lemma_moves_add_up(s.dp, first->MoveCursor_0, second->MoveCursor_0);
        },
    }
}

/// What appending a cell change or pointer move does to a buffer.
pub open spec fn coalesce(buffer: Seq<Instruction>, d: Instruction) -> Seq<Instruction> {
    if buffer.len() > 0 && merges(buffer.last(), d) {
        if is_noop(merged(buffer.last(), d)) {
            buffer.drop_last()
        } else {
            buffer.drop_last().push(merged(buffer.last(), d))
        }
    } else {
        buffer.push(d)
    }
}

/// Appending a cell change or pointer move to straight code, merged or not,
/// does to the data what the code followed by that instruction does.
pub proof fn lemma_coalesce_performs(
    tail: Seq<Instruction>,
    source: Seq<Instruction>,
    d: Instruction,
    s: MachineState,
)
    requires
        s.wf(),
        d.is_arith(),
        all_arith(tail),
        same_data(perform(tail, s), perform(source, s)),
    ensures
        all_arith(coalesce(tail, d)),
        same_data(perform(coalesce(tail, d), s), perform(source.push(d), s)),
{
    let x = perform(source, s);
    let y = perform(tail, s);
    lemma_perform(source, s);
    lemma_perform(tail, s);
    assert(source.push(d).drop_last() =~= source);
    lemma_apply_same_data(d, y, x);
    let now = coalesce(tail, d);
    if tail.len() > 0 && merges(tail.last(), d) {
        let rest = tail.drop_last();
        let z = perform(rest, s);
        lemma_perform(rest, s);
        assert(tail.last().is_arith());
        lemma_merge(tail.last(), d, z);
        if !is_noop(merged(tail.last(), d)) {
            assert(now.drop_last() =~= rest);
        }
        assert forall|i: int| 0 <= i < now.len() implies (#[trigger] now[i]).is_arith() by {
            if i < rest.len() {
                assert(tail[i].is_arith());
            }
        }
    } else {
        assert(now.drop_last() =~= tail);
        assert forall|i: int| 0 <= i < now.len() implies (#[trigger] now[i]).is_arith() by {
            if i < tail.len() {
                assert(tail[i].is_arith());
            }
        }
    }
}

/// The emission rule for a coalesced token works on the part of the buffer
/// above a boundary's address alone.
pub proof fn lemma_coalesce_above(buffer: Seq<Instruction>, n: int, t: Token)
    requires
        t.is_arith(),
        0 <= n <= buffer.len(),
        n > 0 ==> !buffer[n - 1].is_arith(),
    ensures
        ({
            let after = match t {
                Token::Increment => coalesce_add(buffer, UP),
                Token::Decrement => coalesce_add(buffer, DOWN),
                Token::MoveRight => coalesce_move(buffer, RIGHT),
                _ => coalesce_move(buffer, LEFT),
            };
            n <= after.len() && after.skip(n) == coalesce(buffer.skip(n), unit(t))
        }),
{
    let after = match t {
        Token::Increment => coalesce_add(buffer, UP),
        Token::Decrement => coalesce_add(buffer, DOWN),
        Token::MoveRight => coalesce_move(buffer, RIGHT),
        _ => coalesce_move(buffer, LEFT),
    };
    let tail = buffer.skip(n);
    if buffer.len() > 0 && merges(buffer.last(), unit(t)) {
        assert(buffer.len() > n);
        assert(tail.last() == buffer.last());
        assert(buffer.drop_last().skip(n) =~= tail.drop_last());
        assert(after.skip(n) =~= coalesce(tail, unit(t)));
    } else {
        if tail.len() > 0 {
            assert(tail.last() == buffer.last());
        }
        assert(after.skip(n) =~= coalesce(tail, unit(t)));
    }
}

/// Straight code does the same to states with the same data.
pub proof fn lemma_perform_same_data(code: Seq<Instruction>, a: MachineState, b: MachineState)
    requires
        all_arith(code),
        same_data(a, b),
    ensures
        same_data(perform(code, a), perform(code, b)),
    decreases code.len(),
{
    if code.len() > 0 {
        assert forall|i: int| 0 <= i < code.drop_last().len() implies (
        #[trigger] code.drop_last()[i]).is_arith() by {
            assert(code[i].is_arith());
        }
        lemma_perform_same_data(code.drop_last(), a, b);
        assert(code.last().is_arith());
        lemma_apply_same_data(
            code.last(),
            perform(code.drop_last(), a),
            perform(code.drop_last(), b),
        );
    }
}

/// How a run ends that has not yet ended.
pub open spec fn paused() -> Result<Progress, RuntimeError> {
    Ok(Progress::Paused)
}

/// How a run stands with nothing left of its budget.
pub open spec fn standing(at: nat, end: nat) -> Result<Progress, RuntimeError> {
    if at >= end {
        Ok(Progress::Halted)
    } else {
        Ok(Progress::Paused)
    }
}

/// The machine gets through straight code in as many steps as it has
/// instructions.
pub proof fn lemma_run_straight(program: Seq<Instruction>, s: MachineState, count: nat)
    requires
        s.wf(),
        s.pc + count <= program.len(),
        all_arith(program.subrange(s.pc as int, s.pc as int + count)),
    ensures
        ({
            let after = perform(program.subrange(s.pc as int, s.pc as int + count), s);
            &&& after.pc == s.pc + count
            &&& run(program, s, count) == (after, standing(after.pc, program.len()))
        }),
    decreases count,
{
    let code = program.subrange(s.pc as int, s.pc as int + count);
    lemma_perform(code, s);
    if count > 0 {
        let front = program.subrange(s.pc as int, s.pc + count - 1);
        assert(code.drop_last() =~= front);
        assert forall|i: int| 0 <= i < front.len() implies (#[trigger] front[i]).is_arith() by {
            assert(code[i].is_arith());
        }
        lemma_run_straight(program, s, (count - 1) as nat);
        let mid = perform(front, s);
        lemma_run_split(program, s, (count - 1) as nat, 1);
        assert(code.last() == program[mid.pc as int]);
        assert(code.last().is_arith());
        let after = apply(program[mid.pc as int], mid)->Some_0;
        assert(run(program, mid, 1) == run(program, after, 0));
    }
}

/// The source gets through a run of coalesced tokens in as many steps as it
/// has tokens.
pub proof fn lemma_source_straight(tokens: Seq<Token>, s: MachineState, count: nat)
    requires
        s.wf(),
        s.pc + count <= tokens.len(),
        forall|i: int| s.pc <= i < s.pc + count ==> (#[trigger] tokens[i]).is_arith(),
    ensures
        ({
            let after = perform(units(tokens.subrange(s.pc as int, s.pc as int + count)), s);
            &&& after.pc == s.pc + count
            &&& run_source(tokens, s, count) == (after, standing(after.pc, tokens.len()))
        }),
    decreases count,
{
    let code = units(tokens.subrange(s.pc as int, s.pc as int + count));
    assert forall|i: int| 0 <= i < code.len() implies (#[trigger] code[i]).is_arith() by {
        assert(tokens[s.pc + i].is_arith());
    }
    lemma_perform(code, s);
    if count > 0 {
        let front = units(tokens.subrange(s.pc as int, s.pc + count - 1));
        assert(code.drop_last() =~= front);
        lemma_source_straight(tokens, s, (count - 1) as nat);
        let mid = perform(front, s);
        lemma_run_source_split(tokens, s, (count - 1) as nat, 1);
        let t = tokens[mid.pc as int];
        assert(t.is_arith());
        assert(code.last() == unit(t));
        assert(interpret(tokens, mid) == apply(unit(t), mid));
        let after = apply(unit(t), mid)->Some_0;
        assert(run_source(tokens, mid, 1) == run_source(tokens, after, 0));
    }
}


} // verus!
