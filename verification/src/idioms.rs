//! The fused instructions do what the loops do that they replace.
//!
//! A loop goes round its body until the current cell is zero. For each of the
//! four idioms this module shows after how many rounds that is, and that the
//! data are then the data that the fused instruction leaves.

use vstd::prelude::*;
use crate::compiler::{DOWN, UP, idiom, is_transfer};
use crate::instruction::Instruction;
use crate::straight::{all_arith, lemma_perform, perform, same_data};
use crate::machine::{
    MachineState,
    TAPE_LEN,
    apply,
    lemma_seek_next,
    lemma_seek_rest_is_unique,
    seek_rests_after,
    wrap_cell,
    wrap_cursor,
};

verus! {

/// The state after `n` rounds of a loop body.
pub open spec fn rounds(body: Seq<Instruction>, s: MachineState, n: nat) -> MachineState
    decreases n,
{
    if n == 0 {
        s
    } else {
        perform(body, rounds(body, s, (n - 1) as nat))
    }
}

/// Whether a loop that is entered in state `s` is left after exactly `n`
/// rounds: the current cell is zero then, and was not before any round.
pub open spec fn loop_stops_after(body: Seq<Instruction>, s: MachineState, n: nat) -> bool {
    &&& rounds(body, s, n).cell() == 0
    &&& forall|j: nat| j < n ==> (#[trigger] rounds(body, s, j)).cell() != 0
}

/// A loop is left after at most one number of rounds.
pub proof fn lemma_loop_stop_is_unique(body: Seq<Instruction>, s: MachineState, a: nat, b: nat)
    requires
        loop_stops_after(body, s, a),
        loop_stops_after(body, s, b),
    ensures
        a == b,
{
    if a < b {
        assert(rounds(body, s, a).cell() != 0);
    } else if b < a {
        assert(rounds(body, s, b).cell() != 0);
    }
}

/// Rounds keep the state well formed.
pub proof fn lemma_rounds_wf(body: Seq<Instruction>, s: MachineState, n: nat)
    requires
        s.wf(),
    ensures
        rounds(body, s, n).wf(),
    decreases n,
{
    if n > 0 {
        lemma_rounds_wf(body, s, (n - 1) as nat);
        lemma_perform(body, rounds(body, s, (n - 1) as nat));
    }
}

/// Straight code of one instruction.
proof fn lemma_perform_one(body: Seq<Instruction>, s: MachineState)
    requires
        body.len() == 1,
        body[0].is_arith(),
    ensures
        perform(body, s) == apply(body[0], s)->Some_0,
{
    assert(body.drop_last() =~= Seq::<Instruction>::empty());
    assert(perform(body.drop_last(), s) == s);
}

/// Straight code of four instructions.
proof fn lemma_perform_four(body: Seq<Instruction>, s: MachineState)
    requires
        body.len() == 4,
        all_arith(body),
    ensures
        perform(body, s) == apply(
            body[3],
            apply(body[2], apply(body[1], apply(body[0], s)->Some_0)->Some_0)->Some_0,
        )->Some_0,
{
    let three = body.drop_last();
    let two = three.drop_last();
    let one = two.drop_last();
    assert(one.drop_last() =~= Seq::<Instruction>::empty());
    assert(perform(one.drop_last(), s) == s);
    assert(body[0].is_arith() && body[1].is_arith() && body[2].is_arith() && body[3].is_arith());
    assert(perform(one, s) == apply(body[0], s)->Some_0);
    assert(perform(two, s) == apply(body[1], perform(one, s))->Some_0);
    assert(perform(three, s) == apply(body[2], perform(two, s))->Some_0);
}

/// The cell that a transfer over `offset` changes is not the current cell,
/// and the move back by `back` leads to the current cell again.
proof fn lemma_target_is_elsewhere(dp: nat, offset: i16, back: i16)
    requires
        dp < TAPE_LEN,
        offset != 0,
        vstd::wrapping::i16_specs::wrapping_add(offset, back) == 0,
    ensures
        wrap_cursor(dp, offset as int) != dp,
        wrap_cursor(dp, offset as int) < TAPE_LEN,
        wrap_cursor(wrap_cursor(dp, offset as int), back as int) == dp,
{
}

/// After `n` rounds of the body `AddCell(-1)` the cell is down by `n`.
proof fn lemma_clear_rounds(body: Seq<Instruction>, s: MachineState, n: nat)
    requires
        s.wf(),
        body.len() == 1,
        body[0] == Instruction::AddCell(DOWN),
        n <= s.cell(),
    ensures
        same_data(
            rounds(body, s, n),
            MachineState { tape: s.tape.update(s.dp as int, (s.cell() - n) as u8), ..s },
        ),
    decreases n,
{
    if n == 0 {
        assert(s.tape.update(s.dp as int, s.cell()) =~= s.tape);
    } else {
        lemma_clear_rounds(body, s, (n - 1) as nat);
        let before = rounds(body, s, (n - 1) as nat);
        lemma_perform_one(body, before);
        assert(wrap_cell(before.cell() + DOWN) == (s.cell() - n) as u8);
        assert(rounds(body, s, n).tape =~= s.tape.update(s.dp as int, (s.cell() - n) as u8));
    }
}

/// Whether a body is that of a transfer over `offset`, up or down by `sign`.
pub open spec fn transfers(body: Seq<Instruction>, offset: i16, sign: i8) -> bool {
    &&& is_transfer(body)
    &&& body[1] == Instruction::MoveCursor(offset)
    &&& body[2] == Instruction::AddCell(sign)
    &&& (sign == UP || sign == DOWN)
}

/// One round of the body of a transfer takes one from the current cell and
/// gives one to the target cell, or takes one from it.
proof fn lemma_transfer_round(body: Seq<Instruction>, t: MachineState, offset: i16, sign: i8)
    requires
        t.wf(),
        transfers(body, offset, sign),
    ensures
        ({
            let to = wrap_cursor(t.dp, offset as int) as int;
            same_data(
                perform(body, t),
                MachineState {
                    tape: t.tape.update(t.dp as int, wrap_cell(t.cell() - 1)).update(
                        to,
                        wrap_cell(t.tape[to] + sign),
                    ),
                    ..t
                },
            )
        }),
{
    lemma_target_is_elsewhere(t.dp, offset, body[3]->MoveCursor_0);
    lemma_perform_four(body, t);
    let t1 = apply(body[0], t)->Some_0;
    let t2 = apply(body[1], t1)->Some_0;
    let t3 = apply(body[2], t2)->Some_0;
    let t4 = apply(body[3], t3)->Some_0;
    let to = wrap_cursor(t.dp, offset as int) as int;
    assert(t1.tape == t.tape.update(t.dp as int, wrap_cell(t.cell() - 1)));
    assert(t2.dp == to);
    assert(t3.tape == t1.tape.update(to, wrap_cell(t.tape[to] + sign)));
    assert(t4.dp == wrap_cursor(to as nat, body[3]->MoveCursor_0 as int));
}

/// Counting down a cell and counting up, or down, another one by one.
proof fn lemma_transfer_counts(c: u8, was: u8, sign: i8, m: nat)
    requires
        m < c,
        sign == UP || sign == DOWN,
    ensures
        wrap_cell((c - m) as u8 - 1) == (c - (m + 1)) as u8,
        wrap_cell(wrap_cell(was + sign * m) + sign) == wrap_cell(was + sign * (m + 1)),
        sign * 0 == 0,
{
    assert(sign * (m + 1) == sign * m + sign) by (nonlinear_arith);
    assert(sign * 0 == 0) by (nonlinear_arith);
    let x = was + sign * m;
    vstd::arithmetic::div_mod::lemma_add_mod_noop(x, sign as int, 256);
    vstd::arithmetic::div_mod::lemma_mod_twice(x, 256);
    vstd::arithmetic::div_mod::lemma_add_mod_noop(x % 256, sign as int, 256);
}

/// After `n` rounds of the body of a transfer the current cell is down by
/// `n`, and the target cell is up, or down, by `n`.
proof fn lemma_transfer_rounds(
    body: Seq<Instruction>,
    s: MachineState,
    offset: i16,
    sign: i8,
    n: nat,
)
    requires
        s.wf(),
        transfers(body, offset, sign),
        n <= s.cell(),
    ensures
        ({
            let to = wrap_cursor(s.dp, offset as int) as int;
            same_data(
                rounds(body, s, n),
                MachineState {
                    tape: s.tape.update(s.dp as int, (s.cell() - n) as u8).update(
                        to,
                        wrap_cell(s.tape[to] + sign * n),
                    ),
                    ..s
                },
            )
        }),
    decreases n,
{
    let to = wrap_cursor(s.dp, offset as int) as int;
    lemma_target_is_elsewhere(s.dp, offset, body[3]->MoveCursor_0);
    if n == 0 {
        lemma_transfer_counts(1, s.tape[to], sign, 0);
        assert(s.tape.update(s.dp as int, s.cell()).update(to, wrap_cell(s.tape[to] + sign * n))
            =~= s.tape);
    } else {
        let m = (n - 1) as nat;
        lemma_transfer_rounds(body, s, offset, sign, m);
        let before = rounds(body, s, m);
        lemma_rounds_wf(body, s, m);
        lemma_transfer_round(body, before, offset, sign);
        lemma_transfer_counts(s.cell(), s.tape[to], sign, m);
        assert(before.dp == s.dp);
        assert(before.cell() == (s.cell() - m) as u8);
        assert(before.tape[to] == wrap_cell(s.tape[to] + sign * m));
        assert(rounds(body, s, n).tape =~= s.tape.update(
            s.dp as int,
            (s.cell() - n) as u8,
        ).update(to, wrap_cell(s.tape[to] + sign * n)));
    }
}

/// After `n` rounds of the body `MoveCursor(offset)` the pointer is `n` steps
/// of a seek away.
proof fn lemma_seek_rounds(body: Seq<Instruction>, s: MachineState, offset: i16, n: nat)
    requires
        s.wf(),
        body.len() == 1,
        body[0] == Instruction::MoveCursor(offset),
    ensures
        same_data(
            rounds(body, s, n),
            MachineState { dp: wrap_cursor(s.dp, n * offset), ..s },
        ),
    decreases n,
{
    lemma_seek_next(s.dp, offset as int, 0);
    if n > 0 {
        let m = (n - 1) as nat;
        lemma_seek_rounds(body, s, offset, m);
        lemma_perform_one(body, rounds(body, s, m));
        lemma_seek_next(s.dp, offset as int, m);
    }
}

/// A fused instruction does what the loop does that it replaces. Where the
/// loop is left after some number of rounds, the instruction leaves the data
/// that the loop leaves, and moves on to the next instruction. Where the loop
/// is never left, which only a seek can do, the instruction leaves the state
/// as it is, and the machine stays on it for good.
pub proof fn lemma_idiom_is_its_loop(body: Seq<Instruction>, s: MachineState)
    requires
        s.wf(),
        idiom(body) is Some,
    ensures
        all_arith(body),
        forall|n: nat| #[trigger]
            loop_stops_after(body, s, n) ==> apply(idiom(body)->Some_0, s) is Some && same_data(
                apply(idiom(body)->Some_0, s)->Some_0,
                rounds(body, s, n),
            ) && (apply(idiom(body)->Some_0, s)->Some_0).pc == s.pc + 1,
        (forall|n: nat| !loop_stops_after(body, s, n)) ==> apply(idiom(body)->Some_0, s) == Some(s),
        !(idiom(body)->Some_0 is Seek) ==> loop_stops_after(body, s, s.cell() as nat),
{
    let fused = idiom(body)->Some_0;
    let c = s.cell() as nat;
    match fused {
        Instruction::Clear => {
            assert forall|j: nat| j <= c implies (#[trigger] rounds(body, s, j)).cell() == c
                - j by {
                lemma_clear_rounds(body, s, j);
            }
            lemma_clear_rounds(body, s, c);
            assert(loop_stops_after(body, s, c));
            assert forall|n: nat| #[trigger] loop_stops_after(body, s, n) implies same_data(
                apply(fused, s)->Some_0,
                rounds(body, s, n),
            ) by {
                lemma_loop_stop_is_unique(body, s, n, c);
            }
        },
        Instruction::AddTo(offset) => {
            lemma_target_is_elsewhere(s.dp, offset, body[3]->MoveCursor_0);
            assert forall|j: nat| j <= c implies (#[trigger] rounds(body, s, j)).cell() == c
                - j by {
                lemma_transfer_rounds(body, s, offset, UP, j);
            }
            lemma_transfer_rounds(body, s, offset, UP, c);
            assert(loop_stops_after(body, s, c));
            assert(UP * c == c) by (nonlinear_arith);
            assert((apply(fused, s)->Some_0).tape =~= rounds(body, s, c).tape);
            assert forall|n: nat| #[trigger] loop_stops_after(body, s, n) implies same_data(
                apply(fused, s)->Some_0,
                rounds(body, s, n),
            ) by {
                lemma_loop_stop_is_unique(body, s, n, c);
            }
        },
        Instruction::SubTo(offset) => {
            lemma_target_is_elsewhere(s.dp, offset, body[3]->MoveCursor_0);
            assert forall|j: nat| j <= c implies (#[trigger] rounds(body, s, j)).cell() == c
                - j by {
                lemma_transfer_rounds(body, s, offset, DOWN, j);
            }
            lemma_transfer_rounds(body, s, offset, DOWN, c);
            assert(loop_stops_after(body, s, c));
            assert(DOWN * c == -c) by (nonlinear_arith);
            assert((apply(fused, s)->Some_0).tape =~= rounds(body, s, c).tape);
            assert forall|n: nat| #[trigger] loop_stops_after(body, s, n) implies same_data(
                apply(fused, s)->Some_0,
                rounds(body, s, n),
            ) by {
                lemma_loop_stop_is_unique(body, s, n, c);
            }
        },
        Instruction::Seek(offset) => {
            let step = offset as int;
            assert forall|n: nat|
                loop_stops_after(body, s, n) == #[trigger] seek_rests_after(
                    s.tape,
                    s.dp,
                    step,
                    n,
                ) by {
                lemma_seek_rounds(body, s, offset, n);
                assert forall|j: nat| j < n implies (#[trigger] rounds(body, s, j)).cell()
                    == s.tape[wrap_cursor(s.dp, j * step) as int] by {
                    lemma_seek_rounds(body, s, offset, j);
                }
                if loop_stops_after(body, s, n) {
                    assert forall|j: nat| j < n implies s.tape[#[trigger] wrap_cursor(
                        s.dp,
                        j * step,
                    ) as int] != 0 by {
                        assert(rounds(body, s, j).cell() != 0);
                    }
                }
                if seek_rests_after(s.tape, s.dp, step, n) {
                    assert forall|j: nat| j < n implies (#[trigger] rounds(body, s, j)).cell()
                        != 0 by {
                        assert(s.tape[wrap_cursor(s.dp, j * step) as int] != 0);
                    }
                }
            }
            assert forall|n: nat| #[trigger] loop_stops_after(body, s, n) implies apply(fused, s)
                is Some && same_data(apply(fused, s)->Some_0, rounds(body, s, n)) && (apply(
                fused,
                s,
            )->Some_0).pc == s.pc + 1 by {
                assert(seek_rests_after(s.tape, s.dp, step, n));
                let chosen = choose|h: nat| seek_rests_after(s.tape, s.dp, step, h);
                lemma_seek_rest_is_unique(s.tape, s.dp, step, chosen, n);
                lemma_seek_rounds(body, s, offset, n);
            }
            if forall|n: nat| !loop_stops_after(body, s, n) {
                assert forall|n: nat| !seek_rests_after(s.tape, s.dp, step, n) by {
                    assert(!loop_stops_after(body, s, n));
                }
            }
        },
        _ => {},
    }
}

} // verus!
