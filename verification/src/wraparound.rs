//! The pointer comes back to where it was after one full turn of the tape.

use vstd::prelude::*;
use crate::compiler::{Emitter, CompileError, compiled, emit_all};
use crate::instruction::Instruction;
use crate::machine::{MachineState, Progress, RuntimeError, TAPE_LEN, run};
use crate::token::Token;

verus! {

/// The source that moves the pointer right `count` times.
pub open spec fn moves_right(count: nat) -> Seq<Token> {
    Seq::new(count, |i: int| Token::MoveRight)
}

/// The offset that up to a full turn of moves to the right coalesce to.
pub open spec fn coalesced_offset(count: nat) -> i16 {
    if count < 32768 {
        count as i16
    } else {
        (count - 65536) as i16
    }
}

/// Moves to the right coalesce into one instruction, which is dropped where
/// the moves make a full turn.
pub proof fn lemma_moves_right_coalesce(count: nat, fuse: bool)
    requires
        count <= TAPE_LEN,
    ensures
        emit_all(moves_right(count), fuse) == Ok::<Emitter, CompileError>(
            Emitter {
                buffer: if count == 0 || count == TAPE_LEN {
                    Seq::empty()
                } else {
                    seq![Instruction::MoveCursor(coalesced_offset(count))]
                },
                open_stack: Seq::empty(),
            },
        ),
    decreases count,
{
    if count > 0 {
        let before = (count - 1) as nat;
        lemma_moves_right_coalesce(before, fuse);
        assert(moves_right(count).drop_last() =~= moves_right(before));
        let e = emit_all(moves_right(before), fuse)->Ok_0;
        if before == 0 {
            assert(e.buffer.push(Instruction::MoveCursor(1)) =~= seq![
                Instruction::MoveCursor(coalesced_offset(count)),
            ]);
        } else {
            assert(e.buffer.drop_last() =~= Seq::<Instruction>::empty());
            if count < TAPE_LEN {
                assert(e.buffer.drop_last().push(
                    Instruction::MoveCursor(coalesced_offset(count)),
                ) =~= seq![Instruction::MoveCursor(coalesced_offset(count))]);
            }
        }
    }
}

/// Pointer wraparound: the program of as many `>` as the tape has cells halts
/// with the data pointer where it started, whatever the state it starts in,
/// and leaves the tape, the input and the output as they were.
pub proof fn lemma_full_turn_returns(s: MachineState, fuse: bool, budget: nat)
    requires
        s.wf(),
        s.pc == 0,
    ensures
        compiled(moves_right(TAPE_LEN as nat), fuse) is Ok,
        ({
            let program = compiled(moves_right(TAPE_LEN as nat), fuse)->Ok_0;
            let end = run(program, s, budget);
            &&& end.1 == Ok::<Progress, RuntimeError>(Progress::Halted)
            &&& end.0.dp == s.dp
            &&& end.0.tape == s.tape
            &&& end.0.output == s.output
            &&& end.0.consumed == s.consumed
        }),
{
    lemma_moves_right_coalesce(TAPE_LEN as nat, fuse);
}

} // verus!
