//! The mathematical model of the virtual machine: its state, what each
//! instruction does to it, and what a run of a program amounts to.

use vstd::prelude::*;
use crate::instruction::{Instruction, jumps_resolved};

verus! {

/// The number of cells of the tape.
pub const TAPE_LEN: usize = 65536;

/// Why a run was aborted.
#[derive(Clone, Copy, Debug, PartialEq, Eq, Hash, Structural)]
pub enum RuntimeError {
    /// An `Input` instruction found no input byte left.
    InputExhausted,
}

/// How far a run got.
#[derive(Clone, Copy, Debug, PartialEq, Eq, Hash, Structural)]
pub enum Progress {
    /// The program counter is past the last instruction.
    Halted,
    /// The budget was used up before the machine halted.
    Paused,
}

/// The state of the machine between two instructions.
pub struct MachineState {
    /// The address of the next instruction.
    pub pc: nat,
    /// The index of the current cell.
    pub dp: nat,
    /// The cells.
    pub tape: Seq<u8>,
    /// The whole input.
    pub input: Seq<u8>,
    /// How many input bytes have been read.
    pub consumed: nat,
    /// The bytes written so far.
    pub output: Seq<u8>,
}

impl MachineState {
    /// The tape has its fixed length, the data pointer is on the tape, and no
    /// more input was read than there is.
    pub open spec fn wf(self) -> bool {
        &&& self.tape.len() == TAPE_LEN
        &&& self.dp < TAPE_LEN
        &&& self.consumed <= self.input.len()
    }

    /// The state before the first instruction of a run on a zeroed tape.
    pub open spec fn initial(input: Seq<u8>) -> MachineState {
        MachineState {
            pc: 0,
            dp: 0,
            tape: Seq::new(TAPE_LEN as nat, |i: int| 0u8),
            input,
            consumed: 0,
            output: Seq::empty(),
        }
    }

    /// The value of the current cell.
    pub open spec fn cell(self) -> u8 {
        self.tape[self.dp as int]
    }

    /// The state with the current cell set to `value` and the program counter
    /// on the next instruction.
    pub open spec fn store(self, value: u8) -> MachineState {
        MachineState { tape: self.tape.update(self.dp as int, value), pc: self.pc + 1, ..self }
    }
}

/// The cell index that lies `offset` cells from `dp`, wrapping around both
/// ends of the tape.
pub open spec fn wrap_cursor(dp: nat, offset: int) -> nat {
    ((dp + offset) % (TAPE_LEN as int)) as nat
}

/// A cell value changed by `delta`, wrapping modulo 256.
pub open spec fn wrap_cell(value: int) -> u8 {
    (value % 256) as u8
}

/// Whether a seek from `dp` in steps of `offset` comes to rest after exactly
/// `hops` steps: the cell reached then is zero, and none before it is.
pub open spec fn seek_rests_after(tape: Seq<u8>, dp: nat, offset: int, hops: nat) -> bool {
    &&& tape[wrap_cursor(dp, hops * offset) as int] == 0
    &&& forall|j: nat| j < hops ==> tape[#[trigger] wrap_cursor(dp, j * offset) as int] != 0
}

/// The number of steps after which a seek comes to rest, or `None` if it
/// never meets a zero cell.
pub open spec fn seek_hops(tape: Seq<u8>, dp: nat, offset: int) -> Option<nat> {
    if exists|hops: nat| seek_rests_after(tape, dp, offset, hops) {
        Some(choose|hops: nat| seek_rests_after(tape, dp, offset, hops))
    } else {
        None
    }
}

/// The state after one instruction, or `None` where an `Input` instruction
/// finds the input exhausted.
///
/// A taken branch sets the program counter to its target; every other
/// instruction moves it on by one. A `Seek` that never meets a zero cell
/// leaves the state as it is: the machine stays on that instruction for good.
pub open spec fn apply(instruction: Instruction, s: MachineState) -> Option<MachineState> {
    match instruction {
        Instruction::AddCell(delta) => Some(s.store(wrap_cell(s.cell() + delta))),
        Instruction::MoveCursor(offset) => Some(
            MachineState { dp: wrap_cursor(s.dp, offset as int), pc: s.pc + 1, ..s },
        ),
        Instruction::BranchZero(target) => Some(
            MachineState {
                pc: if s.cell() == 0 {
                    target as nat
                } else {
                    s.pc + 1
                },
                ..s
            },
        ),
        Instruction::BranchNotZero(target) => Some(
            MachineState {
                pc: if s.cell() != 0 {
                    target as nat
                } else {
                    s.pc + 1
                },
                ..s
            },
        ),
        Instruction::Output => Some(
            MachineState { output: s.output.push(s.cell()), pc: s.pc + 1, ..s },
        ),
        Instruction::Input => if s.consumed < s.input.len() {
            Some(
                MachineState { consumed: s.consumed + 1, ..s.store(s.input[s.consumed as int]) },
            )
        } else {
            None
        },
        Instruction::Clear => Some(s.store(0)),
        Instruction::AddTo(offset) => {
            let to = wrap_cursor(s.dp, offset as int) as int;
            Some(
                MachineState {
                    tape: s.tape.update(to, wrap_cell(s.tape[to] + s.cell())).update(
                        s.dp as int,
                        0,
                    ),
                    pc: s.pc + 1,
                    ..s
                },
            )
        },
        Instruction::SubTo(offset) => {
            let to = wrap_cursor(s.dp, offset as int) as int;
            Some(
                MachineState {
                    tape: s.tape.update(to, wrap_cell(s.tape[to] - s.cell())).update(
                        s.dp as int,
                        0,
                    ),
                    pc: s.pc + 1,
                    ..s
                },
            )
        },
        Instruction::Seek(offset) => match seek_hops(s.tape, s.dp, offset as int) {
            Some(hops) => Some(
                MachineState { dp: wrap_cursor(s.dp, hops * offset), pc: s.pc + 1, ..s },
            ),
            None => Some(s),
        },
    }
}

/// Whether the machine has halted: the program counter is past the last
/// instruction.
pub open spec fn halted(program: Seq<Instruction>, s: MachineState) -> bool {
    s.pc >= program.len()
}

/// The state in which a run of at most `budget` instructions ends, and how it
/// ends: halted, paused with the budget used up, or aborted in front of an
/// `Input` instruction that finds no input.
pub open spec fn run(program: Seq<Instruction>, s: MachineState, budget: nat) -> (
    MachineState,
    Result<Progress, RuntimeError>,
)
    decreases budget,
{
    if halted(program, s) {
        (s, Ok(Progress::Halted))
    } else if budget == 0 {
        (s, Ok(Progress::Paused))
    } else {
        match apply(program[s.pc as int], s) {
            Some(next) => run(program, next, (budget - 1) as nat),
            None => (s, Err(RuntimeError::InputExhausted)),
        }
    }
}

/// How often the instruction at `addr` comes up for execution in a run on
/// `budget`. An `Input` instruction that aborts the run counts once; a `Seek`
/// that never comes to rest counts for every step of the budget that is left.
pub open spec fn visits(program: Seq<Instruction>, s: MachineState, budget: nat, addr: nat) -> nat
    decreases budget,
{
    if halted(program, s) || budget == 0 {
        0
    } else {
        let here: nat = if s.pc == addr {
            1
        } else {
            0
        };
        match apply(program[s.pc as int], s) {
            Some(next) => here + visits(program, next, (budget - 1) as nat, addr),
            None => here,
        }
    }
}

/// Every instruction keeps the state well formed.
pub proof fn lemma_apply_keeps_wf(instruction: Instruction, s: MachineState)
    requires
        s.wf(),
    ensures
        apply(instruction, s) matches Some(next) ==> next.wf() && next.input == s.input,
{
}

/// A run keeps the state well formed.
pub proof fn lemma_run_keeps_wf(program: Seq<Instruction>, s: MachineState, budget: nat)
    requires
        s.wf(),
    ensures
        run(program, s, budget).0.wf(),
        run(program, s, budget).0.input == s.input,
    decreases budget,
{
    if !halted(program, s) && budget > 0 {
        lemma_apply_keeps_wf(program[s.pc as int], s);
        if let Some(next) = apply(program[s.pc as int], s) {
            lemma_run_keeps_wf(program, next, (budget - 1) as nat);
        }
    }
}

/// A seek comes to rest after at most one number of steps.
pub proof fn lemma_seek_rest_is_unique(tape: Seq<u8>, dp: nat, offset: int, a: nat, b: nat)
    requires
        seek_rests_after(tape, dp, offset, a),
        seek_rests_after(tape, dp, offset, b),
    ensures
        a == b,
{
    if a < b {
        assert(tape[wrap_cursor(dp, a * offset) as int] != 0);
    } else if b < a {
        assert(tape[wrap_cursor(dp, b * offset) as int] != 0);
    }
}

/// A seek rests on the first zero cell on its way: where the cell `hops`
/// steps away is zero and none before it is, the data pointer ends there. In
/// particular a seek from a zero cell does not move.
pub proof fn lemma_seek_rests_on_first_zero(s: MachineState, offset: i16, hops: nat)
    requires
        seek_rests_after(s.tape, s.dp, offset as int, hops),
    ensures
        apply(Instruction::Seek(offset), s) == Some(
            MachineState { dp: wrap_cursor(s.dp, hops * offset), pc: s.pc + 1, ..s },
        ),
        s.wf() && hops == 0 ==> wrap_cursor(s.dp, hops * offset) == s.dp,
{
    let chosen = choose|h: nat| seek_rests_after(s.tape, s.dp, offset as int, h);
    lemma_seek_rest_is_unique(s.tape, s.dp, offset as int, chosen, hops);
    if hops == 0 {
        assert(hops * offset == 0) by (nonlinear_arith)
            requires
                hops == 0,
        ;
    }
}

/// The cells that a seek visits repeat after as many steps as the tape has
/// cells.
pub proof fn lemma_seek_is_periodic(dp: nat, offset: int, hops: nat)
    ensures
        wrap_cursor(dp, hops * offset) == wrap_cursor(dp, (hops % (TAPE_LEN as nat)) * offset),
{
    let len = TAPE_LEN as int;
    let q = (hops as int) / len;
    let r = (hops as int) % len;
    assert(hops == len * q + r) by {
        vstd::arithmetic::div_mod::lemma_fundamental_div_mod(hops as int, len);
    }
    assert(hops * offset == len * (q * offset) + r * offset) by (nonlinear_arith)
        requires
            hops == len * q + r,
    ;
    vstd::arithmetic::div_mod::lemma_mod_multiples_vanish(q * offset, dp + r * offset, len);
    assert(dp + hops * offset == len * (q * offset) + (dp + r * offset));
}

/// One more step of a seek.
pub proof fn lemma_seek_next(dp: nat, offset: int, hops: nat)
    ensures
        wrap_cursor(wrap_cursor(dp, hops * offset), offset) == wrap_cursor(
            dp,
            (hops + 1) * offset,
        ),
        wrap_cursor(dp, 0 * offset) == dp % (TAPE_LEN as nat),
{
    assert((hops + 1) * offset == hops * offset + offset) by (nonlinear_arith);
}

/// A branch that is taken lands on its partner, and the partner lets it
/// pass. After two steps a `BranchZero` on a zero cell is behind the
/// `BranchNotZero` of its loop, which is thus skipped, and a `BranchNotZero`
/// on a nonzero cell is behind the `BranchZero` of its loop, on the first
/// instruction of the body. Nothing but the program counter changes.
pub proof fn lemma_taken_branch_passes_partner(program: Seq<Instruction>, s: MachineState)
    requires
        jumps_resolved(program),
        s.pc < program.len(),
        (program[s.pc as int] is BranchZero && s.cell() == 0) || (program[s.pc as int]
            is BranchNotZero && s.cell() != 0),
    ensures
        ({
            let target = match program[s.pc as int] {
                Instruction::BranchZero(t) => t,
                Instruction::BranchNotZero(t) => t,
                _ => 0,
            };
            &&& target < program.len()
            &&& program[s.pc as int] is BranchZero ==> program[target as int]
                == Instruction::BranchNotZero(s.pc as usize)
            &&& program[s.pc as int] is BranchNotZero ==> program[target as int]
                == Instruction::BranchZero(s.pc as usize)
            &&& run(program, s, 2) == run(
                program,
                MachineState { pc: (target + 1) as nat, ..s },
                0,
            )
        }),
{
    let first = apply(program[s.pc as int], s)->Some_0;
    let second = apply(program[first.pc as int], first)->Some_0;
    assert(run(program, s, 2) == run(program, first, 1));
    assert(run(program, first, 1) == run(program, second, 0));
}

/// A run on a budget of `first + second` is a run on `first` followed, where
/// that one is paused, by a run on `second` from the state it paused in.
pub proof fn lemma_run_split(program: Seq<Instruction>, s: MachineState, first: nat, second: nat)
    ensures
        run(program, s, first + second) == if run(program, s, first).1 == Ok::<
            Progress,
            RuntimeError,
        >(Progress::Paused) {
            run(program, run(program, s, first).0, second)
        } else {
            run(program, s, first)
        },
    decreases first,
{
    if !halted(program, s) && first > 0 {
        if let Some(next) = apply(program[s.pc as int], s) {
            lemma_run_split(program, next, (first - 1) as nat, second);
        }
    }
}

/// A run that has halted or was aborted ends in the same way on every larger
/// budget.
pub proof fn lemma_run_is_final(program: Seq<Instruction>, s: MachineState, budget: nat, more: nat)
    requires
        run(program, s, budget).1 != Ok::<Progress, RuntimeError>(Progress::Paused),
        budget <= more,
    ensures
        run(program, s, more) == run(program, s, budget),
{
    lemma_run_split(program, s, budget, (more - budget) as nat);
}

/// A machine whose instruction leaves the state as it is never halts: every
/// budget is used up in that same state.
pub proof fn lemma_stuck(program: Seq<Instruction>, s: MachineState, budget: nat)
    requires
        !halted(program, s),
        apply(program[s.pc as int], s) == Some(s),
    ensures
        run(program, s, budget) == (s, Ok::<Progress, RuntimeError>(Progress::Paused)),
    decreases budget,
{
    if budget > 0 {
        lemma_stuck(program, s, (budget - 1) as nat);
    }
}

} // verus!
