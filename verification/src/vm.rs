//! The virtual machine: a tape of bytes, a data pointer and a program
//! counter, driven by a compiled program.

use vstd::prelude::*;
use crate::instruction::{Instruction, Program};
use crate::profile::{
    Profile,
    bumped,
    counted,
    lemma_counted_nothing,
    lemma_counted_step,
    lemma_counted_stuck,
};
use crate::machine::{
    MachineState,
    Progress,
    RuntimeError,
    TAPE_LEN,
    apply,
    halted,
    lemma_seek_is_periodic,
    lemma_seek_next,
    lemma_seek_rest_is_unique,
    lemma_stuck,
    run,
    seek_hops,
    seek_rests_after,
    wrap_cursor,
};

verus! {

/// A machine in the middle of a run: the tape, the two registers, the input
/// with the number of bytes read from it, and the output so far.
pub struct Vm {
    tape: Vec<u8>,
    dp: usize,
    pc: usize,
    input: Vec<u8>,
    consumed: usize,
    output: Vec<u8>,
}

impl View for Vm {
    type V = MachineState;

    closed spec fn view(&self) -> MachineState {
        MachineState {
            pc: self.pc as nat,
            dp: self.dp as nat,
            tape: self.tape@,
            input: self.input@,
            consumed: self.consumed as nat,
            output: self.output@,
        }
    }
}

/// The cell index that lies `offset` cells from `dp`.
fn advance(dp: usize, offset: i16) -> (r: usize)
    requires
        dp < TAPE_LEN,
    ensures
        r == wrap_cursor(dp as nat, offset as int),
        r < TAPE_LEN,
{
    let shift: usize = if offset >= 0 {
        offset as usize
    } else {
        (65536 + offset as i32) as usize
    };
    (dp + shift) % TAPE_LEN
}

impl Vm {
    #[verifier::type_invariant]
    spec fn inv(self) -> bool {
        &&& self.tape.len() == TAPE_LEN
        &&& self.dp < TAPE_LEN
        &&& self.consumed <= self.input.len()
    }

    /// A machine on a zeroed tape, with both registers at zero, no output yet
    /// and the given input to read.
    pub fn new(input: &[u8]) -> (vm: Vm)
        ensures
            vm@ == MachineState::initial(input@),
            vm@.wf(),
    {
        let tape = vec![0u8; TAPE_LEN];
        let vm = Vm {
            tape,
            dp: 0,
            pc: 0,
            input: vstd::slice::slice_to_vec(input),
            consumed: 0,
            output: Vec::new(),
        };
        proof {
            assert(vm@.tape =~= MachineState::initial(input@).tape);
        }
        vm
    }

    /// The address of the next instruction.
    pub fn pc(&self) -> (pc: usize)
        ensures
            pc == self@.pc,
    {
        self.pc
    }

    /// The index of the current cell.
    pub fn dp(&self) -> (dp: usize)
        ensures
            dp == self@.dp,
            dp < TAPE_LEN,
    {
        proof {
            use_type_invariant(self);
        }
        self.dp
    }

    /// The number of input bytes read so far.
    pub fn consumed(&self) -> (n: usize)
        ensures
            n == self@.consumed,
            n <= self@.input.len(),
    {
        proof {
            use_type_invariant(self);
        }
        self.consumed
    }

    /// The bytes written so far, in the order in which they were written.
    pub fn output(&self) -> (out: &[u8])
        ensures
            out@ == self@.output,
    {
        self.output.as_slice()
    }

    /// The cells of the tape.
    pub fn tape(&self) -> (cells: &[u8])
        ensures
            cells@ == self@.tape,
            cells@.len() == TAPE_LEN,
    {
        proof {
            use_type_invariant(self);
        }
        self.tape.as_slice()
    }

    /// The value of the cell at `addr`, or `None` if the tape has no such cell.
    pub fn peek(&self, addr: usize) -> (r: Option<u8>)
        ensures
            r == if addr < TAPE_LEN {
                Some(self@.tape[addr as int])
            } else {
                None::<u8>
            },
    {
        proof {
            use_type_invariant(self);
        }
        if addr < TAPE_LEN {
            Some(self.tape[addr])
        } else {
            None
        }
    }

    /// Sets the cell at `addr` and returns `true`; where the tape has no such
    /// cell, changes nothing and returns `false`.
    pub fn poke(&mut self, addr: usize, value: u8) -> (done: bool)
        ensures
            done == (addr < TAPE_LEN),
            done ==> final(self)@ == (MachineState {
                tape: old(self)@.tape.update(addr as int, value),
                ..old(self)@
            }),
            !done ==> final(self)@ == old(self)@,
            final(self)@.wf(),
    {
        proof {
            use_type_invariant(&*self);
        }
        if addr < TAPE_LEN {
            self.tape[addr] = value;
            true
        } else {
            false
        }
    }

    /// Where a seek in steps of `offset` comes to rest, or `None` if it never
    /// meets a zero cell.
    fn seek(&self, offset: i16) -> (r: Option<usize>)
        ensures
            match r {
                Some(rest) => seek_hops(self@.tape, self@.dp, offset as int) matches Some(hops)
                    && rest == wrap_cursor(self@.dp, hops * offset) && rest < TAPE_LEN,
                None => seek_hops(self@.tape, self@.dp, offset as int) is None,
            },
    {
        proof {
            use_type_invariant(self);
        }
        let ghost tape = self@.tape;
        let ghost dp = self@.dp;
        let ghost step = offset as int;
        let mut at: usize = self.dp;
        let mut hops: usize = 0;
        proof {
            lemma_seek_next(dp, step, 0);
        }
        while hops < TAPE_LEN
            invariant
                hops <= TAPE_LEN,
                at < TAPE_LEN,
                self.tape.len() == TAPE_LEN,
                tape == self.tape@,
                dp == self.dp,
                step == offset as int,
                at == wrap_cursor(dp, hops * step),
                forall|j: nat| j < hops ==> tape[#[trigger] wrap_cursor(dp, j * step) as int] != 0,
            decreases TAPE_LEN - hops,
        {
            if self.tape[at] == 0 {
                proof {
                    assert(seek_rests_after(tape, dp, step, hops as nat));
                    let chosen = choose|h: nat| seek_rests_after(tape, dp, step, h);
                    lemma_seek_rest_is_unique(tape, dp, step, chosen, hops as nat);
                }
                return Some(at);
            }
            proof {
                lemma_seek_next(dp, step, hops as nat);
            }
            at = advance(at, offset);
            hops += 1;
        }
        proof {
            assert forall|h: nat| !seek_rests_after(tape, dp, step, h) by {
                lemma_seek_is_periodic(dp, step, h);
                let r = h % (TAPE_LEN as nat);
                assert(tape[wrap_cursor(dp, r * step) as int] != 0);
            }
        }
        None
    }

    /// Executes the instruction, which is the one at the program counter.
    /// Returns `None` where the input is exhausted, and else whether the state
    /// has changed.
    fn execute(&mut self, instruction: Instruction) -> (r: Option<bool>)
        requires
            old(self)@.pc < usize::MAX,
        ensures
            match r {
                Some(moved) => apply(instruction, old(self)@) == Some(final(self)@) && (!moved
                    ==> final(self)@ == old(self)@),
                None => apply(instruction, old(self)@) is None && final(self)@ == old(self)@,
            },
    {
        proof {
            use_type_invariant(&*self);
        }
        let dp = self.dp;
        let cell = self.tape[dp];
        match instruction {
            Instruction::AddCell(delta) => {
                self.tape[dp] = cell.wrapping_add_signed(delta);
                self.pc = self.pc + 1;
            },
            Instruction::MoveCursor(offset) => {
                self.dp = advance(dp, offset);
                self.pc = self.pc + 1;
            },
            Instruction::BranchZero(target) => {
                self.pc = if cell == 0 {
                    target
                } else {
                    self.pc + 1
                };
            },
            Instruction::BranchNotZero(target) => {
                self.pc = if cell != 0 {
                    target
                } else {
                    self.pc + 1
                };
            },
            Instruction::Output => {
                let mut out = Vec::new();
                std::mem::swap(&mut out, &mut self.output);
                out.push(cell);
                self.output = out;
                self.pc = self.pc + 1;
            },
            Instruction::Input => {
                if self.consumed < self.input.len() {
                    self.tape[dp] = self.input[self.consumed];
                    self.consumed = self.consumed + 1;
                    self.pc = self.pc + 1;
                } else {
                    return None;
                }
            },
            Instruction::Clear => {
                self.tape[dp] = 0;
                self.pc = self.pc + 1;
            },
            Instruction::AddTo(offset) => {
                let to = advance(dp, offset);
                self.tape[to] = self.tape[to].wrapping_add(cell);
                self.tape[dp] = 0;
                self.pc = self.pc + 1;
            },
            Instruction::SubTo(offset) => {
                let to = advance(dp, offset);
                self.tape[to] = self.tape[to].wrapping_sub(cell);
                self.tape[dp] = 0;
                self.pc = self.pc + 1;
            },
            Instruction::Seek(offset) => {
                match self.seek(offset) {
                    Some(rest) => {
                        self.dp = rest;
                        self.pc = self.pc + 1;
                    },
                    None => {
                        return Some(false);
                    },
                }
            },
        }
        Some(true)
    }

    /// Runs the program from the current state for at most `budget`
    /// instructions, and counts in `profile` how often each address came up
    /// for execution.
    ///
    /// Returns `Ok(Halted)` once the program counter is past the last
    /// instruction, `Ok(Paused)` where the budget is used up first, and
    /// `Err(InputExhausted)` in front of an `Input` instruction that finds no
    /// input left; the state is then the one in front of that instruction.
    pub fn run_profiled(&mut self, program: &Program, budget: u64, profile: &mut Profile) -> (r:
        Result<Progress, RuntimeError>)
        ensures
            (final(self)@, r) == run(program@, old(self)@, budget as nat),
            final(self)@.wf(),
            final(profile)@ == counted(old(profile)@, program@, old(self)@, budget as nat),
    {
        proof {
            use_type_invariant(&*self);
        }
        let mut left = budget;
        let end = program.len();
        let ghost goal = counted(old(profile)@, program@, old(self)@, budget as nat);
        loop
            invariant
                end == program@.len(),
                run(program@, self@, left as nat) == run(program@, old(self)@, budget as nat),
                goal == counted(old(profile)@, program@, old(self)@, budget as nat),
                counted(profile@, program@, self@, left as nat) == goal,
                self@.wf(),
            decreases left,
        {
            if self.pc >= end {
                proof {
                    lemma_counted_nothing(profile@, program@, self@, left as nat);
                }
                return Ok(Progress::Halted);
            }
            if left == 0 {
                proof {
                    lemma_counted_nothing(profile@, program@, self@, left as nat);
                }
                return Ok(Progress::Paused);
            }
            let at = self.pc;
            proof {
                lemma_counted_step(profile@, program@, self@, left as nat);
                lemma_counted_stuck_or_not(profile@, program@, self@, left as nat);
            }
            match self.execute(program.fetch(at)) {
                Some(true) => {
                    profile.bump(at, 1);
                    left = left - 1;
                },
                Some(false) => {
                    profile.bump(at, left);
                    return Ok(Progress::Paused);
                },
                None => {
                    profile.bump(at, 1);
                    return Err(RuntimeError::InputExhausted);
                },
            }
            proof {
                use_type_invariant(&*self);
            }
        }
    }

    /// Runs the program from the current state for at most `budget`
    /// instructions.
    ///
    /// Returns `Ok(Halted)` once the program counter is past the last
    /// instruction, `Ok(Paused)` where the budget is used up first, and
    /// `Err(InputExhausted)` in front of an `Input` instruction that finds no
    /// input left; the state is then the one in front of that instruction.
    pub fn run(&mut self, program: &Program, budget: u64) -> (r: Result<Progress, RuntimeError>)
        ensures
            (final(self)@, r) == run(program@, old(self)@, budget as nat),
            final(self)@.wf(),
    {
        let mut nothing = Profile::new(0);
        self.run_profiled(program, budget, &mut nothing)
    }

    /// Executes at most one instruction: a run with a budget of one.
    pub fn step(&mut self, program: &Program) -> (r: Result<Progress, RuntimeError>)
        ensures
            (final(self)@, r) == run(program@, old(self)@, 1),
            final(self)@.wf(),
    {
        self.run(program, 1)
    }

    /// Hands over the output written so far, and starts the output afresh.
    pub fn take_output(&mut self) -> (out: Vec<u8>)
        ensures
            out@ == old(self)@.output,
            final(self)@ == (MachineState { output: Seq::empty(), ..old(self)@ }),
            final(self)@.wf(),
    {
        proof {
            use_type_invariant(&*self);
        }
        let mut out = Vec::new();
        std::mem::swap(&mut out, &mut self.output);
        out
    }
}

/// What a run counts where its first instruction leaves the state as it
/// is, and the run with it where it aborts the run.
proof fn lemma_counted_stuck_or_not(
    counts: Seq<u64>,
    program: Seq<Instruction>,
    s: MachineState,
    budget: nat,
)
    requires
        !halted(program, s),
        budget > 0,
    ensures
        apply(program[s.pc as int], s) == Some(s) ==> counted(counts, program, s, budget)
            == bumped(counts, s.pc, budget) && run(program, s, budget) == (
            s,
            Ok::<Progress, RuntimeError>(Progress::Paused),
        ),
{
    if apply(program[s.pc as int], s) == Some(s) {
        lemma_counted_stuck(counts, program, s, budget);
        lemma_stuck(program, s, budget);
    }
}

} // verus!
