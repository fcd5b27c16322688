//! An execution profile: for each address of a program, how often its
//! instruction came up for execution.

use vstd::prelude::*;
use crate::instruction::Instruction;
use crate::machine::{MachineState, apply, halted, visits};

verus! {

/// A count that stops at the largest value it can hold.
pub open spec fn saturate(count: int) -> u64 {
    if count > u64::MAX {
        u64::MAX
    } else {
        count as u64
    }
}

/// The counts that a run on `budget` from `s` turns the counts `before` into:
/// each grows by the visits to its address, and stops at the largest value.
pub open spec fn counted(
    before: Seq<u64>,
    program: Seq<Instruction>,
    s: MachineState,
    budget: nat,
) -> Seq<u64> {
    Seq::new(before.len(), |a: int| saturate(before[a] + visits(program, s, budget, a as nat)))
}

/// The counts with `by` added to the count of `addr`, if there is one.
pub open spec fn bumped(counts: Seq<u64>, addr: nat, by: nat) -> Seq<u64> {
    if addr < counts.len() {
        counts.update(addr as int, saturate(counts[addr as int] + by))
    } else {
        counts
    }
}

/// A run that is over, or has no budget, counts nothing.
pub proof fn lemma_counted_nothing(
    counts: Seq<u64>,
    program: Seq<Instruction>,
    s: MachineState,
    budget: nat,
)
    requires
        halted(program, s) || budget == 0,
    ensures
        counted(counts, program, s, budget) == counts,
{
    assert(counted(counts, program, s, budget) =~= counts);
}

/// A run counts its first instruction, and then what the rest of the run
/// counts.
pub proof fn lemma_counted_step(
    counts: Seq<u64>,
    program: Seq<Instruction>,
    s: MachineState,
    budget: nat,
)
    requires
        !halted(program, s),
        budget > 0,
    ensures
        counted(counts, program, s, budget) == match apply(program[s.pc as int], s) {
            Some(next) => counted(bumped(counts, s.pc, 1), program, next, (budget - 1) as nat),
            None => bumped(counts, s.pc, 1),
        },
{
    let after = bumped(counts, s.pc, 1);
    match apply(program[s.pc as int], s) {
        Some(next) => {
            let rest = (budget - 1) as nat;
            assert forall|a: int| 0 <= a < counts.len() implies counted(
                counts,
                program,
                s,
                budget,
            )[a] == counted(after, program, next, rest)[a] by {
                assert(visits(program, s, budget, a as nat) == (if s.pc == a {
                    1nat
                } else {
                    0nat
                }) + visits(program, next, rest, a as nat));
            }
            assert(counted(counts, program, s, budget) =~= counted(after, program, next, rest));
        },
        None => {
            assert(counted(counts, program, s, budget) =~= after);
        },
    }
}

/// A run that stays on one instruction for good counts that instruction for
/// every step of its budget.
pub proof fn lemma_counted_stuck(
    counts: Seq<u64>,
    program: Seq<Instruction>,
    s: MachineState,
    budget: nat,
)
    requires
        !halted(program, s),
        apply(program[s.pc as int], s) == Some(s),
    ensures
        counted(counts, program, s, budget) == bumped(counts, s.pc, budget),
{
    assert forall|a: int| 0 <= a < counts.len() implies counted(counts, program, s, budget)[a]
        == bumped(counts, s.pc, budget)[a] by {
        lemma_stuck_visits(program, s, budget, a as nat);
    }
    assert(counted(counts, program, s, budget) =~= bumped(counts, s.pc, budget));
}

/// A machine whose instruction leaves the state as it is comes back to that
/// instruction with every step of its budget, and to no other.
pub proof fn lemma_stuck_visits(program: Seq<Instruction>, s: MachineState, budget: nat, addr: nat)
    requires
        !halted(program, s),
        apply(program[s.pc as int], s) == Some(s),
    ensures
        visits(program, s, budget, addr) == if addr == s.pc {
            budget
        } else {
            0
        },
    decreases budget,
{
    if budget > 0 {
        lemma_stuck_visits(program, s, (budget - 1) as nat, addr);
    }
}

/// Counts of executions, one for each address up to a length chosen at the
/// start. Runs add to it; addresses beyond its length are not counted.
pub struct Profile {
    counts: Vec<u64>,
}

impl View for Profile {
    type V = Seq<u64>;

    closed spec fn view(&self) -> Seq<u64> {
        self.counts@
    }
}

impl Profile {
    /// A profile for the addresses below `len`, with every count at zero.
    pub fn new(len: usize) -> (p: Profile)
        ensures
            p@ == Seq::new(len as nat, |a: int| 0u64),
    {
        let counts = vec![0u64; len];
        let p = Profile { counts };
        proof {
            assert(p@ =~= Seq::new(len as nat, |a: int| 0u64));
        }
        p
    }

    /// The counts in address order.
    pub fn counts(&self) -> (counts: &[u64])
        ensures
            counts@ == self@,
    {
        self.counts.as_slice()
    }

    /// Adds `by` to the count of `addr`, if the profile has one.
    pub(crate) fn bump(&mut self, addr: usize, by: u64)
        ensures
            final(self)@ == bumped(old(self)@, addr as nat, by as nat),
    {
        if addr < self.counts.len() {
            let count = self.counts[addr];
            self.counts.set(addr, count.saturating_add(by));
        }
    }
}

} // verus!
