//! The instruction set and the compiled program.

use vstd::prelude::*;

verus! {

/// One instruction of the virtual machine. An instruction's position in its
/// program is its address.
#[derive(Clone, Copy, Debug, PartialEq, Eq, Hash, Structural)]
pub enum Instruction {
    /// Adds the delta to the current cell, wrapping modulo 256.
    AddCell(i8),
    /// Moves the data pointer by the offset, wrapping modulo the tape length.
    MoveCursor(i16),
    /// Jumps to the target address if the current cell is zero.
    BranchZero(usize),
    /// Jumps to the target address if the current cell is not zero.
    BranchNotZero(usize),
    /// Appends the current cell to the output.
    Output,
    /// Reads the next input byte into the current cell.
    Input,
    /// Sets the current cell to zero.
    Clear,
    /// Adds the current cell into the cell at the offset, then zeroes the
    /// current cell.
    AddTo(i16),
    /// Subtracts the current cell from the cell at the offset, then zeroes the
    /// current cell.
    SubTo(i16),
    /// Moves the data pointer by the offset until it rests on a zero cell.
    Seek(i16),
}

impl Instruction {
    /// Whether the instruction only changes a cell or the data pointer by a
    /// constant: the two kinds that the compiler coalesces.
    pub open spec fn is_arith(self) -> bool {
        self is AddCell || self is MoveCursor
    }

    /// Whether the instruction is one of the four that replace a whole loop.
    pub open spec fn is_fused(self) -> bool {
        self is Clear || self is AddTo || self is SubTo || self is Seek
    }
}

/// Every jump is resolved: a `BranchZero` carries the address of the
/// `BranchNotZero` that closes its loop, which lies after it and carries the
/// address of that `BranchZero` in turn.
pub open spec fn jumps_resolved(code: Seq<Instruction>) -> bool {
    &&& forall|a: int|
        0 <= a < code.len() && #[trigger] code[a] is BranchZero ==> {
            let t = code[a]->BranchZero_0;
            a < t < code.len() && code[t as int] == Instruction::BranchNotZero(a as usize)
        }
    &&& forall|b: int|
        0 <= b < code.len() && #[trigger] code[b] is BranchNotZero ==> {
            let t = code[b]->BranchNotZero_0;
            t < b && code[t as int] == Instruction::BranchZero(b as usize)
        }
}

/// No instruction is a no-op: no `AddCell(0)` and no `MoveCursor(0)`.
pub open spec fn no_noops(code: Seq<Instruction>) -> bool {
    forall|a: int|
        0 <= a < code.len() ==> #[trigger] code[a] != Instruction::AddCell(0) && code[a]
            != Instruction::MoveCursor(0)
}

/// A compiled program: an instruction sequence whose jumps are all resolved.
/// It is built by the compiler and never changes afterwards.
pub struct Program {
    code: Vec<Instruction>,
}

impl View for Program {
    type V = Seq<Instruction>;

    closed spec fn view(&self) -> Seq<Instruction> {
        self.code@
    }
}

impl Program {
    #[verifier::type_invariant]
    spec fn inv(self) -> bool {
        jumps_resolved(self.code@)
    }

    /// Wraps an instruction sequence whose jumps are resolved.
    pub(crate) fn from_resolved(code: Vec<Instruction>) -> (p: Program)
        requires
            jumps_resolved(code@),
        ensures
            p@ == code@,
    {
        Program { code }
    }

    /// The number of instructions.
    pub fn len(&self) -> (n: usize)
        ensures
            n == self@.len(),
    {
        self.code.len()
    }

    /// Whether the program has no instruction.
    pub fn is_empty(&self) -> (b: bool)
        ensures
            b == (self@.len() == 0),
    {
        self.code.len() == 0
    }

    /// The instruction at an address, or `None` past the end.
    pub fn get(&self, addr: usize) -> (r: Option<Instruction>)
        ensures
            r == if addr < self@.len() {
                Some(self@[addr as int])
            } else {
                None::<Instruction>
            },
    {
        if addr < self.code.len() {
            Some(self.code[addr])
        } else {
            None
        }
    }

    /// The instruction at an address below the length.
    pub(crate) fn fetch(&self, addr: usize) -> (r: Instruction)
        requires
            addr < self@.len(),
        ensures
            r == self@[addr as int],
    {
        self.code[addr]
    }

    /// The instructions in address order. Their jumps are resolved.
    pub fn instructions(&self) -> (code: &[Instruction])
        ensures
            code@ == self@,
            jumps_resolved(code@),
    {
        proof {
            use_type_invariant(self);
        }
        self.code.as_slice()
    }
}

} // verus!
