//! The compiler: bracket matching, coalescing of runs, cancellation of
//! no-ops and fusion of loop idioms into single instructions.
//!
//! The compiler is a left-to-right pass over the tokens. Its state is an
//! emission buffer and a stack with the addresses of the loops that are still
//! open. [`emit`] says what one token does to that state, [`compiled`] what a
//! whole token sequence compiles to.

use vstd::prelude::*;
use vstd::wrapping::i8_specs;
use vstd::wrapping::i16_specs;
use crate::instruction::{Instruction, Program, jumps_resolved, no_noops};
use crate::token::Token;

verus! {

/// Which bracket has no partner.
#[derive(Clone, Copy, Debug, PartialEq, Eq, Hash, Structural)]
pub enum BracketError {
    /// A `[` is still open at the end of the source.
    ExtraOpen,
    /// A `]` closes a loop that was never opened.
    ExtraClose,
}

/// Why a source text does not compile.
#[derive(Clone, Copy, Debug, PartialEq, Eq, Hash, Structural)]
pub enum CompileError {
    /// The brackets of the source do not pair up.
    UnbalancedBrackets(BracketError),
}

impl CompileError {
    /// The text of the error's description.
    pub open spec fn text(self) -> Seq<char> {
        match self {
            CompileError::UnbalancedBrackets(BracketError::ExtraOpen) => {
                "unbalanced brackets: extra ["@
            },
            CompileError::UnbalancedBrackets(BracketError::ExtraClose) => {
                "unbalanced brackets: extra ]"@
            },
        }
    }

    /// A one-line description of the error.
    pub fn message(&self) -> (s: &'static str)
        ensures
            s@ == self.text(),
    {
        match self {
            CompileError::UnbalancedBrackets(BracketError::ExtraOpen) => {
                "unbalanced brackets: extra ["
            },
            CompileError::UnbalancedBrackets(BracketError::ExtraClose) => {
                "unbalanced brackets: extra ]"
            },
        }
    }
}

// ---------------------------------------------------------------------------
// Bracket structure of a token sequence
// ---------------------------------------------------------------------------

/// What a token adds to the nesting depth.
pub open spec fn depth_change(t: Token) -> int {
    match t {
        Token::LoopOpen => 1,
        Token::LoopClose => -1,
        _ => 0,
    }
}

/// The number of `[` minus the number of `]` in a token sequence.
pub open spec fn depth(tokens: Seq<Token>) -> int
    decreases tokens.len(),
{
    if tokens.len() == 0 {
        0
    } else {
        depth(tokens.drop_last()) + depth_change(tokens.last())
    }
}

/// No prefix closes more loops than it opens.
pub open spec fn never_negative(tokens: Seq<Token>) -> bool {
    forall|k: int| 0 <= k <= tokens.len() ==> depth(#[trigger] tokens.take(k)) >= 0
}

/// Every `[` has exactly one matching `]` and the nesting is well formed.
pub open spec fn balanced(tokens: Seq<Token>) -> bool {
    never_negative(tokens) && depth(tokens) == 0
}

// ---------------------------------------------------------------------------
// The emission rules
// ---------------------------------------------------------------------------

/// The cell change of one `+`.
pub const UP: i8 = 1;

/// The cell change of one `-`.
pub const DOWN: i8 = -1;

/// The pointer movement of one `>`.
pub const RIGHT: i16 = 1;

/// The pointer movement of one `<`.
pub const LEFT: i16 = -1;

/// The compiler's state between two tokens.
pub struct Emitter {
    /// The instructions emitted so far.
    pub buffer: Seq<Instruction>,
    /// The addresses of the `BranchZero` placeholders of the loops that are
    /// still open, innermost last.
    pub open_stack: Seq<usize>,
}

/// The state before the first token.
pub open spec fn start() -> Emitter {
    Emitter { buffer: Seq::empty(), open_stack: Seq::empty() }
}

/// Appends a cell change: merged into a directly preceding `AddCell` by
/// wrapping addition, and dropped altogether where the merged delta is zero.
pub open spec fn coalesce_add(buffer: Seq<Instruction>, delta: i8) -> Seq<Instruction> {
    if buffer.len() > 0 && buffer.last() is AddCell {
        let sum = i8_specs::wrapping_add(buffer.last()->AddCell_0, delta);
        if sum == 0 {
            buffer.drop_last()
        } else {
            buffer.drop_last().push(Instruction::AddCell(sum))
        }
    } else {
        buffer.push(Instruction::AddCell(delta))
    }
}

/// Appends a pointer movement: merged into a directly preceding `MoveCursor`
/// by wrapping addition, and dropped altogether where the merged offset is
/// zero.
pub open spec fn coalesce_move(buffer: Seq<Instruction>, delta: i16) -> Seq<Instruction> {
    if buffer.len() > 0 && buffer.last() is MoveCursor {
        let sum = i16_specs::wrapping_add(buffer.last()->MoveCursor_0, delta);
        if sum == 0 {
            buffer.drop_last()
        } else {
            buffer.drop_last().push(Instruction::MoveCursor(sum))
        }
    } else {
        buffer.push(Instruction::MoveCursor(delta))
    }
}

/// Whether a loop body takes one from the current cell, moves away by some
/// `x != 0`, changes the cell there, and moves back by `-x`.
pub open spec fn is_transfer(body: Seq<Instruction>) -> bool {
    &&& body.len() == 4
    &&& body[0] == Instruction::AddCell(DOWN)
    &&& body[1] is MoveCursor
    &&& body[2] is AddCell
    &&& body[3] is MoveCursor
    &&& body[1]->MoveCursor_0 != 0
    &&& i16_specs::wrapping_add(body[1]->MoveCursor_0, body[3]->MoveCursor_0) == 0
}

/// The single instruction that does the work of a loop with the given body,
/// if the body is one of the four idioms. The rows are tried in this order:
///
/// | body                                                               | instruction |
/// |--------------------------------------------------------------------|-------------|
/// | `AddCell(-1)`                                                      | `Clear`     |
/// | `AddCell(-1) MoveCursor(x) AddCell(1) MoveCursor(-x)`, `x != 0`    | `AddTo(x)`  |
/// | `AddCell(-1) MoveCursor(x) AddCell(-1) MoveCursor(-x)`, `x != 0`   | `SubTo(x)`  |
/// | `MoveCursor(x)`, `x != 0`                                          | `Seek(x)`   |
///
/// `-x` is the wrapping negation: the offset that, added to `x` with wrapping,
/// gives zero. So `-32768` is its own negation. A move by zero is no move:
/// it does not occur in what the compiler emits, and a loop around it is no
/// idiom.
pub open spec fn idiom(body: Seq<Instruction>) -> Option<Instruction> {
    if body.len() == 1 && body[0] == Instruction::AddCell(DOWN) {
        Some(Instruction::Clear)
    } else if is_transfer(body) && body[2] == Instruction::AddCell(UP) {
        Some(Instruction::AddTo(body[1]->MoveCursor_0))
    } else if is_transfer(body) && body[2] == Instruction::AddCell(DOWN) {
        Some(Instruction::SubTo(body[1]->MoveCursor_0))
    } else if body.len() == 1 && body[0] is MoveCursor && body[0]->MoveCursor_0 != 0 {
        Some(Instruction::Seek(body[0]->MoveCursor_0))
    } else {
        None
    }
}

/// Closes the loop whose placeholder is at `open`. With `fuse` set and a body
/// that is an idiom, placeholder and body give way to the one fused
/// instruction. Otherwise the placeholder gets the address of the closing
/// `BranchNotZero`, which is appended and points back at the placeholder.
pub open spec fn close_loop(buffer: Seq<Instruction>, open: usize, fuse: bool) -> Seq<
    Instruction,
> {
    let here = buffer.len();
    let fused = idiom(buffer.subrange(open + 1, here as int));
    if fuse && fused is Some {
        buffer.take(open as int).push(fused->Some_0)
    } else {
        buffer.update(open as int, Instruction::BranchZero(here as usize)).push(
            Instruction::BranchNotZero(open),
        )
    }
}

/// What one token does to the compiler's state.
pub open spec fn emit(e: Emitter, t: Token, fuse: bool) -> Result<Emitter, CompileError> {
    match t {
        Token::Increment => Ok(Emitter { buffer: coalesce_add(e.buffer, UP), ..e }),
        Token::Decrement => Ok(Emitter { buffer: coalesce_add(e.buffer, DOWN), ..e }),
        Token::MoveRight => Ok(Emitter { buffer: coalesce_move(e.buffer, RIGHT), ..e }),
        Token::MoveLeft => Ok(Emitter { buffer: coalesce_move(e.buffer, LEFT), ..e }),
        Token::LoopOpen => Ok(
            Emitter {
                buffer: e.buffer.push(Instruction::BranchZero(0)),
                open_stack: e.open_stack.push(e.buffer.len() as usize),
            },
        ),
        Token::LoopClose => if e.open_stack.len() == 0 {
            Err(CompileError::UnbalancedBrackets(BracketError::ExtraClose))
        } else {
            Ok(
                Emitter {
                    buffer: close_loop(e.buffer, e.open_stack.last(), fuse),
                    open_stack: e.open_stack.drop_last(),
                },
            )
        },
        Token::Output => Ok(Emitter { buffer: e.buffer.push(Instruction::Output), ..e }),
        Token::Input => Ok(Emitter { buffer: e.buffer.push(Instruction::Input), ..e }),
    }
}

/// The compiler's state after a token sequence, or the error of the first
/// token that fails.
pub open spec fn emit_all(tokens: Seq<Token>, fuse: bool) -> Result<Emitter, CompileError>
    decreases tokens.len(),
{
    if tokens.len() == 0 {
        Ok(start())
    } else {
        match emit_all(tokens.drop_last(), fuse) {
            Ok(e) => emit(e, tokens.last(), fuse),
            Err(err) => Err(err),
        }
    }
}

/// The program that a token sequence compiles to, with or without fusion of
/// loop idioms, or the reason why it does not compile.
pub open spec fn compiled(tokens: Seq<Token>, fuse: bool) -> Result<
    Seq<Instruction>,
    CompileError,
> {
    match emit_all(tokens, fuse) {
        Ok(e) => if e.open_stack.len() == 0 {
            Ok(e.buffer)
        } else {
            Err(CompileError::UnbalancedBrackets(BracketError::ExtraOpen))
        },
        Err(err) => Err(err),
    }
}

// ---------------------------------------------------------------------------
// The invariant of the compiler's state
// ---------------------------------------------------------------------------

/// The open addresses increase, and each names a placeholder in the buffer.
pub open spec fn opens_wf(e: Emitter) -> bool {
    &&& forall|i: int|
        0 <= i < e.open_stack.len() ==> (#[trigger] e.open_stack[i]) < e.buffer.len()
            && e.buffer[e.open_stack[i] as int] == Instruction::BranchZero(0)
    &&& forall|i: int, j: int|
        0 <= i < j < e.open_stack.len() ==> (#[trigger] e.open_stack[i]) < (
        #[trigger] e.open_stack[j])
}

/// What holds of the `BranchZero` at address `a`: it is an open placeholder,
/// or it carries the address of its `BranchNotZero`.
pub open spec fn forward_jump_wf(e: Emitter, a: int) -> bool {
    let t = e.buffer[a]->BranchZero_0;
    if t == 0 {
        e.open_stack.contains(a as usize)
    } else {
        a < t < e.buffer.len() && e.buffer[t as int] == Instruction::BranchNotZero(a as usize)
    }
}

/// What holds of the `BranchNotZero` at address `b`: it carries the address of
/// its `BranchZero`.
pub open spec fn backward_jump_wf(buffer: Seq<Instruction>, b: int) -> bool {
    let t = buffer[b]->BranchNotZero_0;
    t < b && buffer[t as int] == Instruction::BranchZero(b as usize)
}

/// The invariant of the compiler's state: the open addresses increase and name
/// placeholders, every other jump is resolved, and no instruction is a no-op.
pub open spec fn emitter_wf(e: Emitter) -> bool {
    &&& opens_wf(e)
    &&& forall|a: int|
        0 <= a < e.buffer.len() && #[trigger] e.buffer[a] is BranchZero ==> forward_jump_wf(e, a)
    &&& forall|b: int|
        0 <= b < e.buffer.len() && #[trigger] e.buffer[b] is BranchNotZero ==> backward_jump_wf(
            e.buffer,
            b,
        )
    &&& e.buffer.len() <= usize::MAX
    &&& no_noops(e.buffer)
}

/// Appending an instruction that is neither a jump nor a no-op keeps the
/// invariant.
proof fn lemma_push_keeps_wf(e: Emitter, x: Instruction)
    requires
        emitter_wf(e),
        e.buffer.len() < usize::MAX,
        !(x is BranchZero),
        !(x is BranchNotZero),
        x != Instruction::AddCell(0),
        x != Instruction::MoveCursor(0),
    ensures
        emitter_wf(Emitter { buffer: e.buffer.push(x), ..e }),
{
    let r = Emitter { buffer: e.buffer.push(x), ..e };
    assert forall|a: int|
        0 <= a < r.buffer.len() && #[trigger] r.buffer[a] is BranchZero implies forward_jump_wf(
        r,
        a,
    ) by {
        assert(e.buffer[a] is BranchZero);
        assert(forward_jump_wf(e, a));
    }
    assert forall|b: int|
        0 <= b < r.buffer.len() && #[trigger] r.buffer[b] is BranchNotZero implies backward_jump_wf(
        r.buffer,
        b,
    ) by {
        assert(e.buffer[b] is BranchNotZero);
        assert(backward_jump_wf(e.buffer, b));
    }
    assert forall|a: int| 0 <= a < r.buffer.len() implies #[trigger] r.buffer[a]
        != Instruction::AddCell(0) && r.buffer[a] != Instruction::MoveCursor(0) by {
        if a < e.buffer.len() {
            assert(r.buffer[a] == e.buffer[a]);
        }
    }
}

/// Dropping a last instruction that is no jump keeps the invariant.
proof fn lemma_drop_keeps_wf(e: Emitter)
    requires
        emitter_wf(e),
        e.buffer.len() > 0,
        e.buffer.last().is_arith(),
    ensures
        emitter_wf(Emitter { buffer: e.buffer.drop_last(), ..e }),
{
    let r = Emitter { buffer: e.buffer.drop_last(), ..e };
    let n = e.buffer.len() - 1;
    assert forall|i: int| 0 <= i < r.open_stack.len() implies (#[trigger] r.open_stack[i])
        < r.buffer.len() && r.buffer[r.open_stack[i] as int] == Instruction::BranchZero(0) by {
        assert(e.buffer[e.open_stack[i] as int] == Instruction::BranchZero(0));
    }
    assert forall|a: int|
        0 <= a < r.buffer.len() && #[trigger] r.buffer[a] is BranchZero implies forward_jump_wf(
        r,
        a,
    ) by {
        assert(e.buffer[a] is BranchZero);
        assert(forward_jump_wf(e, a));
    }
    assert forall|b: int|
        0 <= b < r.buffer.len() && #[trigger] r.buffer[b] is BranchNotZero implies backward_jump_wf(
        r.buffer,
        b,
    ) by {
        assert(e.buffer[b] is BranchNotZero);
        assert(backward_jump_wf(e.buffer, b));
    }
    assert forall|a: int| 0 <= a < r.buffer.len() implies #[trigger] r.buffer[a]
        != Instruction::AddCell(0) && r.buffer[a] != Instruction::MoveCursor(0) by {
        assert(r.buffer[a] == e.buffer[a]);
    }
}

/// Opening a loop keeps the invariant.
proof fn lemma_open_keeps_wf(e: Emitter)
    requires
        emitter_wf(e),
        e.buffer.len() < usize::MAX,
    ensures
        emitter_wf(emit(e, Token::LoopOpen, true)->Ok_0),
{
    let r = emit(e, Token::LoopOpen, true)->Ok_0;
    let a0 = e.buffer.len() as usize;
    assert(r.open_stack[r.open_stack.len() - 1] == a0);
    assert forall|a: int|
        0 <= a < r.buffer.len() && #[trigger] r.buffer[a] is BranchZero implies forward_jump_wf(
        r,
        a,
    ) by {
        if a != a0 {
            assert(e.buffer[a] is BranchZero);
            assert(forward_jump_wf(e, a));
            if e.buffer[a]->BranchZero_0 == 0 {
                let i = choose|i: int|
                    0 <= i < e.open_stack.len() && e.open_stack[i] == a as usize;
                assert(r.open_stack[i] == a as usize);
            }
        }
    }
    assert forall|b: int|
        0 <= b < r.buffer.len() && #[trigger] r.buffer[b] is BranchNotZero implies backward_jump_wf(
        r.buffer,
        b,
    ) by {
        assert(e.buffer[b] is BranchNotZero);
        assert(backward_jump_wf(e.buffer, b));
    }
    assert forall|a: int| 0 <= a < r.buffer.len() implies #[trigger] r.buffer[a]
        != Instruction::AddCell(0) && r.buffer[a] != Instruction::MoveCursor(0) by {
        if a < e.buffer.len() {
            assert(r.buffer[a] == e.buffer[a]);
        }
    }
}

/// Closing the innermost open loop keeps the invariant.
proof fn lemma_close_keeps_wf(e: Emitter, fuse: bool)
    requires
        emitter_wf(e),
        e.buffer.len() < usize::MAX,
        e.open_stack.len() > 0,
    ensures
        emitter_wf(emit(e, Token::LoopClose, fuse)->Ok_0),
{
    let r = emit(e, Token::LoopClose, fuse)->Ok_0;
    let open = e.open_stack.last();
    let last = e.open_stack.len() - 1;
    let here = e.buffer.len();
    assert(e.open_stack[last] == open);
    assert(open < here && e.buffer[open as int] == Instruction::BranchZero(0));
    let body = e.buffer.subrange(open + 1, here as int);
    let fused = idiom(body);
    // Open addresses below the innermost stay below it.
    assert forall|i: int| 0 <= i < r.open_stack.len() implies (#[trigger] r.open_stack[i]) < open
        && e.buffer[r.open_stack[i] as int] == Instruction::BranchZero(0) by {
        assert(e.open_stack[i] < e.open_stack[last]);
    }
    if fuse && fused is Some {
        assert(forall|a: int| open < a < here ==> e.buffer[a] == body[a - open - 1]);
        assert(forall|a: int| open < a < here ==> (#[trigger] e.buffer[a]).is_arith());
        assert(fused->Some_0.is_fused());
        assert forall|a: int|
            0 <= a < r.buffer.len() && #[trigger] r.buffer[a] is BranchZero implies forward_jump_wf(
            r,
            a,
        ) by {
            assert(a < open);
            assert(e.buffer[a] is BranchZero);
            assert(forward_jump_wf(e, a));
            let t = e.buffer[a]->BranchZero_0;
            if t == 0 {
                let i = choose|i: int|
                    0 <= i < e.open_stack.len() && e.open_stack[i] == a as usize;
                assert(i != last);
                assert(r.open_stack[i] == a as usize);
            } else {
                assert(e.buffer[t as int] is BranchNotZero);
                if t > open {
                    assert(e.buffer[t as int].is_arith());
                }
            }
        }
        assert forall|b: int|
            0 <= b < r.buffer.len() && #[trigger] r.buffer[b] is BranchNotZero implies
            backward_jump_wf(r.buffer, b) by {
            assert(b < open);
            assert(e.buffer[b] is BranchNotZero);
            assert(backward_jump_wf(e.buffer, b));
        }
        assert forall|a: int| 0 <= a < r.buffer.len() implies #[trigger] r.buffer[a]
            != Instruction::AddCell(0) && r.buffer[a] != Instruction::MoveCursor(0) by {
            if a < open {
                assert(r.buffer[a] == e.buffer[a]);
            }
        }
    } else {
        assert(r.buffer.len() == here + 1);
        assert forall|a: int|
            0 <= a < r.buffer.len() && #[trigger] r.buffer[a] is BranchZero implies forward_jump_wf(
            r,
            a,
        ) by {
            if a != open {
                assert(e.buffer[a] is BranchZero);
                assert(forward_jump_wf(e, a));
                let t = e.buffer[a]->BranchZero_0;
                if t == 0 {
                    let i = choose|i: int|
                        0 <= i < e.open_stack.len() && e.open_stack[i] == a as usize;
                    assert(i != last);
                    assert(r.open_stack[i] == a as usize);
                } else {
                    assert(e.buffer[t as int] is BranchNotZero);
                }
            }
        }
        assert forall|b: int|
            0 <= b < r.buffer.len() && #[trigger] r.buffer[b] is BranchNotZero implies
            backward_jump_wf(r.buffer, b) by {
            if b != here {
                assert(e.buffer[b] is BranchNotZero);
                assert(backward_jump_wf(e.buffer, b));
            }
        }
        assert forall|a: int| 0 <= a < r.buffer.len() implies #[trigger] r.buffer[a]
            != Instruction::AddCell(0) && r.buffer[a] != Instruction::MoveCursor(0) by {
            if a < here && a != open {
                assert(r.buffer[a] == e.buffer[a]);
            }
        }
    }
}

/// Each emission rule keeps the invariant of the compiler's state.
pub proof fn lemma_emit_keeps_wf(e: Emitter, t: Token, fuse: bool)
    requires
        emitter_wf(e),
        e.buffer.len() < usize::MAX,
        emit(e, t, fuse) is Ok,
    ensures
        emitter_wf(emit(e, t, fuse)->Ok_0),
{
    match t {
        Token::Increment | Token::Decrement => {
            let d = if t == Token::Increment { UP } else { DOWN };
            if e.buffer.len() > 0 && e.buffer.last() is AddCell {
                lemma_drop_keeps_wf(e);
                let sum = i8_specs::wrapping_add(e.buffer.last()->AddCell_0, d);
                if sum != 0 {
                    lemma_push_keeps_wf(
                        Emitter { buffer: e.buffer.drop_last(), ..e },
                        Instruction::AddCell(sum),
                    );
                }
            } else {
                lemma_push_keeps_wf(e, Instruction::AddCell(d));
            }
        },
        Token::MoveRight | Token::MoveLeft => {
            let d = if t == Token::MoveRight { RIGHT } else { LEFT };
            if e.buffer.len() > 0 && e.buffer.last() is MoveCursor {
                lemma_drop_keeps_wf(e);
                let sum = i16_specs::wrapping_add(e.buffer.last()->MoveCursor_0, d);
                if sum != 0 {
                    lemma_push_keeps_wf(
                        Emitter { buffer: e.buffer.drop_last(), ..e },
                        Instruction::MoveCursor(sum),
                    );
                }
            } else {
                lemma_push_keeps_wf(e, Instruction::MoveCursor(d));
            }
        },
        Token::LoopOpen => {
            lemma_open_keeps_wf(e);
        },
        Token::LoopClose => {
            lemma_close_keeps_wf(e, fuse);
        },
        Token::Output => {
            lemma_push_keeps_wf(e, Instruction::Output);
        },
        Token::Input => {
            lemma_push_keeps_wf(e, Instruction::Input);
        },
    }
}

// ---------------------------------------------------------------------------
// When a source compiles
// ---------------------------------------------------------------------------

/// A token adds at most one instruction to the buffer.
pub proof fn lemma_emit_grows_by_one(e: Emitter, t: Token, fuse: bool)
    requires
        emit(e, t, fuse) is Ok,
        t == Token::LoopClose ==> e.open_stack.last() < e.buffer.len(),
    ensures
        emit(e, t, fuse)->Ok_0.buffer.len() <= e.buffer.len() + 1,
{
}

/// Only the last prefix can newly go negative.
proof fn lemma_never_negative_step(tokens: Seq<Token>)
    requires
        tokens.len() > 0,
    ensures
        never_negative(tokens) <==> never_negative(tokens.drop_last()) && depth(tokens) >= 0,
{
    let front = tokens.drop_last();
    assert(tokens.take(tokens.len() as int) =~= tokens);
    assert forall|k: int| 0 <= k <= front.len() implies #[trigger] front.take(k) == tokens.take(
        k,
    ) by {
        assert(front.take(k) =~= tokens.take(k));
    }
    if never_negative(tokens) {
        assert forall|k: int| 0 <= k <= front.len() implies depth(#[trigger] front.take(k))
            >= 0 by {
            assert(front.take(k) == tokens.take(k));
        }
    }
    if never_negative(front) && depth(tokens) >= 0 {
        assert forall|k: int| 0 <= k <= tokens.len() implies depth(#[trigger] tokens.take(k))
            >= 0 by {
            if k < tokens.len() {
                assert(front.take(k) == tokens.take(k));
            }
        }
    }
}

/// The compiler gets through a token sequence exactly if no prefix closes
/// more loops than it opens. Its state then meets the invariant, has one open
/// address for each loop that is still open, and holds at most one
/// instruction for each token.
pub proof fn lemma_emit_all(tokens: Seq<Token>, fuse: bool)
    requires
        tokens.len() <= usize::MAX,
    ensures
        emit_all(tokens, fuse) is Ok <==> never_negative(tokens),
        emit_all(tokens, fuse) matches Err(err) ==> err == CompileError::UnbalancedBrackets(
            BracketError::ExtraClose,
        ),
        emit_all(tokens, fuse) matches Ok(e) ==> emitter_wf(e) && e.open_stack.len() == depth(
            tokens,
        ) && e.buffer.len() <= tokens.len(),
    decreases tokens.len(),
{
    if tokens.len() == 0 {
        assert forall|k: int| 0 <= k <= tokens.len() implies depth(#[trigger] tokens.take(k))
            >= 0 by {
            assert(tokens.take(k) =~= tokens);
        }
    } else {
        let front = tokens.drop_last();
        lemma_emit_all(front, fuse);
        lemma_never_negative_step(tokens);
        if let Ok(e) = emit_all(front, fuse) {
            if emit(e, tokens.last(), fuse) is Ok {
                lemma_emit_keeps_wf(e, tokens.last(), fuse);
                if tokens.last() == Token::LoopClose {
                    assert(e.open_stack[e.open_stack.len() - 1] < e.buffer.len());
                }
                lemma_emit_grows_by_one(e, tokens.last(), fuse);
            }
        }
    }
}

/// Once the compiler has failed on a prefix, it fails in the same way on the
/// whole sequence.
pub proof fn lemma_error_is_final(tokens: Seq<Token>, k: int, fuse: bool)
    requires
        0 <= k <= tokens.len(),
        emit_all(tokens.take(k), fuse) is Err,
    ensures
        emit_all(tokens, fuse) == emit_all(tokens.take(k), fuse),
    decreases tokens.len() - k,
{
    if k == tokens.len() {
        assert(tokens.take(k) =~= tokens);
    } else {
        assert(tokens.drop_last().take(k) =~= tokens.take(k));
        lemma_error_is_final(tokens.drop_last(), k, fuse);
    }
}

/// A source compiles exactly if its brackets are balanced. It fails with
/// `ExtraClose` exactly if some prefix closes more loops than it opens, and
/// with `ExtraOpen` exactly if no prefix does but loops are left open at the
/// end. The program of a source that compiles has all its jumps resolved and
/// holds no no-op.
pub proof fn lemma_compiles_iff_balanced(tokens: Seq<Token>, fuse: bool)
    requires
        tokens.len() <= usize::MAX,
    ensures
        compiled(tokens, fuse) is Ok <==> balanced(tokens),
        compiled(tokens, fuse) == Err::<Seq<Instruction>, CompileError>(
            CompileError::UnbalancedBrackets(BracketError::ExtraClose),
        ) <==> !never_negative(tokens),
        compiled(tokens, fuse) == Err::<Seq<Instruction>, CompileError>(
            CompileError::UnbalancedBrackets(BracketError::ExtraOpen),
        ) <==> never_negative(tokens) && depth(tokens) > 0,
        compiled(tokens, fuse) matches Ok(code) ==> jumps_resolved(code) && no_noops(code)
            && code.len() <= tokens.len(),
{
    lemma_emit_all(tokens, fuse);
    assert(tokens.take(tokens.len() as int) =~= tokens);
    if let Ok(e) = emit_all(tokens, fuse) {
        if e.open_stack.len() == 0 {
            let code = e.buffer;
            assert forall|a: int|
                0 <= a < code.len() && #[trigger] code[a] is BranchZero implies {
                let t = code[a]->BranchZero_0;
                a < t < code.len() && code[t as int] == Instruction::BranchNotZero(a as usize)
            } by {
                assert(forward_jump_wf(e, a));
            }
            assert forall|b: int|
                0 <= b < code.len() && #[trigger] code[b] is BranchNotZero implies {
                let t = code[b]->BranchNotZero_0;
                t < b && code[t as int] == Instruction::BranchZero(b as usize)
            } by {
                assert(backward_jump_wf(code, b));
            }
        }
    }
}

/// Whether `r` is what compiling `tokens` gives: the program of the emission
/// rules, or their error.
pub open spec fn compiles_to(
    tokens: Seq<Token>,
    fuse: bool,
    r: Result<Program, CompileError>,
) -> bool {
    match r {
        Ok(program) => compiled(tokens, fuse) == Ok::<Seq<Instruction>, CompileError>(program@),
        Err(err) => compiled(tokens, fuse) == Err::<Seq<Instruction>, CompileError>(err),
    }
}

/// Compiling is deterministic: whatever two runs of the compiler give for one
/// token sequence, both succeed with the same instructions or both fail with
/// the same error. For a balanced source both succeed.
pub proof fn lemma_compiling_is_deterministic(
    tokens: Seq<Token>,
    fuse: bool,
    first: Result<Program, CompileError>,
    second: Result<Program, CompileError>,
)
    requires
        tokens.len() <= usize::MAX,
        compiles_to(tokens, fuse, first),
        compiles_to(tokens, fuse, second),
    ensures
        match (first, second) {
            (Ok(p), Ok(q)) => p@ == q@,
            (Err(e), Err(f)) => e == f,
            _ => false,
        },
        balanced(tokens) ==> first is Ok && second is Ok,
{
    lemma_compiles_iff_balanced(tokens, fuse);
}

// ---------------------------------------------------------------------------
// The compiler
// ---------------------------------------------------------------------------

/// Recognises a loop body as one of the four idioms.
pub fn match_idiom(body: &[Instruction]) -> (r: Option<Instruction>)
    ensures
        r == idiom(body@),
{
    if body.len() == 1 {
        match body[0] {
            Instruction::AddCell(d) => {
                if d == DOWN {
                    return Some(Instruction::Clear);
                }
            },
            Instruction::MoveCursor(x) => {
                if x != 0 {
                    return Some(Instruction::Seek(x));
                }
            },
            _ => {},
        }
        None
    } else if body.len() == 4 {
        match (body[0], body[1], body[2], body[3]) {
            (
                Instruction::AddCell(first),
                Instruction::MoveCursor(x),
                Instruction::AddCell(second),
                Instruction::MoveCursor(y),
            ) => {
                if first == DOWN && x != 0 && x.wrapping_add(y) == 0 {
                    if second == UP {
                        return Some(Instruction::AddTo(x));
                    } else if second == DOWN {
                        return Some(Instruction::SubTo(x));
                    }
                }
                None
            },
            _ => None,
        }
    } else {
        None
    }
}

/// Emits one `+` or `-`.
fn push_add(buffer: &mut Vec<Instruction>, delta: i8)
    ensures
        final(buffer)@ == coalesce_add(old(buffer)@, delta),
{
    let n = buffer.len();
    if n > 0 {
        if let Instruction::AddCell(p) = buffer[n - 1] {
            let sum = p.wrapping_add(delta);
            buffer.pop();
            if sum != 0 {
                buffer.push(Instruction::AddCell(sum));
            }
            return ;
        }
    }
    buffer.push(Instruction::AddCell(delta));
}

/// Emits one `>` or `<`.
fn push_move(buffer: &mut Vec<Instruction>, delta: i16)
    ensures
        final(buffer)@ == coalesce_move(old(buffer)@, delta),
{
    let n = buffer.len();
    if n > 0 {
        if let Instruction::MoveCursor(p) = buffer[n - 1] {
            let sum = p.wrapping_add(delta);
            buffer.pop();
            if sum != 0 {
                buffer.push(Instruction::MoveCursor(sum));
            }
            return ;
        }
    }
    buffer.push(Instruction::MoveCursor(delta));
}

/// Emits the end of the loop whose placeholder is at `open`.
fn push_close(buffer: &mut Vec<Instruction>, open: usize, fuse: bool)
    requires
        open < old(buffer).len(),
    ensures
        final(buffer)@ == close_loop(old(buffer)@, open, fuse),
{
    let here = buffer.len();
    let fused = if fuse {
        match_idiom(vstd::slice::slice_subrange(buffer.as_slice(), open + 1, here))
    } else {
        None
    };
    match fused {
        Some(instruction) => {
            buffer.truncate(open);
            buffer.push(instruction);
        },
        None => {
            buffer.set(open, Instruction::BranchZero(here));
            buffer.push(Instruction::BranchNotZero(open));
        },
    }
}

/// The compiler proper, with fusion of loop idioms switched on or off.
fn compile_with(tokens: &[Token], fuse: bool) -> (r: Result<Program, CompileError>)
    ensures
        compiles_to(tokens@, fuse, r),
{
    let mut buffer: Vec<Instruction> = Vec::new();
    let mut open_stack: Vec<usize> = Vec::new();
    let mut i: usize = 0;
    while i < tokens.len()
        invariant
            i <= tokens.len(),
            emit_all(tokens@.take(i as int), fuse) == Ok::<Emitter, CompileError>(
                Emitter { buffer: buffer@, open_stack: open_stack@ },
            ),
        decreases tokens.len() - i,
    {
        let ghost before = Emitter { buffer: buffer@, open_stack: open_stack@ };
        proof {
            assert(tokens@.take(i + 1).drop_last() =~= tokens@.take(i as int));
            lemma_emit_all(tokens@.take(i as int), fuse);
        }
        match tokens[i] {
            Token::Increment => push_add(&mut buffer, UP),
            Token::Decrement => push_add(&mut buffer, DOWN),
            Token::MoveRight => push_move(&mut buffer, RIGHT),
            Token::MoveLeft => push_move(&mut buffer, LEFT),
            Token::LoopOpen => {
                open_stack.push(buffer.len());
                buffer.push(Instruction::BranchZero(0));
            },
            Token::LoopClose => {
                match open_stack.pop() {
                    Some(open) => {
                        proof {
                            assert(before.open_stack[before.open_stack.len() - 1] == open);
                        }
                        push_close(&mut buffer, open, fuse);
                    },
                    None => {
                        proof {
                            lemma_error_is_final(tokens@, i + 1, fuse);
                        }
                        return Err(CompileError::UnbalancedBrackets(BracketError::ExtraClose));
                    },
                }
            },
            Token::Output => buffer.push(Instruction::Output),
            Token::Input => buffer.push(Instruction::Input),
        }
        i += 1;
    }
    proof {
        assert(tokens@.take(tokens@.len() as int) =~= tokens@);
        lemma_compiles_iff_balanced(tokens@, fuse);
    }
    if open_stack.len() > 0 {
        Err(CompileError::UnbalancedBrackets(BracketError::ExtraOpen))
    } else {
        Ok(Program::from_resolved(buffer))
    }
}

/// Compiles a token sequence, fusing the loop idioms into single
/// instructions.
///
/// The source compiles exactly if its brackets are balanced; the program is
/// then the one that the emission rules give. A `]` without a partner is
/// reported before a `[` without one.
pub fn compile(tokens: &[Token]) -> (r: Result<Program, CompileError>)
    ensures
        compiles_to(tokens@, true, r),
        r matches Ok(program) ==> jumps_resolved(program@) && no_noops(program@)
            && program@.len() <= tokens@.len(),
        r is Ok <==> balanced(tokens@),
        r == Err::<Program, CompileError>(
            CompileError::UnbalancedBrackets(BracketError::ExtraClose),
        ) <==> !never_negative(tokens@),
        r == Err::<Program, CompileError>(
            CompileError::UnbalancedBrackets(BracketError::ExtraOpen),
        ) <==> never_negative(tokens@) && depth(tokens@) > 0,
{
    let r = compile_with(tokens, true);
    let count = tokens.len();
    proof {
        assert(tokens@.len() == count);
        lemma_compiles_iff_balanced(tokens@, true);
    }
    r
}

/// Compiles a token sequence without fusion: runs are coalesced and no-ops
/// cancelled, and every loop keeps its `BranchZero` and `BranchNotZero`.
pub fn compile_structural(tokens: &[Token]) -> (r: Result<Program, CompileError>)
    ensures
        compiles_to(tokens@, false, r),
        r matches Ok(program) ==> jumps_resolved(program@) && no_noops(program@)
            && program@.len() <= tokens@.len(),
        r is Ok <==> balanced(tokens@),
        r == Err::<Program, CompileError>(
            CompileError::UnbalancedBrackets(BracketError::ExtraClose),
        ) <==> !never_negative(tokens@),
        r == Err::<Program, CompileError>(
            CompileError::UnbalancedBrackets(BracketError::ExtraOpen),
        ) <==> never_negative(tokens@) && depth(tokens@) > 0,
{
    let r = compile_with(tokens, false);
    let count = tokens.len();
    proof {
        assert(tokens@.len() == count);
        lemma_compiles_iff_balanced(tokens@, false);
    }
    r
}

} // verus!
