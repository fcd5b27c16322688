//! What a source text means: the tokens interpreted one by one, each loop
//! bracket jumping to its partner. This is the yardstick for the compiler.

use vstd::prelude::*;
use crate::compiler::{balanced, depth, depth_change};
use crate::machine::{MachineState, Progress, RuntimeError, wrap_cell, wrap_cursor};
use crate::token::Token;

verus! {

/// Whether the `[` at `open` and the `]` at `close` enclose one loop: the
/// nesting depth behind `close` is the one in front of `open`, and is
/// greater everywhere in between.
pub open spec fn is_pair(tokens: Seq<Token>, open: int, close: int) -> bool {
    &&& 0 <= open < close < tokens.len()
    &&& tokens[open] == Token::LoopOpen
    &&& tokens[close] == Token::LoopClose
    &&& depth(tokens.take(close + 1)) == depth(tokens.take(open))
    &&& forall|x: int|
        open < x <= close ==> depth(#[trigger] tokens.take(x)) > depth(tokens.take(open))
}

/// The index of the `]` that closes the loop opened at `open`.
pub open spec fn matching_close(tokens: Seq<Token>, open: int) -> int {
    choose|close: int| is_pair(tokens, open, close)
}

/// The index of the `[` that opens the loop closed at `close`.
pub open spec fn matching_open(tokens: Seq<Token>, close: int) -> int {
    choose|open: int| is_pair(tokens, open, close)
}

/// The state after the token at the program counter, or `None` where a `,`
/// finds the input exhausted.
///
/// A `[` on a zero cell continues behind its `]`, a `]` on a nonzero cell
/// behind its `[`; every other token continues with the next one.
pub open spec fn interpret(tokens: Seq<Token>, s: MachineState) -> Option<MachineState> {
    match tokens[s.pc as int] {
        Token::Increment => Some(s.store(wrap_cell(s.cell() + 1))),
        Token::Decrement => Some(s.store(wrap_cell(s.cell() - 1))),
        Token::MoveRight => Some(MachineState { dp: wrap_cursor(s.dp, 1), pc: s.pc + 1, ..s }),
        Token::MoveLeft => Some(MachineState { dp: wrap_cursor(s.dp, -1), pc: s.pc + 1, ..s }),
        Token::LoopOpen => Some(
            MachineState {
                pc: if s.cell() == 0 {
                    (matching_close(tokens, s.pc as int) + 1) as nat
                } else {
                    s.pc + 1
                },
                ..s
            },
        ),
        Token::LoopClose => Some(
            MachineState {
                pc: if s.cell() != 0 {
                    (matching_open(tokens, s.pc as int) + 1) as nat
                } else {
                    s.pc + 1
                },
                ..s
            },
        ),
        Token::Output => Some(
            MachineState { output: s.output.push(s.cell()), pc: s.pc + 1, ..s },
        ),
        Token::Input => if s.consumed < s.input.len() {
            Some(
                MachineState { consumed: s.consumed + 1, ..s.store(s.input[s.consumed as int]) },
            )
        } else {
            None
        },
    }
}

/// The state in which interpreting at most `budget` tokens ends, and how it
/// ends: halted behind the last token, paused with the budget used up, or
/// aborted in front of a `,` that finds no input.
pub open spec fn run_source(tokens: Seq<Token>, s: MachineState, budget: nat) -> (
    MachineState,
    Result<Progress, RuntimeError>,
)
    decreases budget,
{
    if s.pc >= tokens.len() {
        (s, Ok(Progress::Halted))
    } else if budget == 0 {
        (s, Ok(Progress::Paused))
    } else {
        match interpret(tokens, s) {
            Some(next) => run_source(tokens, next, (budget - 1) as nat),
            None => (s, Err(RuntimeError::InputExhausted)),
        }
    }
}

/// A `]` has at most one `[`.
pub proof fn lemma_open_is_unique(tokens: Seq<Token>, a: int, b: int, close: int)
    requires
        is_pair(tokens, a, close),
        is_pair(tokens, b, close),
    ensures
        a == b,
{
    if a < b {
        assert(depth(tokens.take(b)) > depth(tokens.take(a)));
    } else if b < a {
        assert(depth(tokens.take(a)) > depth(tokens.take(b)));
    }
}

/// A `[` has at most one `]`.
pub proof fn lemma_close_is_unique(tokens: Seq<Token>, open: int, a: int, b: int)
    requires
        is_pair(tokens, open, a),
        is_pair(tokens, open, b),
    ensures
        a == b,
{
    if a < b {
        assert(depth(tokens.take(a + 1)) > depth(tokens.take(open)));
    } else if b < a {
        assert(depth(tokens.take(b + 1)) > depth(tokens.take(open)));
    }
}

/// The depth behind a token is the depth in front of it plus the token's own
/// change.
pub proof fn lemma_depth_step(tokens: Seq<Token>, k: int)
    requires
        0 <= k < tokens.len(),
    ensures
        depth(tokens.take(k + 1)) == depth(tokens.take(k)) + depth_change(tokens[k]),
{
    assert(tokens.take(k + 1).drop_last() =~= tokens.take(k));
}

/// The first index from `from` on behind which the depth is back at `level`
/// or below.
pub open spec fn first_return(tokens: Seq<Token>, from: int, level: int) -> int
    decreases tokens.len() - from,
{
    if from >= tokens.len() || from < 0 {
        from
    } else if depth(tokens.take(from + 1)) <= level {
        from
    } else {
        first_return(tokens, from + 1, level)
    }
}

proof fn lemma_first_return(tokens: Seq<Token>, from: int, level: int)
    requires
        0 <= from <= tokens.len(),
        depth(tokens) <= level,
        depth(tokens.take(from)) > level,
    ensures
        ({
            let close = first_return(tokens, from, level);
            &&& from <= close < tokens.len()
            &&& depth(tokens.take(close + 1)) == level
            &&& tokens[close] == Token::LoopClose
            &&& forall|x: int| from <= x <= close ==> depth(#[trigger] tokens.take(x)) > level
        }),
    decreases tokens.len() - from,
{
    assert(tokens.take(tokens.len() as int) =~= tokens);
    if from < tokens.len() {
        lemma_depth_step(tokens, from);
        if depth(tokens.take(from + 1)) > level {
            lemma_first_return(tokens, from + 1, level);
            let close = first_return(tokens, from + 1, level);
            assert forall|x: int| from <= x <= close implies depth(#[trigger] tokens.take(x))
                > level by {
                if x > from {
                }
            }
        }
    }
}

/// In a balanced source every `[` has its `]`.
pub proof fn lemma_open_has_close(tokens: Seq<Token>, open: int)
    requires
        balanced(tokens),
        0 <= open < tokens.len(),
        tokens[open] == Token::LoopOpen,
    ensures
        is_pair(tokens, open, matching_close(tokens, open)),
{
    let level = depth(tokens.take(open));
    lemma_depth_step(tokens, open);
    assert(depth(tokens.take(open)) >= 0);
    lemma_first_return(tokens, open + 1, level);
    let close = first_return(tokens, open + 1, level);
    assert(is_pair(tokens, open, close));
}

/// Interpreting on a budget of `first + second` is interpreting on `first`
/// followed, where that pauses, by interpreting on `second` from the state it
/// paused in.
pub proof fn lemma_run_source_split(tokens: Seq<Token>, s: MachineState, first: nat, second: nat)
    ensures
        run_source(tokens, s, first + second) == if run_source(tokens, s, first).1 == Ok::<
            Progress,
            RuntimeError,
        >(Progress::Paused) {
            run_source(tokens, run_source(tokens, s, first).0, second)
        } else {
            run_source(tokens, s, first)
        },
    decreases first,
{
    if s.pc < tokens.len() && first > 0 {
        if let Some(next) = interpret(tokens, s) {
            lemma_run_source_split(tokens, next, (first - 1) as nat, second);
        }
    }
}

/// An interpretation that has halted or was aborted ends in the same way on
/// every larger budget.
pub proof fn lemma_run_source_is_final(
    tokens: Seq<Token>,
    s: MachineState,
    budget: nat,
    more: nat,
)
    requires
        run_source(tokens, s, budget).1 != Ok::<Progress, RuntimeError>(Progress::Paused),
        budget <= more,
    ensures
        run_source(tokens, s, more) == run_source(tokens, s, budget),
{
    lemma_run_source_split(tokens, s, budget, (more - budget) as nat);
}

} // verus!
