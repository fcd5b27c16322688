//! The compiler is faithful: a program does what its source does.
//!
//! The proof follows the source and the program side by side. The two meet
//! in front of every run of coalesced tokens: there the data agree, and the
//! program counter is at the address of the token that the source is at.
//! From one meeting point to the next the source takes the run token by
//! token and the program takes its coalesced instructions; then the source
//! takes one token that is not coalesced, or goes round a fused loop until
//! it leaves it, and the program takes the instruction that stands for it.

use vstd::prelude::*;
use crate::compiler::{balanced, compiled};
use crate::idioms::{lemma_idiom_is_its_loop, loop_stops_after, rounds};
use crate::instruction::Instruction;
use crate::layout::{
    address,
    emitted,
    firm,
    fuses_at,
    lemma_close_has_open,
    lemma_emitted_whole,
    lemma_fused_addresses,
    lemma_fused_body_tokens,
    lemma_io_address,
    lemma_pair_addresses,
    lemma_reached_close_is_plain,
    lemma_run_addresses,
    lemma_run_end,
    open_body,
    run_end,
};
use crate::loops::{
    body_units,
    lemma_body_units,
    lemma_fused_rounds,
    lemma_fused_stops,
    lemma_rounds_same_data,
    lemma_source_leaves,
    lemma_source_must_leave,
    lemma_stops_same_data,
    };
use crate::machine::{
    MachineState,
    Progress,
    RuntimeError,
    apply,
    lemma_run_is_final,
    lemma_run_split,
    lemma_stuck,
    run,
};
use crate::source::{
    interpret,
    lemma_open_has_close,
    lemma_run_source_is_final,
    lemma_run_source_split,
    matching_close,
    matching_open,
    run_source,
};
use crate::straight::{
    lemma_perform,
    lemma_perform_same_data,
    lemma_run_straight,
    lemma_source_straight,
    paused,
    perform,
    same_data,
    standing,
    units,
};
use crate::token::Token;

verus! {

/// Whether the source in state `a` and the program in state `b` are at the
/// same point: the data agree, the source is in front of a run of coalesced
/// tokens or at its end, and the program is at the address of that token.
pub open spec fn corresponds(
    tokens: Seq<Token>,
    a: MachineState,
    b: MachineState,
    fuse: bool,
) -> bool {
    &&& a.wf()
    &&& same_data(a, b)
    &&& a.pc <= tokens.len()
    &&& firm(tokens, a.pc as int, fuse) || a.pc == tokens.len()
    &&& b.pc == address(tokens, a.pc as int, fuse)
}

/// Whether the token at `k` opens a loop that the compiler fuses.
pub open spec fn enters_fused(tokens: Seq<Token>, k: int, fuse: bool) -> bool {
    tokens[k] == Token::LoopOpen && fuses_at(tokens, matching_close(tokens, k), fuse)
}

/// How a run ends that is aborted.
pub open spec fn aborted() -> Result<Progress, RuntimeError> {
    Err(RuntimeError::InputExhausted)
}

/// A run of coalesced tokens, and its instructions. Returns the steps that
/// the source and the program take, and the states that they reach.
proof fn lemma_block(tokens: Seq<Token>, a: MachineState, b: MachineState, fuse: bool) -> (r: (
    nat,
    nat,
    MachineState,
    MachineState,
))
    requires
        balanced(tokens),
        tokens.len() <= usize::MAX,
        corresponds(tokens, a, b, fuse),
    ensures
        ({
            let (steps, steps2, a2, b2) = r;
            let program = compiled(tokens, fuse)->Ok_0;
            &&& a2.wf()
            &&& same_data(a2, b2)
            &&& a2.pc == run_end(tokens, a.pc as int)
            &&& a.pc <= a2.pc <= tokens.len()
            &&& b2.pc == address(tokens, a2.pc as int, fuse)
            &&& b2.pc <= program.len()
            &&& a2.pc == tokens.len() ==> b2.pc == program.len()
            &&& a2.pc < tokens.len() ==> !tokens[a2.pc as int].is_arith() && !fuses_at(
                tokens,
                a2.pc as int,
                fuse,
            )
            &&& run_source(tokens, a, steps) == (a2, standing(a2.pc, tokens.len()))
            &&& run(program, b, steps2) == (b2, standing(b2.pc, program.len()))
        }),
{
    let program = compiled(tokens, fuse)->Ok_0;
    let from = a.pc as int;
    let end = run_end(tokens, from);
    lemma_emitted_whole(tokens, fuse);
    lemma_run_end(tokens, from);
    if from == tokens.len() {
        (0, 0, a, b)
    } else {
        if end < tokens.len() && tokens[end] == Token::LoopClose {
            lemma_reached_close_is_plain(tokens, from, end, fuse);
        }
        lemma_run_addresses(tokens, from, end, a, fuse);
        let code = program.subrange(
            address(tokens, from, fuse) as int,
            address(tokens, end, fuse) as int,
        );
        lemma_perform_same_data(code, a, b);
        let count = (end - from) as nat;
        let count2 = (address(tokens, end, fuse) - address(tokens, from, fuse)) as nat;
        lemma_source_straight(tokens, a, count);
        assert(b.wf());
        lemma_run_straight(program, b, count2);
        let a1 = perform(units(tokens.subrange(from, end)), a);
        let b1 = perform(code, b);
        lemma_perform(units(tokens.subrange(from, end)), a);
        (count, count2, a1, b1)
    }
}

/// Whether `steps2`, `a2` and `b2` are what one token that is not coalesced,
/// and its instruction, lead to from `a` and `b`: the source takes one step,
/// the program `steps2`, and both are at the same point again, or both are
/// aborted for want of input.
pub open spec fn barrier_passed(
    tokens: Seq<Token>,
    fuse: bool,
    a: MachineState,
    b: MachineState,
    steps2: nat,
    a2: MachineState,
    b2: MachineState,
) -> bool {
    let program = compiled(tokens, fuse)->Ok_0;
    &&& 1 <= steps2 <= 2
    &&& b.pc < program.len()
    &&& if interpret(tokens, a) is None {
        &&& a2 == a
        &&& b2 == b
        &&& run_source(tokens, a, 1) == (a, aborted())
        &&& run(program, b, steps2) == (b, aborted())
    } else {
        &&& corresponds(tokens, a2, b2, fuse)
        &&& run_source(tokens, a, 1) == run_source(tokens, a2, 0)
        &&& run(program, b, steps2) == run(program, b2, 0)
    }
}

/// An input or output token, and its instruction.
proof fn lemma_io_barrier(tokens: Seq<Token>, a: MachineState, b: MachineState, fuse: bool) -> (r: (
    nat,
    MachineState,
    MachineState,
))
    requires
        balanced(tokens),
        tokens.len() <= usize::MAX,
        a.wf(),
        same_data(a, b),
        a.pc < tokens.len(),
        tokens[a.pc as int] == Token::Output || tokens[a.pc as int] == Token::Input,
        b.pc == address(tokens, a.pc as int, fuse),
    ensures
        barrier_passed(tokens, fuse, a, b, r.0, r.1, r.2),
{
    let program = compiled(tokens, fuse)->Ok_0;
    let k = a.pc as int;
    lemma_emitted_whole(tokens, fuse);
    lemma_io_address(tokens, k, fuse);
    if interpret(tokens, a) is None {
        (1, a, b)
    } else {
        let a2 = interpret(tokens, a)->Some_0;
        let b2 = apply(program[b.pc as int], b)->Some_0;
        assert(run(program, b, 1) == run(program, b2, 0));
        assert(a2.tape =~= b2.tape);
        (1, a2, b2)
    }
}

/// The `[` of a loop that is not fused, and its instruction.
proof fn lemma_open_barrier(
    tokens: Seq<Token>,
    a: MachineState,
    b: MachineState,
    fuse: bool,
) -> (r: (nat, MachineState, MachineState))
    requires
        balanced(tokens),
        tokens.len() <= usize::MAX,
        a.wf(),
        same_data(a, b),
        a.pc < tokens.len(),
        tokens[a.pc as int] == Token::LoopOpen,
        !enters_fused(tokens, a.pc as int, fuse),
        b.pc == address(tokens, a.pc as int, fuse),
    ensures
        barrier_passed(tokens, fuse, a, b, r.0, r.1, r.2),
{
    let program = compiled(tokens, fuse)->Ok_0;
    let k = a.pc as int;
    lemma_emitted_whole(tokens, fuse);
    lemma_open_has_close(tokens, k);
    let close = matching_close(tokens, k);
    lemma_pair_addresses(tokens, k, close, fuse);
    let a2 = interpret(tokens, a)->Some_0;
    let b1 = apply(program[b.pc as int], b)->Some_0;
    assert(run(program, b, 1) == run(program, b1, 0));
    if a.cell() == 0 {
        let b2 = apply(program[b1.pc as int], b1)->Some_0;
        lemma_run_split(program, b, 1, 1);
        assert(run(program, b1, 1) == run(program, b2, 0));
        (2, a2, b2)
    } else {
        (1, a2, b1)
    }
}

/// The `]` of a loop that is not fused, and its instruction.
proof fn lemma_close_barrier(
    tokens: Seq<Token>,
    a: MachineState,
    b: MachineState,
    fuse: bool,
) -> (r: (nat, MachineState, MachineState))
    requires
        balanced(tokens),
        tokens.len() <= usize::MAX,
        a.wf(),
        same_data(a, b),
        a.pc < tokens.len(),
        tokens[a.pc as int] == Token::LoopClose,
        !fuses_at(tokens, a.pc as int, fuse),
        b.pc == address(tokens, a.pc as int, fuse),
    ensures
        barrier_passed(tokens, fuse, a, b, r.0, r.1, r.2),
{
    let program = compiled(tokens, fuse)->Ok_0;
    let k = a.pc as int;
    lemma_emitted_whole(tokens, fuse);
    lemma_close_has_open(tokens, k);
    let open = matching_open(tokens, k);
    lemma_pair_addresses(tokens, open, k, fuse);
    lemma_open_has_close(tokens, open);
    crate::source::lemma_close_is_unique(tokens, open, k, matching_close(tokens, open));
    let a2 = interpret(tokens, a)->Some_0;
    let b1 = apply(program[b.pc as int], b)->Some_0;
    assert(run(program, b, 1) == run(program, b1, 0));
    if a.cell() != 0 {
        let b2 = apply(program[b1.pc as int], b1)->Some_0;
        lemma_run_split(program, b, 1, 1);
        assert(run(program, b1, 1) == run(program, b2, 0));
        (2, a2, b2)
    } else {
        (1, a2, b1)
    }
}

/// One token that is not coalesced and opens no fused loop, and its
/// instruction: a bracket, an input or an output.
proof fn lemma_plain_barrier(
    tokens: Seq<Token>,
    a: MachineState,
    b: MachineState,
    fuse: bool,
) -> (r: (nat, MachineState, MachineState))
    requires
        balanced(tokens),
        tokens.len() <= usize::MAX,
        a.wf(),
        same_data(a, b),
        a.pc < tokens.len(),
        !tokens[a.pc as int].is_arith(),
        !fuses_at(tokens, a.pc as int, fuse),
        !enters_fused(tokens, a.pc as int, fuse),
        b.pc == address(tokens, a.pc as int, fuse),
    ensures
        barrier_passed(tokens, fuse, a, b, r.0, r.1, r.2),
{
    match tokens[a.pc as int] {
        Token::LoopOpen => lemma_open_barrier(tokens, a, b, fuse),
        Token::LoopClose => lemma_close_barrier(tokens, a, b, fuse),
        _ => lemma_io_barrier(tokens, a, b, fuse),
    }
}

/// A fused loop that the source leaves after `n` rounds, and its one
/// instruction. Returns the steps that the source takes, and the states that
/// the source and the program reach.
proof fn lemma_fused_barrier(
    tokens: Seq<Token>,
    a: MachineState,
    b: MachineState,
    n: nat,
    fuse: bool,
) -> (r: (nat, MachineState, MachineState))
    requires
        balanced(tokens),
        tokens.len() <= usize::MAX,
        a.wf(),
        same_data(a, b),
        a.pc < tokens.len(),
        enters_fused(tokens, a.pc as int, fuse),
        b.pc == address(tokens, a.pc as int, fuse),
        loop_stops_after(
            body_units(tokens, a.pc as int, matching_close(tokens, a.pc as int)),
            a,
            n,
        ),
    ensures
        ({
            let (steps, a2, b2) = r;
            let program = compiled(tokens, fuse)->Ok_0;
            &&& steps >= 1
            &&& b.pc < program.len()
            &&& corresponds(tokens, a2, b2, fuse)
            &&& run_source(tokens, a, steps) == run_source(tokens, a2, 0)
            &&& run(program, b, 1) == run(program, b2, 0)
        }),
{
    let program = compiled(tokens, fuse)->Ok_0;
    let open = a.pc as int;
    let close = matching_close(tokens, open);
    lemma_open_has_close(tokens, open);
    lemma_fused_addresses(tokens, open, close, a, fuse);
    lemma_fused_body_tokens(tokens, open, close, fuse);
    lemma_body_units(tokens, open, close);
    let body = open_body(emitted(tokens, close, fuse));
    let source = body_units(tokens, open, close);
    lemma_fused_stops(tokens, open, close, a, n, fuse);
    lemma_stops_same_data(body, a, b, n);
    lemma_idiom_is_its_loop(body, b);
    assert(loop_stops_after(body, b, n));
    let b2 = apply(program[b.pc as int], b)->Some_0;
    assert(run(program, b, 1) == run(program, b2, 0));
    lemma_source_leaves(tokens, a, close, n);
    let a2 = MachineState { pc: (close + 1) as nat, ..rounds(source, a, n) };
    lemma_fused_rounds(tokens, open, close, a, n, fuse);
    lemma_rounds_same_data(body, a, b, n);
    ((n * (close - open) as nat + 1) as nat, a2, b2)
}

/// A program that ends after it has come to the instruction of a fused loop
/// has got past it, and the source leaves the loop: there is a round after
/// which the loop stops. Returns that round.
proof fn lemma_program_must_leave(
    tokens: Seq<Token>,
    a: MachineState,
    b: MachineState,
    budget2: nat,
    fuse: bool,
) -> (n: nat)
    requires
        balanced(tokens),
        tokens.len() <= usize::MAX,
        a.wf(),
        same_data(a, b),
        a.pc < tokens.len(),
        enters_fused(tokens, a.pc as int, fuse),
        b.pc == address(tokens, a.pc as int, fuse),
        run(compiled(tokens, fuse)->Ok_0, b, budget2).1 != paused(),
    ensures
        loop_stops_after(
            body_units(tokens, a.pc as int, matching_close(tokens, a.pc as int)),
            a,
            n,
        ),
{
    let program = compiled(tokens, fuse)->Ok_0;
    let open = a.pc as int;
    let close = matching_close(tokens, open);
    lemma_open_has_close(tokens, open);
    lemma_fused_addresses(tokens, open, close, a, fuse);
    let body = open_body(emitted(tokens, close, fuse));
    lemma_idiom_is_its_loop(body, b);
    if apply(program[b.pc as int], b) == Some(b) {
        lemma_stuck(program, b, budget2);
    }
    let n = choose|n: nat| loop_stops_after(body, b, n);
    lemma_stops_same_data(body, a, b, n);
    lemma_fused_stops(tokens, open, close, a, n, fuse);
    n
}

/// Whether two runs end in the same way with the same data.
pub open spec fn same_outcome(
    x: (MachineState, Result<Progress, RuntimeError>),
    y: (MachineState, Result<Progress, RuntimeError>),
) -> bool {
    x.1 == y.1 && same_data(x.0, y.0)
}

/// Where the source ends, the program ends in the same way. Returns a budget
/// on which it does.
proof fn lemma_program_follows(
    tokens: Seq<Token>,
    a: MachineState,
    b: MachineState,
    budget: nat,
    fuse: bool,
) -> (budget2: nat)
    requires
        balanced(tokens),
        tokens.len() <= usize::MAX,
        corresponds(tokens, a, b, fuse),
        run_source(tokens, a, budget).1 != paused(),
    ensures
        same_outcome(run_source(tokens, a, budget), run(compiled(tokens, fuse)->Ok_0, b, budget2)),
    decreases budget, 1nat,
{
    let program = compiled(tokens, fuse)->Ok_0;
    let (count, count2, a1, b1) = lemma_block(tokens, a, b, fuse);
    if budget < count {
        lemma_run_source_is_final(tokens, a, budget, count);
    } else {
        lemma_run_source_split(tokens, a, count, (budget - count) as nat);
    }
    if a1.pc >= tokens.len() {
        count2
    } else {
        // The source has not ended yet: it comes to the token behind the run.
        let rest = (budget - count) as nat;
        assert(run_source(tokens, a, budget) == run_source(tokens, a1, rest));
        if enters_fused(tokens, a1.pc as int, fuse) {
            lemma_open_has_close(tokens, a1.pc as int);
            lemma_fused_body_tokens(
                tokens,
                a1.pc as int,
                matching_close(tokens, a1.pc as int),
                fuse,
            );
            let n = lemma_source_must_leave(
                tokens,
                a1,
                matching_close(tokens, a1.pc as int),
                rest,
            );
            let (steps, a2, b2) = lemma_fused_barrier(tokens, a1, b1, n, fuse);
            let more = lemma_onward(tokens, a1, a2, b2, rest, steps, fuse);
            lemma_run_split(program, b1, 1, more);
            lemma_run_split(program, b, count2, 1 + more);
            count2 + 1 + more
        } else {
            let (steps2, a2, b2) = lemma_plain_barrier(tokens, a1, b1, fuse);
            if interpret(tokens, a1) is None {
                lemma_run_source_is_final(tokens, a1, 1, rest);
                lemma_run_split(program, b, count2, steps2);
                count2 + steps2
            } else {
                let more = lemma_onward(tokens, a1, a2, b2, rest, 1, fuse);
                lemma_run_split(program, b1, steps2, more);
                lemma_run_split(program, b, count2, steps2 + more);
                count2 + steps2 + more
            }
        }
    }
}

/// The source, which ends on `rest` from `a1`, gets from `a1` to the meeting
/// point `a2` in `steps`; the program goes on from `b2`. Returns a budget on
/// which the program ends from there as the source does.
proof fn lemma_onward(
    tokens: Seq<Token>,
    a1: MachineState,
    a2: MachineState,
    b2: MachineState,
    rest: nat,
    steps: nat,
    fuse: bool,
) -> (more: nat)
    requires
        balanced(tokens),
        tokens.len() <= usize::MAX,
        corresponds(tokens, a2, b2, fuse),
        steps >= 1,
        a1.pc < tokens.len(),
        run_source(tokens, a1, steps) == run_source(tokens, a2, 0),
        run_source(tokens, a1, rest).1 != paused(),
    ensures
        same_outcome(run_source(tokens, a1, rest), run(compiled(tokens, fuse)->Ok_0, b2, more)),
    decreases rest, 0nat,
{
    let left: nat = if rest < steps {
        lemma_run_source_is_final(tokens, a1, rest, steps);
        0
    } else {
        lemma_run_source_split(tokens, a1, steps, (rest - steps) as nat);
        (rest - steps) as nat
    };
    assert(run_source(tokens, a1, rest) == run_source(tokens, a2, left));
    lemma_program_follows(tokens, a2, b2, left, fuse)
}

/// Where the program ends, the source ends in the same way. Returns a budget
/// on which it does.
proof fn lemma_source_follows(
    tokens: Seq<Token>,
    a: MachineState,
    b: MachineState,
    budget2: nat,
    fuse: bool,
) -> (budget: nat)
    requires
        balanced(tokens),
        tokens.len() <= usize::MAX,
        corresponds(tokens, a, b, fuse),
        run(compiled(tokens, fuse)->Ok_0, b, budget2).1 != paused(),
    ensures
        same_outcome(run_source(tokens, a, budget), run(compiled(tokens, fuse)->Ok_0, b, budget2)),
    decreases budget2,
{
    let program = compiled(tokens, fuse)->Ok_0;
    let (count, count2, a1, b1) = lemma_block(tokens, a, b, fuse);
    if budget2 < count2 {
        lemma_run_is_final(program, b, budget2, count2);
    } else {
        lemma_run_split(program, b, count2, (budget2 - count2) as nat);
    }
    if a1.pc >= tokens.len() {
        count
    } else {
        let (steps, steps2, a2, b2): (nat, nat, MachineState, MachineState) = if enters_fused(
            tokens,
            a1.pc as int,
            fuse,
        ) {
            lemma_open_has_close(tokens, a1.pc as int);
            lemma_fused_addresses(
                tokens,
                a1.pc as int,
                matching_close(tokens, a1.pc as int),
                a1,
                fuse,
            );
            let rest2 = (budget2 - count2) as nat;
            let n = lemma_program_must_leave(tokens, a1, b1, rest2, fuse);
            let (steps, a2, b2) = lemma_fused_barrier(tokens, a1, b1, n, fuse);
            (steps, 1, a2, b2)
        } else {
            let (steps2, a2, b2) = lemma_plain_barrier(tokens, a1, b1, fuse);
            (1, steps2, a2, b2)
        };
        // The program has not ended yet: it comes to the instruction behind
        // the run.
        let rest2 = (budget2 - count2) as nat;
        assert(run(program, b, budget2) == run(program, b1, rest2));
        if !enters_fused(tokens, a1.pc as int, fuse) && interpret(tokens, a1) is None {
            if rest2 < steps2 {
                lemma_run_is_final(program, b1, rest2, steps2);
            } else {
                lemma_run_is_final(program, b1, steps2, rest2);
            }
            lemma_run_source_split(tokens, a, count, 1);
            count + 1
        } else {
            let left2: nat = if rest2 < steps2 {
                lemma_run_is_final(program, b1, rest2, steps2);
                0
            } else {
                lemma_run_split(program, b1, steps2, (rest2 - steps2) as nat);
                (rest2 - steps2) as nat
            };
            assert(run(program, b1, rest2) == run(program, b2, left2));
            let more = lemma_source_follows(tokens, a2, b2, left2, fuse);
            lemma_run_source_split(tokens, a1, steps, more);
            lemma_run_source_split(tokens, a, count, steps + more);
            count + steps + more
        }
    }
}

/// Whether interpreting the source from `s` ends in the way `how` with the
/// data of `end`, on some budget.
pub open spec fn source_ends(
    tokens: Seq<Token>,
    s: MachineState,
    end: MachineState,
    how: Result<Progress, RuntimeError>,
) -> bool {
    exists|budget: nat| #[trigger]
        run_source(tokens, s, budget).1 == how && same_data(run_source(tokens, s, budget).0, end)
}

/// Whether running the program from `s` ends in the way `how` with the data
/// of `end`, on some budget.
pub open spec fn program_ends(
    program: Seq<Instruction>,
    s: MachineState,
    end: MachineState,
    how: Result<Progress, RuntimeError>,
) -> bool {
    exists|budget: nat| #[trigger]
        run(program, s, budget).1 == how && same_data(run(program, s, budget).0, end)
}

/// Semantic equivalence: the program of a balanced source does what the
/// source does, with fusion and without. Started on the same tape, pointer,
/// input and output, the program halts exactly if the source does and is
/// aborted for want of input exactly if the source is, and the two end with
/// the same tape, the same pointer, the same output and the same input read.
/// Where the one never ends, the other never ends.
pub proof fn lemma_program_is_faithful(
    tokens: Seq<Token>,
    fuse: bool,
    s: MachineState,
    end: MachineState,
    how: Result<Progress, RuntimeError>,
)
    requires
        balanced(tokens),
        tokens.len() <= usize::MAX,
        s.wf(),
        s.pc == 0,
        how != paused(),
    ensures
        compiled(tokens, fuse) is Ok,
        source_ends(tokens, s, end, how) <==> program_ends(
            compiled(tokens, fuse)->Ok_0,
            s,
            end,
            how,
        ),
{
    let program = compiled(tokens, fuse)->Ok_0;
    lemma_emitted_whole(tokens, fuse);
    assert(tokens.take(0) =~= Seq::<Token>::empty());
    assert(corresponds(tokens, s, s, fuse));
    if source_ends(tokens, s, end, how) {
        let budget = choose|budget: nat| #[trigger]
            run_source(tokens, s, budget).1 == how && same_data(
                run_source(tokens, s, budget).0,
                end,
            );
        let budget2 = lemma_program_follows(tokens, s, s, budget, fuse);
        assert(run(program, s, budget2).1 == how && same_data(run(program, s, budget2).0, end));
    }
    if program_ends(program, s, end, how) {
        let budget2 = choose|budget2: nat| #[trigger]
            run(program, s, budget2).1 == how && same_data(run(program, s, budget2).0, end);
        let budget = lemma_source_follows(tokens, s, s, budget2, fuse);
        assert(run_source(tokens, s, budget).1 == how && same_data(
            run_source(tokens, s, budget).0,
            end,
        ));
    }
}

/// Fusion keeps the meaning: the program with fused loops ends exactly if
/// the program without them ends, in the same way and with the same data.
pub proof fn lemma_fusion_keeps_meaning(
    tokens: Seq<Token>,
    s: MachineState,
    end: MachineState,
    how: Result<Progress, RuntimeError>,
)
    requires
        balanced(tokens),
        tokens.len() <= usize::MAX,
        s.wf(),
        s.pc == 0,
        how != paused(),
    ensures
        program_ends(compiled(tokens, true)->Ok_0, s, end, how) <==> program_ends(
            compiled(tokens, false)->Ok_0,
            s,
            end,
            how,
        ),
{
    lemma_program_is_faithful(tokens, true, s, end, how);
    lemma_program_is_faithful(tokens, false, s, end, how);
}

} // verus!
