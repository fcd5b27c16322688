//! How the source goes round a loop whose body holds coalesced tokens only,
//! and when it leaves it.

use vstd::prelude::*;
use crate::compiler::balanced;
use crate::idioms::{loop_stops_after, lemma_rounds_wf, rounds};
use crate::instruction::Instruction;
use crate::layout::{emitted, fuses_at, lemma_fused_addresses, open_body};
use crate::machine::{MachineState};
use crate::source::{
    interpret,
    is_pair,
    lemma_close_is_unique,
    lemma_open_is_unique,
    lemma_run_source_is_final,
    lemma_run_source_split,
    matching_close,
    matching_open,
    run_source,
};
use crate::straight::{
    all_arith,
    lemma_perform_same_data,
    lemma_source_straight,
    paused,
    perform,
    same_data,
    units,
};
use crate::token::Token;

verus! {

/// The instructions of the tokens between two brackets.
pub open spec fn body_units(tokens: Seq<Token>, open: int, close: int) -> Seq<Instruction> {
    units(tokens.subrange(open + 1, close))
}

/// Whether the tokens between the brackets of a loop are all coalesced.
pub open spec fn plain_body(tokens: Seq<Token>, open: int, close: int) -> bool {
    &&& is_pair(tokens, open, close)
    &&& forall|i: int| open < i < close ==> (#[trigger] tokens[i]).is_arith()
}

/// The state in which the source tests the cell for the `n`-th time after
/// entering the loop in state `a`: at the `[` to begin with, and at the `]`
/// after each round.
pub open spec fn at_test(tokens: Seq<Token>, a: MachineState, close: int, n: nat) -> MachineState {
    if n == 0 {
        a
    } else {
        MachineState { pc: close as nat, ..rounds(body_units(tokens, a.pc as int, close), a, n) }
    }
}

/// The instructions of coalesced tokens are cell changes and pointer moves.
pub proof fn lemma_body_units(tokens: Seq<Token>, open: int, close: int)
    requires
        plain_body(tokens, open, close),
    ensures
        all_arith(body_units(tokens, open, close)),
        body_units(tokens, open, close).len() == close - open - 1,
{
    let body = body_units(tokens, open, close);
    assert forall|i: int| 0 <= i < body.len() implies (#[trigger] body[i]).is_arith() by {
        assert(tokens[open + 1 + i].is_arith());
    }
}

/// Rounds do the same to states with the same data.
pub proof fn lemma_rounds_same_data(
    code: Seq<Instruction>,
    a: MachineState,
    b: MachineState,
    n: nat,
)
    requires
        all_arith(code),
        same_data(a, b),
    ensures
        same_data(rounds(code, a, n), rounds(code, b, n)),
    decreases n,
{
    if n > 0 {
        lemma_rounds_same_data(code, a, b, (n - 1) as nat);
        lemma_perform_same_data(
            code,
            rounds(code, a, (n - 1) as nat),
            rounds(code, b, (n - 1) as nat),
        );
    }
}

/// As long as the cell is not zero when it is tested, the source goes round
/// the loop: after `n` rounds it is at the `n`-th test, and has taken one
/// step for each token of the body and one for a bracket in each round.
pub proof fn lemma_source_rounds(tokens: Seq<Token>, a: MachineState, close: int, n: nat)
    requires
        a.wf(),
        plain_body(tokens, a.pc as int, close),
        forall|j: nat|
            j < n ==> (#[trigger] rounds(body_units(tokens, a.pc as int, close), a, j)).cell()
                != 0,
    ensures
        run_source(tokens, a, n * (close - a.pc) as nat) == (
            at_test(tokens, a, close, n),
            paused(),
        ),
        at_test(tokens, a, close, n).wf(),
    decreases n,
{
    let open = a.pc as int;
    let width = (close - open) as nat;
    let body = body_units(tokens, open, close);
    lemma_body_units(tokens, open, close);
    lemma_rounds_wf(body, a, n);
    if n == 0 {
        assert(n * width == 0) by (nonlinear_arith)
            requires
                n == 0,
        ;
    } else {
        let m = (n - 1) as nat;
        lemma_source_rounds(tokens, a, close, m);
        lemma_rounds_wf(body, a, m);
        assert(n * width == m * width + 1 + (width - 1)) by (nonlinear_arith)
            requires
                n == m + 1,
                width >= 1,
        ;
        let test = at_test(tokens, a, close, m);
        assert(rounds(body, a, m).cell() != 0);
        assert(test.cell() != 0);
        // One step takes the source from the test to the start of the body.
        lemma_open_is_unique(tokens, matching_open(tokens, close), open, close);
        let entered = interpret(tokens, test)->Some_0;
        assert(entered.pc == open + 1);
        assert(same_data(entered, rounds(body, a, m)));
        assert(run_source(tokens, test, 1) == run_source(tokens, entered, 0));
        lemma_source_straight(tokens, entered, (width - 1) as nat);
        assert(tokens.subrange(entered.pc as int, entered.pc as int + (width - 1))
            =~= tokens.subrange(open + 1, close));
        lemma_perform_same_data(body, entered, rounds(body, a, m));
        let after = perform(body, entered);
        assert(after == at_test(tokens, a, close, n));
        lemma_run_source_split(tokens, test, 1, (width - 1) as nat);
        lemma_run_source_split(tokens, a, m * width, (1 + (width - 1)) as nat);
    }
}

/// Where the cell is zero at the `n`-th test and was not before, the source
/// leaves the loop with one more step, and goes on behind the `]`.
pub proof fn lemma_source_leaves(tokens: Seq<Token>, a: MachineState, close: int, n: nat)
    requires
        a.wf(),
        plain_body(tokens, a.pc as int, close),
        loop_stops_after(body_units(tokens, a.pc as int, close), a, n),
    ensures
        ({
            let left = MachineState {
                pc: (close + 1) as nat,
                ..rounds(body_units(tokens, a.pc as int, close), a, n)
            };
            &&& left.wf()
            &&& run_source(tokens, a, n * (close - a.pc) as nat + 1) == run_source(tokens, left, 0)
        }),
{
    let open = a.pc as int;
    let width = (close - open) as nat;
    let body = body_units(tokens, open, close);
    lemma_source_rounds(tokens, a, close, n);
    lemma_rounds_wf(body, a, n);
    let test = at_test(tokens, a, close, n);
    assert(test.cell() == 0);
    lemma_close_is_unique(tokens, open, matching_close(tokens, open), close);
    let left = interpret(tokens, test)->Some_0;
    assert(run_source(tokens, test, 1) == run_source(tokens, left, 0));
    lemma_run_source_split(tokens, a, n * width, 1);
}

/// The first test within `limit` rounds at which the cell is zero, if there
/// is one.
pub open spec fn stop_within(body: Seq<Instruction>, s: MachineState, limit: nat) -> Option<nat>
    decreases limit,
{
    if limit == 0 {
        if s.cell() == 0 {
            Some(0nat)
        } else {
            None
        }
    } else {
        match stop_within(body, s, (limit - 1) as nat) {
            Some(n) => Some(n),
            None => if rounds(body, s, limit).cell() == 0 {
                Some(limit)
            } else {
                None
            },
        }
    }
}

/// The search for the first zero finds the round after which the loop stops,
/// or there is none within the limit.
pub proof fn lemma_stop_within(body: Seq<Instruction>, s: MachineState, limit: nat)
    ensures
        match stop_within(body, s, limit) {
            Some(n) => n <= limit && loop_stops_after(body, s, n),
            None => forall|j: nat| j <= limit ==> (#[trigger] rounds(body, s, j)).cell() != 0,
        },
    decreases limit,
{
    if limit > 0 {
        lemma_stop_within(body, s, (limit - 1) as nat);
    }
}

/// A source that ends after it has entered a loop has left the loop: there
/// is a round after which the loop stops. Returns that round.
pub proof fn lemma_source_must_leave(
    tokens: Seq<Token>,
    a: MachineState,
    close: int,
    budget: nat,
) -> (n: nat)
    requires
        a.wf(),
        plain_body(tokens, a.pc as int, close),
        run_source(tokens, a, budget).1 != paused(),
    ensures
        loop_stops_after(body_units(tokens, a.pc as int, close), a, n),
{
    let body = body_units(tokens, a.pc as int, close);
    let width = (close - a.pc) as nat;
    lemma_stop_within(body, a, budget);
    if stop_within(body, a, budget) is None {
        lemma_source_rounds(tokens, a, close, budget + 1);
        assert((budget + 1) * width >= budget) by (nonlinear_arith)
            requires
                width >= 1,
        ;
        lemma_run_source_is_final(tokens, a, budget, (budget + 1) * width);
    }
    stop_within(body, a, budget)->Some_0
}

/// The body that the compiler holds when it fuses a loop does in every round
/// what the tokens of the body do.
pub proof fn lemma_fused_rounds(
    tokens: Seq<Token>,
    open: int,
    close: int,
    s: MachineState,
    n: nat,
    fuse: bool,
)
    requires
        balanced(tokens),
        tokens.len() <= usize::MAX,
        is_pair(tokens, open, close),
        fuses_at(tokens, close, fuse),
        s.wf(),
    ensures
        same_data(
            rounds(open_body(emitted(tokens, close, fuse)), s, n),
            rounds(body_units(tokens, open, close), s, n),
        ),
    decreases n,
{
    if n > 0 {
        let m = (n - 1) as nat;
        let body = open_body(emitted(tokens, close, fuse));
        let source = body_units(tokens, open, close);
        lemma_fused_rounds(tokens, open, close, s, m, fuse);
        lemma_rounds_wf(source, s, m);
        lemma_fused_addresses(tokens, open, close, rounds(source, s, m), fuse);
        lemma_perform_same_data(body, rounds(body, s, m), rounds(source, s, m));
    }
}

/// The body that the compiler holds when it fuses a loop stops after the
/// same number of rounds as the tokens of the body.
pub proof fn lemma_fused_stops(
    tokens: Seq<Token>,
    open: int,
    close: int,
    s: MachineState,
    n: nat,
    fuse: bool,
)
    requires
        balanced(tokens),
        tokens.len() <= usize::MAX,
        is_pair(tokens, open, close),
        fuses_at(tokens, close, fuse),
        s.wf(),
    ensures
        loop_stops_after(open_body(emitted(tokens, close, fuse)), s, n) == loop_stops_after(
            body_units(tokens, open, close),
            s,
            n,
        ),
{
    let body = open_body(emitted(tokens, close, fuse));
    let source = body_units(tokens, open, close);
    lemma_fused_rounds(tokens, open, close, s, n, fuse);
    assert forall|j: nat| j < n implies (#[trigger] rounds(body, s, j)).cell() == rounds(
        source,
        s,
        j,
    ).cell() by {
        lemma_fused_rounds(tokens, open, close, s, j, fuse);
    }
    if loop_stops_after(body, s, n) {
        assert forall|j: nat| j < n implies (#[trigger] rounds(source, s, j)).cell() != 0 by {
            assert(rounds(body, s, j).cell() != 0);
        }
    }
    if loop_stops_after(source, s, n) {
        assert forall|j: nat| j < n implies (#[trigger] rounds(body, s, j)).cell() != 0 by {
            assert(rounds(source, s, j).cell() != 0);
        }
    }
}

/// A loop stops after the same number of rounds from states with the same
/// data.
pub proof fn lemma_stops_same_data(
    code: Seq<Instruction>,
    a: MachineState,
    b: MachineState,
    n: nat,
)
    requires
        all_arith(code),
        same_data(a, b),
    ensures
        loop_stops_after(code, a, n) == loop_stops_after(code, b, n),
{
    lemma_rounds_same_data(code, a, b, n);
    assert forall|j: nat| j < n implies (#[trigger] rounds(code, a, j)).cell() == rounds(
        code,
        b,
        j,
    ).cell() by {
        lemma_rounds_same_data(code, a, b, j);
    }
    if loop_stops_after(code, a, n) {
        assert forall|j: nat| j < n implies (#[trigger] rounds(code, b, j)).cell() != 0 by {
            assert(rounds(code, a, j).cell() != 0);
        }
    }
    if loop_stops_after(code, b, n) {
        assert forall|j: nat| j < n implies (#[trigger] rounds(code, a, j)).cell() != 0 by {
            assert(rounds(code, b, j).cell() != 0);
        }
    }
}

} // verus!
