//! Where the tokens of a source end up in its program: the address of each
//! bracket and of each input or output token, the instruction that stands
//! for a fused loop, and the instructions that stand for each run of cell
//! changes and pointer moves.

use vstd::prelude::*;
use crate::compiler::{
    CompileError,
    Emitter,
    balanced,
    compiled,
    depth,
    emit,
    emit_all,
    emitter_wf,
    idiom,
    lemma_emit_all,
    never_negative,
};
use crate::instruction::Instruction;
use crate::machine::MachineState;
use crate::source::{
    is_pair,
    lemma_close_is_unique,
    lemma_depth_step,
    lemma_open_has_close,
    lemma_open_is_unique,
    matching_close,
    matching_open,
};
use crate::straight::{
    all_arith,
    lemma_coalesce_above,
    lemma_coalesce_performs,
    perform,
    same_data,
    unit,
    units,
};
use crate::token::Token;

verus! {

/// The compiler's state after the first `k` tokens.
pub open spec fn emitted(tokens: Seq<Token>, k: int, fuse: bool) -> Emitter {
    emit_all(tokens.take(k), fuse)->Ok_0
}

/// The number of instructions that the compiler holds after the first `k`
/// tokens: the address at which the instruction of token `k` is going to
/// stand.
pub open spec fn address(tokens: Seq<Token>, k: int, fuse: bool) -> nat {
    emitted(tokens, k, fuse).buffer.len()
}

/// A prefix of a source in which no prefix goes negative has none either.
pub proof fn lemma_prefix_never_negative(tokens: Seq<Token>, k: int)
    requires
        never_negative(tokens),
        0 <= k <= tokens.len(),
    ensures
        never_negative(tokens.take(k)),
{
    assert forall|j: int| 0 <= j <= k implies depth(#[trigger] tokens.take(k).take(j)) >= 0 by {
        assert(tokens.take(k).take(j) =~= tokens.take(j));
    }
}

/// The compiler gets through every prefix of a source in which no prefix
/// goes negative, and its states are linked by the emission rules.
pub proof fn lemma_emitted_step(tokens: Seq<Token>, k: int, fuse: bool)
    requires
        never_negative(tokens),
        tokens.len() <= usize::MAX,
        0 <= k < tokens.len(),
    ensures
        emit_all(tokens.take(k), fuse) is Ok,
        emit(emitted(tokens, k, fuse), tokens[k], fuse) == Ok::<Emitter, CompileError>(
            emitted(tokens, k + 1, fuse),
        ),
        emitter_wf(emitted(tokens, k, fuse)),
        emitter_wf(emitted(tokens, k + 1, fuse)),
        emitted(tokens, k, fuse).open_stack.len() == depth(tokens.take(k)),
        emitted(tokens, k + 1, fuse).open_stack.len() == depth(tokens.take(k + 1)),
        address(tokens, k, fuse) <= k,
{
    lemma_prefix_never_negative(tokens, k);
    lemma_prefix_never_negative(tokens, k + 1);
    lemma_emit_all(tokens.take(k), fuse);
    lemma_emit_all(tokens.take(k + 1), fuse);
    assert(tokens.take(k + 1).drop_last() =~= tokens.take(k));
}

/// The compiler's state after the whole of a balanced source is its program.
pub proof fn lemma_emitted_whole(tokens: Seq<Token>, fuse: bool)
    requires
        balanced(tokens),
        tokens.len() <= usize::MAX,
    ensures
        compiled(tokens, fuse) == Ok::<Seq<Instruction>, CompileError>(
            emitted(tokens, tokens.len() as int, fuse).buffer,
        ),
        emitter_wf(emitted(tokens, tokens.len() as int, fuse)),
{
    assert(tokens.take(tokens.len() as int) =~= tokens);
    lemma_emit_all(tokens, fuse);
}

/// Whether a run of coalesced tokens can begin at `k`: at the start of the
/// source and behind every token that is not coalesced.
pub open spec fn boundary(tokens: Seq<Token>, k: int) -> bool {
    k == 0 || !tokens[k - 1].is_arith()
}

/// Whether the first `n` instructions of `before` are still there in `after`,
/// but for placeholders that got their target.
pub open spec fn settled(before: Seq<Instruction>, after: Seq<Instruction>, n: nat) -> bool {
    &&& n <= before.len()
    &&& n <= after.len()
    &&& forall|a: int|
        0 <= a < n ==> #[trigger] after[a] == before[a] || (before[a] == Instruction::BranchZero(0)
            && after[a] is BranchZero)
}

/// The body of the innermost open loop, as the compiler holds it.
pub open spec fn open_body(e: Emitter) -> Seq<Instruction> {
    e.buffer.subrange(e.open_stack.last() + 1, e.buffer.len() as int)
}

/// Whether the compiler fuses the loop that the token at `close` closes.
pub open spec fn fuses_at(tokens: Seq<Token>, close: int, fuse: bool) -> bool {
    &&& fuse
    &&& 0 <= close < tokens.len()
    &&& tokens[close] == Token::LoopClose
    &&& idiom(open_body(emitted(tokens, close, fuse))) is Some
}

/// The body of an idiom holds cell changes and pointer moves only, and the
/// instruction that stands for the loop is none of these, nor a branch.
pub proof fn lemma_idiom_shape(body: Seq<Instruction>)
    requires
        idiom(body) is Some,
    ensures
        all_arith(body),
        (idiom(body)->Some_0).is_fused(),
{
}

/// Behind a token that is not coalesced stands its own instruction, or the
/// one instruction of the loop that it closes. It is no cell change or
/// pointer move, and what stood below it stands there still.
pub proof fn lemma_boundary_instruction(tokens: Seq<Token>, k: int, fuse: bool)
    requires
        never_negative(tokens),
        tokens.len() <= usize::MAX,
        0 < k <= tokens.len(),
        !tokens[k - 1].is_arith(),
    ensures
        address(tokens, k, fuse) > 0,
        !emitted(tokens, k, fuse).buffer.last().is_arith(),
        emitted(tokens, k, fuse).buffer.last() == Instruction::BranchZero(0) <==> tokens[k - 1]
            == Token::LoopOpen,
        ({
            let e = emitted(tokens, k - 1, fuse);
            let r = emitted(tokens, k, fuse);
            let open = e.open_stack.last();
            if fuses_at(tokens, k - 1, fuse) {
                &&& r.buffer.len() == open + 1
                &&& r.buffer.last() == idiom(open_body(e))->Some_0
                &&& forall|a: int| 0 <= a < open ==> #[trigger] r.buffer[a] == e.buffer[a]
            } else {
                &&& r.buffer.len() == e.buffer.len() + 1
                &&& r.buffer.last() == match tokens[k - 1] {
                    Token::LoopOpen => Instruction::BranchZero(0),
                    Token::LoopClose => Instruction::BranchNotZero(open),
                    Token::Output => Instruction::Output,
                    _ => Instruction::Input,
                }
                &&& forall|a: int|
                    0 <= a < e.buffer.len() ==> #[trigger] r.buffer[a] == e.buffer[a] || (tokens[k
                        - 1] == Token::LoopClose && a == open && r.buffer[a]
                        == Instruction::BranchZero(e.buffer.len() as usize))
            }
        }),
{
    lemma_emitted_step(tokens, k - 1, fuse);
    let e = emitted(tokens, k - 1, fuse);
    if tokens[k - 1] == Token::LoopClose {
        assert(e.open_stack[e.open_stack.len() - 1] < e.buffer.len());
        if fuses_at(tokens, k - 1, fuse) {
            lemma_idiom_shape(open_body(e));
        }
    }
}

// ---------------------------------------------------------------------------
// The loops that are open
// ---------------------------------------------------------------------------

/// The indices of the `[` tokens whose loops are still open behind a token
/// sequence, innermost last.
pub open spec fn open_tokens(tokens: Seq<Token>) -> Seq<int>
    decreases tokens.len(),
{
    if tokens.len() == 0 {
        Seq::empty()
    } else {
        let front = open_tokens(tokens.drop_last());
        match tokens.last() {
            Token::LoopOpen => front.push(tokens.len() - 1),
            Token::LoopClose => front.drop_last(),
            _ => front,
        }
    }
}

/// Whether the `[` at `open` is the one that is open at nesting level `level`
/// behind the first `k` tokens.
pub open spec fn open_at(tokens: Seq<Token>, k: int, level: int, open: int) -> bool {
    &&& 0 <= open < k
    &&& tokens[open] == Token::LoopOpen
    &&& depth(tokens.take(open)) == level
    &&& forall|x: int| open < x <= k ==> depth(#[trigger] tokens.take(x)) > level
}

/// At each level of nesting at most one `[` is open.
pub proof fn lemma_open_at_is_unique(tokens: Seq<Token>, k: int, level: int, a: int, b: int)
    requires
        open_at(tokens, k, level, a),
        open_at(tokens, k, level, b),
    ensures
        a == b,
{
    if a < b {
        assert(depth(tokens.take(b)) > level);
    } else if b < a {
        assert(depth(tokens.take(a)) > level);
    }
}

/// There is one open `[` for each level of nesting, and the compiler's stack
/// holds their addresses.
pub proof fn lemma_open_tokens(tokens: Seq<Token>, k: int, fuse: bool)
    requires
        never_negative(tokens),
        tokens.len() <= usize::MAX,
        0 <= k <= tokens.len(),
    ensures
        emit_all(tokens.take(k), fuse) is Ok,
        emitter_wf(emitted(tokens, k, fuse)),
        open_tokens(tokens.take(k)).len() == depth(tokens.take(k)),
        emitted(tokens, k, fuse).open_stack.len() == depth(tokens.take(k)),
        forall|level: int|
            0 <= level < depth(tokens.take(k)) ==> open_at(
                tokens,
                k,
                level,
                #[trigger] open_tokens(tokens.take(k))[level],
            ),
        forall|level: int|
            0 <= level < depth(tokens.take(k)) ==> #[trigger] emitted(
                tokens,
                k,
                fuse,
            ).open_stack[level] == address(tokens, open_tokens(tokens.take(k))[level], fuse),
    decreases k,
{
    lemma_prefix_never_negative(tokens, k);
    lemma_emit_all(tokens.take(k), fuse);
    if k > 0 {
        lemma_open_tokens(tokens, k - 1, fuse);
        lemma_emitted_step(tokens, k - 1, fuse);
        lemma_depth_step(tokens, k - 1);
        assert(tokens.take(k).drop_last() =~= tokens.take(k - 1));
        let before = open_tokens(tokens.take(k - 1));
        let now = open_tokens(tokens.take(k));
        assert forall|level: int| 0 <= level < depth(tokens.take(k)) implies open_at(
            tokens,
            k,
            level,
            #[trigger] now[level],
        ) by {
            if level < before.len() {
                assert(open_at(tokens, k - 1, level, before[level]));
                assert(now[level] == before[level]);
                assert forall|x: int| now[level] < x <= k implies depth(#[trigger] tokens.take(x))
                    > level by {
                    if x < k {
                    }
                }
            } else {
                assert(now[level] == k - 1);
            }
        }
        assert forall|level: int| 0 <= level < depth(tokens.take(k)) implies #[trigger] emitted(
            tokens,
            k,
            fuse,
        ).open_stack[level] == address(tokens, now[level], fuse) by {
            if level < before.len() {
                assert(emitted(tokens, k - 1, fuse).open_stack[level] == address(
                    tokens,
                    before[level],
                    fuse,
                ));
            }
        }
    }
}

/// In a balanced source every `]` has its `[`.
pub proof fn lemma_close_has_open(tokens: Seq<Token>, close: int)
    requires
        balanced(tokens),
        tokens.len() <= usize::MAX,
        0 <= close < tokens.len(),
        tokens[close] == Token::LoopClose,
    ensures
        is_pair(tokens, matching_open(tokens, close), close),
{
    lemma_open_tokens(tokens, close, false);
    lemma_depth_step(tokens, close);
    assert(depth(tokens.take(close + 1)) >= 0);
    let innermost = depth(tokens.take(close)) - 1;
    let found = open_tokens(tokens.take(close))[innermost];
    assert(open_at(tokens, close, innermost, found));
    assert(is_pair(tokens, found, close));
}

/// While a loop is open, the compiler's stack holds the address of its `[`,
/// where the placeholder stands. The addresses of the loops nested in it are
/// greater.
pub proof fn lemma_still_open(tokens: Seq<Token>, open: int, close: int, k: int, fuse: bool)
    requires
        balanced(tokens),
        tokens.len() <= usize::MAX,
        is_pair(tokens, open, close),
        open < k <= close,
    ensures
        ({
            let e = emitted(tokens, k, fuse);
            let level = depth(tokens.take(open));
            &&& 0 <= level < e.open_stack.len()
            &&& e.open_stack[level] == address(tokens, open, fuse)
            &&& address(tokens, open, fuse) < e.buffer.len()
            &&& e.buffer[address(tokens, open, fuse) as int] == Instruction::BranchZero(0)
            &&& k == close ==> level == e.open_stack.len() - 1
            &&& tokens[k - 1] == Token::LoopOpen && open < k - 1 ==> address(tokens, open, fuse)
                < address(tokens, k - 1, fuse)
        }),
{
    let level = depth(tokens.take(open));
    assert(tokens.take(0) =~= Seq::<Token>::empty());
    assert(level >= 0);
    lemma_open_tokens(tokens, k, fuse);
    lemma_depth_step(tokens, close);
    assert(depth(tokens.take(k)) > level);
    let found = open_tokens(tokens.take(k))[level];
    assert(open_at(tokens, k, level, found));
    assert(open_at(tokens, k, level, open));
    lemma_open_at_is_unique(tokens, k, level, found, open);
    let e = emitted(tokens, k, fuse);
    assert(e.open_stack[level] == address(tokens, open, fuse));
    if tokens[k - 1] == Token::LoopOpen && open < k - 1 {
        lemma_depth_step(tokens, k - 1);
        let inner = depth(tokens.take(k - 1));
        assert(inner > level);
        let top = open_tokens(tokens.take(k))[inner];
        assert(open_at(tokens, k, inner, top));
        assert(open_at(tokens, k, inner, k - 1));
        lemma_open_at_is_unique(tokens, k, inner, top, k - 1);
        assert(e.open_stack[inner] == address(tokens, k - 1, fuse));
        assert(e.open_stack[level] < e.open_stack[inner]);
    }
}

/// A loop that is nested in another one is closed before it.
pub proof fn lemma_nested(tokens: Seq<Token>, open: int, close: int, inner: int, inner_close: int)
    requires
        is_pair(tokens, open, close),
        is_pair(tokens, inner, inner_close),
        open < inner < close,
    ensures
        inner_close < close,
{
    assert(depth(tokens.take(inner)) > depth(tokens.take(open)));
    if inner_close > close {
        assert(depth(tokens.take(close + 1)) > depth(tokens.take(inner)));
    }
}

/// The depth does not change over coalesced tokens.
pub proof fn lemma_depth_over_run(tokens: Seq<Token>, from: int, to: int)
    requires
        0 <= from <= to <= tokens.len(),
        forall|i: int| from <= i < to ==> (#[trigger] tokens[i]).is_arith(),
    ensures
        depth(tokens.take(to)) == depth(tokens.take(from)),
    decreases to - from,
{
    if from < to {
        lemma_depth_over_run(tokens, from, to - 1);
        lemma_depth_step(tokens, to - 1);
        assert(tokens[to - 1].is_arith());
    }
}

// ---------------------------------------------------------------------------
// What stays where it is
// ---------------------------------------------------------------------------

/// Whether no loop that the token in front of `k` opens is fused before the
/// token at `later`.
pub open spec fn holds_until(tokens: Seq<Token>, k: int, later: int, fuse: bool) -> bool {
    forall|m: int|
        k <= m < later && #[trigger] fuses_at(tokens, m, fuse) ==> !is_pair(tokens, k - 1, m)
}

/// Whether the boundary at `k` is there to stay: the token in front of it
/// does not open a loop that is fused.
pub open spec fn firm(tokens: Seq<Token>, k: int, fuse: bool) -> bool {
    &&& boundary(tokens, k)
    &&& k > 0 && tokens[k - 1] == Token::LoopOpen ==> !fuses_at(
        tokens,
        matching_close(tokens, k - 1),
        fuse,
    )
}

/// A firm boundary holds to the end.
pub proof fn lemma_firm_holds(tokens: Seq<Token>, k: int, later: int, fuse: bool)
    requires
        firm(tokens, k, fuse),
    ensures
        holds_until(tokens, k, later, fuse),
{
    assert forall|m: int| k <= m < later && #[trigger] fuses_at(tokens, m, fuse) implies !is_pair(
        tokens,
        k - 1,
        m,
    ) by {
        if is_pair(tokens, k - 1, m) {
            lemma_close_is_unique(tokens, k - 1, m, matching_close(tokens, k - 1));
        }
    }
}

/// The boundary behind a `[` holds until the loop is closed.
pub proof fn lemma_inside_holds(tokens: Seq<Token>, open: int, close: int, later: int, fuse: bool)
    requires
        is_pair(tokens, open, close),
        later <= close,
    ensures
        holds_until(tokens, open + 1, later, fuse),
{
    assert forall|m: int|
        open + 1 <= m < later && #[trigger] fuses_at(tokens, m, fuse) implies !is_pair(
        tokens,
        open,
        m,
    ) by {
        if is_pair(tokens, open, m) {
            lemma_close_is_unique(tokens, open, m, close);
        }
    }
}

/// The `]` at `close` finds the address of its `[` on top of the compiler's
/// stack.
pub proof fn lemma_innermost(tokens: Seq<Token>, close: int, fuse: bool)
    requires
        balanced(tokens),
        tokens.len() <= usize::MAX,
        0 <= close < tokens.len(),
        tokens[close] == Token::LoopClose,
    ensures
        ({
            let open = matching_open(tokens, close);
            let e = emitted(tokens, close, fuse);
            &&& is_pair(tokens, open, close)
            &&& e.open_stack.len() > 0
            &&& e.open_stack.last() == address(tokens, open, fuse)
            &&& address(tokens, open, fuse) < e.buffer.len()
            &&& e.buffer[address(tokens, open, fuse) as int] == Instruction::BranchZero(0)
            &&& address(tokens, open + 1, fuse) == address(tokens, open, fuse) + 1
        }),
{
    lemma_close_has_open(tokens, close);
    let open = matching_open(tokens, close);
    lemma_still_open(tokens, open, close, close, fuse);
    lemma_boundary_instruction(tokens, open + 1, fuse);
}

/// A loop is not fused while its body holds the instruction of a token that
/// is not coalesced.
proof fn lemma_body_holds_barrier(tokens: Seq<Token>, k: int, close: int, fuse: bool)
    requires
        balanced(tokens),
        tokens.len() <= usize::MAX,
        0 < k <= close < tokens.len(),
        !tokens[k - 1].is_arith(),
        tokens[close] == Token::LoopClose,
        matching_open(tokens, close) < k - 1,
        settled(
            emitted(tokens, k, fuse).buffer,
            emitted(tokens, close, fuse).buffer,
            address(tokens, k, fuse),
        ),
    ensures
        !fuses_at(tokens, close, fuse),
{
    let open = matching_open(tokens, close);
    let e = emitted(tokens, close, fuse);
    let n = address(tokens, k, fuse) as int;
    lemma_innermost(tokens, close, fuse);
    lemma_boundary_instruction(tokens, k, fuse);
    lemma_still_open(tokens, open, close, k, fuse);
    let at = address(tokens, open, fuse) as int;
    assert(!e.buffer[n - 1].is_arith());
    if at == n - 1 {
        // The instruction in front of the boundary would be the placeholder
        // of the loop, and the token in front of it its `[`.
        assert(emitted(tokens, k, fuse).buffer[n - 1] == Instruction::BranchZero(0));
        assert(tokens[k - 1] == Token::LoopOpen);
        assert(address(tokens, k - 1, fuse) == n - 1);
    }
    assert(at < n - 1);
    assert(open_body(e)[n - 1 - (at + 1)] == e.buffer[n - 1]);
    if idiom(open_body(e)) is Some {
        lemma_idiom_shape(open_body(e));
    }
}

/// What stands below the address of a boundary stays there while the
/// boundary holds, but for placeholders that get their target.
pub proof fn lemma_settled(tokens: Seq<Token>, k: int, later: int, fuse: bool)
    requires
        balanced(tokens),
        tokens.len() <= usize::MAX,
        0 <= k <= later <= tokens.len(),
        boundary(tokens, k),
        holds_until(tokens, k, later, fuse),
    ensures
        settled(
            emitted(tokens, k, fuse).buffer,
            emitted(tokens, later, fuse).buffer,
            address(tokens, k, fuse),
        ),
    decreases later - k,
{
    if later > k {
        let m = later - 1;
        assert(holds_until(tokens, k, m, fuse));
        lemma_settled(tokens, k, m, fuse);
        lemma_emitted_step(tokens, m, fuse);
        let before = emitted(tokens, k, fuse).buffer;
        let e = emitted(tokens, m, fuse);
        let r = emitted(tokens, later, fuse);
        let n = address(tokens, k, fuse);
        let t = tokens[m];
        if k > 0 {
            lemma_boundary_instruction(tokens, k, fuse);
            assert(!e.buffer[n - 1].is_arith());
        }
        if t.is_arith() {
            // A merge touches the last instruction only, which lies above `n`.
            assert(r.buffer.len() >= n);
            assert forall|a: int| 0 <= a < n implies #[trigger] r.buffer[a] == e.buffer[a] by {}
        } else if t == Token::LoopClose {
            lemma_innermost(tokens, m, fuse);
            lemma_boundary_instruction(tokens, later, fuse);
            let open = matching_open(tokens, m);
            let at = address(tokens, open, fuse);
            if fuses_at(tokens, m, fuse) {
                if at < n {
                    // The loop would have to begin below the boundary and
                    // hold the instruction in front of it.
                    if open < k - 1 {
                        lemma_body_holds_barrier(tokens, k, m, fuse);
                    } else if open == k - 1 {
                        assert(is_pair(tokens, k - 1, m));
                    } else {
                        assert(holds_until(tokens, k, open, fuse));
                        lemma_settled(tokens, k, open, fuse);
                    }
                }
                assert(at >= n);
                assert forall|a: int| 0 <= a < n implies #[trigger] r.buffer[a]
                    == e.buffer[a] by {}
            } else {
                assert forall|a: int| 0 <= a < n implies #[trigger] r.buffer[a] == before[a] || (
                before[a] == Instruction::BranchZero(0) && r.buffer[a] is BranchZero) by {
                    if a != at {
                        assert(r.buffer[a] == e.buffer[a]);
                    }
                }
            }
        } else {
            assert forall|a: int| 0 <= a < n implies #[trigger] r.buffer[a] == e.buffer[a] by {}
        }
    }
}

// ---------------------------------------------------------------------------
// The addresses of brackets, of input and of output
// ---------------------------------------------------------------------------

/// The two branches of a loop that is not fused carry each other's address.
pub proof fn lemma_pair_addresses(tokens: Seq<Token>, open: int, close: int, fuse: bool)
    requires
        balanced(tokens),
        tokens.len() <= usize::MAX,
        is_pair(tokens, open, close),
        !fuses_at(tokens, close, fuse),
    ensures
        ({
            let program = compiled(tokens, fuse)->Ok_0;
            &&& address(tokens, open, fuse) < address(tokens, close, fuse) < program.len()
            &&& program[address(tokens, open, fuse) as int] == Instruction::BranchZero(
                address(tokens, close, fuse) as usize,
            )
            &&& program[address(tokens, close, fuse) as int] == Instruction::BranchNotZero(
                address(tokens, open, fuse) as usize,
            )
            &&& address(tokens, open + 1, fuse) == address(tokens, open, fuse) + 1
            &&& address(tokens, close + 1, fuse) == address(tokens, close, fuse) + 1
        }),
{
    lemma_emitted_whole(tokens, fuse);
    lemma_innermost(tokens, close, fuse);
    lemma_open_is_unique(tokens, matching_open(tokens, close), open, close);
    lemma_emitted_step(tokens, close, fuse);
    lemma_boundary_instruction(tokens, close + 1, fuse);
    assert(holds_until(tokens, close + 1, tokens.len() as int, fuse));
    lemma_settled(tokens, close + 1, tokens.len() as int, fuse);
    let after = emitted(tokens, close + 1, fuse).buffer;
    assert(after[address(tokens, open, fuse) as int] == Instruction::BranchZero(
        address(tokens, close, fuse) as usize,
    ));
    assert(after[address(tokens, close, fuse) as int] == after.last());
}

/// An input or output token has its instruction at its address.
pub proof fn lemma_io_address(tokens: Seq<Token>, k: int, fuse: bool)
    requires
        balanced(tokens),
        tokens.len() <= usize::MAX,
        0 <= k < tokens.len(),
        tokens[k] == Token::Output || tokens[k] == Token::Input,
    ensures
        ({
            let program = compiled(tokens, fuse)->Ok_0;
            &&& address(tokens, k, fuse) < program.len()
            &&& program[address(tokens, k, fuse) as int] == if tokens[k] == Token::Output {
                Instruction::Output
            } else {
                Instruction::Input
            }
            &&& address(tokens, k + 1, fuse) == address(tokens, k, fuse) + 1
        }),
{
    lemma_emitted_whole(tokens, fuse);
    lemma_boundary_instruction(tokens, k + 1, fuse);
    assert(holds_until(tokens, k + 1, tokens.len() as int, fuse));
    lemma_settled(tokens, k + 1, tokens.len() as int, fuse);
    let after = emitted(tokens, k + 1, fuse).buffer;
    assert(after[address(tokens, k, fuse) as int] == after.last());
}

/// The end of the run of coalesced tokens that begins at `from`: the index of
/// the next token that is not coalesced, or the length of the source.
pub open spec fn run_end(tokens: Seq<Token>, from: int) -> int
    decreases tokens.len() - from,
{
    if from < 0 || from >= tokens.len() {
        tokens.len() as int
    } else if !tokens[from].is_arith() {
        from
    } else {
        run_end(tokens, from + 1)
    }
}

/// The run that begins at `from` holds coalesced tokens only and cannot be
/// made longer.
pub proof fn lemma_run_end(tokens: Seq<Token>, from: int)
    requires
        0 <= from <= tokens.len(),
    ensures
        from <= run_end(tokens, from) <= tokens.len(),
        forall|i: int| from <= i < run_end(tokens, from) ==> (#[trigger] tokens[i]).is_arith(),
        run_end(tokens, from) == tokens.len() || !tokens[run_end(tokens, from)].is_arith(),
    decreases tokens.len() - from,
{
    if from < tokens.len() && tokens[from].is_arith() {
        lemma_run_end(tokens, from + 1);
    }
}

// ---------------------------------------------------------------------------
// Runs of coalesced tokens
// ---------------------------------------------------------------------------

/// While the compiler works through a run of coalesced tokens, the
/// instructions that it holds above the address of the run's start are cell
/// changes and pointer moves that do to the data what the tokens so far do.
pub proof fn lemma_run_in_progress(
    tokens: Seq<Token>,
    start: int,
    k: int,
    s: MachineState,
    fuse: bool,
)
    requires
        balanced(tokens),
        tokens.len() <= usize::MAX,
        0 <= start <= k <= tokens.len(),
        boundary(tokens, start),
        forall|i: int| start <= i < k ==> (#[trigger] tokens[i]).is_arith(),
        s.wf(),
    ensures
        address(tokens, start, fuse) <= address(tokens, k, fuse),
        all_arith(emitted(tokens, k, fuse).buffer.skip(address(tokens, start, fuse) as int)),
        same_data(
            perform(emitted(tokens, k, fuse).buffer.skip(address(tokens, start, fuse) as int), s),
            perform(units(tokens.subrange(start, k)), s),
        ),
        settled(
            emitted(tokens, start, fuse).buffer,
            emitted(tokens, k, fuse).buffer,
            address(tokens, start, fuse),
        ),
    decreases k - start,
{
    let n = address(tokens, start, fuse) as int;
    assert(holds_until(tokens, start, k, fuse)) by {
        assert forall|m: int| start <= m < k implies !#[trigger] fuses_at(tokens, m, fuse) by {
            assert(tokens[m].is_arith());
        }
    }
    lemma_settled(tokens, start, k, fuse);
    if k == start {
        assert(emitted(tokens, k, fuse).buffer.skip(n) =~= Seq::<Instruction>::empty());
        assert(units(tokens.subrange(start, k)) =~= Seq::<Instruction>::empty());
    } else {
        lemma_run_in_progress(tokens, start, k - 1, s, fuse);
        lemma_emitted_step(tokens, k - 1, fuse);
        let e = emitted(tokens, k - 1, fuse);
        let t = tokens[k - 1];
        assert(t.is_arith());
        if start > 0 {
            lemma_boundary_instruction(tokens, start, fuse);
            assert(!e.buffer[n - 1].is_arith());
        }
        lemma_coalesce_above(e.buffer, n, t);
        let source = units(tokens.subrange(start, k - 1));
        assert(units(tokens.subrange(start, k)) =~= source.push(unit(t)));
        lemma_coalesce_performs(e.buffer.skip(n), source, unit(t), s);
    }
}

/// The tokens of a fused loop between its brackets are all coalesced.
pub proof fn lemma_fused_body_tokens(tokens: Seq<Token>, open: int, close: int, fuse: bool)
    requires
        balanced(tokens),
        tokens.len() <= usize::MAX,
        is_pair(tokens, open, close),
        fuses_at(tokens, close, fuse),
    ensures
        forall|i: int| open < i < close ==> (#[trigger] tokens[i]).is_arith(),
{
    let end = run_end(tokens, open + 1);
    lemma_run_end(tokens, open + 1);
    if end > close {
        assert(tokens[close].is_arith());
    }
    if end < close {
        lemma_depth_over_run(tokens, open + 1, end);
        lemma_depth_step(tokens, open);
        lemma_depth_step(tokens, end);
        lemma_close_has_open(tokens, close);
        lemma_open_is_unique(tokens, matching_open(tokens, close), open, close);
        // A boundary in the loop that holds until the loop is closed.
        let k: int = match tokens[end] {
            Token::LoopClose => {
                assert forall|x: int| open < x <= end implies depth(#[trigger] tokens.take(x))
                    > depth(tokens.take(open)) by {
                    lemma_depth_over_run(tokens, open + 1, x);
                }
                assert(is_pair(tokens, open, end));
                lemma_close_is_unique(tokens, open, end, close);
                end + 1
            },
            Token::LoopOpen => {
                lemma_open_has_close(tokens, end);
                let inner_close = matching_close(tokens, end);
                lemma_nested(tokens, open, close, end, inner_close);
                if fuses_at(tokens, inner_close, fuse) {
                    assert(holds_until(tokens, inner_close + 1, close, fuse));
                    inner_close + 1
                } else {
                    lemma_firm_holds(tokens, end + 1, close, fuse);
                    end + 1
                }
            },
            _ => {
                assert(holds_until(tokens, end + 1, close, fuse));
                end + 1
            },
        };
        lemma_settled(tokens, k, close, fuse);
        lemma_body_holds_barrier(tokens, k, close, fuse);
    }
}

/// A fused loop has its one instruction at the address of its `[`, and the
/// next token has the next address. The instruction is the one for the body
/// that the compiler holds when it closes the loop, and that body does to the
/// data what the tokens between the brackets do.
pub proof fn lemma_fused_addresses(
    tokens: Seq<Token>,
    open: int,
    close: int,
    s: MachineState,
    fuse: bool,
)
    requires
        balanced(tokens),
        tokens.len() <= usize::MAX,
        is_pair(tokens, open, close),
        fuses_at(tokens, close, fuse),
        s.wf(),
    ensures
        ({
            let program = compiled(tokens, fuse)->Ok_0;
            let body = open_body(emitted(tokens, close, fuse));
            &&& address(tokens, open, fuse) < program.len()
            &&& idiom(body) is Some
            &&& all_arith(body)
            &&& program[address(tokens, open, fuse) as int] == idiom(body)->Some_0
            &&& address(tokens, close + 1, fuse) == address(tokens, open, fuse) + 1
            &&& same_data(perform(body, s), perform(units(tokens.subrange(open + 1, close)), s))
        }),
{
    lemma_emitted_whole(tokens, fuse);
    lemma_innermost(tokens, close, fuse);
    lemma_open_is_unique(tokens, matching_open(tokens, close), open, close);
    lemma_emitted_step(tokens, close, fuse);
    lemma_boundary_instruction(tokens, close + 1, fuse);
    assert(holds_until(tokens, close + 1, tokens.len() as int, fuse));
    lemma_settled(tokens, close + 1, tokens.len() as int, fuse);
    let e = emitted(tokens, close, fuse);
    let body = open_body(e);
    lemma_idiom_shape(body);
    let after = emitted(tokens, close + 1, fuse).buffer;
    assert(after[address(tokens, open, fuse) as int] == after.last());
    lemma_fused_body_tokens(tokens, open, close, fuse);
    lemma_run_in_progress(tokens, open + 1, close, s, fuse);
    assert(body =~= e.buffer.skip(address(tokens, open + 1, fuse) as int));
}

/// A cell change or pointer move that the compiler holds in front of a token
/// that is not coalesced, and that does not close a fused loop, is in the
/// program at the same address.
proof fn lemma_arith_stays(tokens: Seq<Token>, end: int, a: int, fuse: bool)
    requires
        balanced(tokens),
        tokens.len() <= usize::MAX,
        0 <= end < tokens.len(),
        !tokens[end].is_arith(),
        !fuses_at(tokens, end, fuse),
        0 <= a < address(tokens, end, fuse) ==> emitted(tokens, end, fuse).buffer[a].is_arith(),
    ensures
        address(tokens, end, fuse) < (compiled(tokens, fuse)->Ok_0).len(),
        0 <= a < address(tokens, end, fuse) ==> (compiled(tokens, fuse)->Ok_0)[a] == emitted(
            tokens,
            end,
            fuse,
        ).buffer[a],
{
    lemma_emitted_whole(tokens, fuse);
    lemma_emitted_step(tokens, end, fuse);
    lemma_boundary_instruction(tokens, end + 1, fuse);
    let program = compiled(tokens, fuse)->Ok_0;
    let e = emitted(tokens, end, fuse);
    let next = emitted(tokens, end + 1, fuse).buffer;
    if tokens[end] == Token::LoopClose {
        assert(e.buffer[e.open_stack[e.open_stack.len() - 1] as int] == Instruction::BranchZero(
            0,
        ));
    }
    if 0 <= a < e.buffer.len() {
        assert(next[a] == e.buffer[a]);
    }
    if tokens[end] == Token::LoopOpen && fuses_at(tokens, matching_close(tokens, end), fuse) {
        let close = matching_close(tokens, end);
        lemma_open_has_close(tokens, end);
        lemma_inside_holds(tokens, end, close, close, fuse);
        lemma_settled(tokens, end + 1, close, fuse);
        let inside = emitted(tokens, close, fuse).buffer;
        lemma_innermost(tokens, close, fuse);
        lemma_open_is_unique(tokens, matching_open(tokens, close), end, close);
        lemma_boundary_instruction(tokens, close + 1, fuse);
        let behind = emitted(tokens, close + 1, fuse).buffer;
        assert(holds_until(tokens, close + 1, tokens.len() as int, fuse));
        lemma_settled(tokens, close + 1, tokens.len() as int, fuse);
        if 0 <= a < e.buffer.len() {
            assert(inside[a] == next[a]);
            assert(behind[a] == inside[a]);
            assert(program[a] == behind[a]);
        }
    } else {
        if tokens[end] == Token::LoopOpen {
            lemma_firm_holds(tokens, end + 1, tokens.len() as int, fuse);
        } else {
            assert(holds_until(tokens, end + 1, tokens.len() as int, fuse));
        }
        lemma_settled(tokens, end + 1, tokens.len() as int, fuse);
        if 0 <= a < e.buffer.len() {
            assert(program[a] == next[a]);
        }
    }
}

/// A whole run of coalesced tokens, from a boundary to the next token that
/// is not coalesced or to the end of the source, has its instructions in the
/// program between the addresses of its two ends, unless that next token
/// closes a fused loop. They are cell changes and pointer moves, and do to
/// the data what the tokens do.
pub proof fn lemma_run_addresses(
    tokens: Seq<Token>,
    start: int,
    end: int,
    s: MachineState,
    fuse: bool,
)
    requires
        balanced(tokens),
        tokens.len() <= usize::MAX,
        0 <= start <= end <= tokens.len(),
        boundary(tokens, start),
        forall|i: int| start <= i < end ==> (#[trigger] tokens[i]).is_arith(),
        end == tokens.len() || !tokens[end].is_arith(),
        !fuses_at(tokens, end, fuse),
        s.wf(),
    ensures
        address(tokens, start, fuse) <= address(tokens, end, fuse) <= (compiled(
            tokens,
            fuse,
        )->Ok_0).len(),
        all_arith(
            (compiled(tokens, fuse)->Ok_0).subrange(
                address(tokens, start, fuse) as int,
                address(tokens, end, fuse) as int,
            ),
        ),
        same_data(
            perform(
                (compiled(tokens, fuse)->Ok_0).subrange(
                    address(tokens, start, fuse) as int,
                    address(tokens, end, fuse) as int,
                ),
                s,
            ),
            perform(units(tokens.subrange(start, end)), s),
        ),
{
    lemma_emitted_whole(tokens, fuse);
    lemma_run_in_progress(tokens, start, end, s, fuse);
    let program = compiled(tokens, fuse)->Ok_0;
    let from = address(tokens, start, fuse) as int;
    let to = address(tokens, end, fuse) as int;
    let e = emitted(tokens, end, fuse);
    let tail = e.buffer.skip(from);
    if end == tokens.len() {
        assert(program.subrange(from, to) =~= tail);
    } else {
        lemma_arith_stays(tokens, end, -1, fuse);
        assert forall|i: int| 0 <= i < tail.len() implies program[from + i]
            == #[trigger] tail[i] by {
            assert(e.buffer[from + i] == tail[i]);
            assert(tail[i].is_arith());
            lemma_arith_stays(tokens, end, from + i, fuse);
        }
        assert(program.subrange(from, to) =~= tail);
    }
}

/// A `]` that is reached from a firm boundary over coalesced tokens closes a
/// loop that is not fused.
pub proof fn lemma_reached_close_is_plain(tokens: Seq<Token>, start: int, close: int, fuse: bool)
    requires
        balanced(tokens),
        tokens.len() <= usize::MAX,
        0 <= start <= close < tokens.len(),
        firm(tokens, start, fuse),
        forall|i: int| start <= i < close ==> (#[trigger] tokens[i]).is_arith(),
        tokens[close] == Token::LoopClose,
    ensures
        !fuses_at(tokens, close, fuse),
{
    lemma_close_has_open(tokens, close);
    let open = matching_open(tokens, close);
    if open >= start {
        assert(tokens[open].is_arith());
    }
    if open == start - 1 {
        lemma_close_is_unique(tokens, open, close, matching_close(tokens, open));
    } else {
        lemma_firm_holds(tokens, start, close, fuse);
        lemma_settled(tokens, start, close, fuse);
        lemma_body_holds_barrier(tokens, start, close, fuse);
    }
}

} // verus!
