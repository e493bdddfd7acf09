//! Executions of more than one step: where a machine is, and what it has
//! emitted, after a number of steps.

use vstd::prelude::*;
use crate::command::Command;
use crate::loops::{lemma_matched_end_unique, lemma_matched_start_unique, matched, nesting};
use crate::machine::{advance, halts, lemma_advance_keeps_wf, next, report, State, Step};
use crate::program::Program;

verus! {

/// The state `n` steps after `s`. Once execution has stopped, further steps
/// change nothing.
pub open spec fn advance_by(p: Program, input: Seq<u8>, s: State, n: nat) -> State
    decreases n,
{
    if n == 0 {
        s
    } else {
        advance(p, input, advance_by(p, input, s, (n - 1) as nat))
    }
}

/// The bytes emitted in the first `n` steps from `s`, in order.
pub open spec fn emitted_by(p: Program, input: Seq<u8>, s: State, n: nat) -> Seq<u8>
    decreases n,
{
    if n == 0 {
        Seq::empty()
    } else {
        let so_far = emitted_by(p, input, s, (n - 1) as nat);
        match report(p, input, advance_by(p, input, s, (n - 1) as nat)) {
            Step::Output(byte) => so_far.push(byte),
            _ => so_far,
        }
    }
}

/// The state of an execution of `p` on `input` after `n` steps from the
/// initial state.
pub open spec fn state_after(p: Program, input: Seq<u8>, n: nat) -> State {
    advance_by(p, input, State::initial(), n)
}

/// The bytes that an execution of `p` on `input` emits in its first `n`
/// steps from the initial state.
pub open spec fn output_after(p: Program, input: Seq<u8>, n: nat) -> Seq<u8> {
    emitted_by(p, input, State::initial(), n)
}

/// An execution that has stopped after `n` steps is in the same state, and
/// has emitted the same bytes, after any larger number of steps.
pub proof fn lemma_stopped_stays(p: Program, input: Seq<u8>, s: State, n: nat, m: nat)
    requires
        n <= m,
        halts(p, input, advance_by(p, input, s, n)),
    ensures
        advance_by(p, input, s, m) == advance_by(p, input, s, n),
        emitted_by(p, input, s, m) == emitted_by(p, input, s, n),
    decreases m - n,
{
    if n < m {
        lemma_stopped_stays(p, input, s, n, (m - 1) as nat);
    }
}

/// Running `a` steps and then `b` more is running `a + b` steps, and what is
/// emitted on the way is what the two parts emit, one after the other.
pub proof fn lemma_advance_by_split(p: Program, input: Seq<u8>, s: State, a: nat, b: nat)
    ensures
        advance_by(p, input, s, a + b) == advance_by(p, input, advance_by(p, input, s, a), b),
        emitted_by(p, input, s, a + b) == emitted_by(p, input, s, a) + emitted_by(
            p,
            input,
            advance_by(p, input, s, a),
            b,
        ),
    decreases b,
{
    let mid = advance_by(p, input, s, a);
    if b == 0 {
        assert(emitted_by(p, input, s, a) =~= emitted_by(p, input, s, a) + emitted_by(
            p,
            input,
            mid,
            0,
        ));
    } else {
        lemma_advance_by_split(p, input, s, a, (b - 1) as nat);
        assert(emitted_by(p, input, s, a + b) =~= emitted_by(p, input, s, a) + emitted_by(
            p,
            input,
            mid,
            b,
        ));
    }
}

/// Every state that a well-formed program reaches from a valid state is
/// valid, has its instruction pointer within the program or just behind it,
/// and has a tape at least as long as before.
pub proof fn lemma_advance_by_keeps_wf(p: Program, input: Seq<u8>, s: State, n: nat)
    requires
        p.wf(),
        s.wf(),
        s.ip <= p.commands.len(),
    ensures
        advance_by(p, input, s, n).wf(),
        advance_by(p, input, s, n).ip <= p.commands.len(),
        advance_by(p, input, s, n).tape.len() >= s.tape.len(),
        advance_by(p, input, s, n).consumed >= s.consumed,
    decreases n,
{
    if n > 0 {
        lemma_advance_by_keeps_wf(p, input, s, (n - 1) as nat);
        lemma_advance_keeps_wf(p, input, advance_by(p, input, s, (n - 1) as nat));
    }
}

/// In a well-formed program, a `LoopStart` directly followed by `Minus(1)`
/// and `LoopEnd` has that `LoopEnd` as its partner.
proof fn lemma_decrement_loop_linked(p: Program, at: int)
    requires
        p.wf(),
        0 <= at,
        at + 2 < p.commands.len(),
        p.commands[at] == Command::LoopStart,
        p.commands[at + 1] == Command::Minus(1),
        p.commands[at + 2] == Command::LoopEnd,
    ensures
        p.loop_start_to_end.contains_key(at),
        p.loop_start_to_end[at] == at + 2,
        p.loop_end_to_start.contains_key(at + 2),
        p.loop_end_to_start[at + 2] == at,
{
    let cmds = p.commands;
    assert(nesting(cmds, at + 1) == nesting(cmds, at) + 1);
    assert(nesting(cmds, at + 2) == nesting(cmds, at) + 1);
    assert(nesting(cmds, at + 3) == nesting(cmds, at));
    assert(matched(cmds, at, at + 2));
    assert(p.loop_start_to_end.contains_key(at));
    lemma_matched_end_unique(cmds, at, p.loop_start_to_end[at], at + 2);
    assert(p.loop_end_to_start.contains_key(at + 2));
    lemma_matched_start_unique(cmds, p.loop_end_to_start[at + 2], at, at + 2);
}

/// Inside a decrement loop, in front of its `Minus(1)` with a cell that is
/// not zero, two steps for each unit of the cell's value bring the cell to
/// zero and the machine just behind the loop.
proof fn lemma_decrement_loop_body(p: Program, input: Seq<u8>, s: State, at: int)
    requires
        p.wf(),
        s.wf(),
        0 <= at,
        at + 2 < p.commands.len(),
        p.commands[at] == Command::LoopStart,
        p.commands[at + 1] == Command::Minus(1),
        p.commands[at + 2] == Command::LoopEnd,
        s.ip == at + 1,
        s.cell() > 0,
    ensures
        advance_by(p, input, s, (2 * s.cell()) as nat) == s.with_cell(0).at(at + 3),
        emitted_by(p, input, s, (2 * s.cell()) as nat) == Seq::<u8>::empty(),
    decreases s.cell(),
{
    lemma_decrement_loop_linked(p, at);
    let v = s.cell();
    let s1 = advance_by(p, input, s, 1);
    assert(advance_by(p, input, s, 0) == s);
    assert(s1 == next(p, input, s));
    assert(s1 == s.with_cell((v - 1) as u8).at(at + 2));
    let s2 = advance_by(p, input, s, 2);
    assert(s2 == next(p, input, s1));
    assert(emitted_by(p, input, s, 0) =~= Seq::<u8>::empty());
    assert(emitted_by(p, input, s, 1) =~= Seq::<u8>::empty());
    assert(emitted_by(p, input, s, 2) =~= Seq::<u8>::empty());
    if v == 1 {
        assert(s2.tape =~= s.with_cell(0).tape);
    } else {
        assert(s2 == s1.at(at + 1));
        lemma_decrement_loop_body(p, input, s2, at);
        lemma_advance_by_split(p, input, s, 2, (2 * (v - 1)) as nat);
        assert(s2.with_cell(0).tape =~= s.with_cell(0).tape);
    }
}

/// A loop that does nothing but decrement the current cell is the same as
/// `Zero`: from its `LoopStart`, whatever the cell holds, the machine comes
/// to stand just behind the loop with the cell at zero, the rest of the state
/// as it was, and nothing emitted. That takes one step for the `LoopStart`
/// and two for each unit of the cell's value.
pub proof fn lemma_decrement_loop_clears(p: Program, input: Seq<u8>, s: State)
    requires
        p.wf(),
        s.wf(),
        s.ip + 2 < p.commands.len(),
        p.commands[s.ip] == Command::LoopStart,
        p.commands[s.ip + 1] == Command::Minus(1),
        p.commands[s.ip + 2] == Command::LoopEnd,
    ensures
        advance_by(p, input, s, (1 + 2 * s.cell()) as nat) == s.with_cell(0).at(s.ip + 3),
        emitted_by(p, input, s, (1 + 2 * s.cell()) as nat) == Seq::<u8>::empty(),
{
    let at = s.ip;
    lemma_decrement_loop_linked(p, at);
    let s1 = advance_by(p, input, s, 1);
    assert(advance_by(p, input, s, 0) == s);
    assert(s1 == next(p, input, s));
    assert(emitted_by(p, input, s, 0) =~= Seq::<u8>::empty());
    assert(emitted_by(p, input, s, 1) =~= Seq::<u8>::empty());
    if s.cell() == 0 {
        assert(s1.tape =~= s.with_cell(0).tape);
    } else {
        lemma_decrement_loop_body(p, input, s1, at);
        lemma_advance_by_split(p, input, s, 1, (2 * s.cell()) as nat);
    }
}

} // verus!
