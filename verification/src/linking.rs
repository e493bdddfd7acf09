//! Why one pass with a stack of pending loops links every loop correctly.
//!
//! The translator reads the source from left to right. In front of each token
//! it holds the instructions emitted so far, the positions of the `LoopStart`
//! instructions that are still open, and the two jump tables for the loops
//! that are closed already. This module states what holds of those values
//! (`progress`), shows that each kind of token preserves it, and concludes
//! that a source with balanced brackets denotes a well-formed program.

use vstd::prelude::*;
use crate::command::Command;
use crate::loops::{
    bracket_depth, brackets_balanced, lemma_matched_push, lemma_nesting_push,
    lemma_nesting_pushed, matched, nesting, shift,
};
use crate::program::{lemma_wf_is_linked, program_of, Program};
use crate::syntax::{
    commands_of, is_clear_loop, lemma_token_in_bounds, run_len, scan, token_at, token_len, CLOSE,
    DECREMENT, INCREMENT, MOVE_LEFT, MOVE_RIGHT, OPEN,
};

verus! {

/// The `LoopStart` at `s` is still open at the end of `cmds`, at nesting
/// `level`.
pub open spec fn open_at(cmds: Seq<Command>, s: int, level: int) -> bool {
    &&& 0 <= s < cmds.len()
    &&& cmds[s] == Command::LoopStart
    &&& nesting(cmds, s) == level
    &&& forall|k: int| s < k <= cmds.len() ==> nesting(cmds, k) > level
}

/// The stack of pending loops lists exactly the `LoopStart`s of `cmds` that
/// are still open, outermost first.
pub open spec fn pending_holds(cmds: Seq<Command>, pending: Seq<int>) -> bool {
    &&& pending.len() == nesting(cmds, cmds.len() as int)
    &&& forall|j: int| 0 <= j < pending.len() ==> open_at(cmds, #[trigger] pending[j], j)
}

/// The two tables hold exactly the loops of `cmds` that are closed already.
pub open spec fn tables_hold(
    cmds: Seq<Command>,
    pending: Seq<int>,
    starts: Map<int, int>,
    ends: Map<int, int>,
) -> bool {
    &&& forall|s: int|
        starts.contains_key(s) <==> 0 <= s < cmds.len() && cmds[s] == Command::LoopStart
            && !pending.contains(s)
    &&& forall|e: int|
        ends.contains_key(e) <==> 0 <= e < cmds.len() && cmds[e] == Command::LoopEnd
    &&& forall|s: int| #[trigger]
        starts.contains_key(s) ==> {
            &&& matched(cmds, s, starts[s])
            &&& ends.contains_key(starts[s])
            &&& ends[starts[s]] == s
        }
    &&& forall|e: int| #[trigger]
        ends.contains_key(e) ==> {
            &&& matched(cmds, ends[e], e)
            &&& starts.contains_key(ends[e])
            &&& starts[ends[e]] == e
        }
}

/// What the translator has established in front of source byte `i`.
pub open spec fn progress(
    src: Seq<u8>,
    i: int,
    cmds: Seq<Command>,
    pending: Seq<int>,
    starts: Map<int, int>,
    ends: Map<int, int>,
) -> bool {
    &&& 0 <= i <= src.len()
    &&& cmds.len() <= i
    &&& cmds + scan(src, i) == commands_of(src)
    &&& bracket_depth(src, i) == pending.len()
    &&& forall|n: int| 0 <= n <= i ==> bracket_depth(src, n) >= 0
    &&& pending_holds(cmds, pending)
    &&& tables_hold(cmds, pending, starts, ends)
}

/// The bracket depth does not move across bytes that are no brackets.
proof fn lemma_depth_flat(src: Seq<u8>, i: int, j: int)
    requires
        0 <= i <= j <= src.len(),
        forall|k: int| i <= k < j ==> src[k] != OPEN && src[k] != CLOSE,
    ensures
        forall|n: int| i <= n <= j ==> bracket_depth(src, n) == bracket_depth(src, i),
    decreases j - i,
{
    if i < j {
        lemma_depth_flat(src, i, j - 1);
        assert(src[j - 1] != OPEN && src[j - 1] != CLOSE);
        assert(bracket_depth(src, j) == bracket_depth(src, j - 1));
    }
}

/// Appending an instruction that is no loop bracket keeps the pending loops
/// and the tables as they are.
proof fn lemma_push_plain(
    cmds: Seq<Command>,
    c: Command,
    pending: Seq<int>,
    starts: Map<int, int>,
    ends: Map<int, int>,
)
    requires
        pending_holds(cmds, pending),
        tables_hold(cmds, pending, starts, ends),
        shift(c) == 0,
    ensures
        pending_holds(cmds.push(c), pending),
        tables_hold(cmds.push(c), pending, starts, ends),
{
    let longer = cmds.push(c);
    lemma_nesting_pushed(cmds, c);
    assert forall|n: int| 0 <= n <= cmds.len() implies nesting(longer, n) == nesting(cmds, n) by {
        lemma_nesting_push(cmds, c, n);
    }
    assert forall|j: int| 0 <= j < pending.len() implies open_at(
        longer,
        #[trigger] pending[j],
        j,
    ) by {
        assert(open_at(cmds, pending[j], j));
    }
    assert forall|s: int| #[trigger] starts.contains_key(s) implies matched(
        longer,
        s,
        starts[s],
    ) by {
        lemma_matched_push(cmds, c, s, starts[s]);
    }
    assert forall|e: int| #[trigger] ends.contains_key(e) implies matched(longer, ends[e], e) by {
        lemma_matched_push(cmds, c, ends[e], e);
    }
}

/// Appending a `LoopStart` puts its position on top of the pending loops.
proof fn lemma_push_open(
    cmds: Seq<Command>,
    pending: Seq<int>,
    starts: Map<int, int>,
    ends: Map<int, int>,
)
    requires
        pending_holds(cmds, pending),
        tables_hold(cmds, pending, starts, ends),
    ensures
        pending_holds(cmds.push(Command::LoopStart), pending.push(cmds.len() as int)),
        tables_hold(cmds.push(Command::LoopStart), pending.push(cmds.len() as int), starts, ends),
{
    let c = Command::LoopStart;
    let longer = cmds.push(c);
    let at = cmds.len() as int;
    let deeper = pending.push(at);
    lemma_nesting_pushed(cmds, c);
    assert forall|n: int| 0 <= n <= cmds.len() implies nesting(longer, n) == nesting(cmds, n) by {
        lemma_nesting_push(cmds, c, n);
    }
    assert forall|j: int| 0 <= j < deeper.len() implies open_at(longer, #[trigger] deeper[j], j) by {
        if j < pending.len() {
            assert(open_at(cmds, pending[j], j));
        }
    }
    assert forall|s: int| deeper.contains(s) <==> pending.contains(s) || s == at by {
        if pending.contains(s) {
            let j = choose|j: int| 0 <= j < pending.len() && pending[j] == s;
            assert(deeper[j] == s);
        }
        if s == at {
            assert(deeper[pending.len() as int] == s);
        }
    }
    assert forall|s: int| #[trigger] starts.contains_key(s) implies matched(
        longer,
        s,
        starts[s],
    ) by {
        lemma_matched_push(cmds, c, s, starts[s]);
    }
    assert forall|e: int| #[trigger] ends.contains_key(e) implies matched(longer, ends[e], e) by {
        lemma_matched_push(cmds, c, ends[e], e);
    }
}

/// Appending a `LoopEnd` closes the innermost pending loop: its `LoopStart`
/// leaves the pending loops and the pair enters both tables.
proof fn lemma_push_close(
    cmds: Seq<Command>,
    pending: Seq<int>,
    starts: Map<int, int>,
    ends: Map<int, int>,
)
    requires
        pending_holds(cmds, pending),
        tables_hold(cmds, pending, starts, ends),
        pending.len() > 0,
    ensures
        pending_holds(cmds.push(Command::LoopEnd), pending.drop_last()),
        tables_hold(
            cmds.push(Command::LoopEnd),
            pending.drop_last(),
            starts.insert(pending.last(), cmds.len() as int),
            ends.insert(cmds.len() as int, pending.last()),
        ),
{
    let c = Command::LoopEnd;
    let longer = cmds.push(c);
    let at = cmds.len() as int;
    let start = pending.last();
    let top = pending.len() - 1;
    let shallower = pending.drop_last();
    let starts2 = starts.insert(start, at);
    let ends2 = ends.insert(at, start);
    lemma_nesting_pushed(cmds, c);
    assert forall|n: int| 0 <= n <= cmds.len() implies nesting(longer, n) == nesting(cmds, n) by {
        lemma_nesting_push(cmds, c, n);
    }
    assert(open_at(cmds, pending[top], top));
    assert forall|j: int| 0 <= j < shallower.len() implies open_at(
        longer,
        #[trigger] shallower[j],
        j,
    ) by {
        assert(open_at(cmds, pending[j], j));
    }
    assert(matched(longer, start, at));
    // The stack holds each position once, so dropping the top removes `start`
    // and nothing else.
    assert forall|s: int| shallower.contains(s) <==> pending.contains(s) && s != start by {
        if shallower.contains(s) {
            let j = choose|j: int| 0 <= j < shallower.len() && shallower[j] == s;
            assert(pending[j] == s);
            assert(open_at(cmds, pending[j], j));
        }
        if pending.contains(s) && s != start {
            let j = choose|j: int| 0 <= j < pending.len() && pending[j] == s;
            assert(shallower[j] == s);
        }
    }
    assert(pending.contains(start)) by {
        assert(pending[top] == start);
    }
    assert forall|s: int| #[trigger] starts2.contains_key(s) implies {
        &&& matched(longer, s, starts2[s])
        &&& ends2.contains_key(starts2[s])
        &&& ends2[starts2[s]] == s
    } by {
        if s != start {
            lemma_matched_push(cmds, c, s, starts[s]);
        }
    }
    assert forall|e: int| #[trigger] ends2.contains_key(e) implies {
        &&& matched(longer, ends2[e], e)
        &&& starts2.contains_key(ends2[e])
        &&& starts2[ends2[e]] == e
    } by {
        if e != at {
            lemma_matched_push(cmds, c, ends[e], e);
        }
    }
}

/// Having consumed the token at `i`, the translator stands in front of the
/// next token with one more instruction.
proof fn lemma_token_emitted(src: Seq<u8>, i: int, cmds: Seq<Command>, c: Command)
    requires
        0 <= i < src.len(),
        cmds + scan(src, i) == commands_of(src),
        token_at(src, i) == Some(c),
    ensures
        cmds.push(c) + scan(src, i + token_len(src, i)) == commands_of(src),
{
    let rest = scan(src, i + token_len(src, i));
    assert(scan(src, i) == seq![c] + rest);
    assert(cmds.push(c) + rest =~= cmds + (seq![c] + rest));
}

/// The translator starts with nothing emitted, nothing pending and empty
/// tables.
pub proof fn lemma_progress_starts(src: Seq<u8>)
    ensures
        progress(src, 0, Seq::empty(), Seq::empty(), Map::empty(), Map::empty()),
{
    assert(Seq::<Command>::empty() + scan(src, 0) =~= commands_of(src));
}

/// A token that is an instruction but no loop bracket, or commentary, takes
/// the translator to the next token with the loops as they were.
pub proof fn lemma_progress_plain(
    src: Seq<u8>,
    i: int,
    cmds: Seq<Command>,
    pending: Seq<int>,
    starts: Map<int, int>,
    ends: Map<int, int>,
)
    requires
        progress(src, i, cmds, pending, starts, ends),
        i < src.len(),
        src[i] != CLOSE,
        src[i] == OPEN ==> is_clear_loop(src, i),
    ensures
        progress(
            src,
            i + token_len(src, i),
            match token_at(src, i) {
                Some(c) => cmds.push(c),
                None => cmds,
            },
            pending,
            starts,
            ends,
        ),
{
    let j = i + token_len(src, i);
    lemma_token_in_bounds(src, i);
    if src[i] == OPEN {
        assert(bracket_depth(src, i + 2) == bracket_depth(src, i + 1));
    } else {
        if src[i] == MOVE_LEFT || src[i] == MOVE_RIGHT {
            lemma_run_bytes(src, i + 1, MOVE_RIGHT, MOVE_LEFT);
        } else if src[i] == INCREMENT || src[i] == DECREMENT {
            lemma_run_bytes(src, i + 1, INCREMENT, DECREMENT);
        }
        lemma_depth_flat(src, i, j);
    }
    match token_at(src, i) {
        Some(c) => {
            lemma_token_emitted(src, i, cmds, c);
            lemma_push_plain(cmds, c, pending, starts, ends);
        },
        None => {},
    }
}

/// A `[` that does not begin `[-]` becomes a `LoopStart`, whose position goes
/// on top of the pending loops.
pub proof fn lemma_progress_open(
    src: Seq<u8>,
    i: int,
    cmds: Seq<Command>,
    pending: Seq<int>,
    starts: Map<int, int>,
    ends: Map<int, int>,
)
    requires
        progress(src, i, cmds, pending, starts, ends),
        i < src.len(),
        src[i] == OPEN,
        !is_clear_loop(src, i),
    ensures
        progress(
            src,
            i + 1,
            cmds.push(Command::LoopStart),
            pending.push(cmds.len() as int),
            starts,
            ends,
        ),
{
    lemma_token_emitted(src, i, cmds, Command::LoopStart);
    lemma_push_open(cmds, pending, starts, ends);
}

/// A `]` while a loop is pending becomes a `LoopEnd` and closes the innermost
/// pending loop.
pub proof fn lemma_progress_close(
    src: Seq<u8>,
    i: int,
    cmds: Seq<Command>,
    pending: Seq<int>,
    starts: Map<int, int>,
    ends: Map<int, int>,
)
    requires
        progress(src, i, cmds, pending, starts, ends),
        i < src.len(),
        src[i] == CLOSE,
        pending.len() > 0,
    ensures
        progress(
            src,
            i + 1,
            cmds.push(Command::LoopEnd),
            pending.drop_last(),
            starts.insert(pending.last(), cmds.len() as int),
            ends.insert(cmds.len() as int, pending.last()),
        ),
{
    lemma_token_emitted(src, i, cmds, Command::LoopEnd);
    lemma_push_close(cmds, pending, starts, ends);
}

/// A `]` while no loop is pending shows that the brackets are not balanced.
pub proof fn lemma_progress_unmatched(
    src: Seq<u8>,
    i: int,
    cmds: Seq<Command>,
    pending: Seq<int>,
    starts: Map<int, int>,
    ends: Map<int, int>,
)
    requires
        progress(src, i, cmds, pending, starts, ends),
        i < src.len(),
        src[i] == CLOSE,
        pending.len() == 0,
    ensures
        !brackets_balanced(src),
{
    assert(bracket_depth(src, i + 1) < 0);
}

/// At the end of the source the brackets are balanced exactly if no loop is
/// pending, and then the instructions and tables form the program that the
/// source denotes, which is well-formed.
pub proof fn lemma_progress_ends(
    src: Seq<u8>,
    cmds: Seq<Command>,
    pending: Seq<int>,
    starts: Map<int, int>,
    ends: Map<int, int>,
)
    requires
        progress(src, src.len() as int, cmds, pending, starts, ends),
    ensures
        brackets_balanced(src) <==> pending.len() == 0,
        pending.len() == 0 ==> {
            let p = Program { commands: cmds, loop_start_to_end: starts, loop_end_to_start: ends };
            p.wf() && p == program_of(src)
        },
{
    if pending.len() == 0 {
        let p = Program { commands: cmds, loop_start_to_end: starts, loop_end_to_start: ends };
        assert forall|s: int| 0 <= s < cmds.len() implies !pending.contains(s) by {}
        assert(p.wf());
        assert(cmds =~= cmds + scan(src, src.len() as int));
        lemma_wf_is_linked(p);
    }
}

/// Every byte of a run is one of the two bytes of the run.
proof fn lemma_run_bytes(src: Seq<u8>, i: int, up: u8, down: u8)
    requires
        0 <= i <= src.len(),
    ensures
        forall|k: int| i <= k < i + run_len(src, i, up, down) ==> src[k] == up || src[k] == down,
    decreases src.len() - i,
{
    if i < src.len() && (src[i] == up || src[i] == down) {
        lemma_run_bytes(src, i + 1, up, down);
    }
}

/// From any state that the translator can be in, a source with balanced
/// brackets leads to a well-formed program.
proof fn lemma_balanced_from(
    src: Seq<u8>,
    i: int,
    cmds: Seq<Command>,
    pending: Seq<int>,
    starts: Map<int, int>,
    ends: Map<int, int>,
)
    requires
        brackets_balanced(src),
        progress(src, i, cmds, pending, starts, ends),
    ensures
        program_of(src).wf(),
    decreases src.len() - i,
{
    if i == src.len() {
        lemma_progress_ends(src, cmds, pending, starts, ends);
    } else {
        lemma_token_in_bounds(src, i);
        if src[i] == CLOSE {
            if pending.len() == 0 {
                lemma_progress_unmatched(src, i, cmds, pending, starts, ends);
            } else {
                lemma_progress_close(src, i, cmds, pending, starts, ends);
                lemma_balanced_from(
                    src,
                    i + 1,
                    cmds.push(Command::LoopEnd),
                    pending.drop_last(),
                    starts.insert(pending.last(), cmds.len() as int),
                    ends.insert(cmds.len() as int, pending.last()),
                );
            }
        } else if src[i] == OPEN && !is_clear_loop(src, i) {
            lemma_progress_open(src, i, cmds, pending, starts, ends);
            lemma_balanced_from(
                src,
                i + 1,
                cmds.push(Command::LoopStart),
                pending.push(cmds.len() as int),
                starts,
                ends,
            );
        } else {
            lemma_progress_plain(src, i, cmds, pending, starts, ends);
            lemma_balanced_from(
                src,
                i + token_len(src, i),
                match token_at(src, i) {
                    Some(c) => cmds.push(c),
                    None => cmds,
                },
                pending,
                starts,
                ends,
            );
        }
    }
}

/// A source with balanced brackets denotes a well-formed program: each of its
/// loops has both ends in both jump tables.
pub proof fn lemma_balanced_is_well_formed(src: Seq<u8>)
    requires
        brackets_balanced(src),
    ensures
        program_of(src).wf(),
{
    lemma_progress_starts(src);
    lemma_balanced_from(src, 0, Seq::empty(), Seq::empty(), Map::empty(), Map::empty());
}

/// For any source with balanced brackets, the two jump tables are inverses of
/// each other: looking a `LoopStart` up and then looking the result up in the
/// other table gives the `LoopStart` back, and likewise from a `LoopEnd`.
pub proof fn lemma_jump_tables_are_inverse(src: Seq<u8>)
    requires
        brackets_balanced(src),
    ensures
        forall|s: int| #[trigger]
            program_of(src).loop_start_to_end.contains_key(s) ==> {
                let e = program_of(src).loop_start_to_end[s];
                &&& program_of(src).loop_end_to_start.contains_key(e)
                &&& program_of(src).loop_end_to_start[e] == s
            },
        forall|e: int| #[trigger]
            program_of(src).loop_end_to_start.contains_key(e) ==> {
                let s = program_of(src).loop_end_to_start[e];
                &&& program_of(src).loop_start_to_end.contains_key(s)
                &&& program_of(src).loop_start_to_end[s] == e
            },
{
    lemma_balanced_is_well_formed(src);
}

} // verus!
