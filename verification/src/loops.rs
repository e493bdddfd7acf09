//! Loop structure: bracket balance in a source text, and which `LoopStart`
//! belongs to which `LoopEnd` in an instruction sequence.

use vstd::prelude::*;
use crate::command::Command;
use crate::syntax::{CLOSE, OPEN};

verus! {

/// Number of `[` minus number of `]` among the first `n` bytes of `src`.
pub open spec fn bracket_depth(src: Seq<u8>, n: int) -> int
    decreases n,
{
    if n <= 0 {
        0
    } else {
        bracket_depth(src, n - 1) + if src[n - 1] == OPEN {
            1int
        } else if src[n - 1] == CLOSE {
            -1int
        } else {
            0int
        }
    }
}

/// Every `]` of the source closes an earlier `[`, and no `[` is left open at
/// the end.
pub open spec fn brackets_balanced(src: Seq<u8>) -> bool {
    &&& bracket_depth(src, src.len() as int) == 0
    &&& forall|n: int| 0 <= n <= src.len() ==> bracket_depth(src, n) >= 0
}

/// Change in loop nesting that an instruction causes.
pub open spec fn shift(c: Command) -> int {
    match c {
        Command::LoopStart => 1,
        Command::LoopEnd => -1,
        _ => 0,
    }
}

/// Loop nesting in front of position `n`: the number of `LoopStart` minus the
/// number of `LoopEnd` among the first `n` instructions.
pub open spec fn nesting(cmds: Seq<Command>, n: int) -> int
    decreases n,
{
    if n <= 0 {
        0
    } else {
        nesting(cmds, n - 1) + shift(cmds[n - 1])
    }
}

/// The `LoopStart` at `start` and the `LoopEnd` at `end` enclose one loop:
/// `end` is the first position after `start` where the nesting returns to
/// what it was in front of `start`.
pub open spec fn matched(cmds: Seq<Command>, start: int, end: int) -> bool {
    &&& 0 <= start < end < cmds.len()
    &&& cmds[start] == Command::LoopStart
    &&& cmds[end] == Command::LoopEnd
    &&& nesting(cmds, end + 1) == nesting(cmds, start)
    &&& forall|k: int| start < k <= end ==> nesting(cmds, k) > nesting(cmds, start)
}

/// A `LoopStart` has at most one partner.
pub proof fn lemma_matched_end_unique(cmds: Seq<Command>, start: int, e1: int, e2: int)
    requires
        matched(cmds, start, e1),
        matched(cmds, start, e2),
    ensures
        e1 == e2,
{
    if e1 < e2 {
        assert(nesting(cmds, e1 + 1) > nesting(cmds, start));
    } else if e2 < e1 {
        assert(nesting(cmds, e2 + 1) > nesting(cmds, start));
    }
}

/// A `LoopEnd` has at most one partner.
pub proof fn lemma_matched_start_unique(cmds: Seq<Command>, s1: int, s2: int, end: int)
    requires
        matched(cmds, s1, end),
        matched(cmds, s2, end),
    ensures
        s1 == s2,
{
    // The later of two candidate starts lies inside the loop of the earlier
    // one, where the nesting is strictly higher than in front of the loop.
    if s1 < s2 {
        assert(nesting(cmds, s2) > nesting(cmds, s1));
        assert(nesting(cmds, end + 1) == nesting(cmds, s2));
    } else if s2 < s1 {
        assert(nesting(cmds, s1) > nesting(cmds, s2));
        assert(nesting(cmds, end + 1) == nesting(cmds, s1));
    }
}

/// Appending an instruction leaves the nesting in front of every existing
/// position as it was.
pub proof fn lemma_nesting_push(cmds: Seq<Command>, c: Command, n: int)
    requires
        0 <= n <= cmds.len(),
    ensures
        nesting(cmds.push(c), n) == nesting(cmds, n),
    decreases n,
{
    if n > 0 {
        lemma_nesting_push(cmds, c, n - 1);
    }
}

/// Appending an instruction moves the nesting at the end by the shift of that
/// instruction.
pub proof fn lemma_nesting_pushed(cmds: Seq<Command>, c: Command)
    ensures
        nesting(cmds.push(c), cmds.len() as int + 1) == nesting(cmds, cmds.len() as int) + shift(c),
{
    lemma_nesting_push(cmds, c, cmds.len() as int);
}

/// A matched pair stays matched when an instruction is appended.
pub proof fn lemma_matched_push(cmds: Seq<Command>, c: Command, start: int, end: int)
    requires
        matched(cmds, start, end),
    ensures
        matched(cmds.push(c), start, end),
{
    let longer = cmds.push(c);
    lemma_nesting_push(cmds, c, start);
    lemma_nesting_push(cmds, c, end + 1);
    assert forall|k: int| start < k <= end implies nesting(longer, k) > nesting(longer, start) by {
        lemma_nesting_push(cmds, c, k);
    }
}

} // verus!
