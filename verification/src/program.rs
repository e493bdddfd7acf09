//! The mathematical model of a translated program.

use vstd::prelude::*;
use crate::command::Command;
use crate::loops::{lemma_matched_end_unique, lemma_matched_start_unique, matched};
use crate::syntax::commands_of;

verus! {

/// A translated program: its instructions, and for every loop the positions of
/// its two ends, looked up from either side.
pub struct Program {
    /// The instructions, in order of execution.
    pub commands: Seq<Command>,
    /// For the position of each `LoopStart`, the position of its `LoopEnd`.
    pub loop_start_to_end: Map<int, int>,
    /// For the position of each `LoopEnd`, the position of its `LoopStart`.
    pub loop_end_to_start: Map<int, int>,
}

impl Program {
    /// The jump tables are complete and correct: every `LoopStart` and every
    /// `LoopEnd` has an entry, the entry names its partner, and the two tables
    /// are inverses of each other.
    pub open spec fn wf(self) -> bool {
        &&& forall|s: int|
            self.loop_start_to_end.contains_key(s) <==> 0 <= s < self.commands.len()
                && self.commands[s] == Command::LoopStart
        &&& forall|e: int|
            self.loop_end_to_start.contains_key(e) <==> 0 <= e < self.commands.len()
                && self.commands[e] == Command::LoopEnd
        &&& forall|s: int| #[trigger]
            self.loop_start_to_end.contains_key(s) ==> {
                let e = self.loop_start_to_end[s];
                &&& matched(self.commands, s, e)
                &&& self.loop_end_to_start.contains_key(e)
                &&& self.loop_end_to_start[e] == s
            }
        &&& forall|e: int| #[trigger]
            self.loop_end_to_start.contains_key(e) ==> {
                let s = self.loop_end_to_start[e];
                &&& matched(self.commands, s, e)
                &&& self.loop_start_to_end.contains_key(s)
                &&& self.loop_start_to_end[s] == e
            }
    }
}

/// The program that consists of the instructions `cmds`, with every
/// `LoopStart` and `LoopEnd` linked to its partner.
pub open spec fn linked(cmds: Seq<Command>) -> Program {
    Program {
        commands: cmds,
        loop_start_to_end: Map::new(
            |s: int| 0 <= s < cmds.len() && cmds[s] == Command::LoopStart,
            |s: int| choose|e: int| matched(cmds, s, e),
        ),
        loop_end_to_start: Map::new(
            |e: int| 0 <= e < cmds.len() && cmds[e] == Command::LoopEnd,
            |e: int| choose|s: int| matched(cmds, s, e),
        ),
    }
}

/// The program that a source text denotes.
pub open spec fn program_of(src: Seq<u8>) -> Program {
    linked(commands_of(src))
}

/// The instructions of a well-formed program determine its jump tables.
pub proof fn lemma_wf_is_linked(p: Program)
    requires
        p.wf(),
    ensures
        p == linked(p.commands),
{
    let q = linked(p.commands);
    assert forall|s: int| #[trigger] p.loop_start_to_end.contains_key(s) implies q.loop_start_to_end[s]
        == p.loop_start_to_end[s] by {
        assert(matched(p.commands, s, p.loop_start_to_end[s]));
        lemma_matched_end_unique(p.commands, s, q.loop_start_to_end[s], p.loop_start_to_end[s]);
    }
    assert forall|e: int| #[trigger] p.loop_end_to_start.contains_key(e) implies q.loop_end_to_start[e]
        == p.loop_end_to_start[e] by {
        assert(matched(p.commands, p.loop_end_to_start[e], e));
        lemma_matched_start_unique(p.commands, q.loop_end_to_start[e], p.loop_end_to_start[e], e);
    }
    assert(p.loop_start_to_end =~= q.loop_start_to_end);
    assert(p.loop_end_to_start =~= q.loop_end_to_start);
}

} // verus!
