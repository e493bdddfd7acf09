//! The translator: one pass over the source that folds runs, fuses `[-]` and
//! matches loops.

use std::collections::HashMap;
use vstd::prelude::*;
use vstd::string::StringSliceAdditionalSpecFns;
use crate::command::Command;
use crate::linking::{
    lemma_progress_close, lemma_progress_ends, lemma_progress_open, lemma_progress_plain,
    lemma_progress_starts, lemma_progress_unmatched, progress,
};
use crate::loops::brackets_balanced;
use crate::program::{program_of, Program};
use crate::syntax::{
    magnitude, run_len, run_net, CLOSE, DECREMENT, INCREMENT, MOVE_LEFT, MOVE_RIGHT, OPEN, READ,
    WRITE,
};

verus! {

/// Consumes the run of `up` and `down` bytes that begins at `start` and
/// returns where it ends together with its net effect.
fn fold_run(bytes: &[u8], start: usize, up: u8, down: u8) -> (r: (usize, i128))
    requires
        start < bytes.len(),
        bytes[start as int] == up || bytes[start as int] == down,
    ensures
        start < r.0 <= bytes.len(),
        r.0 == start + run_len(bytes@, start as int, up, down),
        r.1 == run_net(bytes@, start as int, r.0 as int, up),
        start - r.0 <= r.1 <= r.0 - start,
        forall|k: int| start <= k < r.0 ==> bytes[k] == up || bytes[k] == down,
{
    let mut i: usize = start;
    let mut net: i128 = 0;
    while i < bytes.len() && (bytes[i] == up || bytes[i] == down)
        invariant
            start <= i <= bytes.len(),
            i > start || bytes[start as int] == up || bytes[start as int] == down,
            i + run_len(bytes@, i as int, up, down) == start + run_len(
                bytes@,
                start as int,
                up,
                down,
            ),
            net == run_net(bytes@, start as int, i as int, up),
            start - i <= net <= i - start,
            forall|k: int| start <= k < i ==> bytes[k] == up || bytes[k] == down,
        decreases bytes.len() - i,
    {
        if bytes[i] == up {
            net += 1;
        } else {
            net -= 1;
        }
        i += 1;
    }
    (i, net)
}

/// The count byte for a run of net effect `net`.
fn count_of(net: i128) -> (n: u8)
    requires
        net > i128::MIN,
    ensures
        n == magnitude(net as int),
{
    if net < 0 {
        ((-net) % 256) as u8
    } else {
        (net % 256) as u8
    }
}

/// Why a source text was refused.
#[derive(Debug, Clone, Copy, PartialEq, Eq, Structural)]
pub enum ParseError {
    /// A `]` has no `[` to close, or a `[` is never closed.
    UnbalancedLoop,
}

/// A translated program, ready to run.
///
/// A value of this type always carries complete and correct jump tables; the
/// only way to obtain one is to translate a source text.
#[derive(Debug)]
pub struct ParseResult {
    commands: Vec<Command>,
    loop_start_to_end: HashMap<usize, usize>,
    loop_end_to_start: HashMap<usize, usize>,
}

/// A table of positions, read as a map between integers.
spec fn positions(table: Map<usize, usize>) -> Map<int, int> {
    Map::new(
        |k: int| 0 <= k <= usize::MAX && table.contains_key(k as usize),
        |k: int| table[k as usize] as int,
    )
}

impl View for ParseResult {
    type V = Program;

    closed spec fn view(&self) -> Program {
        Program {
            commands: self.commands@,
            loop_start_to_end: positions(self.loop_start_to_end@),
            loop_end_to_start: positions(self.loop_end_to_start@),
        }
    }
}

impl ParseResult {
    /// What holds of every translated program.
    #[verifier::type_invariant]
    pub open spec fn inv(&self) -> bool {
        self@.wf()
    }

    /// The instructions of the program.
    pub fn commands(&self) -> (r: &Vec<Command>)
        ensures
            r@ == self@.commands,
    {
        &self.commands
    }

    /// The position of the `LoopEnd` that belongs to the `LoopStart` at
    /// `start`, or `None` if there is no `LoopStart` at `start`.
    pub fn loop_end(&self, start: usize) -> (r: Option<usize>)
        ensures
            r is Some <==> self@.loop_start_to_end.contains_key(start as int),
            r matches Some(end) ==> self@.loop_start_to_end[start as int] == end,
    {
        match self.loop_start_to_end.get(&start) {
            Some(end) => Some(*end),
            None => None,
        }
    }

    /// The position of the `LoopStart` that belongs to the `LoopEnd` at `end`,
    /// or `None` if there is no `LoopEnd` at `end`.
    pub fn loop_start(&self, end: usize) -> (r: Option<usize>)
        ensures
            r is Some <==> self@.loop_end_to_start.contains_key(end as int),
            r matches Some(start) ==> self@.loop_end_to_start[end as int] == start,
    {
        match self.loop_end_to_start.get(&end) {
            Some(start) => Some(*start),
            None => None,
        }
    }
}

/// A stack of positions, read as a sequence of integers.
spec fn indices(stack: Seq<usize>) -> Seq<int> {
    Seq::new(stack.len(), |j: int| stack[j] as int)
}

/// Translates a source text.
///
/// The source is read as bytes. Bytes other than the eight instruction bytes
/// are skipped. A run of `<` and `>` becomes one movement instruction, a run
/// of `+` and `-` one arithmetic instruction, `[-]` becomes `Zero`, and every
/// other `[` is linked with its `]` in both jump tables.
///
/// Translation succeeds exactly when the brackets of the source are balanced.
/// A `[` without partner and a `]` without partner both give
/// `ParseError::UnbalancedLoop`, and nothing of the partial translation is
/// returned.
pub fn parse_input(src: &str) -> (res: Result<ParseResult, ParseError>)
    ensures
        res is Ok <==> brackets_balanced(src.spec_bytes()),
        res matches Ok(p) ==> p@ == program_of(src.spec_bytes()) && p@.wf(),
{
    let bytes = src.as_bytes();
    let mut commands: Vec<Command> = Vec::with_capacity(bytes.len());
    let mut loop_start_to_end: HashMap<usize, usize> = HashMap::with_capacity(8);
    let mut loop_end_to_start: HashMap<usize, usize> = HashMap::with_capacity(8);
    let mut loop_start_pos: Vec<usize> = Vec::with_capacity(8);
    let mut i: usize = 0;
    proof {
        lemma_progress_starts(bytes@);
        assert(indices(loop_start_pos@) =~= Seq::empty());
        assert(positions(loop_start_to_end@) =~= Map::empty());
        assert(positions(loop_end_to_start@) =~= Map::empty());
    }
    while i < bytes.len()
        invariant
            bytes@ == src.spec_bytes(),
            progress(
                bytes@,
                i as int,
                commands@,
                indices(loop_start_pos@),
                positions(loop_start_to_end@),
                positions(loop_end_to_start@),
            ),
        decreases bytes.len() - i,
    {
        let c = bytes[i];
        let ip = commands.len();
        let ghost pending = indices(loop_start_pos@);
        let ghost starts = positions(loop_start_to_end@);
        let ghost ends = positions(loop_end_to_start@);
        if c == MOVE_LEFT || c == MOVE_RIGHT {
            let (end, net) = fold_run(bytes, i, MOVE_RIGHT, MOVE_LEFT);
            let count = count_of(net);
            let cmd = if net < 0 {
                Command::Left(count)
            } else {
                Command::Right(count)
            };
            proof {
                lemma_progress_plain(bytes@, i as int, commands@, pending, starts, ends);
            }
            commands.push(cmd);
            i = end;
        } else if c == INCREMENT || c == DECREMENT {
            let (end, net) = fold_run(bytes, i, INCREMENT, DECREMENT);
            let count = count_of(net);
            let cmd = if net < 0 {
                Command::Minus(count)
            } else {
                Command::Plus(count)
            };
            proof {
                lemma_progress_plain(bytes@, i as int, commands@, pending, starts, ends);
            }
            commands.push(cmd);
            i = end;
        } else if c == WRITE || c == READ {
            let cmd = if c == WRITE {
                Command::Print
            } else {
                Command::Input
            };
            proof {
                lemma_progress_plain(bytes@, i as int, commands@, pending, starts, ends);
            }
            commands.push(cmd);
            i += 1;
        } else if c == OPEN {
            if bytes.len() - i > 2 && bytes[i + 1] == DECREMENT && bytes[i + 2] == CLOSE {
                proof {
                    lemma_progress_plain(bytes@, i as int, commands@, pending, starts, ends);
                }
                commands.push(Command::Zero);
                i += 3;
            } else {
                proof {
                    lemma_progress_open(bytes@, i as int, commands@, pending, starts, ends);
                }
                loop_start_pos.push(ip);
                commands.push(Command::LoopStart);
                i += 1;
                assert(indices(loop_start_pos@) =~= pending.push(ip as int));
            }
        } else if c == CLOSE {
            match loop_start_pos.pop() {
                None => {
                    proof {
                        lemma_progress_unmatched(
                            bytes@,
                            i as int,
                            commands@,
                            pending,
                            starts,
                            ends,
                        );
                    }
                    return Err(ParseError::UnbalancedLoop);
                },
                Some(start_ip) => {
                    proof {
                        lemma_progress_close(bytes@, i as int, commands@, pending, starts, ends);
                    }
                    loop_start_to_end.insert(start_ip, ip);
                    loop_end_to_start.insert(ip, start_ip);
                    commands.push(Command::LoopEnd);
                    i += 1;
                    assert(indices(loop_start_pos@) =~= pending.drop_last());
                    assert(positions(loop_start_to_end@) =~= starts.insert(
                        pending.last(),
                        ip as int,
                    ));
                    assert(positions(loop_end_to_start@) =~= ends.insert(
                        ip as int,
                        pending.last(),
                    ));
                },
            }
        } else {
            proof {
                lemma_progress_plain(bytes@, i as int, commands@, pending, starts, ends);
            }
            i += 1;
        }
    }
    proof {
        lemma_progress_ends(
            bytes@,
            commands@,
            indices(loop_start_pos@),
            positions(loop_start_to_end@),
            positions(loop_end_to_start@),
        );
    }
    if loop_start_pos.len() != 0 {
        return Err(ParseError::UnbalancedLoop);
    }
    Ok(ParseResult { commands, loop_start_to_end, loop_end_to_start })
}

} // verus!
