//! The machine that executes a translated program: its state, what one
//! instruction does to it, and the executable step.

use vstd::prelude::*;
use crate::command::Command;
use crate::parse::ParseResult;
use crate::program::Program;

verus! {

/// The state of an execution.
pub struct State {
    /// Position of the next instruction.
    pub ip: int,
    /// Position of the current cell on the tape.
    pub dp: int,
    /// The cells that exist so far. Cells further right are created, holding
    /// zero, when the data pointer first reaches them.
    pub tape: Seq<u8>,
    /// How many input bytes have been read.
    pub consumed: int,
}

impl State {
    /// The state in which every execution starts: both pointers at zero, a
    /// tape of one zero cell, no input read.
    pub open spec fn initial() -> State {
        State { ip: 0, dp: 0, tape: seq![0u8], consumed: 0 }
    }

    /// The data pointer addresses an existing cell, and no counter is
    /// negative.
    pub open spec fn wf(self) -> bool {
        &&& 0 <= self.ip
        &&& 0 <= self.dp < self.tape.len()
        &&& 0 <= self.consumed
    }

    /// The value of the current cell.
    pub open spec fn cell(self) -> u8 {
        self.tape[self.dp]
    }

    /// This state with the current cell set to `value`.
    pub open spec fn with_cell(self, value: u8) -> State {
        State { tape: self.tape.update(self.dp, value), ..self }
    }

    /// This state with the instruction pointer set to `ip`.
    pub open spec fn at(self, ip: int) -> State {
        State { ip, ..self }
    }
}

/// `tape`, extended with zero cells to at least `len` cells.
pub open spec fn extended(tape: Seq<u8>, len: int) -> Seq<u8> {
    if tape.len() >= len {
        tape
    } else {
        tape + Seq::new((len - tape.len()) as nat, |i: int| 0u8)
    }
}

/// Execution stops in state `s`: the program has run to its end, the next
/// instruction would move the data pointer left of cell zero, or it would
/// read input when none is left.
pub open spec fn halts(p: Program, input: Seq<u8>, s: State) -> bool {
    ||| !(0 <= s.ip < p.commands.len())
    ||| (p.commands[s.ip] matches Command::Left(n) && n > s.dp)
    ||| (p.commands[s.ip] == Command::Input && s.consumed >= input.len())
}

/// The byte that the next instruction emits, if it emits one.
pub open spec fn emitted(p: Program, s: State) -> Option<u8> {
    if 0 <= s.ip < p.commands.len() && p.commands[s.ip] == Command::Print {
        Some(s.cell())
    } else {
        None
    }
}

/// The state after the next instruction, for a state in which execution does
/// not stop.
pub open spec fn next(p: Program, input: Seq<u8>, s: State) -> State {
    match p.commands[s.ip] {
        Command::Left(n) => State { ip: s.ip + 1, dp: s.dp - n, ..s },
        Command::Right(n) => State {
            ip: s.ip + 1,
            dp: s.dp + n,
            tape: extended(s.tape, s.dp + n + 1),
            ..s
        },
        Command::Plus(n) => s.with_cell(((s.cell() + n) % 256) as u8).at(s.ip + 1),
        Command::Minus(n) => s.with_cell(((s.cell() - n) % 256) as u8).at(s.ip + 1),
        Command::Print => s.at(s.ip + 1),
        Command::Input => State {
            ip: s.ip + 1,
            consumed: s.consumed + 1,
            ..s.with_cell(input[s.consumed])
        },
        Command::LoopStart => if s.cell() == 0 {
            s.at(p.loop_start_to_end[s.ip] + 1)
        } else {
            s.at(s.ip + 1)
        },
        Command::LoopEnd => if s.cell() != 0 {
            s.at(p.loop_end_to_start[s.ip] + 1)
        } else {
            s.at(s.ip + 1)
        },
        Command::Zero => s.with_cell(0).at(s.ip + 1),
    }
}

/// What one step of the machine reports to its driver.
#[derive(Debug, Clone, Copy, PartialEq, Eq, Structural)]
pub enum Step {
    /// An instruction was executed and emitted nothing.
    Continue,
    /// An instruction was executed and emitted this byte.
    Output(u8),
    /// Execution has stopped; the machine did not change.
    Halt,
}

/// What a step reports in state `s`.
pub open spec fn report(p: Program, input: Seq<u8>, s: State) -> Step {
    if halts(p, input, s) {
        Step::Halt
    } else {
        match emitted(p, s) {
            Some(byte) => Step::Output(byte),
            None => Step::Continue,
        }
    }
}

/// The state that a step leaves behind: the next state, or the same state
/// once execution has stopped.
pub open spec fn advance(p: Program, input: Seq<u8>, s: State) -> State {
    if halts(p, input, s) {
        s
    } else {
        next(p, input, s)
    }
}

/// Clearing a cell twice in a row leaves the machine where clearing it once
/// leaves it, but for the instruction pointer, which has passed both
/// instructions: whatever the cell held, the second `Zero` changes nothing.
pub proof fn lemma_clear_cell_idempotent(p: Program, input: Seq<u8>, s: State)
    requires
        s.wf(),
        s.ip + 1 < p.commands.len(),
        p.commands[s.ip] == Command::Zero,
        p.commands[s.ip + 1] == Command::Zero,
    ensures
        !halts(p, input, s),
        !halts(p, input, next(p, input, s)),
        next(p, input, s).cell() == 0,
        next(p, input, next(p, input, s)) == next(p, input, s).at(s.ip + 2),
{
    let once = next(p, input, s);
    let twice = next(p, input, once);
    assert(twice.tape =~= once.tape);
}

/// A step keeps a valid state valid. The tape never shrinks, every cell but
/// the current one keeps its value, input is never given back, and the
/// instruction pointer stays within the program or just behind it.
pub proof fn lemma_advance_keeps_wf(p: Program, input: Seq<u8>, s: State)
    requires
        p.wf(),
        s.wf(),
        s.ip <= p.commands.len(),
    ensures
        advance(p, input, s).wf(),
        advance(p, input, s).ip <= p.commands.len(),
        advance(p, input, s).tape.len() >= s.tape.len(),
        forall|i: int|
            0 <= i < s.tape.len() && i != s.dp ==> advance(p, input, s).tape[i] == s.tape[i],
        advance(p, input, s).consumed >= s.consumed,
{
    if !halts(p, input, s) {
        match p.commands[s.ip] {
            Command::LoopStart => {
                assert(p.loop_start_to_end.contains_key(s.ip));
            },
            Command::LoopEnd => {
                assert(p.loop_end_to_start.contains_key(s.ip));
            },
            _ => {},
        }
    }
}

/// An execution in progress.
#[derive(Debug)]
pub struct Machine {
    ip: usize,
    dp: usize,
    tape: Vec<u8>,
    consumed: usize,
}

impl View for Machine {
    type V = State;

    closed spec fn view(&self) -> State {
        State {
            ip: self.ip as int,
            dp: self.dp as int,
            tape: self.tape@,
            consumed: self.consumed as int,
        }
    }
}

impl Machine {
    /// What holds of every machine.
    #[verifier::type_invariant]
    pub open spec fn inv(&self) -> bool {
        self@.wf()
    }

    /// A machine in the initial state.
    pub fn new() -> (m: Machine)
        ensures
            m@ == State::initial(),
    {
        let mut tape: Vec<u8> = Vec::with_capacity(8);
        tape.push(0);
        assert(tape@ =~= seq![0u8]);
        Machine { ip: 0, dp: 0, tape, consumed: 0 }
    }

    /// Position of the next instruction.
    pub fn ip(&self) -> (r: usize)
        ensures
            r == self@.ip,
    {
        self.ip
    }

    /// Position of the current cell.
    pub fn dp(&self) -> (r: usize)
        ensures
            r == self@.dp,
    {
        self.dp
    }

    /// The cells of the tape.
    pub fn tape(&self) -> (r: &Vec<u8>)
        ensures
            r@ == self@.tape,
    {
        &self.tape
    }

    /// How many input bytes have been read.
    pub fn consumed(&self) -> (r: usize)
        ensures
            r == self@.consumed,
    {
        self.consumed
    }

    /// Whether execution has stopped: a step would report `Step::Halt`.
    pub fn halted(&self, program: &ParseResult, input: &[u8]) -> (r: bool)
        ensures
            r == halts(program@, input@, self@),
    {
        let commands = program.commands();
        if self.ip >= commands.len() {
            return true;
        }
        match commands[self.ip] {
            Command::Left(t) => self.dp < t as usize,
            Command::Input => self.consumed >= input.len(),
            _ => false,
        }
    }

    /// Executes the next instruction of `program`, reading from `input` where
    /// the instruction asks for a byte, and returns the machine after it.
    ///
    /// Reports `Step::Halt`, and returns the machine unchanged, when execution
    /// stops: at the end of the program, in front of a move past the left end
    /// of the tape, or in front of a read with no input left. Otherwise the
    /// machine is in the next state and the report tells whether the
    /// instruction emitted a byte.
    pub fn step(self, program: &ParseResult, input: &[u8]) -> (r: (Machine, Step))
        ensures
            r.0@ == advance(program@, input@, self@),
            r.1 == report(program@, input@, self@),
    {
        proof {
            use_type_invariant(&self);
            use_type_invariant(program);
        }
        let commands = program.commands();
        if self.ip >= commands.len() {
            return (self, Step::Halt);
        }
        let Machine { ip, mut dp, mut tape, mut consumed } = self;
        let mut report = Step::Continue;
        let mut target = ip;
        match commands[ip] {
            Command::Left(t) => {
                let times = t as usize;
                if dp < times {
                    return (Machine { ip, dp, tape, consumed }, Step::Halt);
                }
                dp -= times;
            },
            Command::Right(t) => {
                dp = grow_right(&mut tape, dp, t);
            },
            Command::Plus(rhs) => {
                let cell = tape[dp];
                tape.set(dp, cell.wrapping_add(rhs));
            },
            Command::Minus(rhs) => {
                let cell = tape[dp];
                tape.set(dp, cell.wrapping_sub(rhs));
            },
            Command::Print => {
                report = Step::Output(tape[dp]);
            },
            Command::Input => {
                if consumed >= input.len() {
                    return (Machine { ip, dp, tape, consumed }, Step::Halt);
                }
                tape.set(dp, input[consumed]);
                consumed += 1;
            },
            Command::LoopStart => {
                // Every `LoopStart` of a translated program is in the table,
                // so the lookup finds its partner.
                if tape[dp] == 0 {
                    if let Some(end) = program.loop_end(ip) {
                        target = end;
                    }
                }
            },
            Command::LoopEnd => {
                // Likewise for every `LoopEnd`.
                if tape[dp] != 0 {
                    if let Some(start) = program.loop_start(ip) {
                        target = start;
                    }
                }
            },
            Command::Zero => {
                tape.set(dp, 0);
            },
        }
        (Machine { ip: target + 1, dp, tape, consumed }, report)
    }
}

/// Moves a data pointer `times` cells to the right of `dp` and creates zero
/// cells where the tape ends before the new position. Returns the new data
/// pointer.
fn grow_right(tape: &mut Vec<u8>, dp: usize, times: u8) -> (r: usize)
    requires
        dp < old(tape)@.len(),
    ensures
        r == dp + times,
        final(tape)@ == extended(old(tape)@, dp + times + 1),
{
    let room = tape.len() - 1 - dp;
    if times as usize <= room {
        return dp + times as usize;
    }
    let missing = times as usize - room;
    let mut added: usize = 0;
    while added < missing
        invariant
            added <= missing,
            tape@ == old(tape)@ + Seq::new(added as nat, |i: int| 0u8),
        decreases missing - added,
    {
        tape.push(0);
        added += 1;
        assert(tape@ =~= old(tape)@ + Seq::new(added as nat, |i: int| 0u8));
    }
    tape.len() - 1
}

} // verus!
