//! Running a program for a bounded number of steps, and evaluating a source
//! text from start to end.

use vstd::prelude::*;
use vstd::string::StringSliceAdditionalSpecFns;
use crate::loops::brackets_balanced;
use crate::execution::{lemma_stopped_stays, output_after, state_after};
use crate::machine::{halts, Machine, State, Step};
use crate::parse::{parse_input, ParseError, ParseResult};
use crate::program::program_of;

verus! {

/// Runs `parsed_data` on `input` from the initial state until execution stops
/// or `limit` steps are done, whichever comes first. Every emitted byte is
/// appended to `output` in the order of emission. Returns the machine in the
/// state it reached.
///
/// Execution stops silently: at the end of the program, at a move past the
/// left end of the tape, and at a read with no input left. `Machine::halted`
/// tells whether the returned machine has stopped or ran out of steps.
///
/// A program need not stop, which is why the number of steps is bounded here.
/// A caller that wants to run a program for as long as it takes, or to pass
/// each byte on the moment it is emitted, calls `Machine::step` in a loop of
/// its own.
pub fn run(parsed_data: &ParseResult, input: &str, output: &mut Vec<u8>, limit: u64) -> (end:
    Machine)
    ensures
        end@ == state_after(parsed_data@, input.spec_bytes(), limit as nat),
        final(output)@ == old(output)@ + output_after(
            parsed_data@,
            input.spec_bytes(),
            limit as nat,
        ),
{
    let bytes = input.as_bytes();
    let mut machine = Machine::new();
    let mut done: u64 = 0;
    assert(output@ =~= old(output)@ + output_after(parsed_data@, bytes@, 0));
    while done < limit
        invariant
            done <= limit,
            bytes@ == input.spec_bytes(),
            machine@ == state_after(parsed_data@, bytes@, done as nat),
            output@ == old(output)@ + output_after(parsed_data@, bytes@, done as nat),
        decreases limit - done,
    {
        let (next, report) = machine.step(parsed_data, bytes);
        machine = next;
        match report {
            Step::Halt => {
                proof {
                    lemma_stopped_stays(
                        parsed_data@,
                        bytes@,
                        State::initial(),
                        done as nat,
                        limit as nat,
                    );
                }
                return machine;
            },
            Step::Output(byte) => {
                output.push(byte);
            },
            Step::Continue => {},
        }
        done += 1;
        assert(output@ =~= old(output)@ + output_after(parsed_data@, bytes@, done as nat));
    }
    machine
}

/// Translates `src` and, if that succeeds, runs the program on `input` for at
/// most `limit` steps, appending what it emits to `output`.
///
/// Fails with `ParseError::UnbalancedLoop`, before any instruction is
/// executed and with `output` untouched, exactly when the brackets of `src`
/// are not balanced. Otherwise returns whether execution stopped within
/// `limit` steps; why it stopped is not reported.
pub fn feval(src: &str, input: &str, output: &mut Vec<u8>, limit: u64) -> (res: Result<
    bool,
    ParseError,
>)
    ensures
        res is Ok <==> brackets_balanced(src.spec_bytes()),
        res is Err ==> final(output)@ == old(output)@,
        res matches Ok(stopped) ==> {
            let p = program_of(src.spec_bytes());
            &&& final(output)@ == old(output)@ + output_after(
                p,
                input.spec_bytes(),
                limit as nat,
            )
            &&& stopped == halts(
                p,
                input.spec_bytes(),
                state_after(p, input.spec_bytes(), limit as nat),
            )
        },
{
    match parse_input(src) {
        Err(e) => Err(e),
        Ok(parsed_data) => {
            let end = run(&parsed_data, input, output, limit);
            Ok(end.halted(&parsed_data, input.as_bytes()))
        },
    }
}

} // verus!
