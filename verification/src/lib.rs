//! An interpreter for an eight-instruction tape language.
//!
//! A program is parsed once into a sequence of commands whose loop brackets
//! carry the index of their partner; a machine then executes that sequence
//! over a byte tape that grows on demand.

use vstd::prelude::*;

pub mod bracket;
pub mod command;
pub mod machine;
pub mod parser;

use crate::machine::{initial_state, run_spec, BfProgram, RunStatus, RuntimeError};
use crate::parser::{parse_spec, BfCommands, ParseError};

verus! {

/// Why a source text could not be run to its end.
#[derive(Clone, Copy, Debug, PartialEq, Eq, Structural)]
pub enum BfError {
    /// The text is not a program.
    Parse(ParseError),
    /// The program failed while running.
    Runtime(RuntimeError),
}

/// What running `source` on `input` for at most `fuel` commands writes, and
/// how it ends.
pub open spec fn outcome(source: Seq<char>, input: Seq<u8>, fuel: nat) -> (
    Seq<u8>,
    Result<RunStatus, BfError>,
) {
    match parse_spec(source) {
        Err(e) => (Seq::empty(), Err(BfError::Parse(e))),
        Ok(cmds) => {
            let (m, r) = run_spec(cmds, initial_state(input), fuel);
            (
                m.output,
                match r {
                    Ok(status) => Ok(status),
                    Err(e) => Err(BfError::Runtime(e)),
                },
            )
        },
    }
}

/// Parses `source` and runs it on a fresh tape for at most `fuel`
/// commands, reading from `input` and appending what it writes to
/// `output`. Bytes written before a runtime error stay in `output`.
pub fn run(source: &str, input: &[u8], output: &mut Vec<u8>, fuel: u64) -> (r: Result<
    RunStatus,
    BfError,
>)
    ensures
        final(output)@ == old(output)@ + outcome(source@, input@, fuel as nat).0,
        r == outcome(source@, input@, fuel as nat).1,
{
    let commands = match BfCommands::from_str(source) {
        Ok(commands) => commands,
        Err(e) => {
            assert(output@ =~= old(output)@ + Seq::<u8>::empty());
            return Err(BfError::Parse(e));
        },
    };
    let mut program = BfProgram::new(commands);
    program.feed(input);
    assert(program@ == initial_state(input@)) by {
        assert(Seq::<u8>::empty() + input@ =~= input@);
    }
    let result = program.run(fuel);
    let mut written = program.take_output();
    output.append(&mut written);
    match result {
        Ok(status) => Ok(status),
        Err(e) => Err(BfError::Runtime(e)),
    }
}

} // verus!
