//! The command alphabet and the resolved command type.

use vstd::prelude::*;
use vstd::std_specs::iter::IteratorSpec;

verus! {

/// One resolved instruction. The two loop commands carry the index, in the
/// resolved command sequence, of the bracket they are paired with.
#[derive(Clone, Copy, Debug, PartialEq, Eq, Structural)]
pub enum BfCommand {
    IncreaseDataPointer,
    DecreaseDataPointer,
    IncreaseData,
    DecreaseData,
    Output,
    Input,
    BeginLoop { end_ptr: usize },
    EndLoop { begin_ptr: usize },
}

/// Whether `c` is one of the eight characters that stand for an instruction.
pub open spec fn is_command(c: char) -> bool {
    c == '>' || c == '<' || c == '+' || c == '-' || c == '.' || c == ',' || c == '[' || c == ']'
}

/// The instruction characters of `s`, in order, with everything else removed.
pub open spec fn commands_of(s: Seq<char>) -> Seq<char>
    decreases s.len(),
{
    if s.len() == 0 {
        Seq::empty()
    } else if is_command(s.last()) {
        commands_of(s.drop_last()).push(s.last())
    } else {
        commands_of(s.drop_last())
    }
}

/// Executable test for membership in the instruction alphabet.
pub fn is_command_char(c: char) -> (b: bool)
    ensures
        b == is_command(c),
{
    c == '>' || c == '<' || c == '+' || c == '-' || c == '.' || c == ',' || c == '[' || c == ']'
}

/// Collects the instruction characters of `source`, dropping all others.
pub fn command_chars(source: &str) -> (code: Vec<char>)
    ensures
        code@ == commands_of(source@),
{
    broadcast use vstd::string::group_string_axioms;

    let mut code: Vec<char> = Vec::new();
    let mut it = source.chars();
    let ghost mut seen: Seq<char> = Seq::empty();
    loop
        invariant
            seen + it.remaining() == source@,
            code@ == commands_of(seen),
            it.decrease() is Some,
        decreases it.decrease()->0,
    {
        let ghost before = it.remaining();
        match it.next() {
            Some(c) => {
                proof {
                    assert(seen.push(c).drop_last() == seen);
                    assert(seen.push(c) + it.remaining() == seen + before);
                    seen = seen.push(c);
                }
                if is_command_char(c) {
                    code.push(c);
                }
            },
            None => {
                assert(seen == source@);
                return code;
            },
        }
    }
}

} // verus!
