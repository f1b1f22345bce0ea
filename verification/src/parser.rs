//! Parsing: from source text to a command sequence whose loop brackets are
//! resolved to the index of their partner.

use vstd::prelude::*;
use crate::bracket::{
    balanced, depth, is_pair, lemma_close_exists, lemma_close_unique, lemma_open_exists,
    lemma_open_unique, never_negative,
};
use crate::command::{command_chars, commands_of, is_command, BfCommand};

verus! {

/// Why a source text is not a program.
#[derive(Clone, Copy, Debug, PartialEq, Eq, Structural)]
pub enum ParseError {
    /// Some `[` is never closed.
    UnmatchedOpenBracket,
    /// Some `]` closes a loop that was never opened.
    UnmatchedCloseBracket,
}

/// The character that a command was read from.
pub open spec fn symbol(c: BfCommand) -> char {
    match c {
        BfCommand::IncreaseDataPointer => '>',
        BfCommand::DecreaseDataPointer => '<',
        BfCommand::IncreaseData => '+',
        BfCommand::DecreaseData => '-',
        BfCommand::Output => '.',
        BfCommand::Input => ',',
        BfCommand::BeginLoop { .. } => '[',
        BfCommand::EndLoop { .. } => ']',
    }
}

/// The program text that a command sequence stands for.
pub open spec fn text_of(cmds: Seq<BfCommand>) -> Seq<char> {
    Seq::new(cmds.len(), |i: int| symbol(cmds[i]))
}

/// Every loop command of `cmds` names its true partner.
pub open spec fn linked(cmds: Seq<BfCommand>) -> bool {
    forall|i: int|
        0 <= i < cmds.len() ==> match #[trigger] cmds[i] {
            BfCommand::BeginLoop { end_ptr } => is_pair(text_of(cmds), i, end_ptr as int),
            BfCommand::EndLoop { begin_ptr } => is_pair(text_of(cmds), begin_ptr as int, i),
            _ => true,
        }
}

/// A command sequence is well formed when its brackets balance and every
/// loop command names its true partner.
pub open spec fn well_formed(cmds: Seq<BfCommand>) -> bool {
    balanced(text_of(cmds)) && linked(cmds)
}

/// The index of the bracket that the bracket at `i` is paired with.
pub open spec fn partner(code: Seq<char>, i: int) -> int {
    if code[i] == '[' {
        choose|j: int| is_pair(code, i, j)
    } else {
        choose|j: int| is_pair(code, j, i)
    }
}

/// The command that the character at `i` of `code` resolves to.
pub open spec fn command_at(code: Seq<char>, i: int) -> BfCommand {
    let c = code[i];
    if c == '>' {
        BfCommand::IncreaseDataPointer
    } else if c == '<' {
        BfCommand::DecreaseDataPointer
    } else if c == '+' {
        BfCommand::IncreaseData
    } else if c == '-' {
        BfCommand::DecreaseData
    } else if c == '.' {
        BfCommand::Output
    } else if c == ',' {
        BfCommand::Input
    } else if c == '[' {
        BfCommand::BeginLoop { end_ptr: partner(code, i) as usize }
    } else {
        BfCommand::EndLoop { begin_ptr: partner(code, i) as usize }
    }
}

/// The resolved command sequence of a balanced program text.
pub open spec fn resolve(code: Seq<char>) -> Seq<BfCommand> {
    Seq::new(code.len(), |i: int| command_at(code, i))
}

/// What parsing `source` yields. A `]` without an open loop is signalled
/// where the scan meets it, so it wins over a `[` left open.
pub open spec fn parse_spec(source: Seq<char>) -> Result<Seq<BfCommand>, ParseError> {
    let code = commands_of(source);
    if !never_negative(code) {
        Err(ParseError::UnmatchedCloseBracket)
    } else if depth(code, code.len() as int) > 0 {
        Err(ParseError::UnmatchedOpenBracket)
    } else {
        Ok(resolve(code))
    }
}

/// The open loop at stack level `d` during a scan that has read `i`
/// characters: a `[` before `i` at depth `d` that nothing has closed yet.
spec fn pending(code: Seq<char>, open: Seq<usize>, i: int, d: int) -> bool {
    let p = open[d] as int;
    &&& 0 <= p < i
    &&& code[p] == '['
    &&& depth(code, p) == d
    &&& forall|k: int| p < k <= i ==> depth(code, k) > d
}

/// The command at `j` agrees with its character, and if it is a loop
/// command it is either paired for good or still waits on the stack.
spec fn settled(code: Seq<char>, cmds: Seq<BfCommand>, open: Seq<usize>, j: int) -> bool {
    &&& symbol(cmds[j]) == code[j]
    &&& match cmds[j] {
        BfCommand::BeginLoop { end_ptr } => is_pair(code, j, end_ptr as int) || (0 <= depth(code, j)
            < open.len() && open[depth(code, j)] == j),
        BfCommand::EndLoop { begin_ptr } => is_pair(code, begin_ptr as int, j),
        _ => true,
    }
}

/// A fully paired command sequence over `code` is the resolved sequence.
proof fn lemma_settled_is_resolved(code: Seq<char>, cmds: Seq<BfCommand>)
    requires
        cmds.len() == code.len(),
        forall|j: int| 0 <= j < code.len() ==> is_command(#[trigger] code[j]),
        forall|j: int| 0 <= j < code.len() ==> settled(code, cmds, Seq::<usize>::empty(), j),
    ensures
        cmds == resolve(code),
        text_of(cmds) == code,
        linked(cmds),
{
    assert(text_of(cmds) =~= code) by {
        assert forall|j: int| 0 <= j < code.len() implies text_of(cmds)[j] == code[j] by {
            assert(settled(code, cmds, Seq::<usize>::empty(), j));
        }
    }
    assert forall|j: int| 0 <= j < code.len() implies cmds[j] == command_at(code, j) by {
        assert(settled(code, cmds, Seq::<usize>::empty(), j));
        assert(is_command(code[j]));
        match cmds[j] {
            BfCommand::BeginLoop { end_ptr } => {
                assert(is_pair(code, j, end_ptr as int));
                lemma_close_unique(code, j, end_ptr as int, partner(code, j));
            },
            BfCommand::EndLoop { begin_ptr } => {
                assert(is_pair(code, begin_ptr as int, j));
                lemma_open_unique(code, begin_ptr as int, partner(code, j), j);
            },
            _ => {},
        }
    }
    assert(cmds =~= resolve(code));
    assert forall|j: int| 0 <= j < cmds.len() implies match #[trigger] cmds[j] {
        BfCommand::BeginLoop { end_ptr } => is_pair(text_of(cmds), j, end_ptr as int),
        BfCommand::EndLoop { begin_ptr } => is_pair(text_of(cmds), begin_ptr as int, j),
        _ => true,
    } by {
        assert(settled(code, cmds, Seq::<usize>::empty(), j));
    }
}

/// Resolves the brackets of a text made of instruction characters only.
fn resolve_brackets(code: &Vec<char>) -> (r: Result<Vec<BfCommand>, ParseError>)
    requires
        forall|j: int| 0 <= j < code.len() ==> is_command(#[trigger] code@[j]),
    ensures
        match r {
            Ok(cmds) => {
                &&& balanced(code@)
                &&& cmds@ == resolve(code@)
                &&& text_of(cmds@) == code@
                &&& linked(cmds@)
            },
            Err(ParseError::UnmatchedCloseBracket) => !never_negative(code@),
            Err(ParseError::UnmatchedOpenBracket) => never_negative(code@) && depth(
                code@,
                code.len() as int,
            ) > 0,
        },
{
    let mut cmds: Vec<BfCommand> = Vec::new();
    let mut open_locations: Vec<usize> = Vec::new();
    let mut i: usize = 0;
    while i < code.len()
        invariant
            i <= code.len(),
            cmds.len() == i,
            forall|j: int| 0 <= j < code.len() ==> is_command(#[trigger] code@[j]),
            forall|n: int| 0 <= n <= i ==> depth(code@, n) >= 0,
            open_locations.len() == depth(code@, i as int),
            forall|d: int| 0 <= d < open_locations.len() ==> pending(code@, open_locations@, i as int, d),
            forall|j: int| 0 <= j < i ==> settled(code@, cmds@, open_locations@, j),
        decreases code.len() - i,
    {
        let c = code[i];
        let ghost old_cmds = cmds@;
        let ghost old_open = open_locations@;
        let ghost next: int = i + 1;
        assert(is_command(code@[i as int]));
        assert(depth(code@, i + 1) == depth(code@, i as int) + crate::bracket::weight(c));
        if c == '[' {
            open_locations.push(i);
            cmds.push(BfCommand::BeginLoop { end_ptr: i });
            proof {
                assert forall|d: int| 0 <= d < open_locations.len() implies pending(
                    code@,
                    open_locations@,
                    next,
                    d,
                ) by {
                    if d < old_open.len() {
                        assert(pending(code@, old_open, i as int, d));
                    }
                }
                assert forall|j: int| 0 <= j < next implies settled(
                    code@,
                    cmds@,
                    open_locations@,
                    j,
                ) by {
                    if j < i {
                        assert(settled(code@, old_cmds, old_open, j));
                    }
                }
            }
        } else if c == ']' {
            match open_locations.pop() {
                None => {
                    assert(depth(code@, i + 1) < 0);
                    return Err(ParseError::UnmatchedCloseBracket);
                },
                Some(p) => {
                    assert(pending(code@, old_open, i as int, old_open.len() - 1));
                    cmds.set(p, BfCommand::BeginLoop { end_ptr: i });
                    cmds.push(BfCommand::EndLoop { begin_ptr: p });
                    proof {
                        assert(is_pair(code@, p as int, i as int));
                        assert forall|d: int| 0 <= d < open_locations.len() implies pending(
                            code@,
                            open_locations@,
                            next,
                            d,
                        ) by {
                            assert(pending(code@, old_open, i as int, d));
                        }
                        assert forall|j: int| 0 <= j < next implies settled(
                            code@,
                            cmds@,
                            open_locations@,
                            j,
                        ) by {
                            if j < i && j != p {
                                assert(settled(code@, old_cmds, old_open, j));
                            }
                        }
                    }
                },
            }
        } else {
            let cmd = if c == '>' {
                BfCommand::IncreaseDataPointer
            } else if c == '<' {
                BfCommand::DecreaseDataPointer
            } else if c == '+' {
                BfCommand::IncreaseData
            } else if c == '-' {
                BfCommand::DecreaseData
            } else if c == '.' {
                BfCommand::Output
            } else {
                BfCommand::Input
            };
            cmds.push(cmd);
            proof {
                assert forall|d: int| 0 <= d < open_locations.len() implies pending(
                    code@,
                    open_locations@,
                    next,
                    d,
                ) by {
                    assert(pending(code@, old_open, i as int, d));
                }
                assert forall|j: int| 0 <= j < next implies settled(
                    code@,
                    cmds@,
                    open_locations@,
                    j,
                ) by {
                    if j < i {
                        assert(settled(code@, old_cmds, old_open, j));
                    }
                }
            }
        }
        i += 1;
    }
    if open_locations.len() > 0 {
        return Err(ParseError::UnmatchedOpenBracket);
    }
    proof {
        assert(open_locations@ =~= Seq::<usize>::empty());
        lemma_settled_is_resolved(code@, cmds@);
    }
    Ok(cmds)
}

/// Whatever `commands_of` keeps is an instruction character.
pub proof fn lemma_commands_of_keeps_commands(s: Seq<char>)
    ensures
        forall|j: int| 0 <= j < commands_of(s).len() ==> is_command(#[trigger] commands_of(s)[j]),
    decreases s.len(),
{
    if s.len() > 0 {
        lemma_commands_of_keeps_commands(s.drop_last());
        let shorter = commands_of(s.drop_last());
        assert forall|j: int| 0 <= j < commands_of(s).len() implies is_command(
            #[trigger] commands_of(s)[j],
        ) by {
            if j < shorter.len() {
                assert(commands_of(s)[j] == shorter[j]);
            }
        }
    }
}

/// The instruction characters of a concatenation are those of its parts.
pub proof fn lemma_commands_of_concat(a: Seq<char>, b: Seq<char>)
    ensures
        commands_of(a + b) == commands_of(a) + commands_of(b),
    decreases b.len(),
{
    if b.len() == 0 {
        assert(a + b =~= a);
        assert(commands_of(a) + commands_of(b) =~= commands_of(a));
    } else {
        lemma_commands_of_concat(a, b.drop_last());
        assert((a + b).drop_last() =~= a + b.drop_last());
        assert((a + b).last() == b.last());
        if is_command(b.last()) {
            assert(commands_of(a + b) =~= commands_of(a) + commands_of(b));
        }
    }
}

/// A text without instruction characters has no commands.
pub proof fn lemma_commands_of_noise(t: Seq<char>)
    requires
        forall|k: int| 0 <= k < t.len() ==> !is_command(#[trigger] t[k]),
    ensures
        commands_of(t) == Seq::<char>::empty(),
    decreases t.len(),
{
    if t.len() > 0 {
        assert(!is_command(t[t.len() - 1]));
        lemma_commands_of_noise(t.drop_last());
    }
}

/// Characters outside the instruction alphabet are invisible: inserting
/// any run of them at any place of a source text changes neither whether
/// it parses, nor the error, nor any command or jump target.
pub proof fn lemma_noise_is_invisible(source: Seq<char>, at: int, noise: Seq<char>)
    requires
        0 <= at <= source.len(),
        forall|k: int| 0 <= k < noise.len() ==> !is_command(#[trigger] noise[k]),
    ensures
        commands_of(source.take(at) + noise + source.skip(at)) == commands_of(source),
        parse_spec(source.take(at) + noise + source.skip(at)) == parse_spec(source),
{
    let head = source.take(at);
    let tail = source.skip(at);
    lemma_commands_of_noise(noise);
    lemma_commands_of_concat(head, noise);
    lemma_commands_of_concat(head + noise, tail);
    lemma_commands_of_concat(head, tail);
    assert(head + tail =~= source);
    assert(commands_of(head) + Seq::<char>::empty() =~= commands_of(head));
}

/// Parsing depends on the instruction characters alone.
pub proof fn lemma_parse_depends_on_commands_only(a: Seq<char>, b: Seq<char>)
    requires
        commands_of(a) == commands_of(b),
    ensures
        parse_spec(a) == parse_spec(b),
{
}

/// Parsing succeeds exactly on the texts whose instruction characters
/// form a balanced bracket sequence. Otherwise the error tells which way
/// the balance fails: some prefix closes more than it opened, or no
/// prefix does and some `[` stays open at the end.
pub proof fn lemma_parse_ok_iff_balanced(source: Seq<char>)
    ensures
        parse_spec(source) is Ok <==> balanced(commands_of(source)),
        parse_spec(source) == Err::<Seq<BfCommand>, ParseError>(ParseError::UnmatchedCloseBracket)
            <==> !never_negative(commands_of(source)),
        parse_spec(source) == Err::<Seq<BfCommand>, ParseError>(ParseError::UnmatchedOpenBracket)
            <==> never_negative(commands_of(source)) && depth(
            commands_of(source),
            commands_of(source).len() as int,
        ) > 0,
{
    let code = commands_of(source);
    if never_negative(code) {
        assert(depth(code, code.len() as int) >= 0);
    }
}

/// The resolved sequence of a balanced text stands for that text and is
/// well formed: every loop command names its true partner.
pub proof fn lemma_resolve_well_formed(code: Seq<char>)
    requires
        balanced(code),
        code.len() <= usize::MAX,
        forall|j: int| 0 <= j < code.len() ==> is_command(#[trigger] code[j]),
    ensures
        text_of(resolve(code)) == code,
        well_formed(resolve(code)),
{
    let cmds = resolve(code);
    assert forall|j: int| 0 <= j < code.len() implies symbol(cmds[j]) == code[j] by {
        assert(is_command(code[j]));
    }
    assert(text_of(cmds) =~= code);
    assert forall|i: int| 0 <= i < cmds.len() implies match #[trigger] cmds[i] {
        BfCommand::BeginLoop { end_ptr } => is_pair(code, i, end_ptr as int),
        BfCommand::EndLoop { begin_ptr } => is_pair(code, begin_ptr as int, i),
        _ => true,
    } by {
        assert(is_command(code[i]));
        if code[i] == '[' {
            lemma_close_exists(code, i);
            assert(is_pair(code, i, partner(code, i)));
        } else if code[i] == ']' {
            lemma_open_exists(code, i);
            assert(is_pair(code, partner(code, i), i));
        }
    }
}

/// A program text has one resolution: two well-formed command sequences
/// that stand for the same text agree in every command and jump target.
pub proof fn lemma_resolution_unique(a: Seq<BfCommand>, b: Seq<BfCommand>)
    requires
        well_formed(a),
        well_formed(b),
        text_of(a) == text_of(b),
    ensures
        a == b,
{
    let code = text_of(a);
    assert(a.len() == b.len());
    assert forall|i: int| 0 <= i < a.len() implies a[i] == b[i] by {
        assert(symbol(a[i]) == code[i]);
        assert(symbol(b[i]) == text_of(b)[i]);
        match a[i] {
            BfCommand::BeginLoop { end_ptr } => {
                let other = b[i]->BeginLoop_end_ptr;
                lemma_close_unique(code, i, end_ptr as int, other as int);
            },
            BfCommand::EndLoop { begin_ptr } => {
                let other = b[i]->EndLoop_begin_ptr;
                lemma_open_unique(code, begin_ptr as int, other as int, i);
            },
            _ => {},
        }
    }
    assert(a =~= b);
}

/// A parsed program: a well-formed command sequence.
#[derive(Debug)]
pub struct BfCommands(Vec<BfCommand>);

impl View for BfCommands {
    type V = Seq<BfCommand>;

    closed spec fn view(&self) -> Seq<BfCommand> {
        self.0@
    }
}

impl BfCommands {
    #[verifier::type_invariant]
    spec fn inv(self) -> bool {
        well_formed(self.0@)
    }

    /// Parses `s`, ignoring every character outside the instruction
    /// alphabet, and resolves each bracket to the index of its partner.
    pub fn from_str(s: &str) -> (r: Result<BfCommands, ParseError>)
        ensures
            match r {
                Ok(p) => parse_spec(s@) == Ok::<Seq<BfCommand>, ParseError>(p@) && well_formed(p@),
                Err(e) => parse_spec(s@) == Err::<Seq<BfCommand>, ParseError>(e),
            },
    {
        let code = command_chars(s);
        proof {
            lemma_commands_of_keeps_commands(s@);
        }
        match resolve_brackets(&code) {
            Ok(cmds) => Ok(BfCommands(cmds)),
            Err(e) => Err(e),
        }
    }

    /// The number of commands.
    pub fn len(&self) -> (n: usize)
        ensures
            n == self@.len(),
    {
        self.0.len()
    }

    /// The commands in program order.
    pub fn as_slice(&self) -> (cmds: &[BfCommand])
        ensures
            cmds@ == self@,
            well_formed(self@),
    {
        proof {
            use_type_invariant(self);
        }
        self.0.as_slice()
    }
}

} // verus!
