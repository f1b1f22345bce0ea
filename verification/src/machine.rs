//! Execution: the abstract machine, its step relation, and the program
//! that carries it out on a growable byte tape.

use vstd::prelude::*;
use crate::command::BfCommand;
use crate::bracket::is_pair;
use crate::parser::{text_of, well_formed, BfCommands};

verus! {

/// Why a run stopped before the end of the program.
#[derive(Clone, Copy, Debug, PartialEq, Eq, Structural)]
pub enum RuntimeError {
    /// A move to the left of the first cell.
    DataPointerUnderflow,
    /// A read when every input byte has been consumed.
    InputExhausted,
}

/// How a run that met no error came to rest.
#[derive(Clone, Copy, Debug, PartialEq, Eq, Structural)]
pub enum RunStatus {
    /// The instruction pointer has left the program.
    Finished,
    /// The step budget ran out first; the run can be resumed.
    Suspended,
}

/// The state of the abstract machine.
pub struct MachineState {
    /// Index of the next command.
    pub ins_ptr: nat,
    /// Index of the current cell.
    pub data_ptr: nat,
    /// The cells allocated so far.
    pub data: Seq<u8>,
    /// Every input byte supplied so far.
    pub input: Seq<u8>,
    /// How many input bytes have been read.
    pub consumed: nat,
    /// Every byte written so far.
    pub output: Seq<u8>,
}

/// The state in which every run starts: empty tape, both pointers at zero.
pub open spec fn initial_state(input: Seq<u8>) -> MachineState {
    MachineState {
        ins_ptr: 0,
        data_ptr: 0,
        data: Seq::empty(),
        input,
        consumed: 0,
        output: Seq::empty(),
    }
}

/// `data`, extended with zero cells as far as needed to hold cell `p`.
pub open spec fn grown(data: Seq<u8>, p: nat) -> Seq<u8> {
    if p < data.len() {
        data
    } else {
        data + Seq::new((p + 1 - data.len()) as nat, |i: int| 0u8)
    }
}

/// The value of cell `p`, whether or not the tape reaches it yet.
pub open spec fn cell(data: Seq<u8>, p: nat) -> u8 {
    if p < data.len() {
        data[p as int]
    } else {
        0
    }
}

/// `v + 1` modulo 256.
pub open spec fn wrap_inc(v: u8) -> u8 {
    ((v + 1) % 256) as u8
}

/// `v - 1` modulo 256.
pub open spec fn wrap_dec(v: u8) -> u8 {
    ((v + 255) % 256) as u8
}

/// The instruction pointer has left the program.
pub open spec fn halted(cmds: Seq<BfCommand>, m: MachineState) -> bool {
    m.ins_ptr >= cmds.len()
}

/// The error, if any, that the next command raises in state `m`.
pub open spec fn fault_of(cmds: Seq<BfCommand>, m: MachineState) -> Option<RuntimeError> {
    if halted(cmds, m) {
        None
    } else {
        match cmds[m.ins_ptr as int] {
            BfCommand::DecreaseDataPointer => if m.data_ptr == 0 {
                Some(RuntimeError::DataPointerUnderflow)
            } else {
                None
            },
            BfCommand::Input => if m.consumed >= m.input.len() {
                Some(RuntimeError::InputExhausted)
            } else {
                None
            },
            _ => None,
        }
    }
}

/// The state after the next command. A halted machine stays as it is. A
/// command that raises an error changes nothing but the tape's length,
/// which has been extended to hold the current cell.
pub open spec fn step_spec(cmds: Seq<BfCommand>, m: MachineState) -> MachineState {
    if halted(cmds, m) {
        m
    } else {
        let data = grown(m.data, m.data_ptr);
        let p = m.data_ptr as int;
        let v = data[p];
        let g = MachineState { data, ..m };
        let next = m.ins_ptr + 1;
        if fault_of(cmds, m) is Some {
            g
        } else {
            match cmds[m.ins_ptr as int] {
                BfCommand::IncreaseDataPointer => MachineState {
                    data_ptr: m.data_ptr + 1,
                    ins_ptr: next,
                    ..g
                },
                BfCommand::DecreaseDataPointer => MachineState {
                    data_ptr: (m.data_ptr - 1) as nat,
                    ins_ptr: next,
                    ..g
                },
                BfCommand::IncreaseData => MachineState {
                    data: data.update(p, wrap_inc(v)),
                    ins_ptr: next,
                    ..g
                },
                BfCommand::DecreaseData => MachineState {
                    data: data.update(p, wrap_dec(v)),
                    ins_ptr: next,
                    ..g
                },
                BfCommand::Output => MachineState { output: m.output.push(v), ins_ptr: next, ..g },
                BfCommand::Input => MachineState {
                    data: data.update(p, m.input[m.consumed as int]),
                    consumed: m.consumed + 1,
                    ins_ptr: next,
                    ..g
                },
                BfCommand::BeginLoop { end_ptr } => MachineState {
                    ins_ptr: if v == 0 {
                        (end_ptr + 1) as nat
                    } else {
                        next
                    },
                    ..g
                },
                BfCommand::EndLoop { begin_ptr } => MachineState {
                    ins_ptr: if v != 0 {
                        (begin_ptr + 1) as nat
                    } else {
                        next
                    },
                    ..g
                },
            }
        }
    }
}

/// The result of running from `m` for at most `fuel` commands: the state
/// reached, and whether the run finished, failed, or ran out of budget.
pub open spec fn run_spec(cmds: Seq<BfCommand>, m: MachineState, fuel: nat) -> (
    MachineState,
    Result<RunStatus, RuntimeError>,
)
    decreases fuel,
{
    if halted(cmds, m) {
        (m, Ok(RunStatus::Finished))
    } else if fuel == 0 {
        (m, Ok(RunStatus::Suspended))
    } else if let Some(e) = fault_of(cmds, m) {
        (step_spec(cmds, m), Err(e))
    } else {
        run_spec(cmds, step_spec(cmds, m), (fuel - 1) as nat)
    }
}

/// Cell arithmetic wraps at both ends of the byte range, and the two
/// operations undo each other.
pub proof fn lemma_wrap(v: u8)
    ensures
        wrap_inc(v) == if v == 255 { 0 } else { v + 1 },
        wrap_dec(v) == if v == 0 { 255 } else { v - 1 },
        wrap_dec(wrap_inc(v)) == v,
        wrap_inc(wrap_dec(v)) == v,
{
}

/// Growing the tape keeps every cell it had, adds only zero cells, and
/// adds exactly as many as cell `p` needs.
pub proof fn lemma_grown(data: Seq<u8>, p: nat)
    ensures
        grown(data, p).len() == if p < data.len() { data.len() } else { p + 1 },
        forall|q: int| 0 <= q < data.len() ==> grown(data, p)[q] == data[q],
        forall|q: int| data.len() <= q < grown(data, p).len() ==> grown(data, p)[q] == 0,
        forall|q: nat| cell(grown(data, p), q) == cell(data, q),
{
    assert forall|q: nat| cell(grown(data, p), q) == cell(data, q) by {
        if q < grown(data, p).len() && q >= data.len() {
            assert(grown(data, p)[q as int] == 0);
        }
    }
}

/// One step never shrinks the tape. It extends it, with zeros, exactly as
/// far as the current cell requires, so a cell reached for the first time
/// holds zero; and it leaves every cell but the current one as it was.
pub proof fn lemma_step_tape(cmds: Seq<BfCommand>, m: MachineState)
    ensures
        step_spec(cmds, m).data.len() >= m.data.len(),
        halted(cmds, m) ==> step_spec(cmds, m).data == m.data,
        !halted(cmds, m) ==> step_spec(cmds, m).data.len() == if m.data_ptr < m.data.len() {
            m.data.len()
        } else {
            m.data_ptr + 1
        },
        forall|q: nat| q != m.data_ptr ==> cell(step_spec(cmds, m).data, q) == cell(m.data, q),
        m.data_ptr >= m.data.len() ==> grown(m.data, m.data_ptr)[m.data_ptr as int] == 0,
{
    lemma_grown(m.data, m.data_ptr);
    assert forall|q: nat| q != m.data_ptr implies cell(step_spec(cmds, m).data, q) == cell(
        m.data,
        q,
    ) by {
        assert(cell(grown(m.data, m.data_ptr), q) == cell(m.data, q));
    }
}

/// However long a run lasts and however it ends, the tape it leaves is at
/// least as long as the tape it started with, and the program's output
/// and consumed input only grow.
pub proof fn lemma_run_monotonic(cmds: Seq<BfCommand>, m: MachineState, fuel: nat)
    ensures
        run_spec(cmds, m, fuel).0.data.len() >= m.data.len(),
        run_spec(cmds, m, fuel).0.consumed >= m.consumed,
        run_spec(cmds, m, fuel).0.input == m.input,
        m.output.is_prefix_of(run_spec(cmds, m, fuel).0.output),
    decreases fuel,
{
    lemma_step_tape(cmds, m);
    if !halted(cmds, m) && fuel > 0 && fault_of(cmds, m) is None {
        let next = step_spec(cmds, m);
        lemma_run_monotonic(cmds, next, (fuel - 1) as nat);
        assert(m.output.is_prefix_of(next.output));
    }
}

/// A run can be cut anywhere: running for `a` commands and, if that ran
/// out of budget, for `b` more, is running for `a + b`.
pub proof fn lemma_run_resumes(cmds: Seq<BfCommand>, m: MachineState, a: nat, b: nat)
    ensures
        run_spec(cmds, m, a + b) == if run_spec(cmds, m, a).1 == Ok::<RunStatus, RuntimeError>(
            RunStatus::Suspended,
        ) {
            run_spec(cmds, run_spec(cmds, m, a).0, b)
        } else {
            run_spec(cmds, m, a)
        },
    decreases a,
{
    if !halted(cmds, m) && a > 0 && fault_of(cmds, m) is None {
        lemma_run_resumes(cmds, step_spec(cmds, m), (a - 1) as nat, b);
        assert((a + b - 1) as nat == (a - 1) as nat + b);
    }
}

/// In a well-formed program a jump lands inside the loop it belongs to:
/// a `[` on a zero cell continues just after its `]`, a `]` on a non-zero
/// cell continues just after its `[`, and the instruction pointer never
/// passes the end of the program.
pub proof fn lemma_step_stays_in_program(cmds: Seq<BfCommand>, m: MachineState)
    requires
        well_formed(cmds),
        m.ins_ptr <= cmds.len(),
    ensures
        step_spec(cmds, m).ins_ptr <= cmds.len(),
        !halted(cmds, m) ==> match cmds[m.ins_ptr as int] {
            BfCommand::BeginLoop { end_ptr } => {
                &&& is_pair(text_of(cmds), m.ins_ptr as int, end_ptr as int)
                &&& step_spec(cmds, m).ins_ptr == if cell(m.data, m.data_ptr) == 0 {
                    end_ptr as int + 1
                } else {
                    m.ins_ptr as int + 1
                }
            },
            BfCommand::EndLoop { begin_ptr } => {
                &&& is_pair(text_of(cmds), begin_ptr as int, m.ins_ptr as int)
                &&& step_spec(cmds, m).ins_ptr == if cell(m.data, m.data_ptr) != 0 {
                    begin_ptr as int + 1
                } else {
                    m.ins_ptr as int + 1
                }
            },
            _ => fault_of(cmds, m) is None ==> step_spec(cmds, m).ins_ptr == m.ins_ptr + 1,
        },
{
    lemma_grown(m.data, m.data_ptr);
    if !halted(cmds, m) {
        let i = m.ins_ptr as int;
        assert(cell(grown(m.data, m.data_ptr), m.data_ptr) == cell(m.data, m.data_ptr));
        match cmds[i] {
            BfCommand::BeginLoop { end_ptr } => {
                assert(is_pair(text_of(cmds), i, end_ptr as int));
            },
            BfCommand::EndLoop { begin_ptr } => {
                assert(is_pair(text_of(cmds), begin_ptr as int, i));
            },
            _ => {},
        }
    }
}

/// A program together with the machine that runs it.
#[derive(Debug)]
pub struct BfProgram {
    commands: BfCommands,
    data: Vec<u8>,
    data_ptr: usize,
    ins_ptr: usize,
    input: Vec<u8>,
    input_pos: usize,
    output: Vec<u8>,
}

impl View for BfProgram {
    type V = MachineState;

    closed spec fn view(&self) -> MachineState {
        MachineState {
            ins_ptr: self.ins_ptr as nat,
            data_ptr: self.data_ptr as nat,
            data: self.data@,
            input: self.input@,
            consumed: self.input_pos as nat,
            output: self.output@,
        }
    }
}

impl BfProgram {
    /// The command sequence that this machine runs.
    pub closed spec fn commands(&self) -> Seq<BfCommand> {
        self.commands@
    }

    /// A machine at the start of `commands`, with an empty tape and no
    /// input supplied yet.
    pub fn new(commands: BfCommands) -> (program: BfProgram)
        ensures
            program@ == initial_state(Seq::empty()),
            program.commands() == commands@,
    {
        BfProgram {
            commands,
            data: Vec::new(),
            data_ptr: 0,
            ins_ptr: 0,
            input: Vec::new(),
            input_pos: 0,
            output: Vec::new(),
        }
    }

    /// Executes the next command, if there is one.
    pub fn step(&mut self) -> (r: Result<(), RuntimeError>)
        ensures
            final(self)@ == step_spec(old(self).commands(), old(self)@),
            final(self).commands() == old(self).commands(),
            r == match fault_of(old(self).commands(), old(self)@) {
                Some(e) => Err::<(), RuntimeError>(e),
                None => Ok::<(), RuntimeError>(()),
            },
    {
        let cmds = self.commands.as_slice();
        if self.ins_ptr >= cmds.len() {
            return Ok(());
        }
        let ghost before = self.data@;
        while self.data.len() <= self.data_ptr
            invariant
                self.data@.len() > before.len() ==> self.data@.len() <= self.data_ptr + 1,
                before.len() <= self.data@.len(),
                self.data@ == before + Seq::new(
                    (self.data@.len() - before.len()) as nat,
                    |i: int| 0u8,
                ),
                self.data_ptr == old(self).data_ptr,
                self.ins_ptr == old(self).ins_ptr,
                self.input == old(self).input,
                self.input_pos == old(self).input_pos,
                self.output == old(self).output,
                self.commands == old(self).commands,
            decreases self.data_ptr + 1 - self.data@.len(),
        {
            self.data.push(0);
            assert(self.data@ =~= before + Seq::new(
                (self.data@.len() - before.len()) as nat,
                |i: int| 0u8,
            ));
        }
        assert(self.data@ =~= grown(before, self.data_ptr as nat));
        let p = self.data_ptr;
        let v = self.data[p];
        match cmds[self.ins_ptr] {
            BfCommand::IncreaseDataPointer => {
                self.data_ptr += 1;
            },
            BfCommand::DecreaseDataPointer => {
                if self.data_ptr == 0 {
                    return Err(RuntimeError::DataPointerUnderflow);
                }
                self.data_ptr -= 1;
            },
            BfCommand::IncreaseData => {
                self.data.set(p, v.wrapping_add(1));
            },
            BfCommand::DecreaseData => {
                self.data.set(p, v.wrapping_sub(1));
            },
            BfCommand::Output => {
                self.output.push(v);
            },
            BfCommand::Input => {
                if self.input_pos >= self.input.len() {
                    return Err(RuntimeError::InputExhausted);
                }
                let byte = self.input[self.input_pos];
                self.data.set(p, byte);
                self.input_pos += 1;
            },
            BfCommand::BeginLoop { end_ptr } => {
                if v == 0 {
                    self.ins_ptr = end_ptr;
                }
            },
            BfCommand::EndLoop { begin_ptr } => {
                if v != 0 {
                    self.ins_ptr = begin_ptr;
                }
            },
        }
        self.ins_ptr += 1;
        Ok(())
    }

    /// Runs until the program ends, a command fails, or `fuel` commands
    /// have been executed, whichever comes first.
    pub fn run(&mut self, fuel: u64) -> (r: Result<RunStatus, RuntimeError>)
        ensures
            (final(self)@, r) == run_spec(old(self).commands(), old(self)@, fuel as nat),
            final(self).commands() == old(self).commands(),
    {
        let mut left = fuel;
        loop
            invariant
                self.commands() == old(self).commands(),
                run_spec(self.commands(), self@, left as nat) == run_spec(
                    old(self).commands(),
                    old(self)@,
                    fuel as nat,
                ),
            decreases left,
        {
            if self.is_halted() {
                return Ok(RunStatus::Finished);
            }
            if left == 0 {
                return Ok(RunStatus::Suspended);
            }
            match self.step() {
                Ok(()) => {},
                Err(e) => {
                    return Err(e);
                },
            }
            left -= 1;
        }
    }

    /// Whether the instruction pointer has left the program.
    pub fn is_halted(&self) -> (b: bool)
        ensures
            b == halted(self.commands(), self@),
    {
        self.ins_ptr >= self.commands.len()
    }

    /// Appends `bytes` to the input that the program may read.
    pub fn feed(&mut self, bytes: &[u8])
        ensures
            final(self)@ == (MachineState { input: old(self)@.input + bytes@, ..old(self)@ }),
            final(self).commands() == old(self).commands(),
    {
        let ghost before = self.input@;
        let mut i: usize = 0;
        while i < bytes.len()
            invariant
                i <= bytes.len(),
                self.input@ == before + bytes@.take(i as int),
                self.data == old(self).data,
                self.data_ptr == old(self).data_ptr,
                self.ins_ptr == old(self).ins_ptr,
                self.input_pos == old(self).input_pos,
                self.output == old(self).output,
                self.commands == old(self).commands,
            decreases bytes.len() - i,
        {
            self.input.push(bytes[i]);
            i += 1;
            assert(self.input@ =~= before + bytes@.take(i as int));
        }
        assert(bytes@.take(i as int) =~= bytes@);
    }

    /// Hands over the bytes written since the last call.
    pub fn take_output(&mut self) -> (bytes: Vec<u8>)
        ensures
            bytes@ == old(self)@.output,
            final(self)@ == (MachineState { output: Seq::empty(), ..old(self)@ }),
            final(self).commands() == old(self).commands(),
    {
        let mut bytes: Vec<u8> = Vec::new();
        bytes.append(&mut self.output);
        assert(bytes@ =~= old(self)@.output);
        bytes
    }

    /// The cells allocated so far.
    pub fn data(&self) -> (cells: &[u8])
        ensures
            cells@ == self@.data,
    {
        self.data.as_slice()
    }

    /// The index of the current cell.
    pub fn data_ptr(&self) -> (p: usize)
        ensures
            p == self@.data_ptr,
    {
        self.data_ptr
    }

    /// The index of the next command.
    pub fn ins_ptr(&self) -> (p: usize)
        ensures
            p == self@.ins_ptr,
    {
        self.ins_ptr
    }

    /// The bytes written and not yet taken.
    pub fn output(&self) -> (bytes: &[u8])
        ensures
            bytes@ == self@.output,
    {
        self.output.as_slice()
    }
}

} // verus!
