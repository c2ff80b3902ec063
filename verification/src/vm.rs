use vstd::prelude::*;
use vstd::pervasive::VecAdditionalExecFns;

verus! {

/// Number of cells on the tape.
pub const TAPE_LEN: usize = 30000;

/// The eight opcodes, by byte value. Any other byte is inert.
pub const OP_RIGHT: u8 = 62;

pub const OP_LEFT: u8 = 60;

pub const OP_INC: u8 = 43;

pub const OP_DEC: u8 = 45;

pub const OP_OUT: u8 = 46;

pub const OP_IN: u8 = 44;

pub const OP_OPEN: u8 = 91;

pub const OP_CLOSE: u8 = 93;

/// True of the eight bytes the machine acts on.
pub open spec fn is_opcode(b: u8) -> bool {
    b == OP_RIGHT || b == OP_LEFT || b == OP_INC || b == OP_DEC || b == OP_OUT || b == OP_IN
        || b == OP_OPEN || b == OP_CLOSE
}

/// Everything that can cut a run short. Each failure is fatal to the run it
/// occurs in; the caller decides whether it is fatal to anything more.
#[derive(Clone, Copy, Debug, PartialEq, Eq, Structural)]
pub enum VMError {
    /// `>` would move the data pointer past the last cell.
    DataPointerOverflow,
    /// `<` would move the data pointer below the first cell.
    DataPointerUnderflow,
    /// `+` on a cell already at 255.
    CellOverflow,
    /// `-` on a cell already at 0.
    CellUnderflow,
    /// The output sink refused a write. A growable in-memory buffer, the one
    /// sink this machine drives, never does.
    OutputFailure,
    /// `,` with the input source exhausted.
    InputFailure,
    /// `[` with no matching `]` before the program ends.
    UnmatchedOpenBracket,
    /// `]` with no matching `[` before the program starts.
    UnmatchedCloseBracket,
}

/// The result of running the machine.
#[derive(Clone, Copy, Debug, PartialEq, Eq, Structural)]
pub enum VMResult {
    Error(VMError),
    Success,
}

/// The full state of a machine mid-run, as mathematical values. The `input`
/// field holds the bytes not yet read; `output` the bytes written so far.
pub struct MachineState {
    pub prog: Seq<u8>,
    pub ip: nat,
    pub dp: nat,
    pub tape: Seq<u8>,
    pub input: Seq<u8>,
    pub output: Seq<u8>,
}

/// What one step of the machine leaves behind.
pub enum StepResult {
    Running(MachineState),
    Done(MachineState),
    Failed(VMError, MachineState),
}

/// The position of the `]` that closes the bracket pair entered with `depth`
/// open brackets outstanding, scanning forward from `i`; `None` when the scan
/// runs off the end of the program.
pub open spec fn matching_close(prog: Seq<u8>, i: nat, depth: nat) -> Option<nat>
    decreases prog.len() - i,
{
    if i >= prog.len() {
        None
    } else if prog[i as int] == OP_CLOSE {
        if depth <= 1 {
            Some(i)
        } else {
            matching_close(prog, i + 1, (depth - 1) as nat)
        }
    } else if prog[i as int] == OP_OPEN {
        matching_close(prog, i + 1, depth + 1)
    } else {
        matching_close(prog, i + 1, depth)
    }
}

/// The position of the `[` that opens the bracket pair left with `depth`
/// close brackets outstanding, scanning backward from `i`; `None` when the
/// scan runs off the start of the program.
pub open spec fn matching_open(prog: Seq<u8>, i: int, depth: nat) -> Option<nat>
    decreases i + 1,
{
    if i < 0 || i >= prog.len() {
        None
    } else if prog[i] == OP_OPEN {
        if depth <= 1 {
            Some(i as nat)
        } else {
            matching_open(prog, i - 1, (depth - 1) as nat)
        }
    } else if prog[i] == OP_CLOSE {
        matching_open(prog, i - 1, depth + 1)
    } else {
        matching_open(prog, i - 1, depth)
    }
}

/// One step of the machine: consult the byte under `ip` and act on it.
/// A taken `[` lands just past its matching `]`; a taken `]` lands on its
/// matching `[`, whose test then fails no harm since the cell is nonzero.
pub open spec fn step_spec(s: MachineState) -> StepResult {
    if s.ip >= s.prog.len() {
        StepResult::Done(s)
    } else {
        let op = s.prog[s.ip as int];
        if op == OP_RIGHT {
            if s.dp + 1 < TAPE_LEN {
                StepResult::Running(MachineState { ip: s.ip + 1, dp: s.dp + 1, ..s })
            } else {
                StepResult::Failed(VMError::DataPointerOverflow, s)
            }
        } else if op == OP_LEFT {
            if s.dp > 0 {
                StepResult::Running(MachineState { ip: s.ip + 1, dp: (s.dp - 1) as nat, ..s })
            } else {
                StepResult::Failed(VMError::DataPointerUnderflow, s)
            }
        } else if op == OP_INC {
            if s.tape[s.dp as int] < 255 {
                StepResult::Running(
                    MachineState {
                        ip: s.ip + 1,
                        tape: s.tape.update(s.dp as int, (s.tape[s.dp as int] + 1) as u8),
                        ..s
                    },
                )
            } else {
                StepResult::Failed(VMError::CellOverflow, s)
            }
        } else if op == OP_DEC {
            if s.tape[s.dp as int] > 0 {
                StepResult::Running(
                    MachineState {
                        ip: s.ip + 1,
                        tape: s.tape.update(s.dp as int, (s.tape[s.dp as int] - 1) as u8),
                        ..s
                    },
                )
            } else {
                StepResult::Failed(VMError::CellUnderflow, s)
            }
        } else if op == OP_OUT {
            StepResult::Running(
                MachineState { ip: s.ip + 1, output: s.output.push(s.tape[s.dp as int]), ..s },
            )
        } else if op == OP_IN {
            if s.input.len() > 0 {
                StepResult::Running(
                    MachineState {
                        ip: s.ip + 1,
                        tape: s.tape.update(s.dp as int, s.input[0]),
                        input: s.input.skip(1),
                        ..s
                    },
                )
            } else {
                StepResult::Failed(VMError::InputFailure, s)
            }
        } else if op == OP_OPEN {
            if s.tape[s.dp as int] == 0 {
                match matching_close(s.prog, s.ip + 1, 1) {
                    Some(j) => StepResult::Running(MachineState { ip: j + 1, ..s }),
                    None => StepResult::Failed(VMError::UnmatchedOpenBracket, s),
                }
            } else {
                StepResult::Running(MachineState { ip: s.ip + 1, ..s })
            }
        } else if op == OP_CLOSE {
            if s.tape[s.dp as int] != 0 {
                match matching_open(s.prog, s.ip - 1, 1) {
                    Some(j) => StepResult::Running(MachineState { ip: j, ..s }),
                    None => StepResult::Failed(VMError::UnmatchedCloseBracket, s),
                }
            } else {
                StepResult::Running(MachineState { ip: s.ip + 1, ..s })
            }
        } else {
            StepResult::Running(MachineState { ip: s.ip + 1, ..s })
        }
    }
}

/// `fuel` steps of the machine, or fewer if it halts first. `Running` means
/// the fuel ran out with the machine still going.
pub open spec fn run_spec(s: MachineState, fuel: nat) -> StepResult
    decreases fuel,
{
    if fuel == 0 {
        StepResult::Running(s)
    } else {
        match step_spec(s) {
            StepResult::Running(s2) => run_spec(s2, (fuel - 1) as nat),
            r => r,
        }
    }
}

/// The state a machine starts a run in: both pointers at 0, the tape all
/// zeroes, nothing yet read or written.
pub open spec fn init_state(prog: Seq<u8>, input: Seq<u8>) -> MachineState {
    MachineState {
        prog: prog,
        ip: 0,
        dp: 0,
        tape: Seq::new(TAPE_LEN as nat, |i: int| 0u8),
        input: input,
        output: Seq::empty(),
    }
}

/// The halted `StepResult` that a run returning `r` and leaving state `s`
/// claims to have reached.
pub open spec fn as_outcome(r: VMResult, s: MachineState) -> StepResult {
    match r {
        VMResult::Success => StepResult::Done(s),
        VMResult::Error(e) => StepResult::Failed(e, s),
    }
}

/// True when `sr` is a halt with verdict `r` and output `out`.
pub open spec fn outcome_matches(sr: StepResult, r: VMResult, out: Seq<u8>) -> bool {
    match sr {
        StepResult::Running(_) => false,
        StepResult::Done(fin) => r == VMResult::Success && fin.output == out,
        StepResult::Failed(e, fin) => r == VMResult::Error(e) && fin.output == out,
    }
}

/// True when some number of steps from `init` halts with verdict `r` having
/// written exactly `out`.
pub open spec fn halts_with(init: MachineState, r: VMResult, out: Seq<u8>) -> bool {
    exists|n: nat| outcome_matches(#[trigger] run_spec(init, n), r, out)
}

/// Extending a run that is still going by one step runs that step.
pub proof fn lemma_run_spec_step(s0: MachineState, n: nat, s1: MachineState)
    requires
        run_spec(s0, n) == StepResult::Running(s1),
    ensures
        run_spec(s0, n + 1) == step_spec(s1),
    decreases n,
{
    if n == 0 {
        assert(run_spec(s0, n) == StepResult::Running(s0));
        assert(s1 == s0);
        match step_spec(s0) {
            StepResult::Running(s2) => {
                assert(run_spec(s2, 0) == StepResult::Running(s2));
                assert(run_spec(s0, 1) == StepResult::Running(s2));
            },
            _ => {
                assert(run_spec(s0, 1) == step_spec(s0));
            },
        }
    } else {
        match step_spec(s0) {
            StepResult::Running(s2) => {
                assert(run_spec(s0, n) == run_spec(s2, (n - 1) as nat));
                lemma_run_spec_step(s2, (n - 1) as nat, s1);
                assert(run_spec(s0, n + 1) == run_spec(s2, n));
            },
            _ => {
                assert(run_spec(s0, n) == step_spec(s0));
            },
        }
    }
}

/// A halted run stays halted at the same verdict, however much more fuel it
/// is given.
pub proof fn lemma_run_spec_stable(s: MachineState, n: nat, m: nat)
    requires
        n <= m,
        !(run_spec(s, n) is Running),
    ensures
        run_spec(s, m) == run_spec(s, n),
    decreases n,
{
    if n == 0 {
        assert(run_spec(s, 0) == StepResult::Running(s));
    } else {
        match step_spec(s) {
            StepResult::Running(s2) => {
                assert(run_spec(s, n) == run_spec(s2, (n - 1) as nat));
                assert(run_spec(s, m) == run_spec(s2, (m - 1) as nat));
                lemma_run_spec_stable(s2, (n - 1) as nat, (m - 1) as nat);
            },
            _ => {
                assert(run_spec(s, n) == step_spec(s));
                assert(run_spec(s, m) == step_spec(s));
            },
        }
    }
}

/// Interpreter determinism: a fixed starting state — program, input and all —
/// halts at one verdict only, whatever two step counts catch it halted.
pub proof fn lemma_run_deterministic(s: MachineState, n: nat, m: nat)
    requires
        !(run_spec(s, n) is Running),
        !(run_spec(s, m) is Running),
    ensures
        run_spec(s, n) == run_spec(s, m),
{
    if n <= m {
        lemma_run_spec_stable(s, n, m);
    } else {
        lemma_run_spec_stable(s, m, n);
    }
}

/// Interpreter determinism at the run's level: a fixed program on a fixed
/// input halts with one verdict and one output, however many times it is
/// run.
pub proof fn lemma_halts_with_unique(
    init: MachineState,
    r1: VMResult,
    out1: Seq<u8>,
    r2: VMResult,
    out2: Seq<u8>,
)
    requires
        halts_with(init, r1, out1),
        halts_with(init, r2, out2),
    ensures
        r1 == r2,
        out1 == out2,
{
    let n1 = choose|n: nat| outcome_matches(#[trigger] run_spec(init, n), r1, out1);
    let n2 = choose|n: nat| outcome_matches(#[trigger] run_spec(init, n), r2, out2);
    lemma_run_deterministic(init, n1, n2);
}

/// Bracket correctness, forward: what the scan finds is a `]`, inside the
/// program and no earlier than where the scan began.
pub proof fn lemma_matching_close_is_close(prog: Seq<u8>, i: nat, depth: nat)
    requires
        matching_close(prog, i, depth) is Some,
    ensures
        match matching_close(prog, i, depth) {
            Some(j) => i <= j < prog.len() && prog[j as int] == OP_CLOSE,
            None => false,
        },
    decreases prog.len() - i,
{
    if i >= prog.len() {
    } else if prog[i as int] == OP_CLOSE && depth <= 1 {
    } else if prog[i as int] == OP_CLOSE {
        lemma_matching_close_is_close(prog, i + 1, (depth - 1) as nat);
    } else if prog[i as int] == OP_OPEN {
        lemma_matching_close_is_close(prog, i + 1, depth + 1);
    } else {
        lemma_matching_close_is_close(prog, i + 1, depth);
    }
}

/// Bracket correctness, backward: what the scan finds is a `[`, inside the
/// program and no later than where the scan began.
pub proof fn lemma_matching_open_is_open(prog: Seq<u8>, i: int, depth: nat)
    requires
        matching_open(prog, i, depth) is Some,
    ensures
        match matching_open(prog, i, depth) {
            Some(j) => 0 <= j <= i && j < prog.len() && prog[j as int] == OP_OPEN,
            None => false,
        },
    decreases i + 1,
{
    if i < 0 || i >= prog.len() {
    } else if prog[i] == OP_OPEN && depth <= 1 {
    } else if prog[i] == OP_OPEN {
        lemma_matching_open_is_open(prog, i - 1, (depth - 1) as nat);
    } else if prog[i] == OP_CLOSE {
        lemma_matching_open_is_open(prog, i - 1, depth + 1);
    } else {
        lemma_matching_open_is_open(prog, i - 1, depth);
    }
}

/// What the machine should do after one instruction.
enum VMAction {
    EOF,
    Error(VMError),
    JumpForward,
    JumpBackward,
    Advance,
}

/// A virtual machine to run a program: the program and its instruction
/// pointer, the tape and its data pointer, an input buffer read front to
/// back, and an output buffer.
pub struct VM {
    prog: Vec<u8>,
    iptr: usize,
    dptr: usize,
    data: Vec<u8>,
    input: Vec<u8>,
    in_pos: usize,
    output: Vec<u8>,
}

impl View for VM {
    type V = MachineState;

    /// The machine as mathematical state; what is left of the input is the
    /// part past `in_pos`.
    closed spec fn view(&self) -> MachineState {
        MachineState {
            prog: self.prog@,
            ip: self.iptr as nat,
            dp: self.dptr as nat,
            tape: self.data@,
            input: self.input@.skip(self.in_pos as int),
            output: self.output@,
        }
    }
}

impl VM {
    /// The machine's internal soundness: a full-length tape, the data
    /// pointer on it, the input position inside the buffer.
    pub closed spec fn wf(&self) -> bool {
        &&& self.data@.len() == TAPE_LEN
        &&& self.dptr < TAPE_LEN
        &&& self.in_pos <= self.input@.len()
    }

    /// Create a new virtual machine for a program, fed by `input`.
    pub fn new(prog: Vec<u8>, input: Vec<u8>) -> (vm: VM)
        ensures
            vm.wf(),
            vm@ == init_state(prog@, input@),
    {
        let ghost prog_view = prog@;
        let ghost input_view = input@;
        let mut data: Vec<u8> = Vec::new();
        let mut i: usize = 0;
        while i < TAPE_LEN
            invariant
                i <= TAPE_LEN,
                data@.len() == i,
                forall|k: int| 0 <= k < i ==> data@[k] == 0u8,
            decreases TAPE_LEN - i,
        {
            data.push(0);
            i += 1;
        }
        let vm = VM { prog, iptr: 0, dptr: 0, data, input, in_pos: 0, output: Vec::new() };
        proof {
            assert(vm@.tape =~= init_state(prog_view, input_view).tape);
            assert(vm@.input =~= input_view);
            assert(vm@.output =~= Seq::<u8>::empty());
            assert(vm@ == init_state(prog_view, input_view));
        }
        vm
    }

    /// The bytes the program has written so far.
    pub fn into_output(self) -> (out: Vec<u8>)
        ensures
            out@ == self@.output,
    {
        self.output
    }

    /// Process the instruction under the instruction pointer. Pointer moves,
    /// arithmetic, reads, writes and untaken branches happen here, exactly
    /// one `step_spec` step; a taken branch is handed back to `run`, which
    /// does the scan, and the machine is left untouched.
    fn step(&mut self) -> (a: VMAction)
        requires
            old(self).wf(),
        ensures
            final(self).wf(),
            match a {
                VMAction::EOF => final(self)@ == old(self)@ && step_spec(old(self)@)
                    == StepResult::Done(old(self)@),
                VMAction::Advance => step_spec(old(self)@) == StepResult::Running(final(self)@),
                VMAction::Error(e) => final(self)@ == old(self)@ && step_spec(old(self)@)
                    == StepResult::Failed(e, old(self)@),
                VMAction::JumpForward => final(self)@ == old(self)@ && old(self)@.ip < old(
                    self,
                )@.prog.len() && old(self)@.prog[old(self)@.ip as int] == OP_OPEN && old(
                    self,
                )@.tape[old(self)@.dp as int] == 0,
                VMAction::JumpBackward => final(self)@ == old(self)@ && old(self)@.ip < old(
                    self,
                )@.prog.len() && old(self)@.prog[old(self)@.ip as int] == OP_CLOSE && old(
                    self,
                )@.tape[old(self)@.dp as int] != 0,
            },
    {
        if self.iptr >= self.prog.len() {
            return VMAction::EOF;
        }
        let byte = self.prog[self.iptr];
        if byte == OP_RIGHT {
            if self.dptr < TAPE_LEN - 1 {
                self.dptr += 1;
                self.iptr += 1;
                VMAction::Advance
            } else {
                VMAction::Error(VMError::DataPointerOverflow)
            }
        } else if byte == OP_LEFT {
            if self.dptr > 0 {
                self.dptr -= 1;
                self.iptr += 1;
                VMAction::Advance
            } else {
                VMAction::Error(VMError::DataPointerUnderflow)
            }
        } else if byte == OP_INC {
            let v = self.data[self.dptr];
            if v < 255 {
                self.data.set(self.dptr, v + 1);
                self.iptr += 1;
                VMAction::Advance
            } else {
                VMAction::Error(VMError::CellOverflow)
            }
        } else if byte == OP_DEC {
            let v = self.data[self.dptr];
            if v > 0 {
                self.data.set(self.dptr, v - 1);
                self.iptr += 1;
                VMAction::Advance
            } else {
                VMAction::Error(VMError::CellUnderflow)
            }
        } else if byte == OP_OUT {
            let v = self.data[self.dptr];
            self.output.push(v);
            self.iptr += 1;
            VMAction::Advance
        } else if byte == OP_IN {
            if self.in_pos < self.input.len() {
                let v = self.input[self.in_pos];
                self.data.set(self.dptr, v);
                self.in_pos += 1;
                self.iptr += 1;
                proof {
                    assert(self.input@.skip(self.in_pos as int) =~= old(self)@.input.skip(1));
                    assert(old(self)@.input[0] == self.input@[old(self).in_pos as int]);
                }
                VMAction::Advance
            } else {
                VMAction::Error(VMError::InputFailure)
            }
        } else if byte == OP_OPEN {
            if self.data[self.dptr] == 0 {
                VMAction::JumpForward
            } else {
                self.iptr += 1;
                VMAction::Advance
            }
        } else if byte == OP_CLOSE {
            if self.data[self.dptr] != 0 {
                VMAction::JumpBackward
            } else {
                self.iptr += 1;
                VMAction::Advance
            }
        } else {
            self.iptr += 1;
            VMAction::Advance
        }
    }

    /// Run the virtual machine for at most `fuel` steps.
    ///
    /// The verdict agrees with the small-step semantics: `Some(v)` means some
    /// run of at most `fuel` `step_spec` steps from the starting state halts
    /// exactly at `v`, leaving exactly this machine behind; `None` means that
    /// after `fuel` steps the machine is still going, and is left ready to
    /// be run further.
    pub fn run(&mut self, fuel: u64) -> (r: Option<VMResult>)
        requires
            old(self).wf(),
        ensures
            final(self).wf(),
            match r {
                Some(v) => exists|n: nat|
                    n <= fuel && #[trigger] run_spec(old(self)@, n) == as_outcome(
                        v,
                        final(self)@,
                    ),
                None => run_spec(old(self)@, fuel as nat) == StepResult::Running(final(self)@),
            },
    {
        let ghost s0 = self@;
        let mut k: u64 = 0;
        while k < fuel
            invariant
                self.wf(),
                s0 == old(self)@,
                k <= fuel,
                run_spec(s0, k as nat) == StepResult::Running(self@),
            ensures
                self.wf(),
                k == fuel,
                run_spec(s0, k as nat) == StepResult::Running(self@),
            decreases fuel - k,
        {
            let ghost pre = self@;
            match self.step() {
                VMAction::Advance => {
                    proof {
                        lemma_run_spec_step(s0, k as nat, pre);
                    }
                },
                VMAction::EOF => {
                    proof {
                        lemma_run_spec_step(s0, k as nat, pre);
                        assert(run_spec(s0, k as nat + 1) == StepResult::Done(self@));
                    }
                    return Some(VMResult::Success);
                },
                VMAction::Error(e) => {
                    proof {
                        lemma_run_spec_step(s0, k as nat, pre);
                        assert(run_spec(s0, k as nat + 1) == StepResult::Failed(e, self@));
                    }
                    return Some(VMResult::Error(e));
                },
                VMAction::JumpForward => {
                    let ip0 = self.iptr;
                    proof {
                        assert(self.iptr < self.prog.len());
                    }
                    self.iptr += 1;
                    let mut count: usize = 1;
                    loop
                        invariant_except_break
                            1 <= count,
                            ip0 < self.iptr <= self.prog.len(),
                            count <= self.iptr - ip0,
                            matching_close(pre.prog, pre.ip + 1, 1) == matching_close(
                                pre.prog,
                                self.iptr as nat,
                                count as nat,
                            ),
                        invariant
                            self.wf(),
                            s0 == old(self)@,
                            k < fuel,
                            self@.prog == pre.prog,
                            self@.dp == pre.dp,
                            self@.tape == pre.tape,
                            self@.input == pre.input,
                            self@.output == pre.output,
                            ip0 as nat == pre.ip,
                            ip0 < self.prog.len(),
                            pre.prog[pre.ip as int] == OP_OPEN,
                            pre.tape[pre.dp as int] == 0,
                            run_spec(s0, k as nat) == StepResult::Running(pre),
                        ensures
                            self.wf(),
                            step_spec(pre) == StepResult::Running(self@),
                            run_spec(s0, k as nat) == StepResult::Running(pre),
                        decreases self.prog.len() - self.iptr,
                    {
                        if self.iptr >= self.prog.len() {
                            self.iptr = ip0;
                            proof {
                                assert(self@ == pre);
                                assert(step_spec(pre) == StepResult::Failed(
                                    VMError::UnmatchedOpenBracket,
                                    pre,
                                ));
                                lemma_run_spec_step(s0, k as nat, pre);
                                assert(run_spec(s0, k as nat + 1) == StepResult::Failed(
                                    VMError::UnmatchedOpenBracket,
                                    self@,
                                ));
                            }
                            return Some(VMResult::Error(VMError::UnmatchedOpenBracket));
                        }
                        let byte = self.prog[self.iptr];
                        if byte == OP_CLOSE {
                            if count == 1 {
                                self.iptr += 1;
                                proof {
                                    assert(step_spec(pre) == StepResult::Running(self@));
                                }
                                break ;
                            }
                            count -= 1;
                            self.iptr += 1;
                        } else if byte == OP_OPEN {
                            count += 1;
                            self.iptr += 1;
                        } else {
                            self.iptr += 1;
                        }
                    }
                    proof {
                        lemma_run_spec_step(s0, k as nat, pre);
                    }
                },
                VMAction::JumpBackward => {
                    let ip0 = self.iptr;
                    let mut count: usize = 1;
                    loop
                        invariant_except_break
                            1 <= count,
                            self.iptr <= ip0,
                            count <= ip0 - self.iptr + 1,
                            matching_open(pre.prog, pre.ip - 1, 1) == matching_open(
                                pre.prog,
                                self.iptr as int - 1,
                                count as nat,
                            ),
                        invariant
                            self.wf(),
                            s0 == old(self)@,
                            k < fuel,
                            self@.prog == pre.prog,
                            self@.dp == pre.dp,
                            self@.tape == pre.tape,
                            self@.input == pre.input,
                            self@.output == pre.output,
                            ip0 as nat == pre.ip,
                            ip0 < self.prog.len(),
                            pre.prog[pre.ip as int] == OP_CLOSE,
                            pre.tape[pre.dp as int] != 0,
                            run_spec(s0, k as nat) == StepResult::Running(pre),
                        ensures
                            self.wf(),
                            step_spec(pre) == StepResult::Running(self@),
                            run_spec(s0, k as nat) == StepResult::Running(pre),
                        decreases self.iptr,
                    {
                        if self.iptr == 0 {
                            self.iptr = ip0;
                            proof {
                                assert(self@ == pre);
                                assert(step_spec(pre) == StepResult::Failed(
                                    VMError::UnmatchedCloseBracket,
                                    pre,
                                ));
                                lemma_run_spec_step(s0, k as nat, pre);
                                assert(run_spec(s0, k as nat + 1) == StepResult::Failed(
                                    VMError::UnmatchedCloseBracket,
                                    self@,
                                ));
                            }
                            return Some(VMResult::Error(VMError::UnmatchedCloseBracket));
                        }
                        self.iptr -= 1;
                        let byte = self.prog[self.iptr];
                        if byte == OP_OPEN {
                            if count == 1 {
                                proof {
                                    assert(step_spec(pre) == StepResult::Running(self@));
                                }
                                break ;
                            }
                            count -= 1;
                        } else if byte == OP_CLOSE {
                            count += 1;
                        }
                    }
                    proof {
                        lemma_run_spec_step(s0, k as nat, pre);
                    }
                },
            }
            k += 1;
        }
        None
    }
}

} // verus!
