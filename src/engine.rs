use vstd::prelude::*;
use crate::eof::EofIndicator;

verus! {

/// `+`: increment the current cell.
pub const INC: u8 = 43;
/// `-`: decrement the current cell.
pub const DEC: u8 = 45;
/// `>`: move the data pointer right.
pub const RIGHT: u8 = 62;
/// `<`: move the data pointer left.
pub const LEFT: u8 = 60;
/// `[`: loop start.
pub const OPEN: u8 = 91;
/// `]`: loop end.
pub const CLOSE: u8 = 93;
/// `,`: read one byte.
pub const READ: u8 = 44;
/// `.`: write one byte.
pub const WRITE: u8 = 46;

/// Whether `b` is one of the eight instruction bytes; every other byte does nothing.
pub open spec fn is_instruction(b: u8) -> bool {
    b == INC || b == DEC || b == RIGHT || b == LEFT || b == OPEN || b == CLOSE || b == READ
        || b == WRITE
}

/// Scanning forward from index `i` with `depth` loops opened since the scan began,
/// the index of the `]` that closes the loop the scan started in.
pub open spec fn find_close(p: Seq<u8>, i: int, depth: nat) -> Option<int>
    decreases p.len() - i,
{
    if i < 0 || i >= p.len() {
        None
    } else if p[i] == OPEN {
        find_close(p, i + 1, depth + 1)
    } else if p[i] == CLOSE {
        if depth == 0 {
            Some(i)
        } else {
            find_close(p, i + 1, (depth - 1) as nat)
        }
    } else {
        find_close(p, i + 1, depth)
    }
}

/// Scanning backward from index `i` with `depth` loops closed since the scan began,
/// the index of the `[` that opens the loop the scan started in.
pub open spec fn find_open(p: Seq<u8>, i: int, depth: nat) -> Option<int>
    decreases i + 1,
{
    if i < 0 || i >= p.len() {
        None
    } else if p[i] == CLOSE {
        find_open(p, i - 1, depth + 1)
    } else if p[i] == OPEN {
        if depth == 0 {
            Some(i)
        } else {
            find_open(p, i - 1, (depth - 1) as nat)
        }
    } else {
        find_open(p, i - 1, depth)
    }
}

/// A loop instruction whose partner could not be found, with its index in the program.
#[derive(Clone, Copy, Debug, PartialEq, Eq, Structural)]
pub enum LoopError {
    /// A `[` was to skip its loop, but no matching `]` follows it.
    UnmatchedOpen(usize),
    /// A `]` was to repeat its loop, but no matching `[` precedes it.
    UnmatchedClose(usize),
}

/// The machine's mutable state: the tape, the data pointer and the instruction pointer.
pub struct Config {
    pub tape: Seq<u8>,
    pub pointer: int,
    pub pc: int,
}

/// The tape is non-empty, the data pointer is on it, and the instruction pointer
/// lies in `[0, p.len()]`, where `p.len()` means halted.
pub open spec fn well_formed(p: Seq<u8>, c: Config) -> bool {
    c.tape.len() >= 1 && 0 <= c.pointer < c.tape.len() && 0 <= c.pc <= p.len()
}

/// The result of executing one instruction.
pub enum Step {
    /// The next state, and the byte written, if the instruction was a write.
    Next(Config, Option<u8>),
    /// Execution aborts on an unbalanced loop.
    Failed(LoopError),
}

/// The value a read instruction stores: the input byte, or what the policy
/// says when the input is exhausted.
pub open spec fn read_value(input: Option<u8>, eof: EofIndicator, current: u8) -> u8 {
    match input {
        Some(b) => b,
        None => match eof {
            EofIndicator::Char(b) => b,
            EofIndicator::Unchanged => current,
        },
    }
}

/// One instruction of `p` executed in state `c` (with `c.pc < p.len()`); `input`
/// is what the input stream would give to a read, `None` once it is exhausted.
pub open spec fn step_spec(p: Seq<u8>, c: Config, input: Option<u8>, eof: EofIndicator) -> Step {
    let op = p[c.pc];
    let cell = c.tape[c.pointer];
    let len = c.tape.len() as int;
    if op == INC {
        Step::Next(
            Config { tape: c.tape.update(c.pointer, ((cell + 1) % 256) as u8), pc: c.pc + 1, ..c },
            None,
        )
    } else if op == DEC {
        Step::Next(
            Config {
                tape: c.tape.update(c.pointer, ((cell - 1 + 256) % 256) as u8),
                pc: c.pc + 1,
                ..c
            },
            None,
        )
    } else if op == RIGHT {
        Step::Next(Config { pointer: (c.pointer + 1) % len, pc: c.pc + 1, ..c }, None)
    } else if op == LEFT {
        Step::Next(Config { pointer: (c.pointer - 1 + len) % len, pc: c.pc + 1, ..c }, None)
    } else if op == OPEN && cell == 0 {
        match find_close(p, c.pc + 1, 0) {
            Some(j) => Step::Next(Config { pc: j + 1, ..c }, None),
            None => Step::Failed(LoopError::UnmatchedOpen(c.pc as usize)),
        }
    } else if op == CLOSE && cell != 0 {
        match find_open(p, c.pc - 1, 0) {
            Some(j) => Step::Next(Config { pc: j + 1, ..c }, None),
            None => Step::Failed(LoopError::UnmatchedClose(c.pc as usize)),
        }
    } else if op == READ {
        Step::Next(
            Config {
                tape: c.tape.update(c.pointer, read_value(input, eof, cell)),
                pc: c.pc + 1,
                ..c
            },
            None,
        )
    } else if op == WRITE {
        Step::Next(Config { pc: c.pc + 1, ..c }, Some(cell))
    } else {
        Step::Next(Config { pc: c.pc + 1, ..c }, None)
    }
}

/// A match found by the forward scan lies at or after where the scan began, on a `]`.
pub proof fn lemma_find_close_in_range(p: Seq<u8>, i: int, depth: nat)
    ensures
        find_close(p, i, depth) matches Some(j) ==> i <= j < p.len() && p[j] == CLOSE,
    decreases p.len() - i,
{
    if 0 <= i < p.len() {
        if p[i] == OPEN {
            lemma_find_close_in_range(p, i + 1, depth + 1);
        } else if p[i] == CLOSE {
            if depth > 0 {
                lemma_find_close_in_range(p, i + 1, (depth - 1) as nat);
            }
        } else {
            lemma_find_close_in_range(p, i + 1, depth);
        }
    }
}

/// A match found by the backward scan lies at or before where the scan began, on a `[`.
pub proof fn lemma_find_open_in_range(p: Seq<u8>, i: int, depth: nat)
    ensures
        find_open(p, i, depth) matches Some(j) ==> 0 <= j <= i && p[j] == OPEN,
    decreases i + 1,
{
    if 0 <= i < p.len() {
        if p[i] == CLOSE {
            lemma_find_open_in_range(p, i - 1, depth + 1);
        } else if p[i] == OPEN {
            if depth > 0 {
                lemma_find_open_in_range(p, i - 1, (depth - 1) as nat);
            }
        } else {
            lemma_find_open_in_range(p, i - 1, depth);
        }
    }
}

/// Moving right from `x` on a tape of `len` cells.
pub(crate) proof fn lemma_wrap_right(x: int, len: int)
    requires
        0 <= x < len,
    ensures
        (x + 1) % len == if x + 1 == len { 0 } else { x + 1 },
{
    if x + 1 == len {
        vstd::arithmetic::div_mod::lemma_mod_self_0(len);
    } else {
        vstd::arithmetic::div_mod::lemma_small_mod((x + 1) as nat, len as nat);
    }
}

/// Moving left from `x` on a tape of `len` cells.
pub(crate) proof fn lemma_wrap_left(x: int, len: int)
    requires
        0 <= x < len,
    ensures
        (x - 1 + len) % len == if x == 0 { len - 1 } else { x - 1 },
{
    if x == 0 {
        vstd::arithmetic::div_mod::lemma_small_mod((len - 1) as nat, len as nat);
    } else {
        assert((x - 1 + len) % len == x - 1) by (nonlinear_arith)
            requires
                0 < x < len,
        ;
    }
}

/// The index of the `]` matching the `[` at `start`, scanning forward with
/// nesting depth; `None` when there is none.
pub fn match_forward(p: &Vec<u8>, start: usize) -> (r: Option<usize>)
    requires
        start < p@.len(),
    ensures
        r matches Some(j) ==> find_close(p@, start + 1, 0) == Some(j as int),
        r is None ==> find_close(p@, start + 1, 0) is None,
{
    let n = p.len();
    let mut i: usize = start + 1;
    let mut depth: usize = 0;
    while i < n
        invariant
            n == p@.len(),
            start + 1 <= i <= n,
            depth <= i - (start + 1),
            find_close(p@, i as int, depth as nat) == find_close(p@, start + 1, 0),
        decreases n - i,
    {
        let b = p[i];
        if b == OPEN {
            depth = depth + 1;
        } else if b == CLOSE {
            if depth == 0 {
                return Some(i);
            }
            depth = depth - 1;
        }
        i = i + 1;
    }
    None
}

/// The index of the `[` matching the `]` at `end`, scanning backward with
/// nesting depth; `None` when there is none.
pub fn match_backward(p: &Vec<u8>, end: usize) -> (r: Option<usize>)
    requires
        end < p@.len(),
    ensures
        r matches Some(j) ==> find_open(p@, end - 1, 0) == Some(j as int),
        r is None ==> find_open(p@, end - 1, 0) is None,
{
    // `i` counts the positions still to scan: the next one is `i - 1`.
    let mut i: usize = end;
    let mut depth: usize = 0;
    while i > 0
        invariant
            i <= end < p@.len(),
            depth <= end - i,
            find_open(p@, i - 1, depth as nat) == find_open(p@, end - 1, 0),
        decreases i,
    {
        let b = p[i - 1];
        if b == CLOSE {
            depth = depth + 1;
        } else if b == OPEN {
            if depth == 0 {
                return Some(i - 1);
            }
            depth = depth - 1;
        }
        i = i - 1;
    }
    None
}

/// How a run stands after its last step.
#[derive(Clone, Copy, Debug, PartialEq, Eq, Structural)]
pub enum RunStatus {
    /// The instruction pointer has not reached the end of the program yet.
    Running,
    /// The instruction pointer reached the end of the program.
    Finished,
    /// An unbalanced loop aborted the run.
    Failed(LoopError),
}

/// A run in the model: the machine state, how many input bytes were read,
/// the bytes written so far, and the status.
pub struct RunState {
    pub config: Config,
    pub consumed: nat,
    pub output: Seq<u8>,
    pub status: RunStatus,
}

/// The byte a read gets after `consumed` bytes of `inputs` were taken.
pub open spec fn next_input(inputs: Seq<u8>, consumed: nat) -> Option<u8> {
    if consumed < inputs.len() {
        Some(inputs[consumed as int])
    } else {
        None
    }
}

/// One move of a run of `p` on the input bytes `inputs`: a stopped run stays as
/// it is, a run at the end of the program finishes, any other executes one instruction.
pub open spec fn advance(p: Seq<u8>, eof: EofIndicator, inputs: Seq<u8>, s: RunState) -> RunState {
    if s.status != RunStatus::Running {
        s
    } else if s.config.pc >= p.len() {
        RunState { status: RunStatus::Finished, ..s }
    } else {
        match step_spec(p, s.config, next_input(inputs, s.consumed), eof) {
            Step::Next(c, out) => RunState {
                config: c,
                consumed: if p[s.config.pc] == READ && s.consumed < inputs.len() {
                    s.consumed + 1
                } else {
                    s.consumed
                },
                output: match out {
                    Some(b) => s.output.push(b),
                    None => s.output,
                },
                status: RunStatus::Running,
            },
            Step::Failed(e) => RunState { status: RunStatus::Failed(e), ..s },
        }
    }
}

/// The run of `p` from `s` after `n` moves.
pub open spec fn run_spec(p: Seq<u8>, eof: EofIndicator, inputs: Seq<u8>, s: RunState, n: nat) -> RunState
    decreases n,
{
    if n == 0 {
        s
    } else {
        advance(p, eof, inputs, run_spec(p, eof, inputs, s, (n - 1) as nat))
    }
}

/// A run that starts from state `c` with nothing read or written.
pub open spec fn start(c: Config) -> RunState {
    RunState { config: c, consumed: 0, output: Seq::empty(), status: RunStatus::Running }
}

/// The state of a fresh machine: `cells` zero cells, both pointers at 0.
pub open spec fn initial(cells: nat) -> Config {
    Config { tape: Seq::new(cells, |i: int| 0u8), pointer: 0, pc: 0 }
}

/// A stopped run stays as it is, whatever the number of further moves: in
/// particular a run that failed on an unbalanced loop writes nothing more.
pub proof fn lemma_stopped_run_is_final(
    p: Seq<u8>,
    eof: EofIndicator,
    inputs: Seq<u8>,
    s: RunState,
    i: nat,
    n: nat,
)
    requires
        i <= n,
        run_spec(p, eof, inputs, s, i).status != RunStatus::Running,
    ensures
        run_spec(p, eof, inputs, s, n) == run_spec(p, eof, inputs, s, i),
    decreases n - i,
{
    if i < n {
        lemma_stopped_run_is_final(p, eof, inputs, s, i, (n - 1) as nat);
    }
}

/// What a run of [`Engine::run`] gave back.
pub struct Run {
    /// The bytes written, in order.
    pub output: Vec<u8>,
    /// How many input bytes were read.
    pub consumed: usize,
    /// How the run stands.
    pub status: RunStatus,
}

/// The execution engine: a program, a circular tape of byte cells, a data
/// pointer, an instruction pointer, and an end-of-input policy.
pub struct Engine {
    program: Vec<u8>,
    tape: Vec<u8>,
    pointer: usize,
    pc: usize,
    eof: EofIndicator,
}

impl Engine {
    /// The program the engine runs.
    pub closed spec fn code(&self) -> Seq<u8> {
        self.program@
    }

    /// The engine's state in the model.
    pub closed spec fn model(&self) -> Config {
        Config { tape: self.tape@, pointer: self.pointer as int, pc: self.pc as int }
    }

    /// The engine's end-of-input policy.
    pub closed spec fn policy(&self) -> EofIndicator {
        self.eof
    }

    /// The engine's state is well formed for its program.
    pub open spec fn wf(&self) -> bool {
        well_formed(self.code(), self.model())
    }

    /// An engine for `program` with `cells` zero cells and both pointers at 0.
    pub fn new(program: Vec<u8>, cells: usize, eof: EofIndicator) -> (r: Engine)
        requires
            cells >= 1,
        ensures
            r.wf(),
            r.code() == program@,
            r.model() == initial(cells as nat),
            r.policy() == eof,
    {
        let tape = vec![0u8; cells];
        let r = Engine { program, tape, pointer: 0, pc: 0, eof };
        assert(r.model().tape =~= initial(cells as nat).tape);
        r
    }

    /// Whether the instruction pointer has reached the end of the program.
    pub fn is_halted(&self) -> (r: bool)
        requires
            self.wf(),
        ensures
            r == (self.model().pc == self.code().len()),
    {
        self.pc >= self.program.len()
    }

    /// Whether the next instruction is a read, so that the next [`Engine::step`]
    /// takes an input byte.
    pub fn wants_input(&self) -> (r: bool)
        requires
            self.wf(),
        ensures
            r == (self.model().pc < self.code().len() && self.code()[self.model().pc] == READ),
    {
        self.pc < self.program.len() && self.program[self.pc] == READ
    }

    /// Executes the instruction at the instruction pointer. `input` is the byte
    /// that the input stream gave for a read, `None` when it is exhausted; other
    /// instructions ignore it. Returns the byte written by a write instruction.
    /// On an unbalanced loop the engine is left unchanged.
    pub fn step(&mut self, input: Option<u8>) -> (r: Result<Option<u8>, LoopError>)
        requires
            old(self).wf(),
            old(self).model().pc < old(self).code().len(),
        ensures
            final(self).wf(),
            final(self).code() == old(self).code(),
            final(self).policy() == old(self).policy(),
            match step_spec(old(self).code(), old(self).model(), input, old(self).policy()) {
                Step::Next(c, out) => r == Ok::<Option<u8>, LoopError>(out) && final(self).model() == c,
                Step::Failed(e) => r == Err::<Option<u8>, LoopError>(e) && final(self).model() == old(self).model(),
            },
    {
        let n = self.program.len();
        let op = self.program[self.pc];
        let p = self.pointer;
        let cell = self.tape[p];
        let len = self.tape.len();
        if op == INC {
            self.tape.set(p, cell.wrapping_add(1));
        } else if op == DEC {
            self.tape.set(p, cell.wrapping_sub(1));
        } else if op == RIGHT {
            self.pointer = if p + 1 == len { 0 } else { p + 1 };
            proof {
                lemma_wrap_right(p as int, len as int);
            }
        } else if op == LEFT {
            self.pointer = if p == 0 { len - 1 } else { p - 1 };
            proof {
                lemma_wrap_left(p as int, len as int);
            }
        } else if op == OPEN && cell == 0 {
            proof {
                lemma_find_close_in_range(self.program@, self.pc + 1, 0);
            }
            match match_forward(&self.program, self.pc) {
                Some(j) => {
                    self.pc = j;
                },
                None => {
                    return Err(LoopError::UnmatchedOpen(self.pc));
                },
            }
        } else if op == CLOSE && cell != 0 {
            proof {
                lemma_find_open_in_range(self.program@, self.pc - 1, 0);
            }
            match match_backward(&self.program, self.pc) {
                Some(j) => {
                    self.pc = j;
                },
                None => {
                    return Err(LoopError::UnmatchedClose(self.pc));
                },
            }
        } else if op == READ {
            let v = match input {
                Some(b) => b,
                None => match self.eof {
                    EofIndicator::Char(b) => b,
                    EofIndicator::Unchanged => cell,
                },
            };
            self.tape.set(p, v);
        } else if op == WRITE {
            assert(self.pc < n);
            self.pc = self.pc + 1;
            return Ok(Some(cell));
        }
        assert(self.pc < n);
        self.pc = self.pc + 1;
        Ok(None)
    }

    /// Runs the engine for at most `max_steps` moves, feeding reads from `input`
    /// in order. A move executes one instruction, or notices that the
    /// instruction pointer has reached the end of the program; the run stops
    /// early once it has finished or failed.
    pub fn run(&mut self, input: &Vec<u8>, max_steps: usize) -> (r: Run)
        requires
            old(self).wf(),
        ensures
            final(self).wf(),
            final(self).code() == old(self).code(),
            final(self).policy() == old(self).policy(),
            ({
                let s = run_spec(
                    old(self).code(),
                    old(self).policy(),
                    input@,
                    start(old(self).model()),
                    max_steps as nat,
                );
                &&& final(self).model() == s.config
                &&& r.output@ == s.output
                &&& r.consumed as nat == s.consumed
                &&& r.status == s.status
            }),
    {
        let ghost p0 = self.code();
        let ghost e0 = self.policy();
        let ghost c0 = self.model();
        let mut output: Vec<u8> = Vec::new();
        let mut consumed: usize = 0;
        let mut status = RunStatus::Running;
        let mut i: usize = 0;
        while i < max_steps && status == RunStatus::Running
            invariant
                self.wf(),
                self.code() == p0,
                self.policy() == e0,
                i <= max_steps,
                consumed <= input@.len(),
                run_spec(p0, e0, input@, start(c0), i as nat) == (RunState {
                    config: self.model(),
                    consumed: consumed as nat,
                    output: output@,
                    status,
                }),
            decreases max_steps - i,
        {
            if self.is_halted() {
                status = RunStatus::Finished;
            } else {
                let reads = self.wants_input();
                let next = if consumed < input.len() {
                    Some(input[consumed])
                } else {
                    None
                };
                match self.step(next) {
                    Ok(out) => {
                        if reads && consumed < input.len() {
                            consumed = consumed + 1;
                        }
                        match out {
                            Some(b) => output.push(b),
                            None => {},
                        }
                    },
                    Err(e) => {
                        status = RunStatus::Failed(e);
                    },
                }
            }
            i = i + 1;
        }
        proof {
            if i < max_steps {
                lemma_stopped_run_is_final(p0, e0, input@, start(c0), i as nat, max_steps as nat);
            }
        }
        Run { output, consumed, status }
    }

    /// The tape's cells.
    pub fn tape(&self) -> (r: &Vec<u8>)
        ensures
            r@ == self.model().tape,
    {
        &self.tape
    }

    /// The data pointer.
    pub fn pointer(&self) -> (r: usize)
        ensures
            r as int == self.model().pointer,
    {
        self.pointer
    }

    /// The instruction pointer.
    pub fn position(&self) -> (r: usize)
        ensures
            r as int == self.model().pc,
    {
        self.pc
    }
}

/// Runs `program` on a fresh engine of `cells` cells for at most `max_steps`
/// moves, with reads fed from `input`.
pub fn interpret(program: Vec<u8>, cells: usize, eof: EofIndicator, input: &Vec<u8>, max_steps: usize) -> (r: (Run, Engine))
    requires
        cells >= 1,
    ensures
        r.1.wf(),
        r.1.code() == program@,
        r.1.policy() == eof,
        ({
            let s = run_spec(program@, eof, input@, start(initial(cells as nat)), max_steps as nat);
            &&& r.1.model() == s.config
            &&& r.0.output@ == s.output
            &&& r.0.consumed as nat == s.consumed
            &&& r.0.status == s.status
        }),
{
    let mut engine = Engine::new(program, cells, eof);
    let run = engine.run(input, max_steps);
    (run, engine)
}

} // verus!
