use vstd::prelude::*;
use crate::eof::EofIndicator;
use crate::engine::{
    find_close, lemma_find_close_in_range, lemma_find_open_in_range, lemma_wrap_left,
    lemma_wrap_right, run_spec, start, step_spec, well_formed, Config, LoopError, RunStatus,
    Step, CLOSE, DEC, INC, LEFT, OPEN, RIGHT,
};

verus! {

/// One instruction keeps the state well formed and the tape's length.
pub proof fn lemma_step_well_formed(p: Seq<u8>, c: Config, input: Option<u8>, eof: EofIndicator)
    requires
        well_formed(p, c),
        c.pc < p.len(),
    ensures
        step_spec(p, c, input, eof) matches Step::Next(c2, _) ==> well_formed(p, c2)
            && c2.tape.len() == c.tape.len(),
{
    let op = p[c.pc];
    if op == RIGHT {
        lemma_wrap_right(c.pointer, c.tape.len() as int);
    } else if op == LEFT {
        lemma_wrap_left(c.pointer, c.tape.len() as int);
    } else if op == OPEN {
        lemma_find_close_in_range(p, c.pc + 1, 0);
    } else if op == CLOSE {
        lemma_find_open_in_range(p, c.pc - 1, 0);
    }
}

/// Wrap-around: on a tape of any length of at least one cell, whatever the
/// program (moves right and left among it), the data pointer stays in
/// `[0, tape length)` after every number of moves, and the tape keeps its length.
pub proof fn lemma_pointer_stays_on_tape(
    p: Seq<u8>,
    eof: EofIndicator,
    inputs: Seq<u8>,
    c: Config,
    n: nat,
)
    requires
        well_formed(p, c),
    ensures
        ({
            let s = run_spec(p, eof, inputs, start(c), n);
            &&& well_formed(p, s.config)
            &&& 0 <= s.config.pointer < c.tape.len()
            &&& s.config.tape.len() == c.tape.len()
        }),
    decreases n,
{
    if n > 0 {
        lemma_pointer_stays_on_tape(p, eof, inputs, c, (n - 1) as nat);
        let s = run_spec(p, eof, inputs, start(c), (n - 1) as nat);
        if s.status == RunStatus::Running && s.config.pc < p.len() {
            lemma_step_well_formed(
                p,
                s.config,
                crate::engine::next_input(inputs, s.consumed),
                eof,
            );
        }
    }
}

/// Cell arithmetic wraps modulo 256: `+` stores the cell plus one and `-` the
/// cell minus one, modulo 256, so 255 incremented is 0 and 0 decremented is 255.
pub proof fn lemma_cell_arithmetic_wraps(
    p: Seq<u8>,
    c: Config,
    input: Option<u8>,
    eof: EofIndicator,
)
    requires
        well_formed(p, c),
        c.pc < p.len(),
        p[c.pc] == INC || p[c.pc] == DEC,
    ensures
        ({
            let cell = c.tape[c.pointer];
            match step_spec(p, c, input, eof) {
                Step::Next(c2, out) => {
                    &&& out is None
                    &&& c2.pointer == c.pointer
                    &&& c2.pc == c.pc + 1
                    &&& c2.tape == c.tape.update(c.pointer, c2.tape[c.pointer])
                    &&& p[c.pc] == INC ==> c2.tape[c.pointer] == (cell + 1) % 256
                    &&& p[c.pc] == DEC ==> c2.tape[c.pointer] == (cell + 255) % 256
                    &&& p[c.pc] == INC && cell == 255 ==> c2.tape[c.pointer] == 0
                    &&& p[c.pc] == DEC && cell == 0 ==> c2.tape[c.pointer] == 255
                },
                Step::Failed(_) => false,
            }
        }),
{
}

/// An unmatched `[` (no matching `]` after it) fails exactly when it is reached
/// with the current cell at 0, reporting its own index; with a nonzero cell it
/// attempts no jump and execution falls through to the next instruction.
pub proof fn lemma_unmatched_open(p: Seq<u8>, c: Config, input: Option<u8>, eof: EofIndicator)
    requires
        well_formed(p, c),
        c.pc < p.len(),
        p[c.pc] == OPEN,
        find_close(p, c.pc + 1, 0) is None,
    ensures
        c.tape[c.pointer] == 0 ==> step_spec(p, c, input, eof) == Step::Failed(
            LoopError::UnmatchedOpen(c.pc as usize),
        ),
        c.tape[c.pointer] != 0 ==> step_spec(p, c, input, eof) == Step::Next(
            Config { pc: c.pc + 1, ..c },
            None,
        ),
{
}

} // verus!
