use vstd::prelude::*;
use crate::eof::EofIndicator;
use crate::engine::{
    advance, find_close, find_open, is_instruction, lemma_find_close_in_range,
    lemma_find_open_in_range, lemma_stopped_run_is_final, run_spec, start, well_formed, Config,
    LoopError, RunState, RunStatus, CLOSE, OPEN,
};
use crate::laws::lemma_pointer_stays_on_tape;

verus! {

/// The instruction bytes of `p`, in order: `p` with every other byte removed.
pub open spec fn strip(p: Seq<u8>) -> Seq<u8>
    decreases p.len(),
{
    if p.len() == 0 {
        Seq::empty()
    } else if is_instruction(p.last()) {
        strip(p.drop_last()).push(p.last())
    } else {
        strip(p.drop_last())
    }
}

/// Where index `i` of `p` lands in `strip(p)`: the number of instruction bytes before it.
pub open spec fn stripped_index(p: Seq<u8>, i: int) -> int {
    strip(p.take(i)).len() as int
}

/// Two run statuses of the same kind: both running, both finished, or both
/// failed on the same kind of unbalanced loop (the positions may differ).
pub open spec fn same_status(a: RunStatus, b: RunStatus) -> bool {
    match a {
        RunStatus::Running => b == RunStatus::Running,
        RunStatus::Finished => b == RunStatus::Finished,
        RunStatus::Failed(LoopError::UnmatchedOpen(_)) => b matches RunStatus::Failed(
            LoopError::UnmatchedOpen(_),
        ),
        RunStatus::Failed(LoopError::UnmatchedClose(_)) => b matches RunStatus::Failed(
            LoopError::UnmatchedClose(_),
        ),
    }
}

/// Run `t` of `strip(p)` mirrors run `s` of `p`: the same tape, data pointer,
/// input read, output and status, with the instruction pointer carried over.
pub open spec fn mirrors(p: Seq<u8>, s: RunState, t: RunState) -> bool {
    &&& t.config.tape == s.config.tape
    &&& t.config.pointer == s.config.pointer
    &&& t.config.pc == stripped_index(p, s.config.pc)
    &&& t.consumed == s.consumed
    &&& t.output == s.output
    &&& same_status(s.status, t.status)
}

proof fn lemma_index_step(p: Seq<u8>, i: int)
    requires
        0 <= i < p.len(),
    ensures
        strip(p.take(i + 1)) == if is_instruction(p[i]) {
            strip(p.take(i)).push(p[i])
        } else {
            strip(p.take(i))
        },
        stripped_index(p, i + 1) == stripped_index(p, i) + if is_instruction(p[i]) {
            1int
        } else {
            0int
        },
{
    assert(p.take(i + 1).drop_last() =~= p.take(i));
    assert(p.take(i + 1).last() == p[i]);
}

proof fn lemma_strip_prefix(p: Seq<u8>, i: int, k: int)
    requires
        0 <= i <= k <= p.len(),
    ensures
        strip(p.take(i)).len() <= strip(p.take(k)).len(),
        forall|j: int|
            0 <= j < strip(p.take(i)).len() ==> #[trigger] strip(p.take(k))[j] == strip(
                p.take(i),
            )[j],
    decreases k - i,
{
    if i < k {
        lemma_strip_prefix(p, i, k - 1);
        lemma_index_step(p, k - 1);
    }
}

proof fn lemma_index_facts(p: Seq<u8>, i: int)
    requires
        0 <= i <= p.len(),
    ensures
        stripped_index(p, 0) == 0,
        0 <= stripped_index(p, i) <= strip(p).len(),
        stripped_index(p, p.len() as int) == strip(p).len(),
        i < p.len() && is_instruction(p[i]) ==> stripped_index(p, i) < strip(p).len() && strip(
            p,
        )[stripped_index(p, i)] == p[i],
{
    assert(p.take(0) =~= Seq::<u8>::empty());
    assert(p.take(p.len() as int) =~= p);
    lemma_strip_prefix(p, i, p.len() as int);
    if i < p.len() {
        lemma_index_step(p, i);
        lemma_strip_prefix(p, i + 1, p.len() as int);
    }
}

/// The forward bracket scan finds the same `]` in `p` and in `strip(p)`.
proof fn lemma_find_close_mirror(p: Seq<u8>, i: int, d: nat)
    requires
        0 <= i <= p.len(),
    ensures
        match find_close(p, i, d) {
            Some(j) => find_close(strip(p), stripped_index(p, i), d) == Some(stripped_index(p, j)),
            None => find_close(strip(p), stripped_index(p, i), d) is None,
        },
    decreases p.len() - i,
{
    lemma_index_facts(p, i);
    if i < p.len() {
        lemma_index_step(p, i);
        if p[i] == OPEN {
            lemma_find_close_mirror(p, i + 1, d + 1);
        } else if p[i] == CLOSE {
            if d > 0 {
                lemma_find_close_mirror(p, i + 1, (d - 1) as nat);
            }
        } else {
            lemma_find_close_mirror(p, i + 1, d);
        }
    }
}

/// The backward bracket scan finds the same `[` in `p` and in `strip(p)`.
proof fn lemma_find_open_mirror(p: Seq<u8>, i: int, d: nat)
    requires
        -1 <= i < p.len(),
    ensures
        match find_open(p, i, d) {
            Some(j) => find_open(strip(p), stripped_index(p, i + 1) - 1, d) == Some(
                stripped_index(p, j),
            ),
            None => find_open(strip(p), stripped_index(p, i + 1) - 1, d) is None,
        },
    decreases i + 1,
{
    lemma_index_facts(p, i + 1);
    if i >= 0 {
        lemma_index_facts(p, i);
        lemma_index_step(p, i);
        if p[i] == CLOSE {
            lemma_find_open_mirror(p, i - 1, d + 1);
        } else if p[i] == OPEN {
            if d > 0 {
                lemma_find_open_mirror(p, i - 1, (d - 1) as nat);
            }
        } else {
            lemma_find_open_mirror(p, i - 1, d);
        }
    }
}

/// Removing the bytes that are not instructions changes nothing observable:
/// every run of `p` from a state at its first instruction is mirrored by a run
/// of `strip(p)` of at most as many moves, with the same tape, data pointer,
/// input read, output and kind of status. While the run goes on, the mirror
/// falls behind by at most one stretch of non-instructions per move of its own.
pub proof fn lemma_run_mirrored(
    p: Seq<u8>,
    eof: EofIndicator,
    inputs: Seq<u8>,
    c: Config,
    n: nat,
) -> (m: nat)
    requires
        well_formed(p, c),
        c.pc == 0,
    ensures
        m <= n,
        mirrors(
            p,
            run_spec(p, eof, inputs, start(c), n),
            run_spec(strip(p), eof, inputs, start(c), m),
        ),
        run_spec(p, eof, inputs, start(c), n).status == RunStatus::Running ==> n <= m * (p.len()
            + 1) + run_spec(p, eof, inputs, start(c), n).config.pc,
    decreases n,
{
    let q = strip(p);
    lemma_index_facts(p, 0);
    if n == 0 {
        0
    } else {
        let m0 = lemma_run_mirrored(p, eof, inputs, c, (n - 1) as nat);
        let s = run_spec(p, eof, inputs, start(c), (n - 1) as nat);
        let t = run_spec(q, eof, inputs, start(c), m0);
        lemma_pointer_stays_on_tape(p, eof, inputs, c, (n - 1) as nat);
        assert(run_spec(p, eof, inputs, start(c), n) == advance(p, eof, inputs, s));
        assert(run_spec(q, eof, inputs, start(c), m0 + 1) == advance(q, eof, inputs, t));
        lemma_index_facts(p, s.config.pc);
        if s.status != RunStatus::Running {
            m0
        } else if s.config.pc >= p.len() {
            m0 + 1
        } else {
            let pc = s.config.pc;
            let op = p[pc];
            lemma_index_step(p, pc);
            if !is_instruction(op) {
                m0
            } else {
                let cell = s.config.tape[s.config.pointer];
                if op == OPEN && cell == 0 {
                    lemma_find_close_mirror(p, pc + 1, 0);
                    lemma_find_close_in_range(p, pc + 1, 0);
                    if let Some(j) = find_close(p, pc + 1, 0) {
                        lemma_index_step(p, j);
                    }
                } else if op == CLOSE && cell != 0 {
                    lemma_find_open_mirror(p, pc - 1, 0);
                    lemma_find_open_in_range(p, pc - 1, 0);
                    if let Some(j) = find_open(p, pc - 1, 0) {
                        lemma_index_step(p, j);
                    }
                }
                let len = p.len() as int;
                assert((m0 + 1) * (len + 1) == m0 * (len + 1) + len + 1) by (nonlinear_arith);
                m0 + 1
            }
        }
    }
}

/// Bytes other than the eight instructions are strict no-ops: two programs
/// with the same instruction bytes in the same order, run from the same tape
/// and data pointer on the same input until both have stopped, write the same
/// output, leave the same tape and data pointer, read the same input bytes,
/// and both finish or both fail on the same kind of unbalanced loop.
pub proof fn lemma_comments_change_nothing(
    p1: Seq<u8>,
    p2: Seq<u8>,
    eof: EofIndicator,
    inputs: Seq<u8>,
    c: Config,
    n1: nat,
    n2: nat,
)
    requires
        well_formed(p1, c),
        c.pc == 0,
        strip(p1) == strip(p2),
        run_spec(p1, eof, inputs, start(c), n1).status != RunStatus::Running,
        run_spec(p2, eof, inputs, start(c), n2).status != RunStatus::Running,
    ensures
        ({
            let s1 = run_spec(p1, eof, inputs, start(c), n1);
            let s2 = run_spec(p2, eof, inputs, start(c), n2);
            &&& s1.output == s2.output
            &&& s1.config.tape == s2.config.tape
            &&& s1.config.pointer == s2.config.pointer
            &&& s1.consumed == s2.consumed
            &&& same_status(s1.status, s2.status)
        }),
{
    let q = strip(p1);
    let m1 = lemma_run_mirrored(p1, eof, inputs, c, n1);
    let m2 = lemma_run_mirrored(p2, eof, inputs, c, n2);
    let t1 = run_spec(q, eof, inputs, start(c), m1);
    let t2 = run_spec(q, eof, inputs, start(c), m2);
    if m1 <= m2 {
        lemma_stopped_run_is_final(q, eof, inputs, start(c), m1, m2);
    } else {
        lemma_stopped_run_is_final(q, eof, inputs, start(c), m2, m1);
    }
    assert(t1 == t2);
}

/// Whether the run of `p` from `c` has stopped (finished or failed) within some number of moves.
pub open spec fn stops(p: Seq<u8>, eof: EofIndicator, inputs: Seq<u8>, c: Config) -> bool {
    exists|n: nat| #[trigger] run_spec(p, eof, inputs, start(c), n).status != RunStatus::Running
}

/// A run of `p` stops exactly when the run of `strip(p)` stops: removing the
/// bytes that are not instructions turns no endless run into one that stops,
/// nor the other way round.
pub proof fn lemma_stripped_stops_alike(p: Seq<u8>, eof: EofIndicator, inputs: Seq<u8>, c: Config)
    requires
        well_formed(p, c),
        c.pc == 0,
    ensures
        stops(p, eof, inputs, c) <==> stops(strip(p), eof, inputs, c),
{
    let q = strip(p);
    if stops(p, eof, inputs, c) {
        let n = choose|n: nat| #[trigger]
            run_spec(p, eof, inputs, start(c), n).status != RunStatus::Running;
        let m = lemma_run_mirrored(p, eof, inputs, c, n);
        assert(run_spec(q, eof, inputs, start(c), m).status != RunStatus::Running);
    }
    if stops(q, eof, inputs, c) {
        let m0 = choose|m: nat| #[trigger]
            run_spec(q, eof, inputs, start(c), m).status != RunStatus::Running;
        let len = p.len() as int;
        let big = (m0 * (len + 1) + len + 1) as nat;
        assert(m0 * (len + 1) >= 0) by (nonlinear_arith)
            requires
                len >= 0,
        ;
        let m = lemma_run_mirrored(p, eof, inputs, c, big);
        lemma_pointer_stays_on_tape(p, eof, inputs, c, big);
        let s = run_spec(p, eof, inputs, start(c), big);
        if s.status == RunStatus::Running {
            assert(m > m0) by (nonlinear_arith)
                requires
                    big <= m * (len + 1) + s.config.pc,
                    s.config.pc <= len,
                    big == m0 * (len + 1) + len + 1,
                    len >= 0,
            ;
            lemma_stopped_run_is_final(q, eof, inputs, start(c), m0, m);
            assert(false);
        }
    }
}

/// Bytes other than the eight instructions change nothing about whether a run
/// stops: two programs with the same instruction bytes in the same order, run
/// from the same tape and data pointer on the same input, either both stop or
/// both run forever.
pub proof fn lemma_comments_keep_stopping(
    p1: Seq<u8>,
    p2: Seq<u8>,
    eof: EofIndicator,
    inputs: Seq<u8>,
    c: Config,
)
    requires
        well_formed(p1, c),
        c.pc == 0,
        strip(p1) == strip(p2),
    ensures
        stops(p1, eof, inputs, c) <==> stops(p2, eof, inputs, c),
{
    lemma_stripped_stops_alike(p1, eof, inputs, c);
    lemma_stripped_stops_alike(p2, eof, inputs, c);
}

} // verus!
