use brainfuck_int::engine::{interpret, Engine, LoopError, RunStatus};
use brainfuck_int::eof::EofIndicator;

const STEPS: usize = 100_000;

fn run_text(program: &str, cells: usize, eof: EofIndicator, input: &[u8]) -> (Vec<u8>, RunStatus, Engine) {
    let (run, engine) = interpret(program.as_bytes().to_vec(), cells, eof, &input.to_vec(), STEPS);
    (run.output, run.status, engine)
}

#[test]
fn pointer_wraps_right_past_last_cell() {
    let (_, status, engine) = run_text(">>>", 2, EofIndicator::Char(0), &[]);
    assert_eq!(status, RunStatus::Finished);
    assert_eq!(engine.pointer(), 1);
}

#[test]
fn pointer_wraps_left_from_first_cell() {
    let (_, _, engine) = run_text("<", 3, EofIndicator::Char(0), &[]);
    assert_eq!(engine.pointer(), 2);
    let (_, _, engine) = run_text("<<<<", 3, EofIndicator::Char(0), &[]);
    assert_eq!(engine.pointer(), 2);
}

#[test]
fn pointer_stays_on_single_cell_tape() {
    let (_, _, engine) = run_text("><<>>>", 1, EofIndicator::Char(0), &[]);
    assert_eq!(engine.pointer(), 0);
    assert_eq!(engine.tape().len(), 1);
}

#[test]
fn moves_write_to_the_right_cells() {
    let (_, _, engine) = run_text("+>++<<+++", 3, EofIndicator::Char(0), &[]);
    assert_eq!(engine.tape(), &vec![1u8, 2, 3]);
    assert_eq!(engine.pointer(), 2);
}

#[test]
fn increment_wraps_255_to_0() {
    let program = "+".repeat(255);
    let (_, _, engine) = run_text(&program, 1, EofIndicator::Char(0), &[]);
    assert_eq!(engine.tape()[0], 255);
    let program = "+".repeat(256);
    let (_, _, engine) = run_text(&program, 1, EofIndicator::Char(0), &[]);
    assert_eq!(engine.tape()[0], 0);
}

#[test]
fn decrement_wraps_0_to_255() {
    let (_, _, engine) = run_text("-", 1, EofIndicator::Char(0), &[]);
    assert_eq!(engine.tape()[0], 255);
    let (_, _, engine) = run_text("-+", 1, EofIndicator::Char(0), &[]);
    assert_eq!(engine.tape()[0], 0);
}

#[test]
fn nested_loop_skipped_when_cell_is_zero() {
    let (output, status, engine) = run_text("[[+]]", 4, EofIndicator::Char(0), &[]);
    assert_eq!(status, RunStatus::Finished);
    assert!(output.is_empty());
    assert_eq!(engine.position(), 5);
    assert_eq!(engine.tape(), &vec![0u8; 4]);
}

#[test]
fn nested_loop_runs_inner_loop_when_cell_is_nonzero() {
    // The inner loop counts the cell from 1 up through 255 and wraps to 0,
    // then both loops fall through.
    let (_, status, engine) = run_text("+[[+]]", 1, EofIndicator::Char(0), &[]);
    assert_eq!(status, RunStatus::Finished);
    assert_eq!(engine.tape()[0], 0);
    // `+ [ [`, then 255 rounds of `+ ]` (the last `]` falls through), then the
    // outer `]`: 514 instructions, and one more move notices the end.
    let (run, engine) = interpret(b"+[[+]]".to_vec(), 1, EofIndicator::Char(0), &vec![], 514);
    assert_eq!(run.status, RunStatus::Running);
    assert_eq!(engine.position(), 6);
    let (run, _) = interpret(b"+[[+]]".to_vec(), 1, EofIndicator::Char(0), &vec![], 515);
    assert_eq!(run.status, RunStatus::Finished);
    let (run, engine) = interpret(b"+[[+]]".to_vec(), 1, EofIndicator::Char(0), &vec![], 513);
    assert_eq!(run.status, RunStatus::Running);
    assert_eq!(engine.position(), 5);
}

#[test]
fn nested_loops_count_with_second_cell() {
    // Two outer rounds, each running the inner loop three times on cell 1.
    let (output, status, engine) = run_text("++[>+++[>+<-]<-]>>.", 3, EofIndicator::Char(0), &[]);
    assert_eq!(status, RunStatus::Finished);
    assert_eq!(output, vec![6]);
    assert_eq!(engine.tape(), &vec![0u8, 0, 6]);
}

#[test]
fn three_increments_then_write_outputs_three() {
    let (output, status, _) = run_text("+++.", 1, EofIndicator::Char(0), &[]);
    assert_eq!(status, RunStatus::Finished);
    assert_eq!(output, vec![3]);
    let (output, _, _) = run_text("+++.", 30000, EofIndicator::Char(0), &[]);
    assert_eq!(output, vec![3]);
}

#[test]
fn read_then_write_copies_input() {
    let (run, _) = interpret(b",.".to_vec(), 10, EofIndicator::Char(0), &vec![65], STEPS);
    assert_eq!(run.output, vec![65]);
    assert_eq!(run.consumed, 1);
    assert_eq!(run.status, RunStatus::Finished);
}

#[test]
fn read_at_end_of_input_stores_fixed_byte() {
    let (output, _, _) = run_text(",.", 10, EofIndicator::Char(88), &[]);
    assert_eq!(output, vec![88]);
}

#[test]
fn read_at_end_of_input_leaves_cell_unchanged() {
    let (output, _, _) = run_text(",.", 10, EofIndicator::Unchanged, &[]);
    assert_eq!(output, vec![0]);
    let (output, _, _) = run_text("+++,.", 10, EofIndicator::Unchanged, &[]);
    assert_eq!(output, vec![3]);
}

#[test]
fn reads_take_input_in_order() {
    let (run, _) = interpret(b",.,.,.".to_vec(), 1, EofIndicator::Char(7), &vec![1, 2], STEPS);
    assert_eq!(run.output, vec![1, 2, 7]);
    assert_eq!(run.consumed, 2);
}

#[test]
fn unmatched_open_fails_on_zero_cell() {
    let (output, status, engine) = run_text("+.-[.+", 1, EofIndicator::Char(0), &[]);
    assert_eq!(status, RunStatus::Failed(LoopError::UnmatchedOpen(3)));
    assert_eq!(output, vec![1]);
    assert_eq!(engine.position(), 3);
}

#[test]
fn unmatched_open_passes_on_nonzero_cell() {
    let (output, status, _) = run_text("+[.", 1, EofIndicator::Char(0), &[]);
    assert_eq!(status, RunStatus::Finished);
    assert_eq!(output, vec![1]);
}

#[test]
fn unmatched_close_fails_on_nonzero_cell() {
    let (output, status, _) = run_text("+]", 1, EofIndicator::Char(0), &[]);
    assert_eq!(status, RunStatus::Failed(LoopError::UnmatchedClose(1)));
    assert!(output.is_empty());
    let (_, status, _) = run_text("]", 1, EofIndicator::Char(0), &[]);
    assert_eq!(status, RunStatus::Finished);
}

#[test]
fn comment_bytes_change_nothing() {
    let (plain_out, _, plain) = run_text("++>+<.", 2, EofIndicator::Char(0), &[]);
    let (noisy_out, status, noisy) = run_text("a+ +\n>x+<yz.\u{e9}", 2, EofIndicator::Char(0), &[]);
    assert_eq!(status, RunStatus::Finished);
    assert_eq!(plain_out, noisy_out);
    assert_eq!(plain.tape(), noisy.tape());
    assert_eq!(plain.pointer(), noisy.pointer());
}

#[test]
fn empty_program_finishes_at_once() {
    let (run, engine) = interpret(vec![], 1, EofIndicator::Char(0), &vec![], 1);
    assert_eq!(run.status, RunStatus::Finished);
    assert!(run.output.is_empty());
    assert!(engine.is_halted());
}

#[test]
fn step_by_step_with_input() {
    let mut engine = Engine::new(b",+.".to_vec(), 1, EofIndicator::Char(0));
    assert!(engine.wants_input());
    assert_eq!(engine.step(Some(41)), Ok(None));
    assert!(!engine.wants_input());
    assert_eq!(engine.step(None), Ok(None));
    assert_eq!(engine.step(None), Ok(Some(42)));
    assert!(engine.is_halted());
}

#[test]
fn step_jumps_to_matching_bracket() {
    let mut engine = Engine::new(b"[[]+]+".to_vec(), 1, EofIndicator::Char(0));
    assert_eq!(engine.step(None), Ok(None));
    assert_eq!(engine.position(), 5);
}

#[test]
fn run_stops_after_step_budget() {
    let (run, engine) = interpret(b"+[]".to_vec(), 1, EofIndicator::Char(0), &vec![], 10);
    assert_eq!(run.status, RunStatus::Running);
    assert_eq!(engine.tape()[0], 1);
}

#[test]
fn comment_bytes_keep_endless_loop_endless() {
    let (run, _) = interpret(b"+[]".to_vec(), 1, EofIndicator::Char(0), &vec![], 10_000);
    assert_eq!(run.status, RunStatus::Running);
    let (run, _) = interpret(b"+ loop [ forever ] !".to_vec(), 1, EofIndicator::Char(0), &vec![], 10_000);
    assert_eq!(run.status, RunStatus::Running);
}
