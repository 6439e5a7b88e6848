use threaded_bf::engine::{Action, Engine, RunReport, run_buffered, step, INCR, DECR, RIGHT, LEFT, OPEN, CLOSE, PUT, GET, MEMORY_SIZE};
use threaded_bf::program::{Cell, Op, operation_for};
use threaded_bf::translate::{TranslateError, translate};

fn run_text(src: &str, input: &[u8]) -> RunReport {
    let mut e = Engine::new(src.as_bytes()).expect("program translates");
    run_buffered(&mut e, input, 1_000_000)
}

fn plus_then_put(n: usize) -> String {
    let mut s = "+".repeat(n);
    s.push('.');
    s
}

fn blank_engine(program: Vec<Cell>) -> Engine {
    Engine { program, pc: 0, memory: vec![0; MEMORY_SIZE], loc: 0 }
}

#[test]
fn increments_then_output_wrap_modulo_256() {
    for n in [0usize, 1, 2, 127, 128, 255, 256, 257, 300, 511, 512] {
        let r = run_text(&plus_then_put(n), &[]);
        assert_eq!(r.output, vec![(n % 256) as u8], "n = {}", n);
        assert!(r.halted);
    }
}

#[test]
fn increment_then_clear_loop_ends_at_zero() {
    let mut e = Engine::new(b"+[-]").unwrap();
    let r = run_buffered(&mut e, &[], 100);
    assert!(r.halted);
    assert!(r.output.is_empty());
    assert_eq!(e.memory[0], 0);
    assert_eq!(e.pc, 6);
}

#[test]
fn open_on_zero_skips_past_matching_close() {
    let r = run_text("[+.]", &[]);
    assert!(r.output.is_empty());
    assert!(r.halted);
}

#[test]
fn close_on_nonzero_returns_past_open() {
    let r = run_text("+++[.-]", &[]);
    assert_eq!(r.output, vec![3, 2, 1]);
    assert!(r.halted);
}

#[test]
fn nested_loops_pair_innermost_first() {
    let p = translate(b"[[]]").unwrap();
    assert_eq!(
        p,
        vec![
            Cell::Op(Op::Open), Cell::Target(8),
            Cell::Op(Op::Open), Cell::Target(6),
            Cell::Op(Op::Close), Cell::Target(4),
            Cell::Op(Op::Close), Cell::Target(2),
            Cell::Op(Op::Halt),
        ]
    );
}

#[test]
fn balanced_translation_resolves_every_operand() {
    let p = translate(b"+[-]").unwrap();
    assert_eq!(
        p,
        vec![
            Cell::Op(Op::Incr), Cell::Op(Op::Open), Cell::Target(6),
            Cell::Op(Op::Decr), Cell::Op(Op::Close), Cell::Target(3),
            Cell::Op(Op::Halt),
        ]
    );
}

#[test]
fn unmatched_close_aborts_translation() {
    assert_eq!(translate(b"+]"), Err(TranslateError::UnmatchedClose));
    assert_eq!(translate(b".]."), Err(TranslateError::UnmatchedClose));
    assert!(matches!(Engine::new(b"]["), Err(TranslateError::UnmatchedClose)));
}

#[test]
fn unmatched_open_is_refused() {
    assert_eq!(translate(b"[+"), Err(TranslateError::UnmatchedOpen));
    assert!(matches!(Engine::new(b"+[[]"), Err(TranslateError::UnmatchedOpen)));
}

#[test]
fn lone_output_writes_one_zero_byte_then_halts() {
    let p = translate(b".").unwrap();
    assert_eq!(p, vec![Cell::Op(Op::Put), Cell::Op(Op::Halt)]);
    let mut e = blank_engine(p);
    assert_eq!(step(&mut e), Action::Write(0));
    assert_eq!(step(&mut e), Action::Halt);
    assert_eq!(step(&mut e), Action::Halt);
}

#[test]
fn nested_multiplication_writes_64() {
    let r = run_text("++++++++[>++++++++<-]>.", &[]);
    assert_eq!(r.output, vec![64]);
    assert!(r.halted);
}

#[test]
fn other_bytes_are_ignored() {
    let p = translate("a +\n b . é".as_bytes()).unwrap();
    assert_eq!(p, vec![Cell::Op(Op::Incr), Cell::Op(Op::Put), Cell::Op(Op::Halt)]);
    assert_eq!(translate(b"").unwrap(), vec![Cell::Op(Op::Halt)]);
}

#[test]
fn operation_table() {
    assert_eq!(operation_for(b'+'), Some(Op::Incr));
    assert_eq!(operation_for(b'-'), Some(Op::Decr));
    assert_eq!(operation_for(b'>'), Some(Op::Right));
    assert_eq!(operation_for(b'<'), Some(Op::Left));
    assert_eq!(operation_for(b'['), Some(Op::Open));
    assert_eq!(operation_for(b']'), Some(Op::Close));
    assert_eq!(operation_for(b'.'), Some(Op::Put));
    assert_eq!(operation_for(b','), Some(Op::Get));
    assert_eq!(operation_for(b'x'), None);
}

#[test]
fn increment_and_decrement_wrap() {
    let mut e = blank_engine(vec![Cell::Op(Op::Halt)]);
    e.memory[0] = 127;
    INCR(&mut e);
    assert_eq!(e.memory[0], -128);
    assert_eq!(e.pc, 1);
    DECR(&mut e);
    assert_eq!(e.memory[0], 127);
    assert_eq!(e.pc, 2);
    e.memory[0] = -128;
    DECR(&mut e);
    assert_eq!(e.memory[0], 127);
}

#[test]
fn cursor_moves() {
    let mut e = blank_engine(vec![Cell::Op(Op::Halt)]);
    RIGHT(&mut e);
    RIGHT(&mut e);
    assert_eq!((e.loc, e.pc), (2, 2));
    LEFT(&mut e);
    assert_eq!((e.loc, e.pc), (1, 3));
}

#[test]
fn branches_read_their_operand() {
    let mut e = blank_engine(vec![Cell::Op(Op::Open), Cell::Target(9)]);
    OPEN(&mut e);
    assert_eq!(e.pc, 9);
    e.pc = 0;
    e.memory[0] = 1;
    OPEN(&mut e);
    assert_eq!(e.pc, 2);
    e.pc = 0;
    CLOSE(&mut e);
    assert_eq!(e.pc, 9);
    e.pc = 0;
    e.memory[0] = 0;
    CLOSE(&mut e);
    assert_eq!(e.pc, 2);
}

#[test]
fn output_and_input_convert_bytes() {
    let mut e = blank_engine(vec![Cell::Op(Op::Halt)]);
    e.memory[0] = -1;
    assert_eq!(PUT(&mut e), 255);
    GET(&mut e, Some(200));
    assert_eq!(e.memory[0], -56);
    GET(&mut e, None);
    assert_eq!(e.memory[0], -56);
    assert_eq!(e.pc, 3);
}

#[test]
fn echo_reads_input_and_keeps_cell_at_end_of_input() {
    let r = run_text(",.,.", &[65]);
    assert_eq!(r.output, vec![65, 65]);
    assert_eq!(r.consumed, 1);
    let r = run_text(",.", &[]);
    assert_eq!(r.output, vec![0]);
}

#[test]
fn step_reports_read_and_fault() {
    let mut e = Engine::new(b",").unwrap();
    assert_eq!(step(&mut e), Action::Read);
    assert_eq!(e.pc, 0);
    let mut e = Engine::new(b"<").unwrap();
    assert_eq!(step(&mut e), Action::Fault);
    assert_eq!(e.pc, 0);
    let mut e = Engine::new(b"+").unwrap();
    assert_eq!(step(&mut e), Action::Continue);
    assert_eq!(step(&mut e), Action::Halt);
}

#[test]
fn fresh_engine_state() {
    let e = Engine::new(b"+.").unwrap();
    assert_eq!(e.pc, 0);
    assert_eq!(e.loc, 0);
    assert_eq!(e.memory.len(), MEMORY_SIZE);
    assert!(e.memory.iter().all(|&v| v == 0));
    assert!(!e.is_halted());
}

#[test]
fn fuel_bounds_a_run() {
    let r = run_text("+[]", &[]);
    assert!(!r.halted);
    assert!(r.output.is_empty());
}
