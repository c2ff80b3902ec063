use genetic_bf::vm::VM;
use genetic_bf::{run_program, VMError, VMResult};

const FUEL: u64 = 1_000_000;

fn run(prog: &[u8], input: &[u8]) -> (Option<VMResult>, Vec<u8>) {
    run_program(prog.to_vec(), input.to_vec(), FUEL)
}

#[test]
fn it_works() {}

#[test]
fn echo_program() {
    let (res, out) = run(b",.", b"A");
    assert_eq!(res, Some(VMResult::Success));
    assert_eq!(out, b"A".to_vec());
}

#[test]
fn empty_program_succeeds() {
    let (res, out) = run(b"", b"");
    assert_eq!(res, Some(VMResult::Success));
    assert_eq!(out, Vec::<u8>::new());
}

#[test]
fn interpreter_determinism() {
    let prog = b",+.>+++.";
    let (res1, out1) = run(prog, b"x");
    let (res2, out2) = run(prog, b"x");
    assert_eq!(res1, res2);
    assert_eq!(out1, out2);
    assert_eq!(res1, Some(VMResult::Success));
}

#[test]
fn pointer_overflow_at_tape_end() {
    // 29999 moves right land on the last cell and succeed.
    let (res, _) = run(&vec![b'>'; 29999], b"");
    assert_eq!(res, Some(VMResult::Success));
    // 30000 consecutive `>` followed by one more must fail.
    let (res, _) = run(&vec![b'>'; 30001], b"");
    assert_eq!(res, Some(VMResult::Error(VMError::DataPointerOverflow)));
}

#[test]
fn pointer_underflow_immediately() {
    let (res, _) = run(b"<", b"");
    assert_eq!(res, Some(VMResult::Error(VMError::DataPointerUnderflow)));
}

#[test]
fn cell_overflow_on_256th_increment() {
    // 255 increments fill the cell and succeed.
    let (res, _) = run(&vec![b'+'; 255], b"");
    assert_eq!(res, Some(VMResult::Success));
    // The 256th fails.
    let (res, _) = run(&vec![b'+'; 256], b"");
    assert_eq!(res, Some(VMResult::Error(VMError::CellOverflow)));
}

#[test]
fn cell_underflow_immediately() {
    let (res, _) = run(b"-", b"");
    assert_eq!(res, Some(VMResult::Error(VMError::CellUnderflow)));
}

#[test]
fn input_failure_when_exhausted() {
    let (res, _) = run(b",,", b"A");
    assert_eq!(res, Some(VMResult::Error(VMError::InputFailure)));
}

#[test]
fn unmatched_open_bracket() {
    let (res, _) = run(b"[", b"");
    assert_eq!(res, Some(VMResult::Error(VMError::UnmatchedOpenBracket)));
}

#[test]
fn unmatched_close_bracket() {
    let (res, _) = run(b"+]", b"");
    assert_eq!(res, Some(VMResult::Error(VMError::UnmatchedCloseBracket)));
}

#[test]
fn loop_skipped_when_cell_zero() {
    // The body would underflow the cell if it ever ran.
    let (res, out) = run(b"[-.]", b"");
    assert_eq!(res, Some(VMResult::Success));
    assert_eq!(out, Vec::<u8>::new());
}

#[test]
fn loop_body_runs_once_per_nonzero_test() {
    // Three passes: the cell is printed after each decrement.
    let (res, out) = run(b"+++[-.]", b"");
    assert_eq!(res, Some(VMResult::Success));
    assert_eq!(out, vec![2, 1, 0]);
}

#[test]
fn nested_loops_drain_cells() {
    // Outer loop moves a count of 2 across two inner drains.
    let (res, out) = run(b"++[>++[-]<-].", b"");
    assert_eq!(res, Some(VMResult::Success));
    assert_eq!(out, vec![0]);
}

#[test]
fn non_opcode_bytes_are_inert() {
    let (res, out) = run(b"x+y.z", b"");
    assert_eq!(res, Some(VMResult::Success));
    assert_eq!(out, vec![1]);
}

#[test]
fn fuel_runs_out_on_endless_loop() {
    let (res, _) = run_program(b"+[]".to_vec(), Vec::new(), 10_000);
    assert_eq!(res, None);
}

#[test]
fn run_resumes_after_fuel_runs_out() {
    // A long but finite program: drain a cell of 200, printing each value.
    let mut prog = vec![b'+'; 200];
    prog.extend_from_slice(b"[-].");
    let mut vm = VM::new(prog.clone(), Vec::new());
    let mut res = None;
    let mut budgets = 0;
    while res.is_none() {
        res = vm.run(50);
        budgets += 1;
        assert!(budgets < 100, "program should have halted");
    }
    assert_eq!(res, Some(VMResult::Success));
    assert_eq!(vm.into_output(), vec![0]);
    // The same program in one budget agrees.
    let (res_once, out_once) = run(&prog, b"");
    assert_eq!(res_once, Some(VMResult::Success));
    assert_eq!(out_once, vec![0]);
}
