use genetic_bf::gen::{generate_program, random_op, score, ProgGen, ROUNDS, STEP_BUDGET};
use genetic_bf::{Config, Rule};

const OPCODES: &[u8] = b"><+-.,[]";

fn rule(input: &[u8], output: &[u8]) -> Rule {
    Rule { input: input.to_vec(), output: output.to_vec() }
}

#[test]
fn score_perfect_match_is_zero() {
    let prog = b",.".to_vec();
    let rules = vec![rule(b"A", b"A")];
    assert_eq!(score(&prog, &rules, STEP_BUDGET), 0);
}

#[test]
fn score_counts_byte_distance() {
    let prog = b",.".to_vec();
    let rules = vec![rule(b"A", b"B")];
    assert_eq!(score(&prog, &rules, STEP_BUDGET), 1);
}

#[test]
fn score_penalizes_length_difference() {
    let prog = b"+.".to_vec();
    let rules = vec![rule(b"", b"")];
    assert_eq!(score(&prog, &rules, STEP_BUDGET), 1000);
}

#[test]
fn score_sums_over_rules() {
    let prog = b",.".to_vec();
    let rules = vec![rule(b"A", b"A"), rule(b"A", b"B"), rule(b"", b"")];
    // 0 for the match, 1 for the byte distance, worst case for the failed
    // read on empty input: the saturating sum is the maximum.
    assert_eq!(score(&prog, &rules, STEP_BUDGET), u64::MAX);
}

#[test]
fn score_failed_run_is_worst_case() {
    let prog = b"<".to_vec();
    let rules = vec![rule(b"", b"")];
    assert_eq!(score(&prog, &rules, STEP_BUDGET), u64::MAX);
}

#[test]
fn score_endless_run_is_worst_case() {
    let prog = b"+[]".to_vec();
    let rules = vec![rule(b"", b"")];
    assert_eq!(score(&prog, &rules, 10_000), u64::MAX);
}

#[test]
fn scoring_is_idempotent() {
    let prog = b",.+-.".to_vec();
    let rules = vec![rule(b"A", b"AB"), rule(b"Q", b"")];
    let first = score(&prog, &rules, STEP_BUDGET);
    let second = score(&prog, &rules, STEP_BUDGET);
    assert_eq!(first, second);
}

#[test]
fn insert_on_empty_always_lands_in_range() {
    // The only valid insertion point of an empty candidate is index 0; a
    // single out-of-range pick would make the insertion panic.
    for _ in 0..200 {
        let mut g = ProgGen::new(Config { rules: Vec::new() });
        g.mutate_insert();
        assert_eq!(g.prog.len(), 1);
        assert!(OPCODES.contains(&g.prog[0]));
    }
}

#[test]
fn repeated_inserts_stay_in_range() {
    let mut g = ProgGen::new(Config { rules: Vec::new() });
    for round in 1..=100 {
        g.mutate_insert();
        assert_eq!(g.prog.len(), round);
    }
    assert!(g.prog.iter().all(|b| OPCODES.contains(b)));
}

#[test]
fn change_on_empty_is_a_no_op() {
    let mut g = ProgGen::new(Config { rules: Vec::new() });
    g.mutate_change();
    assert_eq!(g.prog.len(), 0);
}

#[test]
fn delete_below_two_bytes_is_a_no_op() {
    let mut g = ProgGen::new(Config { rules: Vec::new() });
    g.mutate_delete();
    assert_eq!(g.prog.len(), 0);
    g.prog = vec![b'+'];
    g.mutate_delete();
    assert_eq!(g.prog, vec![b'+']);
}

#[test]
fn delete_removes_exactly_one_byte() {
    for _ in 0..50 {
        let mut g = ProgGen::new(Config { rules: Vec::new() });
        g.prog = b"+-".to_vec();
        g.mutate_delete();
        assert_eq!(g.prog.len(), 1);
        assert!(g.prog[0] == b'+' || g.prog[0] == b'-');
    }
}

#[test]
fn change_keeps_length_and_writes_an_opcode() {
    for _ in 0..50 {
        let mut g = ProgGen::new(Config { rules: Vec::new() });
        g.prog = b"xx".to_vec();
        g.mutate_change();
        assert_eq!(g.prog.len(), 2);
        assert!(g.prog.iter().any(|b| OPCODES.contains(b)));
    }
}

#[test]
fn random_op_yields_opcodes() {
    for _ in 0..100 {
        assert!(OPCODES.contains(&random_op()));
    }
}

#[test]
fn generated_program_is_short_and_all_opcodes() {
    let cfg = Config { rules: vec![rule(b"", b"")] };
    let prog = generate_program(cfg).unwrap();
    assert!(prog.len() <= ROUNDS);
    assert!(prog.iter().all(|b| OPCODES.contains(b)));
}
