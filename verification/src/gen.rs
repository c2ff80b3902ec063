use vstd::prelude::*;
use vstd::pervasive::VecAdditionalExecFns;
use std::io::Write;
use rand::Rng;

use crate::config::Config;
use crate::config::Rule;
use crate::vm::VM;
use crate::vm::VMResult;
use crate::vm::StepResult;
use crate::vm::init_state;
use crate::vm::run_spec;
use crate::vm::as_outcome;
use crate::vm::lemma_run_spec_stable;
use crate::vm::is_opcode;
use crate::vm::OP_RIGHT;
use crate::vm::OP_LEFT;
use crate::vm::OP_INC;
use crate::vm::OP_DEC;
use crate::vm::OP_OUT;
use crate::vm::OP_IN;
use crate::vm::OP_OPEN;
use crate::vm::OP_CLOSE;

verus! {

/// Weight of one byte of output-length difference, chosen to dominate the at
/// most 255 that one byte of content difference can add.
pub const LEN_PENALTY: u64 = 1000;

/// Steps one rule evaluation may take. A randomly mutated candidate can
/// loop forever, and the search must survive it: one still going when this
/// budget ends scores as badly as one that failed. The candidates this
/// search builds are a few bytes long and halt, or fail, far earlier.
pub const STEP_BUDGET: u64 = 1000000;

/// Rounds of mutation one search runs.
pub const ROUNDS: usize = 10;

/// Saturating addition: the sum, capped at the largest value.
pub open spec fn spec_sat_add(a: u64, b: u64) -> u64 {
    if a + b > u64::MAX {
        u64::MAX
    } else {
        (a + b) as u64
    }
}

fn sat_add(a: u64, b: u64) -> (r: u64)
    ensures
        r == spec_sat_add(a, b),
{
    if a > u64::MAX - b {
        u64::MAX
    } else {
        a + b
    }
}

/// The distance between two bytes.
pub open spec fn byte_diff(a: u8, b: u8) -> u64 {
    if a >= b {
        (a - b) as u64
    } else {
        (b - a) as u64
    }
}

/// Saturating sum of the byte distances over the first `i` positions.
pub open spec fn spec_byte_error_upto(actual: Seq<u8>, expected: Seq<u8>, i: nat) -> u64
    decreases i,
{
    if i == 0 {
        0
    } else {
        spec_sat_add(
            spec_byte_error_upto(actual, expected, (i - 1) as nat),
            byte_diff(actual[i as int - 1], expected[i as int - 1]),
        )
    }
}

/// `LEN_PENALTY` for each byte of length difference, capped at the largest
/// value.
pub open spec fn spec_len_penalty(d: nat) -> u64 {
    if LEN_PENALTY * d > u64::MAX {
        u64::MAX
    } else {
        (LEN_PENALTY * d) as u64
    }
}

fn len_penalty_of(d: u64) -> (r: u64)
    ensures
        r == spec_len_penalty(d as nat),
{
    if d > u64::MAX / LEN_PENALTY {
        u64::MAX
    } else {
        LEN_PENALTY * d
    }
}

/// The distance of one successful run's output from the expected bytes: the
/// length penalty plus the byte distances over the shared prefix, both
/// saturating so that the worst case stays representable.
pub open spec fn spec_output_score(actual: Seq<u8>, expected: Seq<u8>) -> u64 {
    let len_diff = if actual.len() >= expected.len() {
        actual.len() - expected.len()
    } else {
        expected.len() - actual.len()
    };
    let shared = if actual.len() <= expected.len() {
        actual.len()
    } else {
        expected.len()
    };
    spec_sat_add(
        spec_len_penalty(len_diff as nat),
        spec_byte_error_upto(actual, expected, shared as nat),
    )
}

/// What one rule adds to a candidate's score: the output distance after a
/// successful run; the worst representable score after a failure, or after a
/// run still going when the step budget ends.
pub open spec fn spec_rule_score(prog: Seq<u8>, rule: Rule, fuel: nat) -> u64 {
    match run_spec(init_state(prog, rule.input@), fuel) {
        StepResult::Done(fin) => spec_output_score(fin.output, rule.output@),
        StepResult::Failed(_, _) => u64::MAX,
        StepResult::Running(_) => u64::MAX,
    }
}

/// Saturating sum of the first `i` rules' scores.
pub open spec fn spec_score_upto(prog: Seq<u8>, rules: Seq<Rule>, fuel: nat, i: nat) -> u64
    decreases i,
{
    if i == 0 {
        0
    } else {
        spec_sat_add(
            spec_score_upto(prog, rules, fuel, (i - 1) as nat),
            spec_rule_score(prog, rules[i as int - 1], fuel),
        )
    }
}

/// A candidate's score against a whole rule set under one step budget: zero
/// is a perfect match on every rule, higher is worse.
pub open spec fn spec_score(prog: Seq<u8>, rules: Seq<Rule>, fuel: nat) -> u64 {
    spec_score_upto(prog, rules, fuel, rules.len())
}

/// A byte-for-byte copy.
fn clone_bytes(v: &Vec<u8>) -> (r: Vec<u8>)
    ensures
        r@ == v@,
{
    let mut r: Vec<u8> = Vec::new();
    let mut i: usize = 0;
    while i < v.len()
        invariant
            i <= v@.len(),
            r@.len() == i,
            forall|k: int| 0 <= k < i ==> r@[k] == v@[k],
        decreases v@.len() - i,
    {
        r.push(v[i]);
        i += 1;
    }
    proof {
        assert(r@ =~= v@);
    }
    r
}

/// Run the candidate once on `rule`'s input and measure the distance of
/// what came out from what the rule expects.
fn score_rule(prog: &Vec<u8>, rule: &Rule, fuel: u64) -> (s: u64)
    ensures
        s == spec_rule_score(prog@, *rule, fuel as nat),
{
    let ghost init = init_state(prog@, rule.input@);
    let prog_copy = clone_bytes(prog);
    let input_copy = clone_bytes(&rule.input);
    let mut machine = VM::new(prog_copy, input_copy);
    let res = machine.run(fuel);
    match res {
        None => u64::MAX,
        Some(VMResult::Error(_)) => {
            proof {
                let v = res.unwrap();
                let n = choose|n: nat|
                    n <= fuel && #[trigger] run_spec(init, n) == as_outcome(v, machine@);
                lemma_run_spec_stable(init, n, fuel as nat);
            }
            u64::MAX
        },
        Some(VMResult::Success) => {
            proof {
                let v = res.unwrap();
                let n = choose|n: nat|
                    n <= fuel && #[trigger] run_spec(init, n) == as_outcome(v, machine@);
                lemma_run_spec_stable(init, n, fuel as nat);
            }
            let actual = machine.into_output();
            output_score(&actual, &rule.output)
        },
    }
}

/// The score of a successful run's output against the expected bytes.
fn output_score(actual: &Vec<u8>, expected: &Vec<u8>) -> (s: u64)
    ensures
        s == spec_output_score(actual@, expected@),
{
    let alen = actual.len();
    let elen = expected.len();
    let d = if alen >= elen {
        alen - elen
    } else {
        elen - alen
    };
    let len_pen = len_penalty_of(d as u64);
    let shared = if alen <= elen {
        alen
    } else {
        elen
    };
    let mut err: u64 = 0;
    let mut i: usize = 0;
    while i < shared
        invariant
            i <= shared,
            shared <= actual@.len(),
            shared <= expected@.len(),
            err == spec_byte_error_upto(actual@, expected@, i as nat),
        decreases shared - i,
    {
        let a = actual[i];
        let b = expected[i];
        let db = if a >= b {
            (a - b) as u64
        } else {
            (b - a) as u64
        };
        err = sat_add(err, db);
        i += 1;
    }
    sat_add(len_pen, err)
}

/// Score a candidate against every rule in order: run it once per rule on
/// that rule's input and sum, saturating, each rule's distance. The
/// candidate is untouched and the score is a function of the arguments
/// alone, so scoring the same candidate twice gives the same number.
pub fn score(prog: &Vec<u8>, rules: &Vec<Rule>, fuel: u64) -> (s: u64)
    ensures
        s == spec_score(prog@, rules@, fuel as nat),
{
    let mut total: u64 = 0;
    let mut r: usize = 0;
    while r < rules.len()
        invariant
            r <= rules@.len(),
            total == spec_score_upto(prog@, rules@, fuel as nat, r as nat),
        decreases rules@.len() - r,
    {
        let contribution = score_rule(prog, &rules[r], fuel);
        total = sat_add(total, contribution);
        r += 1;
    }
    total
}

/// Scoring is idempotent: `score` returns `spec_score` of its arguments
/// exactly, so two scorings of one candidate against one rule set under one
/// budget are one number.
pub proof fn lemma_score_idempotent(
    prog: Seq<u8>,
    rules: Seq<Rule>,
    fuel: nat,
    s1: u64,
    s2: u64,
)
    requires
        s1 == spec_score(prog, rules, fuel),
        s2 == spec_score(prog, rules, fuel),
    ensures
        s1 == s2,
{
}

/// Relies on rand::Rng::gen_range over `0..n`: it panics on an empty range
/// and otherwise returns a uniformly random value below `n`.
#[verifier::external_body]
fn rand_below(n: usize) -> (r: usize)
    requires
        1 <= n,
    ensures
        r < n,
{
    rand::thread_rng().gen_range(0..n)
}

/// Relies on std::io::Stdout::write_fmt (through `writeln!`): prints one
/// round's candidate and score; nothing is promised of it.
#[verifier::external_body]
fn report_progress(prog: &Vec<u8>, score: u64) {
    let text = String::from_utf8_lossy(prog);
    let _ = writeln!(std::io::stdout(), "Prog: {}\nScore: {}", text, score);
}

/// One of the eight opcodes, chosen uniformly at random.
pub fn random_op() -> (op: u8)
    ensures
        is_opcode(op),
{
    let idx = rand_below(8);
    if idx == 0 {
        OP_RIGHT
    } else if idx == 1 {
        OP_LEFT
    } else if idx == 2 {
        OP_INC
    } else if idx == 3 {
        OP_DEC
    } else if idx == 4 {
        OP_OUT
    } else if idx == 5 {
        OP_IN
    } else if idx == 6 {
        OP_OPEN
    } else {
        OP_CLOSE
    }
}

/// One candidate is one random edit away from another: an opcode inserted
/// at some position, an opcode substituted at some position, some byte
/// deleted — or nothing at all, where the edit's minimum length was not met.
pub open spec fn is_mutation_of(before: Seq<u8>, after: Seq<u8>) -> bool {
    ||| exists|i: int, op: u8|
        0 <= i <= before.len() && is_opcode(op) && after == before.insert(i, op)
    ||| (before.len() == 0 && after == before)
    ||| exists|i: int, op: u8|
        0 <= i < before.len() && is_opcode(op) && after == before.update(i, op)
    ||| (before.len() <= 1 && after == before)
    ||| exists|i: int| 0 <= i < before.len() && after == before.remove(i)
}

/// `after` is reachable from `before` by exactly `n` rounds of mutation.
pub open spec fn mutated_n(before: Seq<u8>, after: Seq<u8>, n: nat) -> bool
    decreases n,
{
    if n == 0 {
        after == before
    } else {
        exists|mid: Seq<u8>| mutated_n(before, mid, (n - 1) as nat) && is_mutation_of(mid, after)
    }
}

/// A mutation lengthens a candidate by at most one byte.
pub proof fn lemma_mutation_len(before: Seq<u8>, after: Seq<u8>)
    requires
        is_mutation_of(before, after),
    ensures
        after.len() <= before.len() + 1,
{
    if exists|i: int, op: u8|
        0 <= i <= before.len() && is_opcode(op) && after == before.insert(i, op) {
        let (i, op) = choose|i: int, op: u8|
            0 <= i <= before.len() && is_opcode(op) && after == before.insert(i, op);
        before.insert_ensures(i, op);
    } else if exists|i: int| 0 <= i < before.len() && after == before.remove(i) {
        let i = choose|i: int| 0 <= i < before.len() && after == before.remove(i);
        before.remove_ensures(i);
    }
}

/// A mutation of a candidate made of opcodes is a candidate made of
/// opcodes: the edits only ever write opcodes.
pub proof fn lemma_mutation_keeps_opcodes(before: Seq<u8>, after: Seq<u8>)
    requires
        is_mutation_of(before, after),
        forall|k: int| 0 <= k < before.len() ==> is_opcode(#[trigger] before[k]),
    ensures
        forall|k: int| 0 <= k < after.len() ==> is_opcode(#[trigger] after[k]),
{
    if exists|i: int, op: u8|
        0 <= i <= before.len() && is_opcode(op) && after == before.insert(i, op) {
        let (i, op) = choose|i: int, op: u8|
            0 <= i <= before.len() && is_opcode(op) && after == before.insert(i, op);
        before.insert_ensures(i, op);
        assert forall|k: int| 0 <= k < after.len() implies is_opcode(#[trigger] after[k]) by {
            if k < i {
                assert(after[k] == before[k]);
            } else if k == i {
                assert(after[k] == op);
            } else {
                assert(after[k] == before[k - 1]);
            }
        }
    } else if exists|i: int, op: u8|
        0 <= i < before.len() && is_opcode(op) && after == before.update(i, op) {
        let (i, op) = choose|i: int, op: u8|
            0 <= i < before.len() && is_opcode(op) && after == before.update(i, op);
        assert forall|k: int| 0 <= k < after.len() implies is_opcode(#[trigger] after[k]) by {
            if k != i {
                assert(after[k] == before[k]);
            }
        }
    } else if exists|i: int| 0 <= i < before.len() && after == before.remove(i) {
        let i = choose|i: int| 0 <= i < before.len() && after == before.remove(i);
        before.remove_ensures(i);
        assert forall|k: int| 0 <= k < after.len() implies is_opcode(#[trigger] after[k]) by {
            if k < i {
                assert(after[k] == before[k]);
            } else {
                assert(after[k] == before[k + 1]);
            }
        }
    }
}

/// The mutation-driven search: the rule set and the current candidate.
pub struct ProgGen {
    pub cfg: Config,
    pub prog: Vec<u8>,
}

impl ProgGen {
    /// A fresh search over `cfg`, starting from the empty candidate.
    pub fn new(cfg: Config) -> (g: ProgGen)
        ensures
            g.prog@ == Seq::<u8>::empty(),
            g.cfg == cfg,
    {
        ProgGen { cfg, prog: Vec::new() }
    }

    /// Insert one random opcode at a position chosen uniformly over the
    /// candidate, both ends included.
    pub fn mutate_insert(&mut self)
        requires
            old(self).prog@.len() < usize::MAX,
        ensures
            final(self).cfg == old(self).cfg,
            exists|i: int, op: u8|
                0 <= i <= old(self).prog@.len() && is_opcode(op) && final(self).prog@ == old(
                    self,
                ).prog@.insert(i, op),
    {
        let idx = rand_below(self.prog.len() + 1);
        let op = random_op();
        self.prog.insert(idx, op);
    }

    /// Replace the byte at a position chosen uniformly over the candidate
    /// with a random opcode; an empty candidate is silently left alone.
    pub fn mutate_change(&mut self)
        ensures
            final(self).cfg == old(self).cfg,
            old(self).prog@.len() == 0 ==> final(self).prog@ == old(self).prog@,
            old(self).prog@.len() > 0 ==> exists|i: int, op: u8|
                0 <= i < old(self).prog@.len() && is_opcode(op) && final(self).prog@ == old(
                    self,
                ).prog@.update(i, op),
    {
        if self.prog.len() > 0 {
            let idx = rand_below(self.prog.len());
            let op = random_op();
            self.prog.set(idx, op);
        }
    }

    /// Remove the byte at a position chosen uniformly over the candidate; a
    /// candidate of one byte or none is silently left alone, so a candidate
    /// once grown never becomes empty again.
    pub fn mutate_delete(&mut self)
        ensures
            final(self).cfg == old(self).cfg,
            old(self).prog@.len() <= 1 ==> final(self).prog@ == old(self).prog@,
            old(self).prog@.len() > 1 ==> exists|i: int|
                0 <= i < old(self).prog@.len() && final(self).prog@ == old(self).prog@.remove(i),
    {
        if self.prog.len() > 1 {
            let idx = rand_below(self.prog.len());
            if idx == self.prog.len() - 1 {
                self.prog.pop();
                proof {
                    assert(self.prog@ =~= old(self).prog@.remove(old(self).prog@.len() - 1));
                }
            } else {
                self.prog.remove(idx);
            }
        }
    }

    /// One round of mutation: insertion, substitution or deletion, chosen
    /// uniformly at random.
    pub fn mutate(&mut self)
        requires
            old(self).prog@.len() < usize::MAX,
        ensures
            final(self).cfg == old(self).cfg,
            is_mutation_of(old(self).prog@, final(self).prog@),
    {
        let kind = rand_below(3);
        if kind == 0 {
            self.mutate_insert();
        } else if kind == 1 {
            self.mutate_change();
        } else {
            self.mutate_delete();
        }
    }

    /// The search itself: `ROUNDS` rounds of mutate-then-score, each round's
    /// candidate and score reported as it happens, and the last candidate —
    /// not the best seen; nothing is retained across rounds — handed back.
    pub fn generate(&mut self) -> (r: Result<Vec<u8>, &'static str>)
        requires
            old(self).prog@.len() == 0,
        ensures
            match r {
                Ok(p) => {
                    &&& final(self).prog@ == p@
                    &&& mutated_n(Seq::<u8>::empty(), p@, ROUNDS as nat)
                    &&& p@.len() <= ROUNDS
                    &&& forall|k: int| 0 <= k < p@.len() ==> is_opcode(#[trigger] p@[k])
                },
                Err(_) => false,
            },
    {
        proof {
            assert(self.prog@ =~= Seq::<u8>::empty());
        }
        let mut round: usize = 0;
        while round < ROUNDS
            invariant
                round <= ROUNDS,
                mutated_n(Seq::<u8>::empty(), self.prog@, round as nat),
                self.prog@.len() <= round,
                forall|k: int| 0 <= k < self.prog@.len() ==> is_opcode(#[trigger] self.prog@[k]),
            decreases ROUNDS - round,
        {
            let ghost before = self.prog@;
            self.mutate();
            proof {
                lemma_mutation_len(before, self.prog@);
                lemma_mutation_keeps_opcodes(before, self.prog@);
                assert(mutated_n(Seq::<u8>::empty(), self.prog@, round as nat + 1));
            }
            let s = score(&self.prog, &self.cfg.rules, STEP_BUDGET);
            report_progress(&self.prog, s);
            round += 1;
        }
        Ok(clone_bytes(&self.prog))
    }
}

/// Search for a program that fits `cfg`'s rules: mutate a candidate for a
/// fixed number of rounds, scoring it against every rule after each round,
/// and return the last candidate — exactly `ROUNDS` rounds of mutation away
/// from the empty candidate, so a string of opcodes at most `ROUNDS` bytes
/// long.
pub fn generate_program(cfg: Config) -> (r: Result<Vec<u8>, &'static str>)
    ensures
        match r {
            Ok(p) => {
                &&& mutated_n(Seq::<u8>::empty(), p@, ROUNDS as nat)
                &&& p@.len() <= ROUNDS
                &&& forall|k: int| 0 <= k < p@.len() ==> is_opcode(#[trigger] p@[k])
            },
            Err(_) => false,
        },
{
    let mut g = ProgGen::new(cfg);
    g.generate()
}

} // verus!
