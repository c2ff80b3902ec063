use vstd::prelude::*;

verus! {

/// One exemplar a candidate is held to: feed it `input`, expect `output`.
#[derive(Debug)]
pub struct Rule {
    pub input: Vec<u8>,
    pub output: Vec<u8>,
}

/// The whole rule set a candidate is scored against. Rules are evaluated in
/// order; since their scores are summed, the order does not change the total.
#[derive(Debug)]
pub struct Config {
    pub rules: Vec<Rule>,
}

} // verus!
