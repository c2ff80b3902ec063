use vstd::prelude::*;

pub mod config;
pub mod gen;
pub mod vm;

pub use config::Config;
pub use config::Rule;
pub use gen::generate_program;
pub use vm::VM;
pub use vm::VMError;
pub use vm::VMResult;

verus! {

/// Run `prog` on a fresh machine fed by `input`, for at most `fuel` steps.
/// `None` means the budget ran out with the machine still going; otherwise
/// the verdict comes with every byte the program wrote.
pub fn run_program(prog: Vec<u8>, input: Vec<u8>, fuel: u64) -> (r: (Option<vm::VMResult>, Vec<
    u8,
>))
    ensures
        match r.0 {
            Some(v) => vm::halts_with(vm::init_state(prog@, input@), v, r.1@),
            None => (vm::run_spec(vm::init_state(prog@, input@), fuel as nat) matches
                vm::StepResult::Running(s) && s.output == r.1@),
        },
{
    let mut machine = vm::VM::new(prog, input);
    let res = machine.run(fuel);
    let out = machine.into_output();
    (res, out)
}

} // verus!
