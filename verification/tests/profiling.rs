use bf_engine::compiler::compile;
use bf_engine::instruction::Program;
use bf_engine::machine::{Progress, RuntimeError};
use bf_engine::profile::Profile;
use bf_engine::token::tokenize;
use bf_engine::vm::Vm;

fn program(src: &str) -> Program {
    compile(&tokenize(src.as_bytes())).unwrap()
}

#[test]
fn a_new_profile_is_all_zero() {
    assert_eq!(Profile::new(3).counts(), &[0, 0, 0]);
    assert_eq!(Profile::new(0).counts(), &[] as &[u64]);
}

#[test]
fn each_instruction_is_counted_once_in_straight_code() {
    let code = program("+>.");
    let mut profile = Profile::new(code.len());
    let mut vm = Vm::new(b"");
    assert_eq!(vm.run_profiled(&code, 100, &mut profile), Ok(Progress::Halted));
    assert_eq!(profile.counts(), &[1, 1, 1]);
}

#[test]
fn a_loop_is_counted_for_every_round() {
    // 0: AddCell(3)  1: BranchZero(4)  2: Output  3: AddCell(-1)  4: BranchNotZero(1)
    let code = program("+++[.-]");
    let mut profile = Profile::new(code.len());
    let mut vm = Vm::new(b"");
    assert_eq!(vm.run_profiled(&code, 1000, &mut profile), Ok(Progress::Halted));
    assert_eq!(vm.output(), &[3, 2, 1]);
    assert_eq!(profile.counts(), &[1, 3, 3, 3, 3]);
}

#[test]
fn counts_add_up_over_runs() {
    let code = program("+++[.-]");
    let mut profile = Profile::new(code.len());
    let mut vm = Vm::new(b"");
    while vm.run_profiled(&code, 2, &mut profile) == Ok(Progress::Paused) {}
    assert_eq!(profile.counts(), &[1, 3, 3, 3, 3]);
    let mut again = Vm::new(b"");
    assert_eq!(again.run_profiled(&code, 1000, &mut profile), Ok(Progress::Halted));
    assert_eq!(profile.counts(), &[2, 6, 6, 6, 6]);
}

#[test]
fn a_paused_run_counts_what_it_did() {
    let code = program("+>+>+");
    let mut profile = Profile::new(code.len());
    let mut vm = Vm::new(b"");
    assert_eq!(vm.run_profiled(&code, 2, &mut profile), Ok(Progress::Paused));
    assert_eq!(profile.counts(), &[1, 1, 0, 0, 0]);
    assert_eq!(vm.run_profiled(&code, 0, &mut profile), Ok(Progress::Paused));
    assert_eq!(profile.counts(), &[1, 1, 0, 0, 0]);
}

#[test]
fn an_aborting_input_is_counted() {
    let code = program("+,");
    let mut profile = Profile::new(code.len());
    let mut vm = Vm::new(b"");
    assert_eq!(vm.run_profiled(&code, 10, &mut profile), Err(RuntimeError::InputExhausted));
    assert_eq!(profile.counts(), &[1, 1]);
}

#[test]
fn a_seek_that_never_rests_takes_the_whole_budget() {
    let code = program("[>]");
    let mut profile = Profile::new(code.len());
    let mut vm = Vm::new(b"");
    for addr in 0..65536 {
        vm.poke(addr, 1);
    }
    assert_eq!(vm.run_profiled(&code, 77, &mut profile), Ok(Progress::Paused));
    assert_eq!(profile.counts(), &[77]);
    assert_eq!(vm.run_profiled(&code, u64::MAX, &mut profile), Ok(Progress::Paused));
    assert_eq!(profile.counts(), &[u64::MAX]);
}

#[test]
fn a_short_profile_counts_the_addresses_it_has() {
    let code = program("+>+>+");
    let mut profile = Profile::new(2);
    let mut vm = Vm::new(b"");
    assert_eq!(vm.run_profiled(&code, 100, &mut profile), Ok(Progress::Halted));
    assert_eq!(profile.counts(), &[1, 1]);
}

#[test]
fn profiling_does_not_change_the_run() {
    let code = program("++++++++[>++++++++<-]>+.+.+.");
    let mut profile = Profile::new(code.len());
    let mut counted = Vm::new(b"");
    let mut plain = Vm::new(b"");
    assert_eq!(counted.run_profiled(&code, 10_000, &mut profile), plain.run(&code, 10_000));
    assert_eq!(counted.output(), plain.output());
    assert_eq!(counted.tape(), plain.tape());
    assert_eq!(counted.pc(), plain.pc());
}
