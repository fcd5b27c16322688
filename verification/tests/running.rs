use bf_engine::compiler::{compile, compile_structural};
use bf_engine::instruction::Program;
use bf_engine::machine::{Progress, RuntimeError, TAPE_LEN};
use bf_engine::token::tokenize;
use bf_engine::vm::Vm;

fn program(src: &str) -> Program {
    compile(&tokenize(src.as_bytes())).unwrap()
}

fn unfused(src: &str) -> Program {
    compile_structural(&tokenize(src.as_bytes())).unwrap()
}

const PLENTY: u64 = 10_000_000;

#[test]
fn a_new_machine_is_zeroed() {
    let vm = Vm::new(b"abc");
    assert_eq!(vm.pc(), 0);
    assert_eq!(vm.dp(), 0);
    assert_eq!(vm.consumed(), 0);
    assert_eq!(vm.output(), b"");
    assert_eq!(vm.tape().len(), TAPE_LEN);
    assert!(vm.tape().iter().all(|&c| c == 0));
}

#[test]
fn peek_and_poke_stay_on_the_tape() {
    let mut vm = Vm::new(b"");
    assert!(vm.poke(0, 5));
    assert!(vm.poke(TAPE_LEN - 1, 9));
    assert!(!vm.poke(TAPE_LEN, 1));
    assert_eq!(vm.peek(0), Some(5));
    assert_eq!(vm.peek(1), Some(0));
    assert_eq!(vm.peek(TAPE_LEN - 1), Some(9));
    assert_eq!(vm.peek(TAPE_LEN), None);
}

#[test]
fn three_increments_leave_three() {
    let mut vm = Vm::new(b"");
    assert_eq!(vm.run(&program("+++"), PLENTY), Ok(Progress::Halted));
    assert_eq!(vm.peek(0), Some(3));
    assert_eq!(vm.output(), b"");
    assert_eq!(vm.pc(), 1);
}

#[test]
fn cells_wrap_modulo_256() {
    let mut vm = Vm::new(b"");
    assert_eq!(vm.run(&program("-"), PLENTY), Ok(Progress::Halted));
    assert_eq!(vm.peek(0), Some(255));
    let mut vm = Vm::new(b"");
    vm.poke(0, 200);
    assert_eq!(vm.run(&program(&"+".repeat(100)), PLENTY), Ok(Progress::Halted));
    assert_eq!(vm.peek(0), Some(44));
}

#[test]
fn clear_zeroes_the_cell() {
    let mut vm = Vm::new(b"");
    vm.poke(0, 5);
    assert_eq!(vm.run(&program("[-]"), PLENTY), Ok(Progress::Halted));
    assert_eq!(vm.peek(0), Some(0));
}

#[test]
fn add_to_moves_the_value() {
    let mut vm = Vm::new(b"");
    vm.poke(0, 7);
    vm.poke(1, 3);
    assert_eq!(vm.run(&program("[->+<]"), PLENTY), Ok(Progress::Halted));
    assert_eq!(vm.peek(0), Some(0));
    assert_eq!(vm.peek(1), Some(10));
    assert_eq!(vm.dp(), 0);
}

#[test]
fn add_to_on_a_zero_cell_changes_nothing() {
    let mut vm = Vm::new(b"");
    vm.poke(1, 3);
    assert_eq!(vm.run(&program("[->+<]"), PLENTY), Ok(Progress::Halted));
    assert_eq!(vm.peek(0), Some(0));
    assert_eq!(vm.peek(1), Some(3));
}

#[test]
fn add_to_wraps_the_sum_and_the_address() {
    let mut vm = Vm::new(b"");
    vm.poke(0, 200);
    vm.poke(TAPE_LEN - 1, 100);
    assert_eq!(vm.run(&program("[-<+>]"), PLENTY), Ok(Progress::Halted));
    assert_eq!(vm.peek(0), Some(0));
    assert_eq!(vm.peek(TAPE_LEN - 1), Some(44));
}

#[test]
fn add_to_over_half_the_tape() {
    let src = format!("[-{}+{}]", ">".repeat(32768), ">".repeat(32768));
    let half = program(&src);
    assert_eq!(half.len(), 1);
    let mut vm = Vm::new(b"");
    vm.poke(0, 9);
    vm.poke(32768, 1);
    assert_eq!(vm.run(&half, PLENTY), Ok(Progress::Halted));
    assert_eq!(vm.peek(0), Some(0));
    assert_eq!(vm.peek(32768), Some(10));
    assert_eq!(vm.dp(), 0);
}

#[test]
fn sub_to_takes_the_value_away() {
    let mut vm = Vm::new(b"");
    vm.poke(0, 7);
    vm.poke(1, 10);
    assert_eq!(vm.run(&program("[->-<]"), PLENTY), Ok(Progress::Halted));
    assert_eq!(vm.peek(0), Some(0));
    assert_eq!(vm.peek(1), Some(3));
}

#[test]
fn sub_to_wraps_below_zero() {
    let mut vm = Vm::new(b"");
    vm.poke(0, 7);
    vm.poke(1, 3);
    assert_eq!(vm.run(&program("[->-<]"), PLENTY), Ok(Progress::Halted));
    assert_eq!(vm.peek(1), Some(252));
}

#[test]
fn seek_on_a_zero_cell_stays() {
    let mut vm = Vm::new(b"");
    assert_eq!(vm.run(&program("[>]"), PLENTY), Ok(Progress::Halted));
    assert_eq!(vm.dp(), 0);
}

#[test]
fn seek_rests_on_the_first_zero_cell() {
    let mut vm = Vm::new(b"");
    vm.poke(0, 1);
    vm.poke(1, 2);
    vm.poke(2, 3);
    vm.poke(4, 4);
    assert_eq!(vm.run(&program("[>]"), PLENTY), Ok(Progress::Halted));
    assert_eq!(vm.dp(), 3);
    assert_eq!(vm.pc(), 1);
}

#[test]
fn seek_wraps_around_the_tape() {
    let mut vm = Vm::new(b"");
    vm.poke(0, 1);
    vm.poke(TAPE_LEN - 1, 1);
    assert_eq!(vm.run(&program("[<]"), PLENTY), Ok(Progress::Halted));
    assert_eq!(vm.dp(), TAPE_LEN - 2);
}

#[test]
fn seek_without_a_zero_cell_never_halts() {
    let mut vm = Vm::new(b"");
    for addr in 0..TAPE_LEN {
        vm.poke(addr, 1);
    }
    let seek = program("[>]");
    assert_eq!(vm.run(&seek, PLENTY), Ok(Progress::Paused));
    assert_eq!(vm.pc(), 0);
    assert_eq!(vm.dp(), 0);
    assert_eq!(vm.run(&seek, PLENTY), Ok(Progress::Paused));
}

#[test]
fn seek_in_even_steps_misses_odd_cells() {
    let mut vm = Vm::new(b"");
    for addr in 0..TAPE_LEN {
        vm.poke(addr, (addr % 2 == 0) as u8);
    }
    assert_eq!(vm.run(&program("[>>]"), PLENTY), Ok(Progress::Paused));
    assert_eq!(vm.dp(), 0);
}

#[test]
fn a_full_turn_of_moves_comes_back() {
    let turn = program(&">".repeat(TAPE_LEN));
    let mut vm = Vm::new(b"");
    assert_eq!(vm.run(&turn, PLENTY), Ok(Progress::Halted));
    assert_eq!(vm.dp(), 0);
    let around = program(&format!("{}+{}", ">".repeat(40000), ">".repeat(TAPE_LEN - 40000)));
    let mut vm = Vm::new(b"");
    assert_eq!(vm.run(&around, PLENTY), Ok(Progress::Halted));
    assert_eq!(vm.dp(), 0);
    assert_eq!(vm.peek(40000), Some(1));
}

#[test]
fn the_pointer_wraps_in_both_directions() {
    let mut vm = Vm::new(b"");
    assert_eq!(vm.run(&program("<"), PLENTY), Ok(Progress::Halted));
    assert_eq!(vm.dp(), TAPE_LEN - 1);
    assert_eq!(vm.run(&program("<>>"), PLENTY), Ok(Progress::Halted));
    assert_eq!(vm.pc(), 1);
    let mut vm = Vm::new(b"");
    assert_eq!(vm.run(&program("<>>>"), PLENTY), Ok(Progress::Halted));
    assert_eq!(vm.dp(), 2);
}

#[test]
fn output_is_raw_bytes_in_order() {
    let mut vm = Vm::new(b"");
    vm.poke(0, 0xfe);
    assert_eq!(vm.run(&program(".+.+."), PLENTY), Ok(Progress::Halted));
    assert_eq!(vm.output(), &[0xfe, 0xff, 0x00]);
}

#[test]
fn input_is_read_in_order() {
    let mut vm = Vm::new(b"hi");
    assert_eq!(vm.run(&program(",>,"), PLENTY), Ok(Progress::Halted));
    assert_eq!(vm.peek(0), Some(b'h'));
    assert_eq!(vm.peek(1), Some(b'i'));
    assert_eq!(vm.consumed(), 2);
}

#[test]
fn exhausted_input_aborts_the_run() {
    let mut vm = Vm::new(b"a");
    let echo = program(",.,.");
    assert_eq!(vm.run(&echo, PLENTY), Err(RuntimeError::InputExhausted));
    assert_eq!(vm.output(), b"a");
    assert_eq!(vm.pc(), 2);
    assert_eq!(vm.peek(0), Some(b'a'));
    assert_eq!(vm.run(&echo, PLENTY), Err(RuntimeError::InputExhausted));
}

#[test]
fn a_structural_loop_runs_until_zero() {
    let mut vm = Vm::new(b"ab\0");
    assert_eq!(vm.run(&program(",[.,]"), PLENTY), Ok(Progress::Halted));
    assert_eq!(vm.output(), b"ab");
    assert_eq!(vm.consumed(), 3);
}

#[test]
fn a_budget_pauses_the_run() {
    let count = program("+++++");
    let forever = program("+[]");
    let mut vm = Vm::new(b"");
    assert_eq!(vm.run(&forever, 1000), Ok(Progress::Paused));
    assert_eq!(vm.peek(0), Some(1));
    let mut vm = Vm::new(b"");
    assert_eq!(vm.run(&count, 0), Ok(Progress::Paused));
    assert_eq!(vm.peek(0), Some(0));
    assert_eq!(vm.run(&count, 1), Ok(Progress::Halted));
    assert_eq!(vm.peek(0), Some(5));
    assert_eq!(vm.run(&count, 0), Ok(Progress::Halted));
}

#[test]
fn a_paused_run_goes_on_where_it_stopped() {
    let hello = program("++++++++[>++++++++<-]>+.+.+.");
    let mut whole = Vm::new(b"");
    assert_eq!(whole.run(&hello, PLENTY), Ok(Progress::Halted));
    let mut pieces = Vm::new(b"");
    let mut runs = 0;
    while pieces.run(&hello, 3) == Ok(Progress::Paused) {
        runs += 1;
        assert!(runs < 1000);
    }
    assert_eq!(pieces.output(), whole.output());
    assert_eq!(pieces.output(), b"ABC");
    assert_eq!(pieces.tape(), whole.tape());
}

#[test]
fn step_executes_one_instruction() {
    let two = program("+>+");
    let mut vm = Vm::new(b"");
    assert_eq!(vm.step(&two), Ok(Progress::Paused));
    assert_eq!((vm.pc(), vm.dp(), vm.peek(0)), (1, 0, Some(1)));
    assert_eq!(vm.step(&two), Ok(Progress::Paused));
    assert_eq!((vm.pc(), vm.dp()), (2, 1));
    assert_eq!(vm.step(&two), Ok(Progress::Halted));
    assert_eq!((vm.pc(), vm.peek(1)), (3, Some(1)));
    assert_eq!(vm.step(&two), Ok(Progress::Halted));
    assert_eq!(vm.pc(), 3);
}

#[test]
fn a_taken_branch_lands_on_its_target() {
    let skip = program("[.]+");
    let mut vm = Vm::new(b"");
    assert_eq!(vm.step(&skip), Ok(Progress::Paused));
    assert_eq!(vm.pc(), 2);
    assert_eq!(vm.step(&skip), Ok(Progress::Paused));
    assert_eq!(vm.pc(), 3);
    let back = program("+[.-]");
    let mut vm = Vm::new(b"");
    vm.poke(0, 1);
    assert_eq!(vm.run(&back, 4), Ok(Progress::Paused));
    assert_eq!(vm.pc(), 4);
    assert_eq!(vm.step(&back), Ok(Progress::Paused));
    assert_eq!(vm.pc(), 1);
}

#[test]
fn the_empty_program_halts_at_once() {
    let mut vm = Vm::new(b"");
    assert_eq!(vm.run(&program(""), 0), Ok(Progress::Halted));
    assert_eq!(vm.pc(), 0);
}

fn same_result(src: &str, input: &[u8]) {
    let mut fused = Vm::new(input);
    let mut plain = Vm::new(input);
    let a = fused.run(&program(src), PLENTY);
    let b = plain.run(&unfused(src), PLENTY);
    assert_eq!(a, b);
    assert_ne!(a, Ok(Progress::Paused));
    assert_eq!(fused.output(), plain.output());
    assert_eq!(fused.tape(), plain.tape());
    assert_eq!(fused.dp(), plain.dp());
    assert_eq!(fused.consumed(), plain.consumed());
}

#[test]
fn fused_and_structural_programs_agree() {
    same_result("++++++++[>++++[>++>+++>+++>+<<<<-]>+>+>->>+[<]<-]>>.>---.+++++++..+++.>>.<-.<.+++.------.--------.>>+.>++.", b"");
    same_result(",[->+<]>.", b"\x07");
    same_result(",>,<[->-<]>.", b"\x07\x03");
    same_result("+>+>+>>+<<<<[>]>[-]<<<<[.>]", b"");
    same_result(",[.,]", b"no end");
    same_result("-[-]-[->+<]>[<+>-]<.", b"");
}

#[test]
fn taking_the_output_starts_it_afresh() {
    let mut vm = Vm::new(b"");
    vm.poke(0, b'a');
    let abc = program(".+.+.");
    assert_eq!(vm.run(&abc, 2), Ok(Progress::Paused));
    assert_eq!(vm.take_output(), b"a");
    assert_eq!(vm.output(), b"");
    assert_eq!(vm.run(&abc, PLENTY), Ok(Progress::Halted));
    assert_eq!(vm.take_output(), b"bc");
    assert_eq!(vm.peek(0), Some(b'c'));
}

/// Interprets the source token by token, looking for the partner of a bracket
/// by counting brackets. Gives the output, the tape and the pointer, or `None`
/// where a `,` finds no input.
fn interpret(src: &[u8], input: &[u8]) -> Option<(Vec<u8>, Vec<u8>, usize)> {
    let mut tape = vec![0u8; TAPE_LEN];
    let (mut pc, mut dp, mut read) = (0usize, 0usize, 0usize);
    let mut output = Vec::new();
    while pc < src.len() {
        match src[pc] {
            b'+' => tape[dp] = tape[dp].wrapping_add(1),
            b'-' => tape[dp] = tape[dp].wrapping_sub(1),
            b'>' => dp = (dp + 1) % TAPE_LEN,
            b'<' => dp = (dp + TAPE_LEN - 1) % TAPE_LEN,
            b'.' => output.push(tape[dp]),
            b',' => {
                if read == input.len() {
                    return None;
                }
                tape[dp] = input[read];
                read += 1;
            }
            b'[' if tape[dp] == 0 => {
                let mut depth = 1;
                while depth > 0 {
                    pc += 1;
                    match src[pc] {
                        b'[' => depth += 1,
                        b']' => depth -= 1,
                        _ => {}
                    }
                }
            }
            b']' if tape[dp] != 0 => {
                let mut depth = 1;
                while depth > 0 {
                    pc -= 1;
                    match src[pc] {
                        b']' => depth += 1,
                        b'[' => depth -= 1,
                        _ => {}
                    }
                }
            }
            _ => {}
        }
        pc += 1;
    }
    Some((output, tape, dp))
}

fn same_as_source(src: &str, input: &[u8]) {
    let expected = interpret(src.as_bytes(), input);
    for code in [program(src), unfused(src)] {
        let mut vm = Vm::new(input);
        match vm.run(&code, PLENTY) {
            Ok(Progress::Halted) => {
                let (output, tape, dp) = expected.clone().unwrap();
                assert_eq!(vm.output(), &output[..]);
                assert_eq!(vm.tape(), &tape[..]);
                assert_eq!(vm.dp(), dp);
            }
            Ok(Progress::Paused) => panic!("{} did not halt", src),
            Err(RuntimeError::InputExhausted) => assert_eq!(expected, None),
        }
    }
}

#[test]
fn programs_without_idioms_do_what_their_source_does() {
    same_as_source("+++[>++<-]>.", b"");
    same_as_source(",[.,]", b"echo\0");
    same_as_source(",[.,]", b"cut short");
    same_as_source("++[>+>+<<-]>>[.-]", b"");
    same_as_source("++[>+++[>++<-]<-]>>.+-<><>.", b"");
    same_as_source("+-+-><<>[.]", b"");
    same_as_source("<-[+<-<]>.>.>.", b"");
    same_as_source("-[>-[>-<+]<+]", b"");
    same_as_source("", b"");
}

#[test]
fn programs_with_idioms_do_what_their_source_does() {
    same_as_source(",[-]+.", b"\x09");
    same_as_source(",>,<[->+<]>.", b"\xc8\x64");
    same_as_source(",>,<[->-<]>.", b"\x07\x03");
    same_as_source("+>+>+>>+<<<<[>]>.<<[<]>.", b"");
    same_as_source("++++++++[>++++[>++>+++>+++>+<<<<-]>+>+>->>+[<]<-]>>.>---.+++++++..+++.>>.<-.<.+++.------.--------.>>+.>++.", b"");
    same_as_source("-[-<+>]<[->>+<<]>>.", b"");
}
