use bfjit::interpreter::{run, Action, Machine, RunError};
use bfjit::tokenizer::{tokenize, Token};

fn program(source: &str) -> Vec<Token> {
    match tokenize(&source.as_bytes().to_vec()) {
        Ok(tokens) => tokens,
        Err(_) => panic!("unbalanced source"),
    }
}

const ENOUGH: usize = 10_000_000;

#[test]
fn two_increments_then_output_writes_two() {
    let done = run(program("++."), &vec![], ENOUGH).unwrap();
    assert_eq!(done.output, vec![2u8]);
    assert_eq!(done.consumed, 0);
}

#[test]
fn clearing_loop_terminates_with_zero_cell() {
    let done = run(program("+[-]"), &vec![], ENOUGH).unwrap();
    assert_eq!(done.machine.cell(0), 0);
    assert_eq!(done.machine.program_counter(), 4);
    assert!(done.output.is_empty());
}

#[test]
fn input_byte_is_echoed() {
    let done = run(program(",."), &vec![65], ENOUGH).unwrap();
    assert_eq!(done.output, vec![65u8]);
    assert_eq!(done.consumed, 1);
}

#[test]
fn empty_program_does_nothing() {
    let done = run(program(""), &vec![1, 2, 3], ENOUGH).unwrap();
    assert!(done.output.is_empty());
    assert_eq!(done.consumed, 0);
    assert_eq!(done.machine.pointer(), 0);
    assert_eq!(done.machine.program_counter(), 0);
    let done = run(Vec::new(), &vec![], 0).unwrap();
    assert!(done.output.is_empty());
}

#[test]
fn new_machine_is_all_zero() {
    let machine = Machine::new();
    assert_eq!(machine.pointer(), 0);
    assert_eq!(machine.program_counter(), 0);
    for address in [0u16, 1, 255, 256, 32768, 65535] {
        assert_eq!(machine.cell(address), 0);
    }
}

#[test]
fn incrementing_256_times_returns_to_start() {
    let done = run(program(&"+".repeat(256)), &vec![], ENOUGH).unwrap();
    assert_eq!(done.machine.cell(0), 0);
    let done = run(program(&format!("+++++>{}", "<+>".repeat(256))), &vec![], ENOUGH).unwrap();
    assert_eq!(done.machine.cell(0), 5);
}

#[test]
fn decrementing_256_times_returns_to_start() {
    let done = run(program(&format!("+++++{}", "-".repeat(256))), &vec![], ENOUGH).unwrap();
    assert_eq!(done.machine.cell(0), 5);
}

#[test]
fn single_increments_wrap_one_at_a_time() {
    let source = "+>".repeat(3) + "<<<" + &"+<>".repeat(256);
    let done = run(program(&source), &vec![], ENOUGH).unwrap();
    assert_eq!(done.machine.cell(0), 1);
    assert_eq!(done.machine.cell(1), 1);
}

#[test]
fn cell_arithmetic_wraps() {
    let done = run(program("-"), &vec![], ENOUGH).unwrap();
    assert_eq!(done.machine.cell(0), 255);
    let done = run(program(&"+".repeat(255)), &vec![], ENOUGH).unwrap();
    assert_eq!(done.machine.cell(0), 255);
    let done = run(program(&"+".repeat(300)), &vec![], ENOUGH).unwrap();
    assert_eq!(done.machine.cell(0), 44);
    let done = run(program(&"-".repeat(1000)), &vec![], ENOUGH).unwrap();
    assert_eq!(done.machine.cell(0), 24);
}

#[test]
fn moving_65536_times_returns_to_start() {
    let done = run(program(&">".repeat(65536)), &vec![], ENOUGH).unwrap();
    assert_eq!(done.machine.pointer(), 0);
    let done = run(program(&format!(">>>{}", "<".repeat(65536))), &vec![], ENOUGH).unwrap();
    assert_eq!(done.machine.pointer(), 3);
}

#[test]
fn pointer_wraps_at_both_ends() {
    let done = run(program("<+"), &vec![], ENOUGH).unwrap();
    assert_eq!(done.machine.pointer(), 65535);
    assert_eq!(done.machine.cell(65535), 1);
    let done = run(program(&format!("{}+", ">".repeat(65535))), &vec![], ENOUGH).unwrap();
    assert_eq!(done.machine.pointer(), 65535);
    assert_eq!(done.machine.cell(65535), 1);
    let done = run(program("<<<>>>>>"), &vec![], ENOUGH).unwrap();
    assert_eq!(done.machine.pointer(), 2);
}

#[test]
fn output_run_writes_the_cell_that_many_times() {
    let done = run(program("+++..."), &vec![], ENOUGH).unwrap();
    assert_eq!(done.output, vec![3u8, 3, 3]);
}

#[test]
fn output_is_the_raw_byte() {
    let done = run(program("-."), &vec![], ENOUGH).unwrap();
    assert_eq!(done.output, vec![255u8]);
}

#[test]
fn input_run_reads_one_byte() {
    let done = run(program(",,,."), &vec![7, 8, 9], ENOUGH).unwrap();
    assert_eq!(done.output, vec![7u8]);
    assert_eq!(done.consumed, 1);
}

#[test]
fn input_overwrites_the_cell() {
    let done = run(program("+++,."), &vec![0], ENOUGH).unwrap();
    assert_eq!(done.output, vec![0u8]);
}

#[test]
fn inputs_are_read_in_order() {
    let done = run(program(",>,>,<<.>.>."), &vec![10, 20, 30, 40], ENOUGH).unwrap();
    assert_eq!(done.output, vec![10u8, 20, 30]);
    assert_eq!(done.consumed, 3);
}

#[test]
fn loop_is_skipped_on_zero_cell() {
    let done = run(program("[+.]+."), &vec![], ENOUGH).unwrap();
    assert_eq!(done.output, vec![1u8]);
}

#[test]
fn loop_runs_while_cell_is_not_zero() {
    let done = run(program("+++[.-]"), &vec![], ENOUGH).unwrap();
    assert_eq!(done.output, vec![3u8, 2, 1]);
}

#[test]
fn nested_loops_multiply() {
    let done = run(program("++++[>+++[>++<-]<-]>>."), &vec![], ENOUGH).unwrap();
    assert_eq!(done.output, vec![24u8]);
}

#[test]
fn hello_is_printed() {
    let source = "++++++++[>++++[>++>+++>+++>+<<<<-]>+>+>->>+[<]<-]>>.>---.+++++++..+++.";
    let done = run(program(source), &vec![], ENOUGH).unwrap();
    assert_eq!(done.output, b"Hello".to_vec());
}

#[test]
fn reading_past_the_input_fails() {
    assert_eq!(run(program(","), &vec![], ENOUGH).err(), Some(RunError::InputExhausted));
    assert_eq!(run(program(",>,"), &vec![1], ENOUGH).err(), Some(RunError::InputExhausted));
}

#[test]
fn endless_loop_hits_the_step_limit() {
    assert_eq!(run(program("+[]"), &vec![], 1000).err(), Some(RunError::StepLimit));
}

#[test]
fn step_limit_counts_tokens() {
    assert!(run(program("+>+"), &vec![], 3).is_ok());
    assert_eq!(run(program("+>+"), &vec![], 2).err(), Some(RunError::StepLimit));
    assert!(run(program("+++++"), &vec![], 1).is_ok());
    assert_eq!(run(program("+"), &vec![], 0).err(), Some(RunError::StepLimit));
}

#[test]
fn step_reports_each_action() {
    let tokens = program("+..,[-]");
    let mut machine = Machine::new();
    assert_eq!(machine.step(&tokens), Action::Continue);
    assert_eq!(machine.cell(0), 1);
    assert_eq!(machine.program_counter(), 1);
    assert_eq!(machine.step(&tokens), Action::Emit { byte: 1, times: 2 });
    assert_eq!(machine.program_counter(), 2);
    assert_eq!(machine.step(&tokens), Action::Read);
    assert_eq!(machine.program_counter(), 3);
    assert_eq!(machine.cell(0), 1);
    machine.store(2);
    assert_eq!(machine.cell(0), 2);
    assert_eq!(machine.step(&tokens), Action::Continue);
    assert_eq!(machine.program_counter(), 4);
    assert_eq!(machine.step(&tokens), Action::Continue);
    assert_eq!(machine.cell(0), 1);
    assert_eq!(machine.step(&tokens), Action::Continue);
    assert_eq!(machine.program_counter(), 4);
    assert_eq!(machine.step(&tokens), Action::Continue);
    assert_eq!(machine.cell(0), 0);
    assert_eq!(machine.step(&tokens), Action::Continue);
    assert_eq!(machine.program_counter(), 6);
    assert_eq!(machine.step(&tokens), Action::Halt);
    assert_eq!(machine.step(&tokens), Action::Halt);
    assert_eq!(machine.program_counter(), 6);
}

#[test]
fn taken_jumps_go_to_their_targets() {
    let tokens = program("[+]+[-]");
    let mut machine = Machine::new();
    assert_eq!(machine.step(&tokens), Action::Continue);
    assert_eq!(machine.program_counter(), 3);
    assert_eq!(machine.step(&tokens), Action::Continue);
    assert_eq!(machine.step(&tokens), Action::Continue);
    assert_eq!(machine.program_counter(), 5);
    assert_eq!(machine.step(&tokens), Action::Continue);
    assert_eq!(machine.step(&tokens), Action::Continue);
    assert_eq!(machine.program_counter(), 7);
    assert_eq!(machine.step(&tokens), Action::Halt);
}

#[test]
fn store_writes_under_the_pointer() {
    let tokens = program(">>,");
    let mut machine = Machine::new();
    assert_eq!(machine.step(&tokens), Action::Continue);
    assert_eq!(machine.step(&tokens), Action::Read);
    machine.store(200);
    assert_eq!(machine.pointer(), 2);
    assert_eq!(machine.cell(2), 200);
    assert_eq!(machine.cell(0), 0);
}
