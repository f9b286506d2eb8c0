use bfjit::emulator::{emulate, Emulation};
use bfjit::interpreter::{run, Completed, RunError};
use bfjit::jit_compiler::compile;
use bfjit::native::Ending;
use bfjit::tokenizer::tokenize;

const PLENTY: usize = 50_000_000;

fn interpreted(source: &str, input: &[u8]) -> Result<Completed, RunError> {
    let tokens = tokenize(&source.as_bytes().to_vec()).unwrap();
    run(tokens, &input.to_vec(), PLENTY)
}

fn emulated(source: &str, input: &[u8]) -> Emulation {
    let tokens = tokenize(&source.as_bytes().to_vec()).unwrap();
    emulate(&compile(&tokens), &input.to_vec(), PLENTY)
}

fn assert_backends_agree(source: &str, input: &[u8]) {
    let done = interpreted(source, input).unwrap();
    let native = emulated(source, input);
    assert_eq!(native.ending, Ending::Returned);
    assert_eq!(native.output, done.output);
    assert_eq!(native.consumed, done.consumed);
    for address in 0..=65535u16 {
        assert_eq!(native.tape[address as usize], done.machine.cell(address));
    }
}

#[test]
fn routine_of_two_increments_and_output_writes_two() {
    let native = emulated("++.", &[]);
    assert_eq!(native.ending, Ending::Returned);
    assert_eq!(native.output, vec![2u8]);
    assert_eq!(native.consumed, 0);
}

#[test]
fn routine_of_clearing_loop_returns_with_zero_cell() {
    let native = emulated("+[-]", &[]);
    assert_eq!(native.ending, Ending::Returned);
    assert_eq!(native.tape[0], 0);
    assert!(native.output.is_empty());
}

#[test]
fn routine_of_echo_writes_the_byte_it_read() {
    let native = emulated(",.", &[65]);
    assert_eq!(native.ending, Ending::Returned);
    assert_eq!(native.output, vec![65u8]);
    assert_eq!(native.consumed, 1);
}

#[test]
fn routine_of_empty_program_returns_at_once() {
    let native = emulate(&compile(&Vec::new()), &vec![1, 2], 1);
    assert_eq!(native.ending, Ending::Returned);
    assert!(native.output.is_empty());
    assert_eq!(native.consumed, 0);
    assert!(native.tape.iter().all(|&cell| cell == 0));
    assert_eq!(emulate(&compile(&Vec::new()), &vec![], 0).ending, Ending::Returned);
}

#[test]
fn backends_agree_on_the_scenarios() {
    assert_backends_agree("++.", &[]);
    assert_backends_agree("+[-]", &[]);
    assert_backends_agree(",.", &[65]);
    assert_backends_agree("", &[]);
}

#[test]
fn backends_agree_on_loops_and_moves() {
    assert_backends_agree("++++[>+++[>++<-]<-]>>.", &[]);
    assert_backends_agree("+++[.-]", &[]);
    assert_backends_agree("[+.]+.", &[]);
    assert_backends_agree(">>>+<<<->>>.<<<.", &[]);
    assert_backends_agree("-.+.", &[]);
    assert_backends_agree(&"+".repeat(300), &[]);
    assert_backends_agree(&format!("{}+.", ">".repeat(65535)), &[]);
}

#[test]
fn backends_agree_on_input() {
    assert_backends_agree(",>,>,<<.>.>.", &[10, 20, 30, 40]);
    assert_backends_agree(",[.,]", &[104, 105, 0]);
    assert_backends_agree(",,,.", &[7, 8, 9]);
    assert_backends_agree(",+.", &[255]);
}

#[test]
fn backends_agree_on_hello() {
    let source = "++++++++[>++++[>++>+++>+++>+<<<<-]>+>+>->>+[<]<-]>>.>---.+++++++..+++.";
    assert_backends_agree(source, &[]);
    assert_eq!(emulated(source, &[]).output, b"Hello".to_vec());
}

#[test]
fn backends_agree_when_the_pointer_leaves_the_tape_and_returns() {
    assert_backends_agree("<>+.", &[]);
    assert_backends_agree("<<<>>>>+.<.", &[]);
}

#[test]
fn backends_part_when_a_cell_is_used_off_the_tape() {
    let done = interpreted("<+", &[]).unwrap();
    assert_eq!(done.machine.pointer(), 65535);
    assert_eq!(done.machine.cell(65535), 1);
    assert_eq!(emulated("<+", &[]).ending, Ending::Undefined);
    let done = interpreted(&format!("{}+", ">".repeat(65536)), &[]).unwrap();
    assert_eq!(done.machine.cell(0), 1);
    assert_eq!(emulated(&format!("{}+", ">".repeat(65536)), &[]).ending, Ending::Undefined);
}

#[test]
fn backends_part_when_the_input_ends() {
    assert_eq!(interpreted("+,.", &[]).err(), Some(RunError::InputExhausted));
    let native = emulated("+,.", &[]);
    assert_eq!(native.ending, Ending::Returned);
    assert_eq!(native.output, vec![1u8]);
    assert_eq!(native.consumed, 0);
}

#[test]
fn endless_routine_runs_out_of_steps() {
    let native = emulated("+[]", &[]);
    assert_eq!(native.ending, Ending::OutOfSteps);
    assert_eq!(native.tape[0], 1);
}

#[test]
fn instruction_limit_counts_instructions() {
    let code = compile(&tokenize(&b"+>+".to_vec()).unwrap());
    assert_eq!(emulate(&code, &vec![], 3).ending, Ending::Returned);
    assert_eq!(emulate(&code, &vec![], 2).ending, Ending::OutOfSteps);
    let stopped = emulate(&code, &vec![], 1);
    assert_eq!(stopped.ending, Ending::OutOfSteps);
    assert_eq!(stopped.tape[0], 1);
    assert_eq!(stopped.tape[1], 0);
}

#[test]
fn bytes_that_are_no_instruction_are_undefined() {
    assert_eq!(emulate(&vec![0x00], &vec![], 10).ending, Ending::Undefined);
    assert_eq!(emulate(&vec![], &vec![], 10).ending, Ending::Undefined);
    assert_eq!(emulate(&vec![0x48, 0x81], &vec![], 10).ending, Ending::Undefined);
    assert_eq!(emulate(&vec![0x80, 0x07, 0x01], &vec![], 10).ending, Ending::Undefined);
}

#[test]
fn unbalanced_stack_is_undefined() {
    assert_eq!(emulate(&vec![0x5f, 0xc3], &vec![], 10).ending, Ending::Undefined);
    assert_eq!(emulate(&vec![0x57, 0xc3], &vec![], 10).ending, Ending::Undefined);
    assert_eq!(emulate(&vec![0x57, 0x5f, 0xc3], &vec![], 10).ending, Ending::Returned);
}

#[test]
fn branch_out_of_the_code_is_undefined() {
    let code = vec![0x8a, 0x07, 0x84, 0xc0, 0x0f, 0x84, 0x00, 0x01, 0x00, 0x00, 0xc3];
    assert_eq!(emulate(&code, &vec![], 10).ending, Ending::Undefined);
    let back = vec![0x8a, 0x07, 0x84, 0xc0, 0x0f, 0x84, 0x00, 0xff, 0xff, 0xff, 0xc3];
    assert_eq!(emulate(&back, &vec![], 10).ending, Ending::Undefined);
}

#[test]
fn negative_operand_moves_the_other_way() {
    let code = vec![
        0x48, 0x81, 0xc7, 0x02, 0x00, 0x00, 0x00, 0x48, 0x81, 0xc7, 0xff, 0xff, 0xff, 0xff, 0x80,
        0x07, 0x05, 0xc3,
    ];
    let native = emulate(&code, &vec![], 10);
    assert_eq!(native.ending, Ending::Returned);
    assert_eq!(native.tape[1], 5);
    assert_eq!(native.tape[2], 0);
}
