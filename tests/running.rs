use brainfuck::interpreter::{DEFAULT_START, DEFAULT_TAPE_LEN};
use brainfuck::{execute, interpret, lexer, parser, Instruction, Machine, RunError};

fn program(text: &str) -> Vec<Instruction> {
    parser(lexer(text.to_string())).unwrap()
}

const NO_LIMIT: u64 = u64::MAX;

#[test]
fn increment_then_output_emits_one() {
    let (out, res) = execute(&program("+."), Vec::new(), NO_LIMIT);
    assert_eq!(res, Ok(()));
    assert_eq!(out, vec![1u8]);
}

#[test]
fn clear_loop_runs_its_body_exactly_once() {
    let prog = program("+[-]");
    let mut m = Machine::with_input(Vec::new());
    assert_eq!(interpret(&prog, &mut m, 1), Ok(()));
    assert_eq!(m.tape[DEFAULT_START], 0);
    let mut m = Machine::with_input(Vec::new());
    assert_eq!(interpret(&prog, &mut m, 0), Err(RunError::LoopLimit));
    assert_eq!(m.tape[DEFAULT_START], 1);
}

#[test]
fn loop_on_zero_cell_never_runs() {
    let (out, res) = execute(&program("[.]"), Vec::new(), 0);
    assert_eq!(res, Ok(()));
    assert!(out.is_empty());
}

#[test]
fn input_byte_is_echoed() {
    let (out, res) = execute(&program(",."), vec![65u8], NO_LIMIT);
    assert_eq!(res, Ok(()));
    assert_eq!(out, vec![65u8]);
}

#[test]
fn reading_past_input_is_reported() {
    let (out, res) = execute(&program(".+.,."), Vec::new(), NO_LIMIT);
    assert_eq!(res, Err(RunError::InputExhausted));
    assert_eq!(out, vec![0u8, 1u8]);
}

#[test]
fn moving_below_the_tape_is_reported() {
    let mut m = Machine::new(16, 0, Vec::new()).unwrap();
    assert_eq!(interpret(&program("<"), &mut m, NO_LIMIT), Err(RunError::PointerUnderflow));
    assert_eq!(m.pointer, 0);
    let text = "<".repeat(DEFAULT_START + 1);
    let (_, res) = execute(&program(&text), Vec::new(), NO_LIMIT);
    assert_eq!(res, Err(RunError::PointerUnderflow));
}

#[test]
fn moving_past_the_tape_is_reported() {
    let mut m = Machine::new(2, 1, Vec::new()).unwrap();
    assert_eq!(interpret(&program(">"), &mut m, NO_LIMIT), Err(RunError::PointerOverflow(2)));
    let text = ">".repeat(DEFAULT_TAPE_LEN - DEFAULT_START);
    let (_, res) = execute(&program(&text), Vec::new(), NO_LIMIT);
    assert_eq!(res, Err(RunError::PointerOverflow(DEFAULT_TAPE_LEN)));
}

#[test]
fn cell_values_wrap_around() {
    let (out, res) = execute(&program("-."), Vec::new(), NO_LIMIT);
    assert_eq!(res, Ok(()));
    assert_eq!(out, vec![255u8]);
    let text = "+".repeat(256) + ".";
    let (out, _) = execute(&program(&text), Vec::new(), NO_LIMIT);
    assert_eq!(out, vec![0u8]);
}

#[test]
fn same_program_same_input_same_output() {
    let prog = program(",[.,]++++++++[>++++++++<-]>+.");
    let first = execute(&prog, b"hey".to_vec(), NO_LIMIT);
    let second = execute(&prog, b"hey".to_vec(), NO_LIMIT);
    assert_eq!(first, second);
}

#[test]
fn more_input_extends_earlier_output() {
    let prog = program(",.,.,.");
    let (short, res) = execute(&prog, b"ab".to_vec(), NO_LIMIT);
    assert_eq!(res, Err(RunError::InputExhausted));
    assert_eq!(short, b"ab".to_vec());
    let (long, res) = execute(&prog, b"abcd".to_vec(), NO_LIMIT);
    assert_eq!(res, Ok(()));
    assert_eq!(long, b"abc".to_vec());
}

#[test]
fn hello_world_prints() {
    let text = "++++++++[>++++[>++>+++>+++>+<<<<-]>+>+>->>+[<]<-]>>.>---.+++++++..+++.>>.<-.<.+++.------.--------.>>+.>++.";
    let (out, res) = execute(&program(text), Vec::new(), NO_LIMIT);
    assert_eq!(res, Ok(()));
    assert_eq!(out, b"Hello World!\n".to_vec());
}

#[test]
fn machine_start_must_be_on_the_tape() {
    assert!(Machine::new(4, 4, Vec::new()).is_none());
    assert!(Machine::new(0, 0, Vec::new()).is_none());
    let m = Machine::new(4, 3, vec![7u8]).unwrap();
    assert_eq!(m.tape, vec![0u8; 4]);
    assert_eq!(m.pointer, 3);
    assert_eq!(m.consumed, 0);
    assert!(m.output.is_empty());
}

#[test]
fn error_leaves_machine_before_failing_instruction() {
    let mut m = Machine::new(3, 1, Vec::new()).unwrap();
    assert_eq!(interpret(&program("+>+>+"), &mut m, NO_LIMIT), Err(RunError::PointerOverflow(3)));
    assert_eq!(m.tape, vec![0u8, 1u8, 1u8]);
    assert_eq!(m.pointer, 2);
}
