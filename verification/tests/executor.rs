use simple_assembler::interpreter::Interpreter;
use simple_assembler::types::{Either, Instruction};

#[test]
fn new_interpreter_zeroes_every_register() {
    let interpreter = Interpreter::new(3);
    assert_eq!(interpreter.get_state(), &vec![0i64, 0, 0]);
}

#[test]
fn straight_line_instructions_fold_left_to_right() {
    let instructions = vec![
        Instruction::Inc(0),
        Instruction::Inc(1),
        Instruction::Dec(0),
        Instruction::Mov(0, Either::Constant(10)),
        Instruction::Inc(0),
    ];
    let mut interpreter = Interpreter::new(2);
    interpreter.execute(&instructions);
    assert_eq!(interpreter.get_state(), &vec![11i64, 1]);
}

#[test]
fn mov_reads_the_current_register_value() {
    let instructions = vec![
        Instruction::Mov(0, Either::Constant(4)),
        Instruction::Mov(1, Either::Register(0)),
        Instruction::Inc(0),
    ];
    let mut interpreter = Interpreter::new(2);
    interpreter.execute(&instructions);
    assert_eq!(interpreter.get_state(), &vec![5i64, 4]);
}

#[test]
fn backward_jump_loops_until_zero() {
    // Register 0 counts down from 2; register 1 counts the passes.
    let instructions = vec![
        Instruction::Mov(0, Either::Constant(2)),
        Instruction::Dec(0),
        Instruction::Inc(1),
        Instruction::Jnz(Either::Register(0), Either::Constant(-2)),
    ];
    let mut interpreter = Interpreter::new(2);
    interpreter.execute(&instructions);
    assert_eq!(interpreter.get_state(), &vec![0i64, 2]);
}

#[test]
fn jump_with_register_offset() {
    // At counter 2, offset register holds 2: the jump leaves the program.
    let instructions = vec![
        Instruction::Mov(0, Either::Constant(7)),
        Instruction::Mov(1, Either::Constant(2)),
        Instruction::Jnz(Either::Register(0), Either::Register(1)),
        Instruction::Mov(0, Either::Constant(0)),
    ];
    let mut interpreter = Interpreter::new(2);
    interpreter.execute(&instructions);
    assert_eq!(interpreter.get_state(), &vec![7i64, 2]);
}

#[test]
fn jump_falls_through_when_offset_exceeds_counter() {
    // At counter 0 every positive offset exceeds the counter, so the jump
    // is never taken and the final instruction still runs.
    let instructions = vec![
        Instruction::Jnz(Either::Constant(1), Either::Constant(2)),
        Instruction::Inc(0),
        Instruction::Inc(0),
    ];
    let mut interpreter = Interpreter::new(1);
    interpreter.execute(&instructions);
    assert_eq!(interpreter.get_state(), &vec![2i64]);
}

#[test]
fn zero_condition_never_branches() {
    let instructions = vec![
        Instruction::Jnz(Either::Register(0), Either::Constant(-1)),
        Instruction::Inc(0),
    ];
    let mut interpreter = Interpreter::new(1);
    interpreter.execute(&instructions);
    assert_eq!(interpreter.get_state(), &vec![1i64]);
}

#[test]
fn execute_runs_over_the_existing_state() {
    let mut interpreter = Interpreter::new(1);
    interpreter.execute(&vec![Instruction::Inc(0)]);
    interpreter.execute(&vec![Instruction::Inc(0)]);
    assert_eq!(interpreter.get_state(), &vec![2i64]);
}

#[test]
fn empty_instruction_list_leaves_zeroes() {
    let mut interpreter = Interpreter::new(2);
    interpreter.execute(&vec![]);
    assert_eq!(interpreter.get_state(), &vec![0i64, 0]);
}

#[test]
fn increment_and_decrement_wrap() {
    let instructions = vec![
        Instruction::Mov(0, Either::Constant(i64::MAX)),
        Instruction::Inc(0),
        Instruction::Mov(1, Either::Constant(i64::MIN)),
        Instruction::Dec(1),
    ];
    let mut interpreter = Interpreter::new(2);
    interpreter.execute(&instructions);
    assert_eq!(interpreter.get_state(), &vec![i64::MIN, i64::MAX]);
}
