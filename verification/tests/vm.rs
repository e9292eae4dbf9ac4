use regex::engine::Instruction;
use regex::engine::evaluator::{EvalError, eval};

#[test]
fn vm_dot_needs_a_symbol() {
    let prog = vec![Instruction::Dot, Instruction::Match];
    let line: Vec<char> = "a".chars().collect();
    assert_eq!(eval(&prog, &line, 0, true), Ok(true));
    let empty: Vec<char> = Vec::new();
    assert_eq!(eval(&prog, &empty, 0, true), Ok(false));
}

#[test]
fn vm_caret_checks_the_absolute_start() {
    let prog = vec![Instruction::Caret, Instruction::Match];
    let line: Vec<char> = "x".chars().collect();
    assert_eq!(eval(&prog, &line, 0, true), Ok(true));
    assert_eq!(eval(&prog, &line, 3, true), Ok(false));
}

#[test]
fn vm_caret_elsewhere_is_not_supported() {
    let prog = vec![Instruction::Dot, Instruction::Caret, Instruction::Match];
    let line: Vec<char> = "x".chars().collect();
    assert_eq!(eval(&prog, &line, 0, true), Err(EvalError::NotSupport));
}

#[test]
fn vm_dollar_holds_only_at_the_end() {
    let prog = vec![Instruction::Char('a'), Instruction::Dollar];
    let one: Vec<char> = "a".chars().collect();
    let two: Vec<char> = "ab".chars().collect();
    assert_eq!(eval(&prog, &one, 0, true), Ok(true));
    assert_eq!(eval(&prog, &two, 0, true), Ok(false));
}

#[test]
fn vm_out_of_program_is_invalid_pc() {
    let empty_prog: Vec<Instruction> = Vec::new();
    let line: Vec<char> = Vec::new();
    assert_eq!(eval(&empty_prog, &line, 0, true), Err(EvalError::InvalidPC));
    let jumps_out = vec![Instruction::Jump(7), Instruction::Match];
    let one: Vec<char> = "a".chars().collect();
    assert_eq!(eval(&jumps_out, &one, 0, true), Err(EvalError::InvalidPC));
}

#[test]
fn vm_split_prefers_the_first_address() {
    let prog = vec![
        Instruction::Split(1, 2),
        Instruction::Match,
        Instruction::Char('a'),
        Instruction::Match,
    ];
    let line: Vec<char> = "a".chars().collect();
    assert_eq!(eval(&prog, &line, 0, true), Ok(true));
}

#[test]
fn vm_rejects_the_unimplemented_strategy() {
    let prog = vec![Instruction::Match];
    let line: Vec<char> = Vec::new();
    assert_eq!(eval(&prog, &line, 0, false), Err(EvalError::NotSupport));
}
