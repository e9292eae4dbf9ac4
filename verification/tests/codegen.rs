use regex::engine::Instruction;
use regex::engine::codegen::get_code;
use regex::engine::parser::parse;

#[test]
fn alternation_code_layout() {
    let ast = parse("abc|def").unwrap();
    let code = get_code(&ast).unwrap();
    assert_eq!(
        code,
        vec![
            Instruction::Split(1, 5),
            Instruction::Char('a'),
            Instruction::Char('b'),
            Instruction::Char('c'),
            Instruction::Jump(8),
            Instruction::Char('d'),
            Instruction::Char('e'),
            Instruction::Char('f'),
            Instruction::Match,
        ]
    );
}

#[test]
fn star_code_layout() {
    let ast = parse("a*").unwrap();
    let code = get_code(&ast).unwrap();
    assert_eq!(
        code,
        vec![
            Instruction::Split(1, 3),
            Instruction::Char('a'),
            Instruction::Jump(0),
            Instruction::Match,
        ]
    );
}

#[test]
fn plus_code_layout() {
    let ast = parse("a+").unwrap();
    let code = get_code(&ast).unwrap();
    assert_eq!(
        code,
        vec![
            Instruction::Char('a'),
            Instruction::Split(0, 2),
            Instruction::Match,
        ]
    );
}

#[test]
fn question_code_layout() {
    let ast = parse("a?").unwrap();
    let code = get_code(&ast).unwrap();
    assert_eq!(
        code,
        vec![
            Instruction::Split(1, 2),
            Instruction::Char('a'),
            Instruction::Match,
        ]
    );
}

#[test]
fn compiled_program_ends_in_match_with_valid_addresses() {
    for expr in ["(ab|cd)*e?", "a+b*c?", "((a|b)|(c|d))+", "x"] {
        let ast = parse(expr).unwrap();
        let code = get_code(&ast).unwrap();
        let n = code.len();
        assert!(matches!(code.last(), Some(Instruction::Match)));
        let mut match_count = 0;
        for inst in &code {
            match inst {
                Instruction::Jump(a) => assert!(*a < n),
                Instruction::Split(a, b) => {
                    assert!(*a < n);
                    assert!(*b < n);
                }
                Instruction::Match => match_count += 1,
                _ => {}
            }
        }
        assert_eq!(match_count, 1);
    }
}

#[test]
fn compiling_twice_yields_identical_programs() {
    let ast1 = parse("a(bc|d*)+e?").unwrap();
    let ast2 = parse("a(bc|d*)+e?").unwrap();
    let c1 = get_code(&ast1).unwrap();
    let c2 = get_code(&ast2).unwrap();
    assert_eq!(c1, c2);
}
