use regex::engine::{Instruction, code_line_chars, inst_chars};

fn text(v: Vec<char>) -> String {
    v.into_iter().collect()
}

#[test]
fn instruction_rendering() {
    assert_eq!(text(inst_chars(&Instruction::Char('a'))), "char a");
    assert_eq!(text(inst_chars(&Instruction::Dot)), "dot");
    assert_eq!(text(inst_chars(&Instruction::Caret)), "caret");
    assert_eq!(text(inst_chars(&Instruction::Dollar)), "dollar");
    assert_eq!(text(inst_chars(&Instruction::Match)), "match");
    assert_eq!(text(inst_chars(&Instruction::Jump(3))), "jump 0003");
    assert_eq!(text(inst_chars(&Instruction::Jump(0))), "jump 0000");
    assert_eq!(
        text(inst_chars(&Instruction::Split(12345, 7))),
        "split 12345, 0007"
    );
}

#[test]
fn listing_line_rendering() {
    assert_eq!(
        text(code_line_chars(0, &Instruction::Split(1, 5))),
        "0000: split 0001, 0005"
    );
    assert_eq!(
        text(code_line_chars(8, &Instruction::Match)),
        "0008: match"
    );
}
