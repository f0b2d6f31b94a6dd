use hack_assembler::error::AsmError;
use hack_assembler::parser::{InstructionType, Parser};

fn lines(src: &[&str]) -> Vec<String> {
    src.iter().map(|l| l.to_string()).collect()
}

#[test]
fn skips_blanks_and_comments() {
    let mut p = Parser::new(lines(&["// header", "", "   ", "  @ 21 // x", "(END)", "D = M ; JGT"]));
    assert!(p.has_more_lines());
    p.advance();
    assert_eq!(p.instruction_type(), Ok(InstructionType::A));
    assert_eq!(p.instruction_index(), 1);
    p.advance();
    assert_eq!(p.instruction_type(), Ok(InstructionType::L));
    assert_eq!(p.symbol().unwrap(), "END");
    assert_eq!(p.instruction_index(), 1);
    p.advance();
    assert_eq!(p.instruction_type(), Ok(InstructionType::C));
    assert_eq!(p.dest().unwrap(), "D");
    assert_eq!(p.comp().unwrap(), "M");
    assert_eq!(p.jump().unwrap(), "JGT");
    assert_eq!(p.instruction_index(), 2);
    assert!(!p.has_more_lines());
}

#[test]
fn address_symbol_keeps_comment_text() {
    let mut p = Parser::new(lines(&["@21//x"]));
    p.advance();
    assert_eq!(p.symbol().unwrap(), "21//x");
}

#[test]
fn compute_fields() {
    let mut p = Parser::new(lines(&["0;JMP", "AM=M+1", "D=D-A;JLT"]));
    p.advance();
    assert_eq!(p.dest().unwrap(), "");
    assert_eq!(p.comp().unwrap(), "0");
    assert_eq!(p.jump().unwrap(), "JMP");
    p.advance();
    assert_eq!(p.dest().unwrap(), "AM");
    assert_eq!(p.comp().unwrap(), "M+1");
    assert_eq!(p.jump().unwrap(), "");
    p.advance();
    assert_eq!(p.dest().unwrap(), "D");
    assert_eq!(p.comp().unwrap(), "D-A");
    assert_eq!(p.jump().unwrap(), "JLT");
}

#[test]
fn wrong_shape_and_invalid_lines() {
    let mut p = Parser::new(lines(&["@x", "D=M", "garbage"]));
    assert_eq!(p.instruction_type(), Err(AsmError::NoInstruction));
    p.advance();
    assert_eq!(p.dest(), Err(AsmError::WrongInstructionType));
    assert_eq!(p.comp(), Err(AsmError::WrongInstructionType));
    assert_eq!(p.jump(), Err(AsmError::WrongInstructionType));
    p.advance();
    assert_eq!(p.symbol(), Err(AsmError::WrongInstructionType));
    p.advance();
    assert_eq!(p.instruction_type(), Err(AsmError::InvalidInstruction));
    assert_eq!(p.symbol(), Err(AsmError::InvalidInstruction));
}

#[test]
fn runs_out_on_trailing_comment() {
    let mut p = Parser::new(lines(&["@1", "// end"]));
    p.advance();
    assert!(p.has_more_lines());
    p.advance();
    assert_eq!(p.instruction_type(), Err(AsmError::NoInstruction));
    assert!(!p.has_more_lines());
}

#[test]
fn restarted_parser_starts_over() {
    let mut p = Parser::new(lines(&["@1", "@2"]));
    p.advance();
    let mut q = p.restarted();
    q.advance();
    assert_eq!(q.symbol().unwrap(), "1");
    assert_eq!(q.instruction_index(), 1);
}
