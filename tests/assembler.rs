use hack_assembler::assembler::{assemble, Assembler};
use hack_assembler::error::AsmError;

fn lines(src: &[&str]) -> Vec<String> {
    src.iter().map(|l| l.to_string()).collect()
}

#[test]
fn end_to_end_loop() {
    let out = assemble(lines(&["(LOOP)", "@i", "M=M-1", "@LOOP", "0;JMP"])).unwrap();
    assert_eq!(
        out,
        "0000000000010000\n1111110010001000\n0000000000000000\n1110101010000111\n"
    );
}

#[test]
fn phases_run_in_order() {
    let stage = Assembler::new(lines(&["(LOOP)", "@i", "M=M-1", "@LOOP", "0;JMP"]));
    let stage = stage.fill_symbol_table().unwrap();
    let out = stage.compile().unwrap();
    assert_eq!(out.lines().count(), 4);
}

#[test]
fn same_source_same_output() {
    let src = lines(&["// sum", "@sum", "M=0", "(TOP)", "@i", "D=M", "@TOP", "D;JGT", "@END", "0;JMP", "(END)", "@END"]);
    let first = assemble(src.clone()).unwrap();
    let second = assemble(src).unwrap();
    assert_eq!(first, second);
}

#[test]
fn labels_resolve_to_instruction_counts() {
    let out = assemble(lines(&["(START)", "@END", "0;JMP", "D=A", "(END)", "@START", "@END"])).unwrap();
    let words: Vec<&str> = out.lines().collect();
    assert_eq!(words[0], "0000000000000011");
    assert_eq!(words[3], "0000000000000000");
    assert_eq!(words[4], "0000000000000011");
}

#[test]
fn variables_from_sixteen_and_stable() {
    let out = assemble(lines(&["@a", "@b", "@a", "@7", "@SCREEN", "@R7"])).unwrap();
    let words: Vec<&str> = out.lines().collect();
    assert_eq!(words[0], "0000000000010000");
    assert_eq!(words[1], "0000000000010001");
    assert_eq!(words[2], "0000000000010000");
    assert_eq!(words[3], "0000000000000111");
    assert_eq!(words[4], "0100000000000000");
    assert_eq!(words[5], "0000000000000111");
}

#[test]
fn whitespace_is_ignored() {
    let out = assemble(lines(&["  D = M + 1 ; JEQ  ", "\t@ 5"])).unwrap();
    assert_eq!(out, "1111110111010010\n0000000000000101\n");
}

#[test]
fn errors_stop_the_run() {
    assert_eq!(assemble(lines(&["@1", "nonsense"])), Err(AsmError::InvalidInstruction));
    assert_eq!(assemble(lines(&["D=Q"])), Err(AsmError::UnknownComp));
    assert_eq!(assemble(lines(&["0;JXX"])), Err(AsmError::UnknownJump));
    assert_eq!(assemble(lines(&["@70000"])), Err(AsmError::InvalidAddress));
    assert_eq!(assemble(lines(&["@1", ""])), Ok(String::from("0000000000000001\n")));
}

#[test]
fn empty_program_gives_empty_output() {
    assert_eq!(assemble(Vec::new()).unwrap(), "");
}

#[test]
fn trailing_blank_and_comment_lines_are_ignored() {
    let plain = assemble(lines(&["@R1", "D=M"])).unwrap();
    let padded = assemble(lines(&["", "@R1", "  // note", "D=M", "", "// end", "   "])).unwrap();
    assert_eq!(plain, padded);
    assert_eq!(assemble(lines(&["// only a comment", ""])).unwrap(), "");
}

#[test]
fn unicode_whitespace_is_removed() {
    let out = assemble(lines(&["@\u{a0}5\u{3000}", "D\u{2003}=\u{85}A"])).unwrap();
    assert_eq!(out, "0000000000000101\n1110110000010000\n");
}

#[test]
fn add_variable_numbers_from_sixteen() {
    let stage = Assembler::new(lines(&["@x"])).fill_symbol_table().unwrap();
    let mut stage = stage;
    assert_eq!(stage.add_variable(String::from("x")), "16");
    assert_eq!(stage.add_variable(String::from("y")), "17");
    assert_eq!(stage.add_variable(String::from("x")), "16");
    assert_eq!(stage.add_variable(String::from("SCREEN")), "16384");
    assert_eq!(stage.add_variable(String::from("42")), "42");
}

#[test]
fn plus_signed_literal_is_a_number() {
    let out = assemble(lines(&["@+5", "@x"])).unwrap();
    assert_eq!(out, "0000000000000101\n0000000000010000\n");
    let mut stage = Assembler::new(lines(&["@+5"])).fill_symbol_table().unwrap();
    assert_eq!(stage.add_variable(String::from("+5")), "+5");
    assert_eq!(stage.add_variable(String::from("z")), "16");
}
