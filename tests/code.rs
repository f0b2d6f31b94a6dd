use hack_assembler::code::{
    a_value_to_binary, comp_to_binary, decimal_text, dest_to_binary, jump_to_binary, parse_number,
};
use hack_assembler::error::AsmError;

#[test]
fn test_a_value_to_binary() {
    //Given
    let value = String::from("12345");

    // When
    let binary = a_value_to_binary(value);

    // Then
    assert_eq!("0011000000111001", binary.unwrap());
}

#[test]
fn address_edges() {
    assert_eq!(a_value_to_binary(String::from("0")).unwrap(), "0000000000000000");
    assert_eq!(a_value_to_binary(String::from("65535")).unwrap(), "1111111111111111");
    assert_eq!(a_value_to_binary(String::from("16384")).unwrap(), "0100000000000000");
    assert_eq!(a_value_to_binary(String::from("007")).unwrap(), "0000000000000111");
}

#[test]
fn address_round_trip_on_samples() {
    for v in [0u32, 1, 2, 15, 16, 255, 1000, 12345, 32767, 65535] {
        let bits = a_value_to_binary(decimal_text(v)).unwrap();
        assert_eq!(bits.len(), 16);
        assert_eq!(u32::from_str_radix(&bits, 2).unwrap(), v);
    }
}

#[test]
fn address_rejects_bad_values() {
    assert_eq!(a_value_to_binary(String::from("65536")), Err(AsmError::InvalidAddress));
    assert_eq!(a_value_to_binary(String::from("99999999999")), Err(AsmError::InvalidAddress));
    assert_eq!(a_value_to_binary(String::from("abc")), Err(AsmError::InvalidAddress));
    assert_eq!(a_value_to_binary(String::from("")), Err(AsmError::InvalidAddress));
    assert_eq!(a_value_to_binary(String::from("-1")), Err(AsmError::InvalidAddress));
}

#[test]
fn numbers_parse_and_print() {
    assert_eq!(parse_number("4294967295"), Some(4294967295));
    assert_eq!(parse_number("4294967296"), None);
    assert_eq!(parse_number("12a"), None);
    assert_eq!(parse_number(""), None);
    assert_eq!(decimal_text(0), "0");
    assert_eq!(decimal_text(24576), "24576");
    assert_eq!(decimal_text(4294967295), "4294967295");
}

#[test]
fn dest_encoding() {
    assert_eq!(dest_to_binary(String::from("M")), "001");
    assert_eq!(dest_to_binary(String::from("D")), "010");
    assert_eq!(dest_to_binary(String::from("MD")), "011");
    assert_eq!(dest_to_binary(String::from("A")), "100");
    assert_eq!(dest_to_binary(String::from("AM")), "101");
    assert_eq!(dest_to_binary(String::from("AD")), "110");
    assert_eq!(dest_to_binary(String::from("AMD")), "111");
    assert_eq!(dest_to_binary(String::new()), "000");
}

#[test]
fn comp_encoding() {
    assert_eq!(comp_to_binary(String::from("D+1")).unwrap(), "0011111");
    assert_eq!(comp_to_binary(String::from("A-1")).unwrap(), "0110010");
    assert_eq!(comp_to_binary(String::from("M-1")).unwrap(), "1110010");
    assert_eq!(comp_to_binary(String::from("0")).unwrap(), "0101010");
    assert_eq!(comp_to_binary(String::from("-1")).unwrap(), "0111010");
    assert_eq!(comp_to_binary(String::from("D|M")).unwrap(), "1010101");
    assert_eq!(comp_to_binary(String::from("D&A")).unwrap(), "0000000");
    assert_eq!(comp_to_binary(String::from("M-D")).unwrap(), "1000111");
}

#[test]
fn comp_rejects_unknown() {
    assert_eq!(comp_to_binary(String::from("D*A")), Err(AsmError::UnknownComp));
    assert_eq!(comp_to_binary(String::new()), Err(AsmError::UnknownComp));
}

#[test]
fn jump_encoding() {
    assert_eq!(jump_to_binary(String::new()).unwrap(), "000");
    assert_eq!(jump_to_binary(String::from("JGT")).unwrap(), "001");
    assert_eq!(jump_to_binary(String::from("JEQ")).unwrap(), "010");
    assert_eq!(jump_to_binary(String::from("JLE")).unwrap(), "110");
    assert_eq!(jump_to_binary(String::from("JMP")).unwrap(), "111");
    assert_eq!(jump_to_binary(String::from("JMPX")), Err(AsmError::UnknownJump));
}

#[test]
fn plus_sign_is_accepted_on_numbers() {
    assert_eq!(parse_number("+5"), Some(5));
    assert_eq!(parse_number("+4294967295"), Some(4294967295));
    assert_eq!(parse_number("+"), None);
    assert_eq!(parse_number("++5"), None);
    assert_eq!(parse_number("-5"), None);
    assert_eq!(parse_number("5+"), None);
    assert_eq!(a_value_to_binary(String::from("+5")).unwrap(), "0000000000000101");
    assert_eq!(a_value_to_binary(String::from("+")), Err(AsmError::InvalidAddress));
}
