use hack_assembler::symbol_table::SymbolTable;

#[test]
fn predefined_names() {
    let t = SymbolTable::new();
    assert_eq!(t.address("SCREEN"), Some(&16384));
    assert_eq!(t.address("KBD"), Some(&24576));
    assert_eq!(t.address("R7"), Some(&7));
    assert_eq!(t.address("R15"), Some(&15));
    assert_eq!(t.address("SP"), Some(&0));
    assert_eq!(t.address("THAT"), Some(&4));
    assert_eq!(t.address("R16"), None);
}

#[test]
fn variables_count_up_from_sixteen() {
    let mut t = SymbolTable::new();
    assert_eq!(t.add_variable(String::from("i")), 16);
    assert_eq!(t.add_variable(String::from("j")), 17);
    assert_eq!(t.address("i"), Some(&16));
    assert_eq!(t.address("j"), Some(&17));
}

#[test]
fn labels_overwrite() {
    let mut t = SymbolTable::new();
    t.add_label(String::from("LOOP"), 3);
    t.add_label(String::from("LOOP"), 9);
    assert_eq!(t.address("LOOP"), Some(&9));
    t.add_label(String::from("R1"), 40);
    assert_eq!(t.address("R1"), Some(&40));
}

#[test]
fn all_predefined_names_and_no_others() {
    let t = SymbolTable::new();
    for i in 0..16u32 {
        assert_eq!(t.address(&format!("R{i}")), Some(&i));
    }
    let named = [("SP", 0), ("LCL", 1), ("ARG", 2), ("THIS", 3), ("THAT", 4), ("SCREEN", 16384), ("KBD", 24576)];
    for (name, value) in named {
        assert_eq!(t.address(name), Some(&value));
    }
    for other in ["", "r0", "R", "R01", "sp", "LOOP", "16", "SCREEN "] {
        assert_eq!(t.address(other), None);
    }
}
