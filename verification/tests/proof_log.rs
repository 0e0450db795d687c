use relational::proof_log::{conclude_from_externals, has_conclusion, highest_defined_id};

fn log() -> &'static str {
    "pseudo-Boolean proof version 1.2\nf 3\ne 4 x1 >= 1 ;\nu >= 1 ;\ne 7 ~x2 >= 1 ;\nc 8 0\n"
}

#[test]
fn highest_id_is_the_greatest_defined() {
    assert_eq!(highest_defined_id(log().as_bytes()), 7);
    assert_eq!(highest_defined_id(b""), 0);
}

#[test]
fn conclusion_lines_are_found() {
    assert!(has_conclusion(log().as_bytes()));
    assert!(!has_conclusion(b"e 2 x >= 1 ;\nc 5 1\n"));
    assert!(has_conclusion(b"  c 3 0  \r\n"));
}

#[test]
fn conclusion_is_replaced_by_loads_of_the_externals() {
    let out = conclude_from_externals(log().as_bytes(), 4, 2);
    let expected = "pseudo-Boolean proof version 1.2\nf 3\ne 4 x1 >= 1 ;\nu >= 1 ;\ne 7 ~x2 >= 1 ;\nl 4\nl 5\nu >= 1 ;\nc 10 0\n";
    assert_eq!(String::from_utf8(out).unwrap(), expected);
}

#[test]
fn ending_is_appended_without_a_conclusion() {
    let out = conclude_from_externals(b"e 2 x >= 1 ;\n", 3, 1);
    assert_eq!(String::from_utf8(out).unwrap(), "e 2 x >= 1 ;\nl 3\nu >= 1 ;\nc 4 0\n");
}

#[test]
fn ids_are_read_as_the_first_word_after_e() {
    let log = "  e  +12 x\r\nexx 5\ne 99999999999999999999 y\n c 1 0 \r\n";
    assert_eq!(highest_defined_id(log.as_bytes()), 12);
    let out = conclude_from_externals(log.as_bytes(), 1, 1);
    assert_eq!(
        String::from_utf8(out).unwrap(),
        "  e  +12 x\nexx 5\ne 99999999999999999999 y\nl 1\nu >= 1 ;\nc 14 0\n"
    );
}
