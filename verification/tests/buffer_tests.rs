use rv32_asm::buffer::{DataInterface, ParsedNode};

#[test]
fn test_add_line() {
    let mut di = DataInterface::new();
    assert_eq!(di.lines_len(), 0);
    di.add_line("add x1, x2, x3");
    di.add_line("beq x1, x2, loop");
    di.add_line("");
    assert_eq!(di.lines_len(), 3);
    assert_eq!(di.pop_line().unwrap(), "add x1, x2, x3");
    assert_eq!(di.pop_line().unwrap(), "beq x1, x2, loop");
    assert_eq!(di.pop_line().unwrap(), "");
    assert_eq!(di.lines_len(), 0);
    assert!(di.pop_line().is_none());
}

#[test]
fn test_add_parsed() {
    let mut di = DataInterface::new();
    assert_eq!(di.parsed_len(), 0);
    let a = ParsedNode { instruction: 0x003100B3, address: 0 };
    let b = ParsedNode { instruction: 0x00A00293, address: 1 };
    di.add_parsed(&a);
    di.add_parsed(&b);
    assert_eq!(di.parsed_len(), 2);
    assert_eq!(di.pop_parsed().unwrap(), a);
    assert_eq!(di.pop_parsed().unwrap(), b);
    assert!(di.pop_parsed().is_none());
}

#[test]
fn test_queues_are_independent() {
    let mut di = DataInterface::new();
    di.add_line("nop");
    di.add_parsed(&ParsedNode { instruction: 0x13, address: 0 });
    assert_eq!(di.lines_len(), 1);
    assert_eq!(di.parsed_len(), 1);
    assert!(di.pop_line().is_some());
    assert_eq!(di.lines_len(), 0);
    assert_eq!(di.parsed_len(), 1);
}
