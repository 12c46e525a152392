use rv32_asm::buffer::ParsedNode;
use rv32_asm::hexfmt::{eof_line, form_line};

#[test]
fn test_form_line() {
    // byte count 04, address 0000, type 00, payload big-endian,
    // checksum 0x100 - (0x04 + 0x00 + 0x31 + 0x00 + 0xB3) mod 256 = 0x18
    let node = ParsedNode { instruction: 0x003100B3, address: 0 };
    assert_eq!(form_line(&node), ":04000000003100B318\n");

    let node2 = ParsedNode { instruction: 0xABCDE0B7, address: 0x0100 };
    // sum = 4 + 1 + 0 + 0xAB + 0xCD + 0xE0 + 0xB7 = 0x314; checksum = 0xEC
    assert_eq!(form_line(&node2), ":04010000ABCDE0B7EC\n");
}

#[test]
fn test_form_line_checksum_sums_to_zero() {
    // the bytes of a record, checksum included, sum to 0 mod 256
    let nodes = [
        ParsedNode { instruction: 0x003100B3, address: 0 },
        ParsedNode { instruction: 0xFFFFFFFF, address: 0xFFFF },
        ParsedNode { instruction: 0, address: 0 },
        ParsedNode { instruction: 0xABCDE0B7, address: 0x0100 },
    ];
    for node in nodes.iter() {
        let line = form_line(node);
        let hex = &line[1..line.len() - 1];
        let mut sum: u32 = 0;
        let mut i = 0;
        while i < hex.len() {
            sum += u32::from_str_radix(&hex[i..i + 2], 16).unwrap();
            i += 2;
        }
        assert_eq!(sum % 256, 0, "record {} does not sum to zero", line);
    }
}

#[test]
fn test_eof_line() {
    assert_eq!(eof_line(), ":00000001FF\n");
    // the end-of-file record's bytes also sum to zero mod 256
    assert_eq!((0x00 + 0x00 + 0x00 + 0x01 + 0xFF) % 256, 0);
}
