use rv32_asm::buffer::{DataInterface, ParsedNode};
use rv32_asm::encoding::{Inst, InstType, Reg};
use rv32_asm::errors::{AsmError, LineError};
use rv32_asm::symtab::ExtractedData;
use rv32_asm::translator::Translator;

fn template(opcode: u32, funct3: u32, funct7: u32, inst_type: InstType) -> Vec<Inst> {
    vec![Inst { opcode, funct3, funct7, inst_type }]
}

fn rv32i_translator() -> Translator {
    let mut insts: Vec<ExtractedData<Vec<Inst>>> = Vec::new();
    let mut entry = |key: &str, data: Vec<Inst>| {
        insts.push(ExtractedData { data, key: String::from(key) });
    };
    entry("add", template(0x33, 0, 0, InstType::R));
    entry("sub", template(0x33, 0, 0x20, InstType::R));
    entry("addi", template(0x13, 0, 0, InstType::I));
    entry("nop", template(0x13, 0, 0, InstType::I));
    entry("lw", template(0x03, 2, 0, InstType::I));
    entry("sw", template(0x23, 2, 0, InstType::S));
    entry("beq", template(0x63, 0, 0, InstType::B));
    entry("lui", template(0x37, 0, 0, InstType::U));
    entry("jal", template(0x6F, 0, 0, InstType::J));
    entry("org", template(1, 0, 0, InstType::Meta));
    // a two-word pseudo-instruction: the same I template twice
    entry(
        "twice",
        vec![
            Inst { opcode: 0x13, funct3: 0, funct7: 0, inst_type: InstType::I },
            Inst { opcode: 0x13, funct3: 0, funct7: 0, inst_type: InstType::I },
        ],
    );
    let mut regs: Vec<ExtractedData<Reg>> = Vec::new();
    for i in 0..32u32 {
        regs.push(ExtractedData { data: Reg { reg_num: i }, key: format!("x{}", i) });
    }
    let mut t = Translator::new(32, 37);
    t.initialize(&mut insts, &mut regs).unwrap();
    t
}

fn assemble_with(t: &mut Translator, lines: &[&str]) -> Result<Vec<ParsedNode>, LineError> {
    let mut di = DataInterface::new();
    for line in lines.iter() {
        di.add_line(line);
    }
    t.parse_file(&mut di)?;
    let mut out = Vec::new();
    while let Some(node) = di.pop_parsed() {
        out.push(node);
    }
    Ok(out)
}

fn assemble(lines: &[&str]) -> Result<Vec<ParsedNode>, LineError> {
    let mut t = rv32i_translator();
    assemble_with(&mut t, lines)
}

#[test]
fn test_add_scenario() {
    let nodes = assemble(&["add x1, x2, x3"]).unwrap();
    assert_eq!(nodes, vec![ParsedNode { instruction: 0x003100B3, address: 0 }]);
    let record = rv32_asm::hexfmt::form_line(&nodes[0]);
    assert_eq!(record, ":04000000003100B318\n");
}

#[test]
fn test_addi_scenario() {
    let nodes = assemble(&["addi x5, x0, 10"]).unwrap();
    assert_eq!(nodes, vec![ParsedNode { instruction: 0x00A00293, address: 0 }]);
}

#[test]
fn test_self_branch_scenario() {
    // at address 4, `loop` resolves to 4, so the branch offset is zero
    let mut t = rv32i_translator();
    let nodes = assemble_with(&mut t, &["org 4", "loop:", "beq x1, x2, loop"]).unwrap();
    assert_eq!(t.get_label("loop").unwrap(), 4);
    assert_eq!(nodes.len(), 1);
    assert_eq!(nodes[0].address, 4);
    assert_eq!(nodes[0].instruction & 0x7F, 0x63);
    assert_eq!(nodes[0].instruction, 0x00208063);
}

#[test]
fn test_org_lui_scenario() {
    let nodes = assemble(&["org 0x100", "lui x1, 0xABCDE"]).unwrap();
    assert_eq!(nodes, vec![ParsedNode { instruction: 0xABCDE0B7, address: 0x0100 }]);
}

#[test]
fn test_jal_forward_label_scenario() {
    // `target` lies two words past the jal, so its J immediate encodes 2
    let mut t = rv32i_translator();
    let nodes = assemble_with(&mut t, &["jal x1, target", "nop", "target:"]).unwrap();
    assert_eq!(t.get_label("target").unwrap(), 2);
    assert_eq!(nodes.len(), 2);
    assert_eq!(nodes[0], ParsedNode { instruction: 0x002000EF, address: 0 });
    assert_eq!(nodes[1], ParsedNode { instruction: 0x00000013, address: 1 });
}

#[test]
fn test_unknown_mnemonic_scenario() {
    let err = assemble(&["xxx x1, x2, x3"]).unwrap_err();
    assert_eq!(err, LineError { line: 1, kind: AsmError::UnknownMnemonic });
}

#[test]
fn test_error_line_numbers() {
    let err = assemble(&["nop", "add x1, x2, x3", "yyy x1"]).unwrap_err();
    assert_eq!(err, LineError { line: 3, kind: AsmError::UnknownMnemonic });
}

#[test]
fn test_consecutive_addresses() {
    // with no org, record addresses rise by exactly one per word
    let nodes = assemble(&["add x1, x2, x3", "nop", "addi x5, x0, 10", "sub x3, x2, x1"]).unwrap();
    assert_eq!(nodes.len(), 4);
    for k in 0..nodes.len() {
        assert_eq!(nodes[k].address, k as u16);
    }
}

#[test]
fn test_opcode_in_low_bits() {
    let nodes = assemble(&["add x1, x2, x3", "addi x5, x0, 10", "lui x1, 4", "jal x1, 0"]).unwrap();
    assert_eq!(nodes[0].instruction & 0x7F, 0x33);
    assert_eq!(nodes[1].instruction & 0x7F, 0x13);
    assert_eq!(nodes[2].instruction & 0x7F, 0x37);
    assert_eq!(nodes[3].instruction & 0x7F, 0x6F);
}

#[test]
fn test_load_form() {
    let nodes = assemble(&["lw x1, 8(x2)"]).unwrap();
    assert_eq!(nodes, vec![ParsedNode { instruction: 0x00812083, address: 0 }]);
}

#[test]
fn test_store_form() {
    // surface form: sw rs2, rs1, imm
    let nodes = assemble(&["sw x1, x2, 12"]).unwrap();
    assert_eq!(nodes, vec![ParsedNode { instruction: 0x00112623, address: 0 }]);
}

#[test]
fn test_backward_branch() {
    let nodes = assemble(&["back:", "nop", "beq x1, x2, back"]).unwrap();
    assert_eq!(nodes.len(), 2);
    // the branch at address 1 targets address 0: offset -1
    assert_eq!(nodes[1], ParsedNode { instruction: 0xFE208FE3, address: 1 });
}

#[test]
fn test_sub_uses_funct7() {
    let nodes = assemble(&["sub x3, x2, x1"]).unwrap();
    assert_eq!(nodes, vec![ParsedNode { instruction: 0x401101B3, address: 0 }]);
}

#[test]
fn test_pseudo_instruction_expansion() {
    // a two-template mnemonic emits two words and advances twice
    let nodes = assemble(&["twice x1, x0, 5", "nop"]).unwrap();
    assert_eq!(nodes.len(), 3);
    assert_eq!(nodes[0], ParsedNode { instruction: 0x00500093, address: 0 });
    assert_eq!(nodes[1], ParsedNode { instruction: 0x00500093, address: 1 });
    assert_eq!(nodes[2], ParsedNode { instruction: 0x00000013, address: 2 });
}

#[test]
fn test_comments_and_blank_lines() {
    let nodes = assemble(&["# header", "", "  add x1, x2, x3 # trailing", "\t"]).unwrap();
    assert_eq!(nodes, vec![ParsedNode { instruction: 0x003100B3, address: 0 }]);
}

#[test]
fn test_unknown_register() {
    let err = assemble(&["add x1, x2, x99"]).unwrap_err();
    assert_eq!(err, LineError { line: 1, kind: AsmError::UnknownRegister });
}

#[test]
fn test_unresolved_label() {
    let err = assemble(&["beq x1, x2, nowhere"]).unwrap_err();
    assert_eq!(err, LineError { line: 1, kind: AsmError::UnresolvedLabel });
}

#[test]
fn test_bad_immediate() {
    let err = assemble(&["addi x1, x0, 1x2"]).unwrap_err();
    assert_eq!(err, LineError { line: 1, kind: AsmError::BadImmediate });
}

#[test]
fn test_immediate_out_of_range() {
    let err = assemble(&["addi x1, x0, 5000"]).unwrap_err();
    assert_eq!(err, LineError { line: 1, kind: AsmError::ImmediateOutOfRange });
    let err2 = assemble(&["lui x1, 0x100000"]).unwrap_err();
    assert_eq!(err2, LineError { line: 1, kind: AsmError::ImmediateOutOfRange });
    let err3 = assemble(&["addi x1, x0, -2049"]).unwrap_err();
    assert_eq!(err3, LineError { line: 1, kind: AsmError::ImmediateOutOfRange });
}

#[test]
fn test_wrong_operand_count() {
    let err = assemble(&["add x1, x2"]).unwrap_err();
    assert_eq!(err, LineError { line: 1, kind: AsmError::WrongOperandCount });
    let err2 = assemble(&["org 1 2"]).unwrap_err();
    assert_eq!(err2, LineError { line: 1, kind: AsmError::WrongOperandCount });
}

#[test]
fn test_label_key_errors() {
    let err = assemble(&["nop", "waytoolonglabel:"]).unwrap_err();
    assert_eq!(err, LineError { line: 2, kind: AsmError::KeyTooLong });
    let err2 = assemble(&["a+b:"]).unwrap_err();
    assert_eq!(err2, LineError { line: 1, kind: AsmError::InvalidKey });
}

#[test]
fn test_duplicate_label_last_wins() {
    let mut t = rv32i_translator();
    assemble_with(&mut t, &["here:", "nop", "here:"]).unwrap();
    assert_eq!(t.get_label("here").unwrap(), 1);
}

#[test]
fn test_org_out_of_range() {
    let err = assemble(&["org 0x10000"]).unwrap_err();
    assert_eq!(err, LineError { line: 1, kind: AsmError::ImmediateOutOfRange });
    let err2 = assemble(&["org zz"]).unwrap_err();
    assert_eq!(err2, LineError { line: 1, kind: AsmError::BadImmediate });
}

#[test]
fn test_label_line_ignores_trailing_fields() {
    // a line whose first field ends with `:` is a label declaration;
    // anything after the label field is ignored
    let mut t = rv32i_translator();
    let nodes = assemble_with(&mut t, &["foo: add x1, x2, x3", "nop"]).unwrap();
    assert_eq!(t.get_label("foo").unwrap(), 0);
    assert_eq!(nodes, vec![ParsedNode { instruction: 0x00000013, address: 0 }]);
}

#[test]
fn test_load_operand_shapes() {
    assert_eq!(
        assemble(&["lw x1, 8"]).unwrap_err(),
        LineError { line: 1, kind: AsmError::BadImmediate },
    );
    assert_eq!(
        assemble(&["lw x1, (x2)"]).unwrap_err(),
        LineError { line: 1, kind: AsmError::BadImmediate },
    );
    assert_eq!(
        assemble(&["lw x1, 8(zz)"]).unwrap_err(),
        LineError { line: 1, kind: AsmError::UnknownRegister },
    );
    assert_eq!(
        assemble(&["lw x1, 8(x2"]).unwrap_err(),
        LineError { line: 1, kind: AsmError::BadImmediate },
    );
    // negative load offsets encode in two's complement
    let nodes = assemble(&["lw x1, -4(x2)"]).unwrap();
    assert_eq!(nodes, vec![ParsedNode { instruction: 0xFFC12083, address: 0 }]);
}

#[test]
fn test_org_restarts_consecutive_addresses() {
    let nodes = assemble(&["nop", "org 0x20", "nop", "nop"]).unwrap();
    assert_eq!(nodes.len(), 3);
    assert_eq!(nodes[0].address, 0);
    assert_eq!(nodes[1].address, 0x20);
    assert_eq!(nodes[2].address, 0x21);
}

#[test]
fn test_full_stream() {
    // a small program end to end, through the HEX formatter
    let nodes = assemble(&["org 0x10", "start:", "addi x5, x0, 10", "beq x5, x5, start"]).unwrap();
    let mut out = String::new();
    for node in nodes.iter() {
        out.push_str(&rv32_asm::hexfmt::form_line(node));
    }
    out.push_str(&rv32_asm::hexfmt::eof_line());
    let lines: Vec<&str> = out.lines().collect();
    assert_eq!(lines.len(), 3);
    assert!(lines[0].starts_with(":0400100000A00293"));
    assert!(lines[1].starts_with(":04001100"));
    assert_eq!(lines[2], ":00000001FF");
}
