//! The encoder: resolves mnemonics, registers and labels against the
//! three symbol tables and turns source lines into encoded instruction
//! words in two passes, so that forward label references resolve.

use vstd::prelude::*;
use vstd::string::{StrSliceExecFns, StringExecFns};
use crate::buffer::{DataInterface, ParsedNode};
use crate::encoding::{
    base_word,
    btype_word,
    imm_bits,
    inst_wf,
    itype_word,
    jtype_word,
    next_addr,
    rtype_word,
    spec_base_word,
    spec_imm_bits,
    stype_word,
    utype_word,
    Inst,
    InstType,
    Reg,
};
use crate::errors::{AsmError, LineError};
use crate::lexer::{lex, lex_line};
use crate::numparse::{parse_int, str_to_int};
use crate::symtab::{
    all_pairs_valid,
    lemma_spec_get_valid,
    lookup_pairs,
    valid_key,
    ExtractedData,
    HashMap,
};

verus! {

/// The translation engine: the mnemonic, register and label tables and
/// the current word address.
pub struct Translator {
    inst_hm: HashMap<Vec<Inst>>,
    reg_hm: HashMap<Reg>,
    label_hm: HashMap<u16>,
    curr_address: u16,
}

impl Translator {
    /// The mnemonic dictionary as a map from identifier to template
    /// list.
    pub closed spec fn mnemonics_view(self) -> Map<Seq<char>, Seq<Inst>> {
        Map::new(
            |k: Seq<char>| self.inst_hm.spec_get(k) is Some,
            |k: Seq<char>| self.inst_hm.spec_get(k).unwrap()@,
        )
    }

    /// The register dictionary as a map from name to register number.
    pub closed spec fn registers_view(self) -> Map<Seq<char>, u32> {
        Map::new(
            |k: Seq<char>| self.reg_hm.spec_get(k) is Some,
            |k: Seq<char>| self.reg_hm.spec_get(k).unwrap().reg_num,
        )
    }

    /// The label table as a map from label to resolved word address.
    pub closed spec fn labels_view(self) -> Map<Seq<char>, u16> {
        Map::new(
            |k: Seq<char>| self.label_hm.spec_get(k) is Some,
            |k: Seq<char>| self.label_hm.spec_get(k).unwrap(),
        )
    }

    /// The current word address.
    pub closed spec fn addr(self) -> u16 {
        self.curr_address
    }

    /// All three tables well-formed.
    pub closed spec fn wf(self) -> bool {
        &&& self.inst_hm.wf()
        &&& self.reg_hm.wf()
        &&& self.label_hm.wf()
    }

    /// A translator with empty dictionaries of the given bucket counts
    /// and the address counter at zero.
    pub fn new(inst_size: u32, reg_size: u32) -> (r: Self)
        requires
            inst_size >= 1,
            reg_size >= 1,
        ensures
            r.wf(),
            r.mnemonics_view() =~= Map::<Seq<char>, Seq<Inst>>::empty(),
            r.registers_view() =~= Map::<Seq<char>, u32>::empty(),
            r.labels_view() =~= Map::<Seq<char>, u16>::empty(),
            r.addr() == 0,
    {
        let r = Translator {
            inst_hm: HashMap::new(inst_size),
            reg_hm: HashMap::new(reg_size),
            label_hm: HashMap::new(16),
            curr_address: 0,
        };
        proof {
            assert(r.mnemonics_view() =~= Map::<Seq<char>, Seq<Inst>>::empty());
            assert(r.registers_view() =~= Map::<Seq<char>, u32>::empty());
            assert(r.labels_view() =~= Map::<Seq<char>, u16>::empty());
        }
        r
    }
}

/// The dictionary that results from inserting `pairs` in order over a
/// prior mnemonic dictionary.
pub open spec fn insts_dict(
    pairs: Seq<ExtractedData<Vec<Inst>>>,
    prior: Map<Seq<char>, Seq<Inst>>,
) -> Map<Seq<char>, Seq<Inst>> {
    Map::new(
        |k: Seq<char>| lookup_pairs(pairs, k) is Some || prior.contains_key(k),
        |k: Seq<char>|
            match lookup_pairs(pairs, k) {
                Some(v) => v@,
                None => prior[k],
            },
    )
}

/// The dictionary that results from inserting `pairs` in order over a
/// prior register dictionary.
pub open spec fn regs_dict(
    pairs: Seq<ExtractedData<Reg>>,
    prior: Map<Seq<char>, u32>,
) -> Map<Seq<char>, u32> {
    Map::new(
        |k: Seq<char>| lookup_pairs(pairs, k) is Some || prior.contains_key(k),
        |k: Seq<char>|
            match lookup_pairs(pairs, k) {
                Some(v) => v.reg_num,
                None => prior[k],
            },
    )
}

impl Translator {
    /// Loads both dictionaries, draining the two pair vectors.
    /// Succeeds exactly when every key is a valid identifier, as the
    /// dictionary collaborator guarantees of what it supplies.
    pub fn initialize(
        &mut self,
        extracted_instructions: &mut Vec<ExtractedData<Vec<Inst>>>,
        extracted_regs: &mut Vec<ExtractedData<Reg>>,
    ) -> (r: Result<(), AsmError>)
        requires
            old(self).wf(),
        ensures
            final(self).wf(),
            r is Ok <==> all_pairs_valid(old(extracted_instructions)@) && all_pairs_valid(
                old(extracted_regs)@,
            ),
            r is Ok ==> final(self).mnemonics_view() == insts_dict(
                old(extracted_instructions)@,
                old(self).mnemonics_view(),
            ) && final(self).registers_view() == regs_dict(
                old(extracted_regs)@,
                old(self).registers_view(),
            ),
            final(self).labels_view() == old(self).labels_view(),
            final(self).addr() == old(self).addr(),
    {
        let ghost pre = *self;
        let r1 = self.inst_hm.build(extracted_instructions);
        proof {
            assert(self.labels_view() =~= pre.labels_view());
        }
        if let Err(e) = r1 {
            return Err(e);
        }
        let r2 = self.reg_hm.build(extracted_regs);
        proof {
            assert(self.mnemonics_view() =~= insts_dict(
                old(extracted_instructions)@,
                pre.mnemonics_view(),
            ));
            assert(self.labels_view() =~= pre.labels_view());
        }
        if let Err(e) = r2 {
            return Err(e);
        }
        proof {
            assert(self.registers_view() =~= regs_dict(
                old(extracted_regs)@,
                pre.registers_view(),
            ));
        }
        Ok(())
    }
}

/// The register operand `name` resolves to: its five-bit register
/// number, or `UnknownRegister`.
pub open spec fn reg_of(rg: Map<Seq<char>, u32>, name: Seq<char>) -> Result<u32, AsmError> {
    if rg.contains_key(name) {
        Ok(rg[name] & 0x1F)
    } else {
        Err(AsmError::UnknownRegister)
    }
}

/// The mnemonic `name` resolves to its template list; a malformed name
/// keeps the table's own error, a missing one is `UnknownMnemonic`.
pub open spec fn mnemonic_of(mn: Map<Seq<char>, Seq<Inst>>, name: Seq<char>) -> Result<
    Seq<Inst>,
    AsmError,
> {
    if name.len() > 10 {
        Err(AsmError::KeyTooLong)
    } else if !valid_key(name) {
        Err(AsmError::InvalidKey)
    } else if mn.contains_key(name) {
        Ok(mn[name])
    } else {
        Err(AsmError::UnknownMnemonic)
    }
}

/// The label `name` resolves to its recorded address; any failure is
/// `UnresolvedLabel`.
pub open spec fn label_of(lb: Map<Seq<char>, u16>, name: Seq<char>) -> Result<u16, AsmError> {
    if lb.contains_key(name) {
        Ok(lb[name])
    } else {
        Err(AsmError::UnresolvedLabel)
    }
}

/// R format line `mnemonic rd, rs1, rs2`: four fields, three register
/// operands.
pub open spec fn spec_rtype(rg: Map<Seq<char>, u32>, base: u32, fields: Seq<Seq<char>>) -> Result<
    u32,
    AsmError,
> {
    if fields.len() != 4 {
        Err(AsmError::WrongOperandCount)
    } else {
        match reg_of(rg, fields[1]) {
            Err(e) => Err(e),
            Ok(rd) => match reg_of(rg, fields[2]) {
                Err(e) => Err(e),
                Ok(rs1) => match reg_of(rg, fields[3]) {
                    Err(e) => Err(e),
                    Ok(rs2) => Ok(rtype_word(base, rd, rs1, rs2)),
                },
            },
        }
    }
}

/// Arithmetic I format line `mnemonic rd, rs1, imm`: four fields, the
/// immediate a literal fitting twelve signed bits. The load opcode
/// 0x03 takes the three-field surface form instead.
pub open spec fn spec_itype_regular(
    rg: Map<Seq<char>, u32>,
    base: u32,
    fields: Seq<Seq<char>>,
) -> Result<u32, AsmError> {
    if base & 0x7F == 0x03 {
        Err(AsmError::WrongOperandCount)
    } else {
        match reg_of(rg, fields[1]) {
            Err(e) => Err(e),
            Ok(rd) => match reg_of(rg, fields[2]) {
                Err(e) => Err(e),
                Ok(rs1) => match parse_int(fields[3]) {
                    None => Err(AsmError::BadImmediate),
                    Some(v) => if -2048 <= v <= 2047 {
                        Ok(itype_word(base, rd, rs1, spec_imm_bits(v)))
                    } else {
                        Err(AsmError::ImmediateOutOfRange)
                    },
                },
            },
        }
    }
}

/// The position of the first `(` in `s`, or `s.len()` when there is
/// none.
pub open spec fn paren_pos(s: Seq<char>) -> int
    decreases s.len(),
{
    if s.len() == 0 {
        0
    } else if s[0] == '(' {
        0
    } else {
        1 + paren_pos(s.drop_first())
    }
}

/// A load operand `imm(rs1)` split into its immediate text and its
/// register text; `None` when the shape is not `imm(rs1)` with both
/// parts non-empty and a closing `)` at the end.
pub open spec fn spec_load_operand(s: Seq<char>) -> Option<(Seq<char>, Seq<char>)> {
    let p = paren_pos(s);
    if 1 <= p && p < s.len() - 2 && s[s.len() - 1] == ')' {
        Some((s.subrange(0, p), s.subrange(p + 1, s.len() - 1)))
    } else {
        None
    }
}

/// Load I format line `mnemonic rd, imm(rs1)`: three fields, honoured
/// for the load opcode 0x03 only.
pub open spec fn spec_i_type_ld(
    rg: Map<Seq<char>, u32>,
    base: u32,
    fields: Seq<Seq<char>>,
) -> Result<u32, AsmError> {
    if base & 0x7F != 0x03 {
        Err(AsmError::WrongOperandCount)
    } else {
        match reg_of(rg, fields[1]) {
            Err(e) => Err(e),
            Ok(rd) => match spec_load_operand(fields[2]) {
                None => Err(AsmError::BadImmediate),
                Some(parts) => match parse_int(parts.0) {
                    None => Err(AsmError::BadImmediate),
                    Some(v) => if -2048 <= v <= 2047 {
                        match reg_of(rg, parts.1) {
                            Err(e) => Err(e),
                            Ok(rs1) => Ok(itype_word(base, rd, rs1, spec_imm_bits(v))),
                        }
                    } else {
                        Err(AsmError::ImmediateOutOfRange)
                    },
                },
            },
        }
    }
}

/// I format dispatch by field count: four fields for the arithmetic
/// form, three for the load form, a single field for an instruction
/// whose template encodes every operand (such as `nop`).
pub open spec fn spec_itype(rg: Map<Seq<char>, u32>, base: u32, fields: Seq<Seq<char>>) -> Result<
    u32,
    AsmError,
> {
    if fields.len() == 4 {
        spec_itype_regular(rg, base, fields)
    } else if fields.len() == 3 {
        spec_i_type_ld(rg, base, fields)
    } else if fields.len() == 1 {
        Ok(base)
    } else {
        Err(AsmError::WrongOperandCount)
    }
}

/// S format line `mnemonic rs2, rs1, imm`: four fields, the immediate
/// split across the word.
pub open spec fn spec_stype(rg: Map<Seq<char>, u32>, base: u32, fields: Seq<Seq<char>>) -> Result<
    u32,
    AsmError,
> {
    if fields.len() != 4 {
        Err(AsmError::WrongOperandCount)
    } else {
        match reg_of(rg, fields[1]) {
            Err(e) => Err(e),
            Ok(rs2) => match reg_of(rg, fields[2]) {
                Err(e) => Err(e),
                Ok(rs1) => match parse_int(fields[3]) {
                    None => Err(AsmError::BadImmediate),
                    Some(v) => if -2048 <= v <= 2047 {
                        Ok(stype_word(base, rs1, rs2, spec_imm_bits(v)))
                    } else {
                        Err(AsmError::ImmediateOutOfRange)
                    },
                },
            },
        }
    }
}

/// A branch or jump target: an integer literal taken as the offset
/// itself, or a label whose resolved address yields the offset from
/// the current instruction, in words.
pub open spec fn spec_branch_target(lb: Map<Seq<char>, u16>, addr: u16, s: Seq<char>) -> Result<
    int,
    AsmError,
> {
    match parse_int(s) {
        Some(v) => Ok(v),
        None => match label_of(lb, s) {
            Err(e) => Err(e),
            Ok(a) => Ok(a as int - addr as int),
        },
    }
}

/// B format line `mnemonic rs1, rs2, target`: four fields, the offset
/// fitting thirteen signed bits.
pub open spec fn spec_btype(
    rg: Map<Seq<char>, u32>,
    lb: Map<Seq<char>, u16>,
    addr: u16,
    base: u32,
    fields: Seq<Seq<char>>,
) -> Result<u32, AsmError> {
    if fields.len() != 4 {
        Err(AsmError::WrongOperandCount)
    } else {
        match reg_of(rg, fields[1]) {
            Err(e) => Err(e),
            Ok(rs1) => match reg_of(rg, fields[2]) {
                Err(e) => Err(e),
                Ok(rs2) => match spec_branch_target(lb, addr, fields[3]) {
                    Err(e) => Err(e),
                    Ok(v) => if -4096 <= v <= 4095 {
                        Ok(btype_word(base, rs1, rs2, spec_imm_bits(v)))
                    } else {
                        Err(AsmError::ImmediateOutOfRange)
                    },
                },
            },
        }
    }
}

/// U format line `mnemonic rd, imm`: three fields, the immediate a
/// twenty-bit value placed at the top of the word.
pub open spec fn spec_utype(rg: Map<Seq<char>, u32>, base: u32, fields: Seq<Seq<char>>) -> Result<
    u32,
    AsmError,
> {
    if fields.len() != 3 {
        Err(AsmError::WrongOperandCount)
    } else {
        match reg_of(rg, fields[1]) {
            Err(e) => Err(e),
            Ok(rd) => match parse_int(fields[2]) {
                None => Err(AsmError::BadImmediate),
                Some(v) => if 0 <= v <= 0xFFFFF {
                    Ok(utype_word(base, rd, v as u32))
                } else {
                    Err(AsmError::ImmediateOutOfRange)
                },
            },
        }
    }
}

/// J format line `mnemonic rd, target`: three fields, the offset
/// fitting twenty-one signed bits.
pub open spec fn spec_jtype(
    rg: Map<Seq<char>, u32>,
    lb: Map<Seq<char>, u16>,
    addr: u16,
    base: u32,
    fields: Seq<Seq<char>>,
) -> Result<u32, AsmError> {
    if fields.len() != 3 {
        Err(AsmError::WrongOperandCount)
    } else {
        match reg_of(rg, fields[1]) {
            Err(e) => Err(e),
            Ok(rd) => match spec_branch_target(lb, addr, fields[2]) {
                Err(e) => Err(e),
                Ok(v) => if -0x100000 <= v <= 0xFFFFF {
                    Ok(jtype_word(base, rd, spec_imm_bits(v)))
                } else {
                    Err(AsmError::ImmediateOutOfRange)
                },
            },
        }
    }
}

/// A meta directive's effect on the address counter. The only defined
/// directive is `org`, id 1, which sets the address to its immediate;
/// an unknown id fails as an unknown mnemonic.
pub open spec fn spec_meta(inst: Inst, fields: Seq<Seq<char>>) -> Result<u16, AsmError> {
    if inst.opcode == 1 {
        if fields.len() != 2 {
            Err(AsmError::WrongOperandCount)
        } else {
            match parse_int(fields[1]) {
                None => Err(AsmError::BadImmediate),
                Some(v) => if 0 <= v <= 0xFFFF {
                    Ok(v as u16)
                } else {
                    Err(AsmError::ImmediateOutOfRange)
                },
            }
        }
    } else {
        Err(AsmError::UnknownMnemonic)
    }
}

/// A label declaration: the line's first field ends with `:`.
pub open spec fn is_label_field(f: Seq<char>) -> bool {
    f.len() > 0 && f[f.len() - 1] == ':'
}

/// The effect of a label declaration on the label map: the field with
/// the colon stripped maps to the current address, provided it is a
/// valid identifier.
pub open spec fn spec_label_decl(labels: Map<Seq<char>, u16>, addr: u16, field: Seq<char>) -> (
    Map<Seq<char>, u16>,
    Option<AsmError>,
) {
    let name = field.drop_last();
    if valid_key(name) {
        (labels.insert(name, addr), None)
    } else if name.len() > 10 {
        (labels, Some(AsmError::KeyTooLong))
    } else {
        (labels, Some(AsmError::InvalidKey))
    }
}

/// Pass 1 over one template list: a meta template adjusts the address,
/// any other advances it by one word; no instruction word is computed.
pub open spec fn spec_scan_templates(ts: Seq<Inst>, fields: Seq<Seq<char>>, addr: u16) -> (
    u16,
    Option<AsmError>,
)
    decreases ts.len(),
{
    if ts.len() == 0 {
        (addr, None)
    } else if ts[0].inst_type == InstType::Meta {
        match spec_meta(ts[0], fields) {
            Err(e) => (addr, Some(e)),
            Ok(a2) => spec_scan_templates(ts.drop_first(), fields, a2),
        }
    } else {
        spec_scan_templates(ts.drop_first(), fields, next_addr(addr))
    }
}

/// Pass 1 over one line: a blank line is a no-op, a label line records
/// the label at the current address (anything after the label field is
/// ignored), an instruction line advances the address by the number of
/// words its template list will emit.
pub open spec fn spec_scan_line(
    mn: Map<Seq<char>, Seq<Inst>>,
    labels: Map<Seq<char>, u16>,
    addr: u16,
    line: Seq<char>,
) -> (Map<Seq<char>, u16>, u16, Option<AsmError>) {
    let fields = lex_line(line);
    if fields.len() == 0 {
        (labels, addr, None)
    } else if is_label_field(fields[0]) {
        let r = spec_label_decl(labels, addr, fields[0]);
        (r.0, addr, r.1)
    } else {
        match mnemonic_of(mn, fields[0]) {
            Err(e) => (labels, addr, Some(e)),
            Ok(ts) => {
                let r = spec_scan_templates(ts, fields, addr);
                (labels, r.0, r.1)
            },
        }
    }
}

/// One template encoded at the current address, by its format.
pub open spec fn spec_encode_one(
    rg: Map<Seq<char>, u32>,
    lb: Map<Seq<char>, u16>,
    inst: Inst,
    fields: Seq<Seq<char>>,
    addr: u16,
) -> Result<u32, AsmError> {
    let base = spec_base_word(inst);
    match inst.inst_type {
        InstType::R => spec_rtype(rg, base, fields),
        InstType::I => spec_itype(rg, base, fields),
        InstType::S => spec_stype(rg, base, fields),
        InstType::B => spec_btype(rg, lb, addr, base, fields),
        InstType::U => spec_utype(rg, base, fields),
        InstType::J => spec_jtype(rg, lb, addr, base, fields),
        InstType::Meta => Err(AsmError::UnknownMnemonic),
    }
}

/// Pass 2 over one template list: every non-meta template emits one
/// node at the current address and advances it; a meta template only
/// adjusts the address. The first failure stops the run, keeping the
/// nodes emitted before it.
pub open spec fn spec_run_templates(
    rg: Map<Seq<char>, u32>,
    lb: Map<Seq<char>, u16>,
    ts: Seq<Inst>,
    fields: Seq<Seq<char>>,
    addr: u16,
) -> (Seq<ParsedNode>, u16, Option<AsmError>)
    decreases ts.len(),
{
    if ts.len() == 0 {
        (Seq::empty(), addr, None)
    } else if ts[0].inst_type == InstType::Meta {
        match spec_meta(ts[0], fields) {
            Err(e) => (Seq::empty(), addr, Some(e)),
            Ok(a2) => spec_run_templates(rg, lb, ts.drop_first(), fields, a2),
        }
    } else {
        match spec_encode_one(rg, lb, ts[0], fields, addr) {
            Err(e) => (Seq::empty(), addr, Some(e)),
            Ok(word) => {
                let rest = spec_run_templates(rg, lb, ts.drop_first(), fields, next_addr(addr));
                (
                    seq![ParsedNode { instruction: word, address: addr }] + rest.0,
                    rest.1,
                    rest.2,
                )
            },
        }
    }
}

/// Pass 2 over one line: blank and label lines emit nothing; an
/// instruction line runs its template list.
pub open spec fn spec_line2(
    mn: Map<Seq<char>, Seq<Inst>>,
    rg: Map<Seq<char>, u32>,
    lb: Map<Seq<char>, u16>,
    addr: u16,
    line: Seq<char>,
) -> (Seq<ParsedNode>, u16, Option<AsmError>) {
    let fields = lex_line(line);
    if fields.len() == 0 {
        (Seq::empty(), addr, None)
    } else if is_label_field(fields[0]) {
        (Seq::empty(), addr, None)
    } else {
        match mnemonic_of(mn, fields[0]) {
            Err(e) => (Seq::empty(), addr, Some(e)),
            Ok(ts) => spec_run_templates(rg, lb, ts, fields, addr),
        }
    }
}

/// Pass 1 from line `i` on: the label map and address after scanning
/// the remaining lines, or the first failure with its line index.
pub open spec fn spec_pass1_from(
    mn: Map<Seq<char>, Seq<Inst>>,
    lines: Seq<Seq<char>>,
    i: int,
    labels: Map<Seq<char>, u16>,
    addr: u16,
) -> (Map<Seq<char>, u16>, u16, Option<(int, AsmError)>)
    decreases lines.len() - i,
{
    if i < 0 || i >= lines.len() {
        (labels, addr, None)
    } else {
        let r = spec_scan_line(mn, labels, addr, lines[i]);
        match r.2 {
            Some(e) => (r.0, r.1, Some((i, e))),
            None => spec_pass1_from(mn, lines, i + 1, r.0, r.1),
        }
    }
}

/// Pass 2 from line `i` on: the nodes the remaining lines emit and the
/// final address, or the first failure with its line index, keeping
/// the nodes emitted before it.
pub open spec fn spec_pass2_from(
    mn: Map<Seq<char>, Seq<Inst>>,
    rg: Map<Seq<char>, u32>,
    lb: Map<Seq<char>, u16>,
    lines: Seq<Seq<char>>,
    i: int,
    addr: u16,
) -> (Seq<ParsedNode>, u16, Option<(int, AsmError)>)
    decreases lines.len() - i,
{
    if i < 0 || i >= lines.len() {
        (Seq::empty(), addr, None)
    } else {
        let r = spec_line2(mn, rg, lb, addr, lines[i]);
        match r.2 {
            Some(e) => (r.0, r.1, Some((i, e))),
            None => {
                let rest = spec_pass2_from(mn, rg, lb, lines, i + 1, r.1);
                (r.0 + rest.0, rest.1, rest.2)
            },
        }
    }
}

/// The whole assembly of a line sequence: pass 1 resolves the labels,
/// pass 2 re-walks the lines from the same starting address and emits
/// the encoded nodes. A failure carries the 0-based index of the line
/// it arose on.
pub open spec fn spec_assemble(
    mn: Map<Seq<char>, Seq<Inst>>,
    rg: Map<Seq<char>, u32>,
    lb0: Map<Seq<char>, u16>,
    addr0: u16,
    lines: Seq<Seq<char>>,
) -> Result<(Seq<ParsedNode>, Map<Seq<char>, u16>, u16), (int, AsmError)> {
    let p1 = spec_pass1_from(mn, lines, 0, lb0, addr0);
    match p1.2 {
        Some(ie) => Err(ie),
        None => {
            let p2 = spec_pass2_from(mn, rg, p1.0, lines, 0, addr0);
            match p2.2 {
                Some(ie) => Err(ie),
                None => Ok((p2.0, p1.0, p2.1)),
            }
        },
    }
}

/// Every word a template encodes to keeps that template's opcode in
/// its low seven bits, whatever the operands resolved to.
pub proof fn lemma_encode_low_bits(
    rg: Map<Seq<char>, u32>,
    lb: Map<Seq<char>, u16>,
    inst: Inst,
    fields: Seq<Seq<char>>,
    addr: u16,
)
    requires
        inst_wf(inst),
        spec_encode_one(rg, lb, inst, fields, addr) is Ok,
    ensures
        spec_encode_one(rg, lb, inst, fields, addr).unwrap() & 0x7F == inst.opcode,
{
    crate::encoding::lemma_word_low_bits_forall(inst);
}

/// Every node one template list emits was produced by one of its
/// templates, encoded at the node's own address; with well-formed
/// templates its low seven bits are that template's opcode.
pub proof fn lemma_nodes_low_bits(
    rg: Map<Seq<char>, u32>,
    lb: Map<Seq<char>, u16>,
    ts: Seq<Inst>,
    fields: Seq<Seq<char>>,
    addr: u16,
)
    requires
        forall|j: int| 0 <= j < ts.len() ==> inst_wf(#[trigger] ts[j]),
    ensures
        ({
            let nodes = spec_run_templates(rg, lb, ts, fields, addr).0;
            forall|k: int|
                0 <= k < nodes.len() ==> exists|j: int|
                    0 <= j < ts.len() && #[trigger] nodes[k].instruction & 0x7F == ts[j].opcode
                        && spec_encode_one(rg, lb, ts[j], fields, nodes[k].address) == Ok::<u32, AsmError>(nodes[k].instruction)
        }),
    decreases ts.len(),
{
    if ts.len() == 0 {
    } else {
        let nodes = spec_run_templates(rg, lb, ts, fields, addr).0;
        let tail = ts.drop_first();
        assert(forall|j: int| 0 <= j < tail.len() ==> inst_wf(#[trigger] tail[j])) by {
            assert forall|j: int| 0 <= j < tail.len() implies inst_wf(#[trigger] tail[j]) by {
                assert(tail[j] == ts[j + 1]);
            }
        }
        if ts[0].inst_type == InstType::Meta {
            match spec_meta(ts[0], fields) {
                Err(_) => {},
                Ok(a2) => {
                    lemma_nodes_low_bits(rg, lb, tail, fields, a2);
                    let tnodes = spec_run_templates(rg, lb, tail, fields, a2).0;
                    assert(nodes == tnodes);
                    assert forall|k: int| 0 <= k < nodes.len() implies exists|j: int|
                        0 <= j < ts.len() && #[trigger] nodes[k].instruction & 0x7F
                            == ts[j].opcode && spec_encode_one(
                            rg,
                            lb,
                            ts[j],
                            fields,
                            nodes[k].address,
                        ) == Ok::<u32, AsmError>(nodes[k].instruction) by {
                        let j = choose|j: int|
                            0 <= j < tail.len() && #[trigger] tnodes[k].instruction & 0x7F
                                == tail[j].opcode && spec_encode_one(
                                rg,
                                lb,
                                tail[j],
                                fields,
                                tnodes[k].address,
                            ) == Ok::<u32, AsmError>(tnodes[k].instruction);
                        assert(ts[j + 1] == tail[j]);
                    }
                },
            }
        } else {
            match spec_encode_one(rg, lb, ts[0], fields, addr) {
                Err(_) => {},
                Ok(word) => {
                    lemma_encode_low_bits(rg, lb, ts[0], fields, addr);
                    lemma_nodes_low_bits(rg, lb, tail, fields, next_addr(addr));
                    let tnodes = spec_run_templates(rg, lb, tail, fields, next_addr(addr)).0;
                    let head = ParsedNode { instruction: word, address: addr };
                    assert(nodes == seq![head] + tnodes);
                    assert forall|k: int| 0 <= k < nodes.len() implies exists|j: int|
                        0 <= j < ts.len() && #[trigger] nodes[k].instruction & 0x7F
                            == ts[j].opcode && spec_encode_one(
                            rg,
                            lb,
                            ts[j],
                            fields,
                            nodes[k].address,
                        ) == Ok::<u32, AsmError>(nodes[k].instruction) by {
                        if k == 0 {
                            assert(nodes[0] == head);
                            assert(nodes[0].instruction & 0x7F == ts[0].opcode
                                && spec_encode_one(rg, lb, ts[0], fields, nodes[0].address)
                                == Ok::<u32, AsmError>(nodes[0].instruction));
                        } else {
                            assert(nodes[k] == tnodes[k - 1]);
                            let j = choose|j: int|
                                0 <= j < tail.len() && #[trigger] tnodes[k - 1].instruction
                                    & 0x7F == tail[j].opcode && spec_encode_one(
                                    rg,
                                    lb,
                                    tail[j],
                                    fields,
                                    tnodes[k - 1].address,
                                ) == Ok::<u32, AsmError>(tnodes[k - 1].instruction);
                            assert(ts[j + 1] == tail[j]);
                        }
                    }
                },
            }
        }
    }
}

/// No template of the line is a meta directive: the line is blank, a
/// label, unresolvable, or a plain instruction.
pub open spec fn line_no_meta(mn: Map<Seq<char>, Seq<Inst>>, line: Seq<char>) -> bool {
    let fields = lex_line(line);
    ||| fields.len() == 0
    ||| is_label_field(fields[0])
    ||| (match mnemonic_of(mn, fields[0]) {
        Err(_) => true,
        Ok(ts) => forall|j: int| 0 <= j < ts.len() ==> #[trigger] ts[j].inst_type != InstType::Meta,
    })
}

proof fn lemma_run_consecutive(
    rg: Map<Seq<char>, u32>,
    lb: Map<Seq<char>, u16>,
    ts: Seq<Inst>,
    fields: Seq<Seq<char>>,
    addr: u16,
)
    requires
        forall|j: int| 0 <= j < ts.len() ==> #[trigger] ts[j].inst_type != InstType::Meta,
        addr as int + spec_run_templates(rg, lb, ts, fields, addr).0.len() <= 0x10000,
    ensures
        ({
            let r = spec_run_templates(rg, lb, ts, fields, addr);
            &&& forall|k: int| 0 <= k < r.0.len() ==> (#[trigger] r.0[k].address) as int == addr + k
            &&& (r.2 is None && addr + r.0.len() < 0x10000 ==> r.1 as int == addr + r.0.len())
            &&& (r.2 is None && addr + r.0.len() == 0x10000 ==> r.1 == 0)
        }),
    decreases ts.len(),
{
    if ts.len() == 0 {
    } else {
        assert(ts[0].inst_type != InstType::Meta);
        let tail = ts.drop_first();
        assert(forall|j: int| 0 <= j < tail.len() ==> #[trigger] tail[j].inst_type
            != InstType::Meta) by {
            assert forall|j: int| 0 <= j < tail.len() implies #[trigger] tail[j].inst_type
                != InstType::Meta by {
                assert(tail[j] == ts[j + 1]);
            }
        }
        match spec_encode_one(rg, lb, ts[0], fields, addr) {
            Err(_) => {},
            Ok(word) => {
                let r = spec_run_templates(rg, lb, ts, fields, addr);
                let rest = spec_run_templates(rg, lb, tail, fields, next_addr(addr));
                let head = ParsedNode { instruction: word, address: addr };
                assert(r.0 == seq![head] + rest.0);
                assert(r.0.len() == 1 + rest.0.len());
                lemma_run_consecutive(rg, lb, tail, fields, next_addr(addr));
                assert forall|k: int| 0 <= k < r.0.len() implies (#[trigger] r.0[k].address) as int
                    == addr + k by {
                    if k == 0 {
                        assert(r.0[0] == head);
                    } else {
                        assert(r.0[k] == rest.0[k - 1]);
                    }
                }
            },
        }
    }
}

proof fn lemma_line2_consecutive(
    mn: Map<Seq<char>, Seq<Inst>>,
    rg: Map<Seq<char>, u32>,
    lb: Map<Seq<char>, u16>,
    addr: u16,
    line: Seq<char>,
)
    requires
        line_no_meta(mn, line),
        addr as int + spec_line2(mn, rg, lb, addr, line).0.len() <= 0x10000,
    ensures
        ({
            let r = spec_line2(mn, rg, lb, addr, line);
            &&& forall|k: int| 0 <= k < r.0.len() ==> (#[trigger] r.0[k].address) as int == addr + k
            &&& (r.2 is None && addr + r.0.len() < 0x10000 ==> r.1 as int == addr + r.0.len())
            &&& (r.2 is None && addr + r.0.len() == 0x10000 ==> r.1 == 0)
        }),
{
    let fields = lex_line(line);
    if fields.len() == 0 || is_label_field(fields[0]) {
    } else {
        match mnemonic_of(mn, fields[0]) {
            Err(_) => {},
            Ok(ts) => {
                lemma_run_consecutive(rg, lb, ts, fields, addr);
            },
        }
    }
}

/// With no meta directive among the lines, pass 2 emits records whose
/// addresses are consecutive: node `k` sits at `addr + k`, so each
/// record's address field exceeds its predecessor's by exactly one.
pub proof fn lemma_records_consecutive(
    mn: Map<Seq<char>, Seq<Inst>>,
    rg: Map<Seq<char>, u32>,
    lb: Map<Seq<char>, u16>,
    lines: Seq<Seq<char>>,
    i: int,
    addr: u16,
)
    requires
        forall|x: int| 0 <= x < lines.len() ==> line_no_meta(mn, #[trigger] lines[x]),
        addr as int + spec_pass2_from(mn, rg, lb, lines, i, addr).0.len() <= 0x10000,
    ensures
        ({
            let nodes = spec_pass2_from(mn, rg, lb, lines, i, addr).0;
            &&& forall|k: int|
                0 <= k < nodes.len() ==> (#[trigger] nodes[k].address) as int == addr + k
            &&& forall|k: int|
                0 <= k && k + 1 < nodes.len() ==> (#[trigger] nodes[k + 1].address) as int
                    == nodes[k].address + 1
        }),
    decreases lines.len() - i,
{
    if i < 0 || i >= lines.len() {
    } else {
        let r = spec_line2(mn, rg, lb, addr, lines[i]);
        let full = spec_pass2_from(mn, rg, lb, lines, i, addr);
        match r.2 {
            Some(_) => {
                lemma_line2_consecutive(mn, rg, lb, addr, lines[i]);
            },
            None => {
                let rest = spec_pass2_from(mn, rg, lb, lines, i + 1, r.1);
                assert(full.0 == r.0 + rest.0);
                lemma_line2_consecutive(mn, rg, lb, addr, lines[i]);
                if addr as int + r.0.len() < 0x10000 {
                    lemma_records_consecutive(mn, rg, lb, lines, i + 1, r.1);
                    assert forall|k: int| 0 <= k < full.0.len() implies (
                    #[trigger] full.0[k].address) as int == addr + k by {
                        if k < r.0.len() {
                            assert(full.0[k] == r.0[k]);
                        } else {
                            assert(full.0[k] == rest.0[k - r.0.len()]);
                        }
                    }
                } else {
                    assert(rest.0.len() == 0);
                    assert(full.0 =~= r.0);
                }
            },
        }
    }
}

proof fn lemma_paren_pos(s: Seq<char>, p: int)
    requires
        0 <= p <= s.len(),
        forall|j: int| 0 <= j < p ==> s[j] != '(',
        p < s.len() ==> s[p] == '(',
    ensures
        paren_pos(s) == p,
    decreases p,
{
    if s.len() == 0 {
    } else if p == 0 {
    } else {
        let d = s.drop_first();
        assert forall|j: int| 0 <= j < p - 1 implies d[j] != '(' by {
            assert(d[j] == s[j + 1]);
        }
        if p - 1 < d.len() {
            assert(d[p - 1] == s[p]);
        }
        lemma_paren_pos(d, p - 1);
    }
}

/// Splits a load operand `imm(rs1)` into its two texts.
fn split_load_operand(s: &str) -> (r: Option<(String, String)>)
    ensures
        match spec_load_operand(s@) {
            None => r is None,
            Some(parts) => {
                &&& r is Some
                &&& r.unwrap().0@ == parts.0
                &&& r.unwrap().1@ == parts.1
            },
        },
{
    let len = s.unicode_len();
    let mut p: usize = 0;
    while p < len && s.get_char(p) != '('
        invariant
            p <= len,
            len == s@.len(),
            forall|j: int| 0 <= j < p ==> s@[j] != '(',
        decreases len - p,
    {
        p += 1;
    }
    proof {
        lemma_paren_pos(s@, p as int);
    }
    if 1 <= p && len >= 3 && p < len - 2 && s.get_char(len - 1) == ')' {
        let imm_txt = String::from_str(s.substring_char(0, p));
        let reg_txt = String::from_str(s.substring_char(p + 1, len - 1));
        Some((imm_txt, reg_txt))
    } else {
        None
    }
}

impl Translator {
    /// Looks a register operand up, masking the stored number to five
    /// bits.
    fn fetch_reg(&self, name: &str) -> (r: Result<u32, AsmError>)
        requires
            self.wf(),
        ensures
            r == reg_of(self.registers_view(), name@),
    {
        match self.reg_hm.get(name) {
            Ok(reg) => Ok(reg.reg_num & 0x1F),
            Err(_) => {
                proof {
                    if self.reg_hm.spec_get(name@) is Some {
                        lemma_spec_get_valid(self.reg_hm, name@);
                    }
                }
                Err(AsmError::UnknownRegister)
            },
        }
    }

    /// Looks a label up; the resolved address, or `UnresolvedLabel`.
    pub fn get_label(&self, name: &str) -> (r: Result<u16, AsmError>)
        requires
            self.wf(),
        ensures
            r == label_of(self.labels_view(), name@),
    {
        match self.label_hm.get(name) {
            Ok(a) => Ok(*a),
            Err(_) => {
                proof {
                    if self.label_hm.spec_get(name@) is Some {
                        lemma_spec_get_valid(self.label_hm, name@);
                    }
                }
                Err(AsmError::UnresolvedLabel)
            },
        }
    }

    /// Looks a mnemonic up and copies its template list out.
    fn fetch_templates(&self, name: &str) -> (r: Result<Vec<Inst>, AsmError>)
        requires
            self.wf(),
        ensures
            match mnemonic_of(self.mnemonics_view(), name@) {
                Ok(ts) => r is Ok && r.unwrap()@ == ts,
                Err(e) => r == Err::<Vec<Inst>, AsmError>(e),
            },
    {
        match self.inst_hm.get(name) {
            Ok(ts) => {
                let mut out: Vec<Inst> = Vec::new();
                let mut i: usize = 0;
                while i < ts.len()
                    invariant
                        i <= ts@.len(),
                        out@ =~= ts@.subrange(0, i as int),
                    decreases ts@.len() - i,
                {
                    out.push(ts[i]);
                    proof {
                        assert(out@ =~= ts@.subrange(0, i as int + 1));
                    }
                    i += 1;
                }
                proof {
                    assert(out@ =~= ts@);
                }
                Ok(out)
            },
            Err(e) => {
                proof {
                    if self.inst_hm.spec_get(name@) is Some {
                        lemma_spec_get_valid(self.inst_hm, name@);
                    }
                }
                match e {
                    AsmError::NotFound => Err(AsmError::UnknownMnemonic),
                    _ => Err(e),
                }
            },
        }
    }

    /// Resolves a branch or jump target field to its offset value.
    fn resolve_target(&self, s: &str) -> (r: Result<i64, AsmError>)
        requires
            self.wf(),
        ensures
            match spec_branch_target(self.labels_view(), self.addr(), s@) {
                Ok(v) => if -0xFFFF_FFFF <= v <= 0xFFFF_FFFF {
                    r == Ok::<i64, AsmError>(v as i64)
                } else {
                    r == Err::<i64, AsmError>(AsmError::ImmediateOutOfRange)
                },
                Err(e) => r == Err::<i64, AsmError>(e),
            },
    {
        match str_to_int(s) {
            Ok(v) => Ok(v),
            Err(AsmError::BadImmediate) => {
                match self.get_label(s) {
                    Ok(a) => Ok(a as i64 - self.curr_address as i64),
                    Err(e) => Err(e),
                }
            },
            Err(e) => Err(e),
        }
    }

    /// Encodes an R format line.
    fn rtype(&self, base: u32, fields: &Vec<String>) -> (r: Result<u32, AsmError>)
        requires
            self.wf(),
        ensures
            r == spec_rtype(self.registers_view(), base, fields.deep_view()),
    {
        if fields.len() != 4 {
            return Err(AsmError::WrongOperandCount);
        }
        proof {
            assert(fields.deep_view()[1] == fields@[1]@);
            assert(fields.deep_view()[2] == fields@[2]@);
            assert(fields.deep_view()[3] == fields@[3]@);
        }
        let rd = match self.fetch_reg(fields[1].as_str()) {
            Ok(v) => v,
            Err(e) => {
                return Err(e);
            },
        };
        let rs1 = match self.fetch_reg(fields[2].as_str()) {
            Ok(v) => v,
            Err(e) => {
                return Err(e);
            },
        };
        let rs2 = match self.fetch_reg(fields[3].as_str()) {
            Ok(v) => v,
            Err(e) => {
                return Err(e);
            },
        };
        Ok(base | (rd << 7) | (rs1 << 15) | (rs2 << 20))
    }

    /// Encodes an arithmetic I format line.
    fn itype_regular(&self, base: u32, fields: &Vec<String>) -> (r: Result<u32, AsmError>)
        requires
            self.wf(),
            fields@.len() == 4,
        ensures
            r == spec_itype_regular(self.registers_view(), base, fields.deep_view()),
    {
        if base & 0x7F == 0x03 {
            return Err(AsmError::WrongOperandCount);
        }
        proof {
            assert(fields.deep_view()[1] == fields@[1]@);
            assert(fields.deep_view()[2] == fields@[2]@);
            assert(fields.deep_view()[3] == fields@[3]@);
        }
        let rd = match self.fetch_reg(fields[1].as_str()) {
            Ok(v) => v,
            Err(e) => {
                return Err(e);
            },
        };
        let rs1 = match self.fetch_reg(fields[2].as_str()) {
            Ok(v) => v,
            Err(e) => {
                return Err(e);
            },
        };
        let v = match str_to_int(fields[3].as_str()) {
            Ok(v) => v,
            Err(e) => {
                return Err(e);
            },
        };
        if v < -2048 || v > 2047 {
            return Err(AsmError::ImmediateOutOfRange);
        }
        let bits = imm_bits(v);
        Ok(base | (rd << 7) | (rs1 << 15) | ((bits & 0xFFF) << 20))
    }

    /// Encodes a load I format line.
    fn i_type_ld(&self, base: u32, fields: &Vec<String>) -> (r: Result<u32, AsmError>)
        requires
            self.wf(),
            fields@.len() == 3,
        ensures
            r == spec_i_type_ld(self.registers_view(), base, fields.deep_view()),
    {
        if base & 0x7F != 0x03 {
            return Err(AsmError::WrongOperandCount);
        }
        proof {
            assert(fields.deep_view()[1] == fields@[1]@);
            assert(fields.deep_view()[2] == fields@[2]@);
        }
        let rd = match self.fetch_reg(fields[1].as_str()) {
            Ok(v) => v,
            Err(e) => {
                return Err(e);
            },
        };
        let parts = match split_load_operand(fields[2].as_str()) {
            Some(p) => p,
            None => {
                return Err(AsmError::BadImmediate);
            },
        };
        let v = match str_to_int(parts.0.as_str()) {
            Ok(v) => v,
            Err(AsmError::BadImmediate) => {
                return Err(AsmError::BadImmediate);
            },
            Err(_) => {
                return Err(AsmError::ImmediateOutOfRange);
            },
        };
        if v < -2048 || v > 2047 {
            return Err(AsmError::ImmediateOutOfRange);
        }
        let rs1 = match self.fetch_reg(parts.1.as_str()) {
            Ok(v) => v,
            Err(e) => {
                return Err(e);
            },
        };
        let bits = imm_bits(v);
        Ok(base | (rd << 7) | (rs1 << 15) | ((bits & 0xFFF) << 20))
    }

    /// Dispatches an I format line by its field count.
    fn itype(&self, base: u32, fields: &Vec<String>) -> (r: Result<u32, AsmError>)
        requires
            self.wf(),
        ensures
            r == spec_itype(self.registers_view(), base, fields.deep_view()),
    {
        if fields.len() == 4 {
            self.itype_regular(base, fields)
        } else if fields.len() == 3 {
            self.i_type_ld(base, fields)
        } else if fields.len() == 1 {
            Ok(base)
        } else {
            Err(AsmError::WrongOperandCount)
        }
    }

    /// Encodes an S format line.
    fn stype(&self, base: u32, fields: &Vec<String>) -> (r: Result<u32, AsmError>)
        requires
            self.wf(),
        ensures
            r == spec_stype(self.registers_view(), base, fields.deep_view()),
    {
        if fields.len() != 4 {
            return Err(AsmError::WrongOperandCount);
        }
        proof {
            assert(fields.deep_view()[1] == fields@[1]@);
            assert(fields.deep_view()[2] == fields@[2]@);
            assert(fields.deep_view()[3] == fields@[3]@);
        }
        let rs2 = match self.fetch_reg(fields[1].as_str()) {
            Ok(v) => v,
            Err(e) => {
                return Err(e);
            },
        };
        let rs1 = match self.fetch_reg(fields[2].as_str()) {
            Ok(v) => v,
            Err(e) => {
                return Err(e);
            },
        };
        let v = match str_to_int(fields[3].as_str()) {
            Ok(v) => v,
            Err(e) => {
                return Err(e);
            },
        };
        if v < -2048 || v > 2047 {
            return Err(AsmError::ImmediateOutOfRange);
        }
        let bits = imm_bits(v);
        Ok(base | ((bits & 0x1F) << 7) | (rs1 << 15) | (rs2 << 20) | (((bits >> 5) & 0x7F) << 25))
    }

    /// Encodes a B format line.
    fn btype(&self, base: u32, fields: &Vec<String>) -> (r: Result<u32, AsmError>)
        requires
            self.wf(),
        ensures
            r == spec_btype(
                self.registers_view(),
                self.labels_view(),
                self.addr(),
                base,
                fields.deep_view(),
            ),
    {
        if fields.len() != 4 {
            return Err(AsmError::WrongOperandCount);
        }
        proof {
            assert(fields.deep_view()[1] == fields@[1]@);
            assert(fields.deep_view()[2] == fields@[2]@);
            assert(fields.deep_view()[3] == fields@[3]@);
        }
        let rs1 = match self.fetch_reg(fields[1].as_str()) {
            Ok(v) => v,
            Err(e) => {
                return Err(e);
            },
        };
        let rs2 = match self.fetch_reg(fields[2].as_str()) {
            Ok(v) => v,
            Err(e) => {
                return Err(e);
            },
        };
        let v = match self.resolve_target(fields[3].as_str()) {
            Ok(v) => v,
            Err(e) => {
                return Err(e);
            },
        };
        if v < -4096 || v > 4095 {
            return Err(AsmError::ImmediateOutOfRange);
        }
        let bits = imm_bits(v);
        Ok(
            base | (((bits >> 11) & 1) << 7) | (((bits >> 1) & 0xF) << 8) | (rs1 << 15) | (rs2
                << 20) | (((bits >> 5) & 0x3F) << 25) | (((bits >> 12) & 1) << 31),
        )
    }

    /// Encodes a U format line.
    fn utype(&self, base: u32, fields: &Vec<String>) -> (r: Result<u32, AsmError>)
        requires
            self.wf(),
        ensures
            r == spec_utype(self.registers_view(), base, fields.deep_view()),
    {
        if fields.len() != 3 {
            return Err(AsmError::WrongOperandCount);
        }
        proof {
            assert(fields.deep_view()[1] == fields@[1]@);
            assert(fields.deep_view()[2] == fields@[2]@);
        }
        let rd = match self.fetch_reg(fields[1].as_str()) {
            Ok(v) => v,
            Err(e) => {
                return Err(e);
            },
        };
        let v = match str_to_int(fields[2].as_str()) {
            Ok(v) => v,
            Err(e) => {
                return Err(e);
            },
        };
        if v < 0 || v > 0xFFFFF {
            return Err(AsmError::ImmediateOutOfRange);
        }
        let imm20 = v as u32;
        Ok(base | (rd << 7) | (imm20 << 12))
    }

    /// Encodes a J format line.
    fn jtype(&self, base: u32, fields: &Vec<String>) -> (r: Result<u32, AsmError>)
        requires
            self.wf(),
        ensures
            r == spec_jtype(
                self.registers_view(),
                self.labels_view(),
                self.addr(),
                base,
                fields.deep_view(),
            ),
    {
        if fields.len() != 3 {
            return Err(AsmError::WrongOperandCount);
        }
        proof {
            assert(fields.deep_view()[1] == fields@[1]@);
            assert(fields.deep_view()[2] == fields@[2]@);
        }
        let rd = match self.fetch_reg(fields[1].as_str()) {
            Ok(v) => v,
            Err(e) => {
                return Err(e);
            },
        };
        let v = match self.resolve_target(fields[2].as_str()) {
            Ok(v) => v,
            Err(e) => {
                return Err(e);
            },
        };
        if v < -0x100000 || v > 0xFFFFF {
            return Err(AsmError::ImmediateOutOfRange);
        }
        let bits = imm_bits(v);
        Ok(
            base | (rd << 7) | (bits & 0xFF000) | (((bits >> 11) & 1) << 20) | (((bits >> 1)
                & 0x3FF) << 21) | (((bits >> 20) & 1) << 31),
        )
    }

    /// Applies a meta directive to the address counter.
    fn parse_meta(&mut self, inst: &Inst, fields: &Vec<String>) -> (r: Result<(), AsmError>)
        requires
            old(self).wf(),
        ensures
            final(self).wf(),
            final(self).mnemonics_view() == old(self).mnemonics_view(),
            final(self).registers_view() == old(self).registers_view(),
            final(self).labels_view() == old(self).labels_view(),
            match spec_meta(*inst, fields.deep_view()) {
                Ok(a2) => r == Ok::<(), AsmError>(()) && final(self).addr() == a2,
                Err(e) => r == Err::<(), AsmError>(e) && final(self).addr() == old(self).addr(),
            },
    {
        if inst.opcode != 1 {
            return Err(AsmError::UnknownMnemonic);
        }
        if fields.len() != 2 {
            return Err(AsmError::WrongOperandCount);
        }
        proof {
            assert(fields.deep_view()[1] == fields@[1]@);
        }
        let v = match str_to_int(fields[1].as_str()) {
            Ok(v) => v,
            Err(e) => {
                return Err(e);
            },
        };
        if v < 0 || v > 0xFFFF {
            return Err(AsmError::ImmediateOutOfRange);
        }
        self.curr_address = v as u16;
        Ok(())
    }

    /// Advances the address counter by one word, wrapping at the top.
    fn bump_addr(&mut self)
        ensures
            final(self).addr() == next_addr(old(self).addr()),
            final(self).wf() == old(self).wf(),
            final(self).mnemonics_view() == old(self).mnemonics_view(),
            final(self).registers_view() == old(self).registers_view(),
            final(self).labels_view() == old(self).labels_view(),
    {
        if self.curr_address == 0xFFFF {
            self.curr_address = 0;
        } else {
            self.curr_address = self.curr_address + 1;
        }
    }

    /// Records a label declaration: the field with its trailing colon
    /// stripped maps to the current address.
    fn parse_label(&mut self, field: &str) -> (r: Result<(), AsmError>)
        requires
            old(self).wf(),
            field@.len() >= 1,
            field@[field@.len() - 1] == ':',
        ensures
            final(self).wf(),
            final(self).mnemonics_view() == old(self).mnemonics_view(),
            final(self).registers_view() == old(self).registers_view(),
            final(self).addr() == old(self).addr(),
            ({
                let res = spec_label_decl(old(self).labels_view(), old(self).addr(), field@);
                final(self).labels_view() == res.0 && match res.1 {
                    None => r == Ok::<(), AsmError>(()),
                    Some(e) => r == Err::<(), AsmError>(e),
                }
            }),
    {
        let len = field.unicode_len();
        let name = field.substring_char(0, len - 1);
        proof {
            assert(name@ =~= field@.drop_last());
        }
        let addr = self.curr_address;
        match self.label_hm.insert(addr, name) {
            Ok(()) => {
                proof {
                    assert(self.labels_view() =~= old(self).labels_view().insert(
                        name@,
                        old(self).addr(),
                    ));
                }
                Ok(())
            },
            Err(e) => {
                proof {
                    assert(self.labels_view() =~= old(self).labels_view());
                }
                Err(e)
            },
        }
    }

    /// Pass 1 over one raw line: records labels and advances the
    /// address, computing no instruction word.
    fn scan_line(&mut self, line: &str) -> (r: Result<(), AsmError>)
        requires
            old(self).wf(),
        ensures
            final(self).wf(),
            final(self).mnemonics_view() == old(self).mnemonics_view(),
            final(self).registers_view() == old(self).registers_view(),
            ({
                let res = spec_scan_line(
                    old(self).mnemonics_view(),
                    old(self).labels_view(),
                    old(self).addr(),
                    line@,
                );
                final(self).labels_view() == res.0 && final(self).addr() == res.1 && match res.2 {
                    None => r == Ok::<(), AsmError>(()),
                    Some(e) => r == Err::<(), AsmError>(e),
                }
            }),
    {
        let fields = lex(line);
        let ghost fdv = fields.deep_view();
        proof {
            crate::lexer::lemma_lex_fields_clean(line@);
        }
        if fields.len() == 0 {
            return Ok(());
        }
        proof {
            assert(fdv[0] == fields@[0]@);
            assert(crate::lexer::clean_field(fdv[0]));
        }
        let f0 = fields[0].as_str();
        let f0len = f0.unicode_len();
        if f0.get_char(f0len - 1) == ':' {
            let r = self.parse_label(f0);
            return r;
        }
        let ts = match self.fetch_templates(f0) {
            Ok(t) => t,
            Err(e) => {
                return Err(e);
            },
        };
        let ghost a0 = self.addr();
        let ghost lb0 = self.labels_view();
        let ghost mn0 = self.mnemonics_view();
        let ghost rg0 = self.registers_view();
        let ghost full = spec_scan_templates(ts@, fdv, a0);
        proof {
            assert(ts@.subrange(0, ts@.len() as int) =~= ts@);
        }
        let mut i: usize = 0;
        while i < ts.len()
            invariant
                i <= ts@.len(),
                self.wf(),
                mn0 == old(self).mnemonics_view(),
                rg0 == old(self).registers_view(),
                lb0 == old(self).labels_view(),
                a0 == old(self).addr(),
                self.mnemonics_view() == mn0,
                self.registers_view() == rg0,
                self.labels_view() == lb0,
                fdv == fields.deep_view(),
                fdv == lex_line(line@),
                fdv.len() > 0,
                !is_label_field(fdv[0]),
                mnemonic_of(mn0, fdv[0]) == Ok::<Seq<Inst>, AsmError>(ts@),
                full == spec_scan_templates(ts@, fdv, a0),
                full == spec_scan_templates(
                    ts@.subrange(i as int, ts@.len() as int),
                    fdv,
                    self.addr(),
                ),
            decreases ts@.len() - i,
        {
            let ghost suffix = ts@.subrange(i as int, ts@.len() as int);
            let ghost a_it = self.addr();
            proof {
                assert(suffix[0] == ts@[i as int]);
                assert(suffix.drop_first() =~= ts@.subrange(i as int + 1, ts@.len() as int));
            }
            let inst = ts[i];
            if matches!(inst.inst_type, InstType::Meta) {
                proof {
                    assert(inst.inst_type == InstType::Meta);
                }
                match self.parse_meta(&inst, &fields) {
                    Ok(()) => {
                        proof {
                            assert(spec_scan_templates(suffix, fdv, a_it)
                                == spec_scan_templates(suffix.drop_first(), fdv, self.addr()));
                        }
                    },
                    Err(e) => {
                        proof {
                            assert(spec_scan_templates(suffix, fdv, a_it) == (
                                a_it,
                                Some(e),
                            ));
                        }
                        return Err(e);
                    },
                }
            } else {
                self.bump_addr();
                proof {
                    assert(spec_scan_templates(suffix, fdv, a_it) == spec_scan_templates(
                        suffix.drop_first(),
                        fdv,
                        next_addr(a_it),
                    ));
                }
            }
            i += 1;
        }
        proof {
            assert(ts@.subrange(ts@.len() as int, ts@.len() as int) =~= Seq::<Inst>::empty());
        }
        Ok(())
    }

    /// Pass 2 over one raw line, popped from the front of the line
    /// queue: encodes its instruction words and appends them to the
    /// output queue.
    fn parse_line(&mut self, di: &mut DataInterface) -> (r: Result<(), AsmError>)
        requires
            old(self).wf(),
            old(di).lines().len() > 0,
        ensures
            final(self).wf(),
            final(self).mnemonics_view() == old(self).mnemonics_view(),
            final(self).registers_view() == old(self).registers_view(),
            final(self).labels_view() == old(self).labels_view(),
            final(di).lines() == old(di).lines().drop_first(),
            ({
                let res = spec_line2(
                    old(self).mnemonics_view(),
                    old(self).registers_view(),
                    old(self).labels_view(),
                    old(self).addr(),
                    old(di).lines()[0],
                );
                final(di).parsed() == old(di).parsed() + res.0 && final(self).addr() == res.1
                    && match res.2 {
                    None => r == Ok::<(), AsmError>(()),
                    Some(e) => r == Err::<(), AsmError>(e),
                }
            }),
    {
        let line_opt = di.pop_line();
        let curr_line = line_opt.unwrap();
        let ghost line = curr_line@;
        let fields = lex(curr_line.as_str());
        let ghost fdv = fields.deep_view();
        proof {
            crate::lexer::lemma_lex_fields_clean(line);
            assert(old(di).parsed() + Seq::<ParsedNode>::empty() =~= old(di).parsed());
        }
        if fields.len() == 0 {
            return Ok(());
        }
        proof {
            assert(fdv[0] == fields@[0]@);
            assert(crate::lexer::clean_field(fdv[0]));
        }
        let f0 = fields[0].as_str();
        let f0len = f0.unicode_len();
        if f0.get_char(f0len - 1) == ':' {
            return Ok(());
        }
        let ts = match self.fetch_templates(f0) {
            Ok(t) => t,
            Err(e) => {
                return Err(e);
            },
        };
        let ghost a0 = self.addr();
        let ghost lb0 = self.labels_view();
        let ghost mn0 = self.mnemonics_view();
        let ghost rg0 = self.registers_view();
        let ghost parsed0 = di.parsed();
        let ghost full = spec_run_templates(rg0, lb0, ts@, fdv, a0);
        let ghost mut emitted = Seq::<ParsedNode>::empty();
        proof {
            assert(ts@.subrange(0, ts@.len() as int) =~= ts@);
            assert(emitted + full.0 =~= full.0);
            assert(parsed0 + emitted =~= parsed0);
        }
        let mut i: usize = 0;
        while i < ts.len()
            invariant
                i <= ts@.len(),
                self.wf(),
                mn0 == old(self).mnemonics_view(),
                rg0 == old(self).registers_view(),
                lb0 == old(self).labels_view(),
                a0 == old(self).addr(),
                self.mnemonics_view() == mn0,
                self.registers_view() == rg0,
                self.labels_view() == lb0,
                fdv == fields.deep_view(),
                line == old(di).lines()[0],
                old(di).lines().len() > 0,
                fdv == lex_line(line),
                fdv.len() > 0,
                !is_label_field(fdv[0]),
                mnemonic_of(mn0, fdv[0]) == Ok::<Seq<Inst>, AsmError>(ts@),
                parsed0 == old(di).parsed(),
                full == spec_run_templates(rg0, lb0, ts@, fdv, a0),
                di.lines() == old(di).lines().drop_first(),
                di.parsed() == parsed0 + emitted,
                ({
                    let suffix = spec_run_templates(
                        rg0,
                        lb0,
                        ts@.subrange(i as int, ts@.len() as int),
                        fdv,
                        self.addr(),
                    );
                    full.0 == emitted + suffix.0 && full.1 == suffix.1 && full.2 == suffix.2
                }),
            decreases ts@.len() - i,
        {
            let ghost suffix_ts = ts@.subrange(i as int, ts@.len() as int);
            let ghost a_it = self.addr();
            proof {
                assert(suffix_ts[0] == ts@[i as int]);
                assert(suffix_ts.drop_first() =~= ts@.subrange(i as int + 1, ts@.len() as int));
            }
            let inst = ts[i];
            if matches!(inst.inst_type, InstType::Meta) {
                proof {
                    assert(inst.inst_type == InstType::Meta);
                }
                match self.parse_meta(&inst, &fields) {
                    Ok(()) => {
                        proof {
                            assert(spec_run_templates(rg0, lb0, suffix_ts, fdv, a_it)
                                == spec_run_templates(
                                rg0,
                                lb0,
                                suffix_ts.drop_first(),
                                fdv,
                                self.addr(),
                            ));
                        }
                    },
                    Err(e) => {
                        proof {
                            assert(spec_run_templates(rg0, lb0, suffix_ts, fdv, a_it).0
                                =~= Seq::<ParsedNode>::empty());
                            assert(full.0 =~= emitted);
                        }
                        return Err(e);
                    },
                }
            } else {
                let base = base_word(&inst);
                let res = match inst.inst_type {
                    InstType::R => self.rtype(base, &fields),
                    InstType::I => self.itype(base, &fields),
                    InstType::S => self.stype(base, &fields),
                    InstType::B => self.btype(base, &fields),
                    InstType::U => self.utype(base, &fields),
                    InstType::J => self.jtype(base, &fields),
                    InstType::Meta => Err(AsmError::UnknownMnemonic),
                };
                proof {
                    assert(res == spec_encode_one(rg0, lb0, suffix_ts[0], fdv, a_it));
                }
                let w = match res {
                    Ok(w) => w,
                    Err(e) => {
                        proof {
                            assert(spec_run_templates(rg0, lb0, suffix_ts, fdv, a_it).0
                                =~= Seq::<ParsedNode>::empty());
                            assert(full.0 =~= emitted);
                        }
                        return Err(e);
                    },
                };
                let node = ParsedNode { instruction: w, address: self.curr_address };
                di.add_parsed(&node);
                self.bump_addr();
                proof {
                    let tail = spec_run_templates(
                        rg0,
                        lb0,
                        suffix_ts.drop_first(),
                        fdv,
                        next_addr(a_it),
                    );
                    assert(spec_run_templates(rg0, lb0, suffix_ts, fdv, a_it) == (
                        seq![node] + tail.0,
                        tail.1,
                        tail.2,
                    ));
                    assert(emitted + (seq![node] + tail.0) =~= emitted.push(node) + tail.0);
                    emitted = emitted.push(node);
                    assert(di.parsed() =~= parsed0 + emitted);
                }
            }
            i += 1;
        }
        proof {
            assert(ts@.subrange(ts@.len() as int, ts@.len() as int) =~= Seq::<Inst>::empty());
            assert(full.0 =~= emitted);
        }
        Ok(())
    }

    /// Assembles the whole line queue: pass 1 records every label and
    /// advances the address per line, pass 2 restarts from the entry
    /// address, re-walks the lines and emits the encoded nodes. The
    /// first failure is returned with its 1-based line number.
    pub fn parse_file(&mut self, di: &mut DataInterface) -> (r: Result<(), LineError>)
        requires
            old(self).wf(),
            old(di).lines().len() < 0x1_0000_0000,
        ensures
            final(self).wf(),
            final(self).mnemonics_view() == old(self).mnemonics_view(),
            final(self).registers_view() == old(self).registers_view(),
            ({
                let mn = old(self).mnemonics_view();
                let rg = old(self).registers_view();
                let lines0 = old(di).lines();
                let p1 = spec_pass1_from(mn, lines0, 0, old(self).labels_view(), old(self).addr());
                final(self).labels_view() == p1.0 && match p1.2 {
                    Some(ie) => {
                        &&& r == Err::<(), LineError>(
                            LineError { line: (ie.0 + 1) as u32, kind: ie.1 },
                        )
                        &&& *final(di) == *old(di)
                        &&& final(self).addr() == p1.1
                    },
                    None => ({
                        let p2 = spec_pass2_from(mn, rg, p1.0, lines0, 0, old(self).addr());
                        &&& final(di).parsed() == old(di).parsed() + p2.0
                        &&& final(self).addr() == p2.1
                        &&& match p2.2 {
                            Some(ie) => r == Err::<(), LineError>(
                                LineError { line: (ie.0 + 1) as u32, kind: ie.1 },
                            ) && final(di).lines() == lines0.skip(ie.0 + 1),
                            None => r == Ok::<(), LineError>(()) && final(di).lines().len() == 0,
                        }
                    }),
                }
            }),
    {
        let ghost mn = self.mnemonics_view();
        let ghost rg = self.registers_view();
        let ghost lbinit = self.labels_view();
        let ghost lines0 = di.lines();
        let ghost a0 = self.addr();
        let start_addr = self.curr_address;
        let n = di.lines_len();
        let ghost p1full = spec_pass1_from(mn, lines0, 0, lbinit, a0);
        let mut li: usize = 0;
        while li < n
            invariant
                li <= n,
                n == lines0.len(),
                lines0 == old(di).lines(),
                lines0.len() < 0x1_0000_0000,
                *di == *old(di),
                self.wf(),
                mn == old(self).mnemonics_view(),
                rg == old(self).registers_view(),
                lbinit == old(self).labels_view(),
                a0 == old(self).addr(),
                self.mnemonics_view() == mn,
                self.registers_view() == rg,
                p1full == spec_pass1_from(mn, lines0, 0, lbinit, a0),
                p1full == spec_pass1_from(mn, lines0, li as int, self.labels_view(), self.addr()),
            decreases n - li,
        {
            let ghost lb_it = self.labels_view();
            let ghost a_it = self.addr();
            let line = di.line_at(li);
            proof {
                assert(line@ == lines0[li as int]);
            }
            let res = self.scan_line(line.as_str());
            match res {
                Ok(()) => {
                    proof {
                        let sres = spec_scan_line(mn, lb_it, a_it, lines0[li as int]);
                        assert(self.labels_view() == sres.0 && self.addr() == sres.1);
                    }
                },
                Err(e) => {
                    proof {
                        let sres = spec_scan_line(mn, lb_it, a_it, lines0[li as int]);
                        assert(p1full == (sres.0, sres.1, Some((li as int, e))));
                    }
                    return Err(LineError { line: li as u32 + 1, kind: e });
                },
            }
            li += 1;
        }
        proof {
            assert(p1full == (self.labels_view(), self.addr(), None::<(int, AsmError)>));
        }
        let ghost lb1 = self.labels_view();
        self.curr_address = start_addr;
        let ghost p2full = spec_pass2_from(mn, rg, lb1, lines0, 0, a0);
        let ghost parsed0 = di.parsed();
        let ghost mut emitted = Seq::<ParsedNode>::empty();
        proof {
            assert(emitted + p2full.0 =~= p2full.0);
            assert(parsed0 + emitted =~= parsed0);
            assert(lines0.skip(0) =~= lines0);
        }
        let mut ln: u32 = 0;
        while di.lines_len() > 0
            invariant
                self.wf(),
                mn == old(self).mnemonics_view(),
                rg == old(self).registers_view(),
                lbinit == old(self).labels_view(),
                a0 == old(self).addr(),
                self.mnemonics_view() == mn,
                self.registers_view() == rg,
                self.labels_view() == lb1,
                lines0 == old(di).lines(),
                lines0.len() < 0x1_0000_0000,
                p1full == spec_pass1_from(mn, lines0, 0, lbinit, a0),
                p1full == (lb1, p1full.1, None::<(int, AsmError)>),
                parsed0 == old(di).parsed(),
                ln as int <= lines0.len(),
                di.lines() == lines0.skip(ln as int),
                di.parsed() == parsed0 + emitted,
                p2full == spec_pass2_from(mn, rg, lb1, lines0, 0, a0),
                ({
                    let suffix = spec_pass2_from(mn, rg, lb1, lines0, ln as int, self.addr());
                    p2full.0 == emitted + suffix.0 && p2full.1 == suffix.1 && p2full.2 == suffix.2
                }),
            decreases di.lines().len(),
        {
            let ghost a_it = self.addr();
            proof {
                assert(di.lines()[0] == lines0[ln as int]);
            }
            let res = self.parse_line(di);
            proof {
                assert(lines0.skip(ln as int).drop_first() =~= lines0.skip(ln as int + 1));
            }
            match res {
                Ok(()) => {
                    proof {
                        let lres = spec_line2(mn, rg, lb1, a_it, lines0[ln as int]);
                        let rest = spec_pass2_from(
                            mn,
                            rg,
                            lb1,
                            lines0,
                            ln as int + 1,
                            self.addr(),
                        );
                        assert(emitted + (lres.0 + rest.0) =~= (emitted + lres.0) + rest.0);
                        emitted = emitted + lres.0;
                        assert(di.parsed() =~= parsed0 + emitted);
                    }
                    ln += 1;
                },
                Err(e) => {
                    proof {
                        let lres = spec_line2(mn, rg, lb1, a_it, lines0[ln as int]);
                        assert(p2full.0 =~= emitted + lres.0);
                        assert(di.parsed() =~= parsed0 + p2full.0);
                    }
                    return Err(LineError { line: ln + 1, kind: e });
                },
            }
        }
        proof {
            assert(lines0.skip(ln as int).len() == 0);
            assert(ln as int == lines0.len());
            assert(p2full == (emitted, self.addr(), None::<(int, AsmError)>));
            assert(p2full.0 =~= emitted);
        }
        Ok(())
    }
}

} // verus!
