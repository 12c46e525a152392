//! Instruction templates and the bit-exact word layout of each RV32I
//! format.
//!
//! A template contributes `opcode | funct3 << 12 | funct7 << 25` as the
//! base word; the per-format functions OR register numbers and
//! immediate fields into it at their architectural positions.

use vstd::prelude::*;

verus! {

/// The format of an encoding template. `I` covers both the arithmetic
/// and the load surface forms, told apart by field count and opcode;
/// `Meta` marks an assembler directive that emits no machine word.
#[derive(Clone, Copy, Debug, PartialEq, Eq, Structural)]
pub enum InstType {
    R,
    I,
    S,
    B,
    U,
    J,
    Meta,
}

/// A register dictionary entry: the register's number.
#[derive(Clone, Copy, Debug, PartialEq, Eq, Structural)]
pub struct Reg {
    pub reg_num: u32,
}

/// One encoding template: the fixed opcode/funct3/funct7 triple and the
/// format that decides how operands are laid out around them. For a
/// `Meta` template the opcode field carries the directive id instead.
#[derive(Clone, Copy, Debug, PartialEq, Eq, Structural)]
pub struct Inst {
    pub opcode: u32,
    pub funct3: u32,
    pub funct7: u32,
    pub inst_type: InstType,
}

/// Template validity: the opcode fits seven bits, funct3 three and
/// funct7 seven, as the dictionary collaborator guarantees.
pub open spec fn inst_wf(i: Inst) -> bool {
    i.opcode < 0x80 && i.funct3 < 8 && i.funct7 < 0x80
}

/// The base word a template contributes.
pub open spec fn spec_base_word(i: Inst) -> u32 {
    i.opcode | (i.funct3 << 12) | (i.funct7 << 25)
}

/// The base word, executably.
pub fn base_word(inst: &Inst) -> (r: u32)
    ensures
        r == spec_base_word(*inst),
{
    inst.opcode | (inst.funct3 << 12) | (inst.funct7 << 25)
}

/// R format: `rd` at bit 7, `rs1` at 15, `rs2` at 20.
pub open spec fn rtype_word(base: u32, rd: u32, rs1: u32, rs2: u32) -> u32 {
    base | (rd << 7) | (rs1 << 15) | (rs2 << 20)
}

/// I format: `rd` at bit 7, `rs1` at 15, the low twelve immediate bits
/// at 20.
pub open spec fn itype_word(base: u32, rd: u32, rs1: u32, imm: u32) -> u32 {
    base | (rd << 7) | (rs1 << 15) | ((imm & 0xFFF) << 20)
}

/// S format: immediate bits 4:0 at bit 7 and 11:5 at 25, `rs1` at 15,
/// `rs2` at 20.
pub open spec fn stype_word(base: u32, rs1: u32, rs2: u32, imm: u32) -> u32 {
    base | ((imm & 0x1F) << 7) | (rs1 << 15) | (rs2 << 20) | (((imm >> 5) & 0x7F) << 25)
}

/// B format: immediate bit 11 at bit 7, bits 4:1 at 8, bits 10:5 at 25,
/// bit 12 at 31; `rs1` at 15, `rs2` at 20.
pub open spec fn btype_word(base: u32, rs1: u32, rs2: u32, imm: u32) -> u32 {
    base | (((imm >> 11) & 1) << 7) | (((imm >> 1) & 0xF) << 8) | (rs1 << 15) | (rs2 << 20) | (((
    imm >> 5) & 0x3F) << 25) | (((imm >> 12) & 1) << 31)
}

/// U format: `rd` at bit 7, the twenty-bit immediate at 12.
pub open spec fn utype_word(base: u32, rd: u32, imm20: u32) -> u32 {
    base | (rd << 7) | (imm20 << 12)
}

/// J format: `rd` at bit 7, immediate bits 19:12 in place, bit 11 at
/// bit 20, bits 10:1 at 21, bit 20 at 31.
pub open spec fn jtype_word(base: u32, rd: u32, imm: u32) -> u32 {
    base | (rd << 7) | (imm & 0xFF000) | (((imm >> 11) & 1) << 20) | (((imm >> 1) & 0x3FF) << 21)
        | (((imm >> 20) & 1) << 31)
}

/// Every encoded word keeps its template's opcode in the low seven
/// bits: the base word puts `funct3` and `funct7` at bit 12 and above,
/// and every operand or immediate field of every format sits at bit 7
/// or above.
pub proof fn lemma_word_low_bits(i: Inst, rd: u32, rs1: u32, rs2: u32, imm: u32, imm20: u32)
    requires
        inst_wf(i),
    ensures
        spec_base_word(i) & 0x7F == i.opcode,
        rtype_word(spec_base_word(i), rd, rs1, rs2) & 0x7F == i.opcode,
        itype_word(spec_base_word(i), rd, rs1, imm) & 0x7F == i.opcode,
        stype_word(spec_base_word(i), rs1, rs2, imm) & 0x7F == i.opcode,
        btype_word(spec_base_word(i), rs1, rs2, imm) & 0x7F == i.opcode,
        utype_word(spec_base_word(i), rd, imm20) & 0x7F == i.opcode,
        jtype_word(spec_base_word(i), rd, imm) & 0x7F == i.opcode,
{
    let o = i.opcode;
    let f3 = i.funct3;
    let f7 = i.funct7;
    assert((o | (f3 << 12) | (f7 << 25)) & 0x7F == o) by (bit_vector)
        requires
            o < 0x80u32,
    ;
    let b = spec_base_word(i);
    assert(b & 0x7F == o);
    assert((b | (rd << 7) | (rs1 << 15) | (rs2 << 20)) & 0x7F == b & 0x7F) by (bit_vector);
    assert((b | (rd << 7) | (rs1 << 15) | ((imm & 0xFFF) << 20)) & 0x7F == b & 0x7F)
        by (bit_vector);
    assert((b | ((imm & 0x1F) << 7) | (rs1 << 15) | (rs2 << 20) | (((imm >> 5) & 0x7F) << 25))
        & 0x7F == b & 0x7F) by (bit_vector);
    assert((b | (((imm >> 11) & 1) << 7) | (((imm >> 1) & 0xF) << 8) | (rs1 << 15) | (rs2 << 20) | (
    ((imm >> 5) & 0x3F) << 25) | (((imm >> 12) & 1) << 31)) & 0x7F == b & 0x7F) by (bit_vector);
    assert((b | (rd << 7) | (imm20 << 12)) & 0x7F == b & 0x7F) by (bit_vector);
    assert((b | (rd << 7) | (imm & 0xFF000) | (((imm >> 11) & 1) << 20) | (((imm >> 1) & 0x3FF)
        << 21) | (((imm >> 20) & 1) << 31)) & 0x7F == b & 0x7F) by (bit_vector);
}

/// The low-bits law for every operand choice at once: whatever the
/// registers and immediates, a word of any format keeps the template's
/// opcode in its low seven bits.
pub proof fn lemma_word_low_bits_forall(i: Inst)
    requires
        inst_wf(i),
    ensures
        spec_base_word(i) & 0x7F == i.opcode,
        forall|rd: u32, rs1: u32, rs2: u32| #[trigger]
            rtype_word(spec_base_word(i), rd, rs1, rs2) & 0x7F == i.opcode,
        forall|rd: u32, rs1: u32, imm: u32| #[trigger]
            itype_word(spec_base_word(i), rd, rs1, imm) & 0x7F == i.opcode,
        forall|rs1: u32, rs2: u32, imm: u32| #[trigger]
            stype_word(spec_base_word(i), rs1, rs2, imm) & 0x7F == i.opcode,
        forall|rs1: u32, rs2: u32, imm: u32| #[trigger]
            btype_word(spec_base_word(i), rs1, rs2, imm) & 0x7F == i.opcode,
        forall|rd: u32, imm20: u32| #[trigger]
            utype_word(spec_base_word(i), rd, imm20) & 0x7F == i.opcode,
        forall|rd: u32, imm: u32| #[trigger]
            jtype_word(spec_base_word(i), rd, imm) & 0x7F == i.opcode,
{
    lemma_word_low_bits(i, 0, 0, 0, 0, 0);
    assert forall|rd: u32, rs1: u32, rs2: u32| #[trigger]
        rtype_word(spec_base_word(i), rd, rs1, rs2) & 0x7F == i.opcode by {
        lemma_word_low_bits(i, rd, rs1, rs2, 0, 0);
    }
    assert forall|rd: u32, rs1: u32, imm: u32| #[trigger]
        itype_word(spec_base_word(i), rd, rs1, imm) & 0x7F == i.opcode by {
        lemma_word_low_bits(i, rd, rs1, 0, imm, 0);
    }
    assert forall|rs1: u32, rs2: u32, imm: u32| #[trigger]
        stype_word(spec_base_word(i), rs1, rs2, imm) & 0x7F == i.opcode by {
        lemma_word_low_bits(i, 0, rs1, rs2, imm, 0);
    }
    assert forall|rs1: u32, rs2: u32, imm: u32| #[trigger]
        btype_word(spec_base_word(i), rs1, rs2, imm) & 0x7F == i.opcode by {
        lemma_word_low_bits(i, 0, rs1, rs2, imm, 0);
    }
    assert forall|rd: u32, imm20: u32| #[trigger]
        utype_word(spec_base_word(i), rd, imm20) & 0x7F == i.opcode by {
        lemma_word_low_bits(i, rd, 0, 0, 0, imm20);
    }
    assert forall|rd: u32, imm: u32| #[trigger]
        jtype_word(spec_base_word(i), rd, imm) & 0x7F == i.opcode by {
        lemma_word_low_bits(i, rd, 0, 0, imm, 0);
    }
}

/// The two's-complement bit pattern of a signed immediate, as a `u32`.
pub open spec fn spec_imm_bits(v: int) -> u32
    recommends
        -0x8000_0000 <= v < 0x1_0000_0000,
{
    if v >= 0 {
        v as u32
    } else {
        (v + 0x1_0000_0000) as u32
    }
}

/// Two's-complement conversion, executably.
pub fn imm_bits(v: i64) -> (r: u32)
    requires
        -0x8000_0000 <= v < 0x1_0000_0000,
    ensures
        r == spec_imm_bits(v as int),
{
    if v >= 0 {
        v as u32
    } else {
        (v + 0x1_0000_0000) as u32
    }
}

/// The next word address, wrapping at the top of the 16-bit range.
pub open spec fn next_addr(a: u16) -> u16 {
    if a == 0xFFFF {
        0
    } else {
        (a + 1) as u16
    }
}

} // verus!
