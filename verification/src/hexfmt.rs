//! The Intel HEX formatter: one data record per encoded instruction,
//! and the closing end-of-file record.
//!
//! A data record is `":" count address type payload checksum "\n"`,
//! all in upper-case hex pairs; the checksum is the two's complement
//! of the byte-wise sum of everything between the colon and itself.

use vstd::prelude::*;
use vstd::arithmetic::div_mod::lemma_add_mod_noop;
use vstd::string::StringExecFns;
use crate::buffer::ParsedNode;

verus! {

/// The upper-case hex digit for a value below sixteen.
pub open spec fn hex_digit(d: int) -> char {
    if d == 0 {
        '0'
    } else if d == 1 {
        '1'
    } else if d == 2 {
        '2'
    } else if d == 3 {
        '3'
    } else if d == 4 {
        '4'
    } else if d == 5 {
        '5'
    } else if d == 6 {
        '6'
    } else if d == 7 {
        '7'
    } else if d == 8 {
        '8'
    } else if d == 9 {
        '9'
    } else if d == 10 {
        'A'
    } else if d == 11 {
        'B'
    } else if d == 12 {
        'C'
    } else if d == 13 {
        'D'
    } else if d == 14 {
        'E'
    } else {
        'F'
    }
}

/// One byte as two upper-case hex digits.
pub open spec fn hex2(b: int) -> Seq<char> {
    seq![hex_digit(b / 16), hex_digit(b % 16)]
}

/// A 16-bit value as four upper-case hex digits.
pub open spec fn hex4(a: int) -> Seq<char> {
    hex2(a / 256) + hex2(a % 256)
}

/// A 32-bit value as eight upper-case hex digits: its four bytes,
/// big-endian, as hex pairs.
pub open spec fn hex8(w: int) -> Seq<char> {
    hex2(w / 0x1000000) + hex2((w / 0x10000) % 256) + hex2((w / 256) % 256) + hex2(w % 256)
}

/// The byte-wise sum of the record head: byte count, the two address
/// bytes, the record type and the four payload bytes.
pub open spec fn record_sum(n: ParsedNode) -> int {
    let a = n.address as int;
    let w = n.instruction as int;
    4 + a / 256 + a % 256 + w / 0x1000000 + (w / 0x10000) % 256 + (w / 256) % 256 + w % 256
}

/// The record checksum: the two's complement of the head sum, as one
/// byte.
pub open spec fn checksum_of(n: ParsedNode) -> int {
    (256 - record_sum(n) % 256) % 256
}

/// Every byte the record encodes, checksum included.
pub open spec fn record_bytes(n: ParsedNode) -> Seq<int> {
    let a = n.address as int;
    let w = n.instruction as int;
    seq![
        4,
        a / 256,
        a % 256,
        0,
        w / 0x1000000,
        (w / 0x10000) % 256,
        (w / 256) % 256,
        w % 256,
        checksum_of(n),
    ]
}

/// The byte-wise sum of a byte sequence.
pub open spec fn byte_sum(s: Seq<int>) -> int
    decreases s.len(),
{
    if s.len() == 0 {
        0
    } else {
        byte_sum(s.drop_last()) + s.last()
    }
}

/// The full text of one data record.
pub open spec fn record_chars(n: ParsedNode) -> Seq<char> {
    seq![':'] + hex2(4) + hex4(n.address as int) + hex2(0) + hex8(n.instruction as int) + hex2(
        checksum_of(n),
    ) + seq!['\n']
}

/// The sum of all bytes a data record encodes, its checksum included,
/// is zero modulo 256.
pub proof fn lemma_record_checksum(n: ParsedNode)
    ensures
        byte_sum(record_bytes(n)) % 256 == 0,
{
    let bs = record_bytes(n);
    assert(byte_sum(bs) == record_sum(n) + checksum_of(n)) by {
        reveal_with_fuel(byte_sum, 10);
        let s8 = bs.subrange(0, 8);
        let s7 = bs.subrange(0, 7);
        let s6 = bs.subrange(0, 6);
        let s5 = bs.subrange(0, 5);
        let s4 = bs.subrange(0, 4);
        let s3 = bs.subrange(0, 3);
        let s2 = bs.subrange(0, 2);
        let s1 = bs.subrange(0, 1);
        let s0 = bs.subrange(0, 0);
        assert(bs.drop_last() =~= s8);
        assert(s8.drop_last() =~= s7);
        assert(s7.drop_last() =~= s6);
        assert(s6.drop_last() =~= s5);
        assert(s5.drop_last() =~= s4);
        assert(s4.drop_last() =~= s3);
        assert(s3.drop_last() =~= s2);
        assert(s2.drop_last() =~= s1);
        assert(s1.drop_last() =~= s0);
    }
    let s = record_sum(n);
    let ck = checksum_of(n);
    lemma_add_mod_noop(s, ck, 256);
    if s % 256 == 0 {
        assert(ck == 0);
    } else {
        assert(ck == 256 - s % 256);
        assert((s % 256 + ck % 256) % 256 == 0);
    }
}

/// The single hex digit of `d` as a string slice.
fn digit_str(d: u32) -> (r: &'static str)
    requires
        d < 16,
    ensures
        r@ == seq![hex_digit(d as int)],
{
    let r: &'static str = if d == 0 {
        "0"
    } else if d == 1 {
        "1"
    } else if d == 2 {
        "2"
    } else if d == 3 {
        "3"
    } else if d == 4 {
        "4"
    } else if d == 5 {
        "5"
    } else if d == 6 {
        "6"
    } else if d == 7 {
        "7"
    } else if d == 8 {
        "8"
    } else if d == 9 {
        "9"
    } else if d == 10 {
        "A"
    } else if d == 11 {
        "B"
    } else if d == 12 {
        "C"
    } else if d == 13 {
        "D"
    } else if d == 14 {
        "E"
    } else {
        "F"
    };
    proof {
        reveal_strlit("0");
        reveal_strlit("1");
        reveal_strlit("2");
        reveal_strlit("3");
        reveal_strlit("4");
        reveal_strlit("5");
        reveal_strlit("6");
        reveal_strlit("7");
        reveal_strlit("8");
        reveal_strlit("9");
        reveal_strlit("A");
        reveal_strlit("B");
        reveal_strlit("C");
        reveal_strlit("D");
        reveal_strlit("E");
        reveal_strlit("F");
        assert(r@ =~= seq![hex_digit(d as int)]);
    }
    r
}

/// Appends one byte as two upper-case hex digits.
fn push_hex2(line: &mut String, b: u32)
    requires
        b < 256,
    ensures
        final(line)@ == old(line)@ + hex2(b as int),
{
    line.append(digit_str(b / 16));
    line.append(digit_str(b % 16));
    proof {
        assert(final(line)@ =~= old(line)@ + hex2(b as int));
    }
}

/// Builds the Intel HEX data record for one encoded instruction.
#[verifier::rlimit(50)]
pub fn form_line(node: &ParsedNode) -> (r: String)
    ensures
        r@ == record_chars(*node),
{
    let mut line = String::new();
    line.append(":");
    proof {
        reveal_strlit(":");
    }
    push_hex2(&mut line, 4);
    let a = node.address as u32;
    push_hex2(&mut line, a / 256);
    push_hex2(&mut line, a % 256);
    push_hex2(&mut line, 0);
    let w = node.instruction;
    let b3 = w / 0x1000000;
    let b2 = (w / 0x10000) % 256;
    let b1 = (w / 256) % 256;
    let b0 = w % 256;
    push_hex2(&mut line, b3);
    push_hex2(&mut line, b2);
    push_hex2(&mut line, b1);
    push_hex2(&mut line, b0);
    let sum: u32 = 4 + a / 256 + a % 256 + b3 + b2 + b1 + b0;
    proof {
        assert(sum as int == record_sum(*node));
    }
    let ck: u32 = (256 - sum % 256) % 256;
    proof {
        assert(ck as int == checksum_of(*node));
    }
    push_hex2(&mut line, ck);
    line.append("\n");
    proof {
        reveal_strlit("\n");
        assert(line@ =~= record_chars(*node));
    }
    line
}

/// The closing end-of-file record.
pub fn eof_line() -> (r: String)
    ensures
        r@ == (":00000001FF\n")@,
{
    String::from_str(":00000001FF\n")
}

} // verus!
