use rv32_asm::errors::AsmError;
use rv32_asm::numparse::str_to_int;

#[test]
fn test_decimal_literals() {
    assert_eq!(str_to_int("0").unwrap(), 0);
    assert_eq!(str_to_int("10").unwrap(), 10);
    assert_eq!(str_to_int("2047").unwrap(), 2047);
    assert_eq!(str_to_int("-2048").unwrap(), -2048);
}

#[test]
fn test_hex_literals() {
    assert_eq!(str_to_int("0x0").unwrap(), 0);
    assert_eq!(str_to_int("0x100").unwrap(), 256);
    assert_eq!(str_to_int("0xABCDE").unwrap(), 0xABCDE);
    assert_eq!(str_to_int("0xabcde").unwrap(), 0xABCDE);
    assert_eq!(str_to_int("-0x10").unwrap(), -16);
}

#[test]
fn test_malformed_literals() {
    assert_eq!(str_to_int(""), Err(AsmError::BadImmediate));
    assert_eq!(str_to_int("-"), Err(AsmError::BadImmediate));
    assert_eq!(str_to_int("12q"), Err(AsmError::BadImmediate));
    assert_eq!(str_to_int("0x"), Err(AsmError::BadImmediate));
    assert_eq!(str_to_int("0xZZ"), Err(AsmError::BadImmediate));
    assert_eq!(str_to_int("--5"), Err(AsmError::BadImmediate));
    assert_eq!(str_to_int("loop"), Err(AsmError::BadImmediate));
}

#[test]
fn test_oversized_literals() {
    assert_eq!(str_to_int("4294967295").unwrap(), 0xFFFF_FFFF);
    assert_eq!(str_to_int("4294967296"), Err(AsmError::ImmediateOutOfRange));
    assert_eq!(str_to_int("99999999999999999999"), Err(AsmError::ImmediateOutOfRange));
    assert_eq!(str_to_int("0x100000000"), Err(AsmError::ImmediateOutOfRange));
}
