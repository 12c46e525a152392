use rv32_asm::errors::AsmError;
use rv32_asm::symtab::{ExtractedData, HashMap};

#[test]
fn test_hash_string() {
    let hm: HashMap<u32> = HashMap::new(2);
    // 'a' = 97, 'd' = 100: 97*1 + 100*2 + 100*4 = 697
    assert_eq!(hm.hash_str("add").unwrap(), 697);
    // single characters hash to their lowercased value
    assert_eq!(hm.hash_str("a").unwrap(), 97);
    assert_eq!(hm.hash_str("A").unwrap(), 97);
    // 'x' = 120, '1' = 49: 120 + 49*2 = 218
    assert_eq!(hm.hash_str("x1").unwrap(), 218);
    // the empty string hashes to zero
    assert_eq!(hm.hash_str("").unwrap(), 0);
    // non-alphanumeric input is rejected
    assert_eq!(hm.hash_str("a+b"), Err(AsmError::InvalidKey));
}

#[test]
fn test_hash_pure_and_case_insensitive() {
    let hm: HashMap<u32> = HashMap::new(4);
    let h1 = hm.hash_str("AddI").unwrap();
    let h2 = hm.hash_str("AddI").unwrap();
    assert_eq!(h1, h2);
    assert_eq!(hm.hash_str("ADDI").unwrap(), hm.hash_str("addi").unwrap());
    assert_eq!(hm.hash_str("AddI").unwrap(), hm.hash_str("aDDi").unwrap());
}

#[test]
fn test_insert_get_last_write_wins() {
    let mut hm: HashMap<u32> = HashMap::new(4);
    hm.insert(1, "addi").unwrap();
    hm.insert(2, "add").unwrap();
    assert_eq!(*hm.get("addi").unwrap(), 1);
    assert_eq!(*hm.get("add").unwrap(), 2);
    // a duplicate insert shadows the earlier entry
    hm.insert(7, "add").unwrap();
    assert_eq!(*hm.get("add").unwrap(), 7);
    assert_eq!(*hm.get("addi").unwrap(), 1);
}

#[test]
fn test_single_bucket_collisions() {
    // with one bucket every key chains into the same slot, and lookup
    // still tells the keys apart by their text
    let mut hm: HashMap<u32> = HashMap::new(1);
    hm.insert(10, "x1").unwrap();
    hm.insert(20, "x2").unwrap();
    hm.insert(30, "x3").unwrap();
    assert_eq!(*hm.get("x1").unwrap(), 10);
    assert_eq!(*hm.get("x2").unwrap(), 20);
    assert_eq!(*hm.get("x3").unwrap(), 30);
}

#[test]
fn test_key_errors() {
    let mut hm: HashMap<u32> = HashMap::new(4);
    assert_eq!(hm.insert(1, "elevenchars"), Err(AsmError::KeyTooLong));
    assert_eq!(hm.insert(1, "a b"), Err(AsmError::InvalidKey));
    assert_eq!(hm.insert(1, ""), Err(AsmError::InvalidKey));
    assert_eq!(hm.get("elevenchars").err().unwrap(), AsmError::KeyTooLong);
    assert_eq!(hm.get("a b").err().unwrap(), AsmError::InvalidKey);
    assert_eq!(hm.get("missing").err().unwrap(), AsmError::NotFound);
    // ten characters is the longest accepted key
    hm.insert(5, "abcdefghij").unwrap();
    assert_eq!(*hm.get("abcdefghij").unwrap(), 5);
}

#[test]
fn test_build_in_order() {
    let mut hm: HashMap<u32> = HashMap::new(4);
    let mut pairs = vec![
        ExtractedData { data: 1, key: String::from("one") },
        ExtractedData { data: 2, key: String::from("two") },
        ExtractedData { data: 3, key: String::from("one") },
    ];
    hm.build(&mut pairs).unwrap();
    // later pairs shadow earlier ones with the same key
    assert_eq!(*hm.get("one").unwrap(), 3);
    assert_eq!(*hm.get("two").unwrap(), 2);
}
