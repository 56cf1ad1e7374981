use vote_server::error::VoteError;
use vote_server::refdata::{nullifier_leaves, value_lt};

fn le(v: u64) -> [u8; 32] {
    let mut h = [0u8; 32];
    h[..8].copy_from_slice(&v.to_le_bytes());
    h
}

fn high(b: u8) -> [u8; 32] {
    let mut h = [0u8; 32];
    h[30] = b;
    h
}

#[test]
fn leaves_sorted_by_field_value() {
    let input = vec![high(1), le(0x0200), le(3), le(0x01ff)];
    let out = nullifier_leaves(&input).unwrap();
    assert_eq!(out, vec![le(3), le(0x01ff), le(0x0200), high(1)]);
}

#[test]
fn leaves_do_not_depend_on_input_order() {
    let a = vec![le(9), high(2), le(1), le(9), high(1)];
    let b = vec![high(1), le(9), le(9), high(2), le(1)];
    let ra = nullifier_leaves(&a).unwrap();
    assert_eq!(ra, nullifier_leaves(&b).unwrap());
    assert_eq!(ra, nullifier_leaves(&a).unwrap());
    assert_eq!(ra.len(), 5);
}

#[test]
fn leaves_reject_non_canonical_hash() {
    assert_eq!(nullifier_leaves(&vec![le(1), [0xff; 32]]), Err(VoteError::StorageFailure));
    let mut modulus = [0u8; 32];
    modulus[..16].copy_from_slice(&0x224698fc094cf91b992d30ed00000001u128.to_le_bytes());
    modulus[31] = 0x40;
    assert_eq!(nullifier_leaves(&vec![modulus]), Err(VoteError::StorageFailure));
    let mut below = modulus;
    below[0] = 0;
    assert_eq!(nullifier_leaves(&vec![below]), Ok(vec![below]));
    assert_eq!(nullifier_leaves(&vec![]), Ok(vec![]));
}

#[test]
fn value_order_is_numeric_little_endian() {
    assert!(value_lt(&le(0xff), &le(0x100)));
    assert!(!value_lt(&le(0x100), &le(0xff)));
    assert!(!value_lt(&le(5), &le(5)));
    assert!(value_lt(&le(u64::MAX), &high(1)));
}
