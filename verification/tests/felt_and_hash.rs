use starknet_state::felt::{Felt, OutOfRange};
use starknet_state::hash::{calculate_contract_state_hash, pedersen_hash};

fn hex32(text: &str) -> [u8; 32] {
    let digits: Vec<u8> = text
        .bytes()
        .map(|c| match c {
            b'0'..=b'9' => c - b'0',
            b'a'..=b'f' => c - b'a' + 10,
            _ => panic!("not a hex digit"),
        })
        .collect();
    assert_eq!(digits.len(), 64);
    let mut out = [0u8; 32];
    for i in 0..32 {
        out[i] = digits[2 * i] * 16 + digits[2 * i + 1];
    }
    out
}

fn felt(text: &str) -> Felt {
    Felt::from_be_bytes(hex32(text)).unwrap()
}

const MODULUS: &str = "0800000000000011000000000000000000000000000000000000000000000001";
const MODULUS_MINUS_ONE: &str = "0800000000000011000000000000000000000000000000000000000000000000";

#[test]
fn bytes_roundtrip() {
    let bytes = hex32("03d937c035c878245caf64531a5756109c53068da139362728feb561405371cb");
    assert_eq!(Felt::from_be_bytes(bytes).unwrap().to_be_bytes(), bytes);
}

#[test]
fn zero_encodes_as_zero_bytes() {
    assert_eq!(Felt::zero().to_be_bytes(), [0u8; 32]);
    assert!(Felt::zero().is_zero());
    assert!(!Felt::from_u64(1).is_zero());
}

#[test]
fn from_u64_is_right_aligned() {
    let mut expected = [0u8; 32];
    expected[30] = 0xAB;
    expected[31] = 0xCD;
    assert_eq!(Felt::from_u64(0xABCD).to_be_bytes(), expected);
}

#[test]
fn modulus_is_out_of_range() {
    assert_eq!(Felt::from_be_bytes(hex32(MODULUS)), Err(OutOfRange));
    assert_eq!(Felt::from_be_bytes([0xffu8; 32]), Err(OutOfRange));
}

#[test]
fn modulus_minus_one_is_in_range() {
    assert!(Felt::from_be_bytes(hex32(MODULUS_MINUS_ONE)).is_ok());
}

#[test]
fn field_add_small() {
    assert_eq!(Felt::from_u64(40).field_add(&Felt::from_u64(2)), Felt::from_u64(42));
}

#[test]
fn field_add_carries_between_limbs() {
    let a = felt("000000000000000000000000000000000000000000000000ffffffffffffffff");
    let sum = a.field_add(&Felt::from_u64(1));
    assert_eq!(
        sum,
        felt("0000000000000000000000000000000000000000000000010000000000000000")
    );
}

#[test]
fn field_add_wraps_at_modulus() {
    let top = felt(MODULUS_MINUS_ONE);
    assert_eq!(top.field_add(&Felt::from_u64(1)), Felt::zero());
    assert_eq!(top.field_add(&Felt::from_u64(3)), Felt::from_u64(2));
    // (p - 1) + (p - 1) = p - 2 in the field
    assert_eq!(
        top.field_add(&top),
        felt("0800000000000010ffffffffffffffffffffffffffffffffffffffffffffffff")
    );
}

#[test]
fn path_of_one() {
    let path = Felt::from_u64(1).to_path().unwrap();
    assert_eq!(path.len(), 251);
    assert!(path[250]);
    assert!(path[..250].iter().all(|b| !*b));
}

#[test]
fn path_rejects_keys_of_252_bits() {
    let big = felt("0800000000000000000000000000000000000000000000000000000000000000");
    assert!(big.to_path().is_none());
    let below = felt("07ffffffffffffffffffffffffffffffffffffffffffffffffffffffffffffff");
    let path = below.to_path().unwrap();
    assert!(path.iter().all(|b| *b));
}

#[test]
fn bits_roundtrip() {
    let key = felt("03d937c035c878245caf64531a5756109c53068da139362728feb561405371cb");
    let path = key.to_path().unwrap();
    assert_eq!(Felt::from_bits(&path), Some(key));
}

#[test]
fn from_bits_reads_most_significant_first() {
    assert_eq!(Felt::from_bits(&vec![true, false, true]), Some(Felt::from_u64(5)));
    assert_eq!(Felt::from_bits(&vec![]), Some(Felt::zero()));
    assert_eq!(Felt::from_bits(&vec![true; 252]), None);
}

#[test]
fn low_bits_of_six() {
    assert_eq!(Felt::from_u64(6).low_bits(4), vec![false, true, true, false]);
}

#[test]
fn pedersen_known_values() {
    let cases = [
        (
            "03d937c035c878245caf64531a5756109c53068da139362728feb561405371cb",
            "0208a0a10250e382e1e4bbe2880906c2791bf6275695e02fbbc6aeff9cd8b31a",
            "030e480bed5fe53fa909cc0f8c4d99b8f9f2c016be4c41e13a4848797979c662",
        ),
        (
            "058f580910a6ca59b28927c08fe6c43e2e303ca384badc365795fc645d479d45",
            "078734f65a067be9bdb39de18434d71e79f7b6466a4b66bbd979ab9e7515fe0b",
            "068cc0b76cddd1dd4ed2301ada9b7c872b23875d5ff837b3a87993e0d9996b87",
        ),
    ];
    for (a, b, expected) in cases {
        assert_eq!(pedersen_hash(felt(a), felt(b)), felt(expected));
    }
}

#[test]
fn pedersen_is_not_symmetric() {
    let a = Felt::from_u64(1);
    let b = Felt::from_u64(2);
    assert_ne!(pedersen_hash(a, b), pedersen_hash(b, a));
    assert_ne!(pedersen_hash(a, b), a);
}

#[test]
fn contract_state_hash_is_three_hashes() {
    let code_hash = Felt::from_u64(0x1234);
    let root = Felt::from_u64(0x5678);
    let zero = Felt::zero();
    let expected = pedersen_hash(pedersen_hash(pedersen_hash(code_hash, root), zero), zero);
    assert_eq!(calculate_contract_state_hash(code_hash, root), expected);
    assert_ne!(calculate_contract_state_hash(code_hash, root), pedersen_hash(code_hash, root));
}
