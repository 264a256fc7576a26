use defispring::api::{
    field::{felt_from_str, felt_to_b16, FieldElement},
    merkle_tree::{climb_path, hash_leaf},
    processor::{get_raw_calldata, get_raw_root, transform_allocations_to_cumulative_rounds},
    structs::{JSONAllocation, RoundAmounts},
};

fn delta(address: &str, amount: &str) -> JSONAllocation {
    JSONAllocation {
        address: address.to_string(),
        amount: amount.to_string(),
    }
}

fn one_round() -> Vec<defispring::api::structs::RoundTreeData> {
    transform_allocations_to_cumulative_rounds(vec![RoundAmounts {
        round: 1u8,
        amounts: vec![delta("0x1", "5"), delta("0x2", "6"), delta("0x3", "7")],
    }])
}

/// Walk a proof's sibling path from the leaf upward and compare against the
/// round's reported root.
fn check_proof(data: &Vec<defispring::api::structs::RoundTreeData>, address: &str, amount: u128) {
    let cd = get_raw_calldata(data, Some(1), &address.to_string()).unwrap();
    // calldata: address, amount, then the sibling hashes, all canonical hex
    let addr: FieldElement = felt_from_str(&cd.data[0]).unwrap();
    let amt: FieldElement = felt_from_str(&cd.data[1]).unwrap();
    assert_eq!(amt, FieldElement::from_u128(amount));
    let mut sibs: Vec<FieldElement> = Vec::new();
    for s in &cd.data[2..] {
        sibs.push(felt_from_str(s).unwrap());
    }
    let leaf = hash_leaf(&addr, amount);
    let recomputed = climb_path(&leaf, &sibs);
    let root = get_raw_root(data, Some(1)).unwrap().root;
    assert_eq!(felt_to_b16(&recomputed), root);
}

#[test]
fn test_proof_recomputes_root() {
    let data = one_round();
    check_proof(&data, "0x1", 5);
    check_proof(&data, "0x2", 6);
    check_proof(&data, "0x3", 7);
}

#[test]
fn test_proof_even_leaf_count() {
    let data = transform_allocations_to_cumulative_rounds(vec![RoundAmounts {
        round: 1u8,
        amounts: vec![
            delta("0x1", "5"),
            delta("0x2", "6"),
            delta("0x3", "7"),
            delta("0x4", "8"),
        ],
    }]);
    check_proof(&data, "0x1", 5);
    check_proof(&data, "0x4", 8);
}

#[test]
fn test_single_leaf_tree() {
    let data = transform_allocations_to_cumulative_rounds(vec![RoundAmounts {
        round: 1u8,
        amounts: vec![delta("0x7", "11")],
    }]);
    let cd = get_raw_calldata(&data, Some(1), &"0x7".to_string()).unwrap();
    // one leaf: the root is the leaf hash itself and the path is empty
    assert_eq!(cd.data.len(), 2);
    let addr = felt_from_str(&cd.data[0]).unwrap();
    let leaf = hash_leaf(&addr, 11);
    let root = get_raw_root(&data, Some(1)).unwrap().root;
    assert_eq!(felt_to_b16(&leaf), root);
}

#[test]
fn test_encoding_round_trip() {
    for s in ["0x0", "0x1", "0xff", "0xabcdef0123456789", "123456789012345678901234567890"] {
        let x = felt_from_str(s).unwrap();
        let encoded = felt_to_b16(&x);
        assert_eq!(encoded.len(), 66);
        assert!(encoded.starts_with("0x"));
        // canonical encoding round-trips
        assert_eq!(felt_from_str(&encoded).unwrap(), x);
    }
}

#[test]
fn test_encoding_exact() {
    let x = felt_from_str("0xff").unwrap();
    assert_eq!(
        felt_to_b16(&x),
        "0x00000000000000000000000000000000000000000000000000000000000000ff".to_string()
    );
}

#[test]
fn test_field_element_rejects_out_of_range() {
    // the modulus itself is not canonical
    assert!(felt_from_str("0x0800000000000011000000000000000000000000000000000000000000000001")
        .is_none());
    // one below it is
    assert!(felt_from_str("0x0800000000000011000000000000000000000000000000000000000000000000")
        .is_some());
    assert!(felt_from_str("").is_some()); // empty decimal string denotes zero
    assert!(felt_from_str("0x").is_some());
    assert!(felt_from_str("xyz").is_none());
    assert!(felt_from_str("12z").is_none());
}
