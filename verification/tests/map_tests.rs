use defispring::api::amount_map::AmountMap;
use defispring::api::field::FieldElement;

#[test]
fn test_amount_map_accumulates() {
    let mut map = AmountMap::new();
    assert_eq!(map.len(), 0);
    let a5 = FieldElement::from_u128(5);
    let a9 = FieldElement::from_u128(9);
    map.upsert_add(a5, 10);
    map.upsert_add(a9, 1);
    // a second delta for the same address is summed, not replaced
    map.upsert_add(a5, 5);
    assert_eq!(map.len(), 2);
    assert_eq!(map.get(&a5), 15);
    assert_eq!(map.get(&a9), 1);
    // an absent address reads as zero
    assert_eq!(map.get(&FieldElement::from_u128(7)), 0);
    assert_eq!(map.total(), 16);
}

#[test]
fn test_amount_map_keeps_address_order() {
    let mut map = AmountMap::new();
    for v in [9u128, 2, 7, 4] {
        map.upsert_add(FieldElement::from_u128(v), v);
    }
    let keys: Vec<u128> = map.entries.iter().map(|e| e.0.lo).collect();
    assert_eq!(keys, vec![2, 4, 7, 9]);
}
