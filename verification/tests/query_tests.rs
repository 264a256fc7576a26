use defispring::api::{
    processor::{
        get_raw_allocation_amount, get_raw_calldata, get_raw_root,
        transform_allocations_checked, transform_allocations_to_cumulative_rounds,
    },
    data_storage::RoundDataCache,
    structs::{JSONAllocation, QueryError, RoundAmounts, RoundTreeData},
};

fn delta(address: &str, amount: &str) -> JSONAllocation {
    JSONAllocation {
        address: address.to_string(),
        amount: amount.to_string(),
    }
}

fn three_round_data() -> Vec<RoundTreeData> {
    let round_data = vec![
        RoundAmounts {
            round: 1u8,
            amounts: vec![delta("0x1", "5"), delta("0x2", "6"), delta("0x3", "7")],
        },
        RoundAmounts {
            round: 2u8,
            amounts: vec![delta("0x3", "23")],
        },
        RoundAmounts {
            round: 3u8,
            amounts: vec![delta("0x2", "33")],
        },
    ];
    transform_allocations_to_cumulative_rounds(round_data)
}

#[test]
fn test_allocation_amount_latest_round() {
    let data = three_round_data();
    // round omitted: the largest round number (3) answers
    assert_eq!(
        get_raw_allocation_amount(&data, None, &"0x2".to_string()).unwrap(),
        39u128
    );
    assert_eq!(
        get_raw_allocation_amount(&data, Some(2), &"0x2".to_string()).unwrap(),
        6u128
    );
    // an address never allocated: zero, not an error
    assert_eq!(
        get_raw_allocation_amount(&data, Some(3), &"0x9".to_string()).unwrap(),
        0u128
    );
}

#[test]
fn test_decimal_and_hex_addresses_agree() {
    let data = three_round_data();
    // "16" and "0x10" name the same field element; here both are absent -> 0
    let hex = get_raw_allocation_amount(&data, Some(1), &"0x10".to_string()).unwrap();
    let dec = get_raw_allocation_amount(&data, Some(1), &"16".to_string()).unwrap();
    assert_eq!(hex, dec);
    // "0x3" and "3" likewise, and both present
    let hex3 = get_raw_allocation_amount(&data, Some(2), &"0x3".to_string()).unwrap();
    let dec3 = get_raw_allocation_amount(&data, Some(2), &"3".to_string()).unwrap();
    assert_eq!(hex3, 30u128);
    assert_eq!(dec3, 30u128);
}

#[test]
fn test_error_variants() {
    let data = three_round_data();
    let empty: Vec<RoundTreeData> = Vec::new();
    // empty store, implicit round
    assert_eq!(get_raw_root(&empty, None).unwrap_err(), QueryError::NoDataAvailable);
    // explicit round with no data
    assert_eq!(get_raw_root(&data, Some(9)).unwrap_err(), QueryError::RoundNotFound);
    // malformed address
    assert_eq!(
        get_raw_allocation_amount(&data, Some(1), &"zz".to_string()).unwrap_err(),
        QueryError::InvalidFieldElement
    );
    // proof for an address without a leaf
    assert_eq!(
        get_raw_calldata(&data, Some(1), &"0x9".to_string()).unwrap_err(),
        QueryError::AddressNotAllocated
    );
}

#[test]
fn test_empty_input_gives_empty_output_and_no_root() {
    let rounds: Vec<RoundAmounts> = Vec::new();
    let data = transform_allocations_to_cumulative_rounds(rounds);
    assert_eq!(data.len(), 0);
    assert_eq!(get_raw_root(&data, None).unwrap_err(), QueryError::NoDataAvailable);
}

#[test]
fn test_root_is_deterministic() {
    let a = three_round_data();
    let b = three_round_data();
    for (x, y) in a.iter().zip(b.iter()) {
        let rx = get_raw_root(&a, Some(x.round)).unwrap();
        let ry = get_raw_root(&b, Some(y.round)).unwrap();
        assert_eq!(rx.root, ry.root);
        assert_eq!(rx.accumulated_total_amount, ry.accumulated_total_amount);
        assert_eq!(rx.round_total_amount, ry.round_total_amount);
    }
}

#[test]
fn test_root_totals() {
    let data = three_round_data();
    let r1 = get_raw_root(&data, Some(1)).unwrap();
    assert_eq!(r1.round_total_amount, "18".to_string());
    assert_eq!(r1.accumulated_total_amount, "18".to_string());
    let r3 = get_raw_root(&data, Some(3)).unwrap();
    assert_eq!(r3.round_total_amount, "33".to_string());
    assert_eq!(r3.accumulated_total_amount, "74".to_string());
}

#[test]
fn test_cumulative_monotonic() {
    let data = three_round_data();
    for addr in ["0x1", "0x2", "0x3"] {
        let mut last = 0u128;
        for r in [1u8, 2u8, 3u8] {
            let v = get_raw_allocation_amount(&data, Some(r), &addr.to_string()).unwrap();
            assert!(v >= last);
            last = v;
        }
    }
}

#[test]
fn test_checked_transform() {
    // a malformed address refuses the whole batch
    let bad = vec![RoundAmounts {
        round: 1u8,
        amounts: vec![delta("not-an-address", "5")],
    }];
    assert!(transform_allocations_checked(bad).is_none());
    // unsorted input is sorted before processing
    let unsorted = vec![
        RoundAmounts {
            round: 2u8,
            amounts: vec![delta("0x3", "23")],
        },
        RoundAmounts {
            round: 1u8,
            amounts: vec![delta("0x3", "7")],
        },
    ];
    let data = transform_allocations_checked(unsorted).unwrap();
    assert_eq!(data.len(), 2);
    assert_eq!(data[0].round, 1u8);
    assert_eq!(data[1].round, 2u8);
    assert_eq!(data[1].address_amount("0x3").unwrap(), 30u128);
}

#[test]
fn test_cache_swap_is_wholesale() {
    let mut cache = RoundDataCache::new();
    assert_eq!(cache.snapshot().len(), 0);
    cache.replace(three_round_data());
    {
        let snap = cache.snapshot();
        assert_eq!(snap.len(), 3);
        assert_eq!(snap[0].round, 1u8);
    }
    // a refresh replaces the whole generation: the old round 3 is gone
    let next = transform_allocations_to_cumulative_rounds(vec![RoundAmounts {
        round: 5u8,
        amounts: vec![delta("0x1", "1")],
    }]);
    cache.replace(next);
    let snap = cache.snapshot();
    assert_eq!(snap.len(), 1);
    assert_eq!(snap[0].round, 5u8);
}
