use ecm::natural::Natural;

#[test]
fn u128_round_trip() {
    let v: u128 = 4269021180054189416198169786894227;
    assert_eq!(Natural::from_u128(v).to_u128(), Some(v));
    assert_eq!(Natural::from_u64(0).to_u128(), Some(0));
    assert_eq!(Natural::from_u64(u64::MAX).to_u128(), Some(u64::MAX as u128));
}

#[test]
fn equality_is_by_value() {
    assert_eq!(Natural::from_u64(5), Natural::from_u128(5));
    assert_ne!(Natural::from_u64(5), Natural::from_u64(6));
    assert_eq!(Natural::from_u64(0), Natural::from_u128(0));
}

#[test]
fn limb_count_bounds_value() {
    assert_eq!(Natural::from_u128(1u128 << 100).limb_count(), 2);
    assert_eq!(Natural::from_u64(7).limb_count(), 1);
}
