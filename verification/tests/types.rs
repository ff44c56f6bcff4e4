use accum::types::Target;

#[test]
fn test_shift_left_8() {
    let mut bytes = [0u8; 32];
    bytes[0] = 0x12;
    bytes[1] = 0x34;
    bytes[2] = 0x56;
    bytes[3] = 0x78;

    let target = Target(bytes);
    let shifted = target.shift_left(8);

    assert_eq!(shifted.0[0], 0x12);
    assert_eq!(shifted.0[1], 0x34);
    assert_eq!(shifted.0[2], 0x56);
    assert_eq!(shifted.0[3], 0x00);
    assert_eq!(shifted.0[4], 0x78);
}

#[test]
fn test_shift_left_4() {
    let mut bytes = [0u8; 32];
    bytes[0] = 0xF0;
    bytes[1] = 0x0F;

    let target = Target(bytes);
    let shifted = target.shift_left(4);

    assert_eq!(shifted.0[0], 0x00);
    assert_eq!(shifted.0[1], 0xFF);
    assert_eq!(shifted.0[2], 0x00);
}

#[test]
fn test_scaled() {
    let mut bytes = [0u8; 32];
    bytes[0] = 0x80;

    let target = Target(bytes);

    let scaled_up = target.scaled_by_256ths((1.25f64 * 256.0) as u16);
    let scaled_down = target.scaled_by_256ths((0.75f64 * 256.0) as u16);

    assert_ne!(target.0, scaled_up.0);
    assert_ne!(target.0, scaled_down.0);
}

#[test]
fn test_is_met_by() {
    let target = Target([0x80; 32]);

    let hash_less = [0x7F; 32];
    assert!(target.is_met_by(&hash_less));

    let hash_greater = [0x81; 32];
    assert!(!target.is_met_by(&hash_greater));

    let hash_equal = [0x80; 32];
    assert!(target.is_met_by(&hash_equal));
}

#[test]
fn test_compact_roundtrip() {
    let target = Target([
        0x12, 0x34, 0x56, 0x78, 0x00, 0x00, 0x00, 0x00, 0x00, 0x00, 0x00, 0x00, 0x00, 0x00, 0x00,
        0x00, 0x00, 0x00, 0x00, 0x00, 0x00, 0x00, 0x00, 0x00, 0x00, 0x00, 0x00, 0x00, 0x00, 0x00,
        0x00, 0x00,
    ]);

    let compact = target.compact();
    let recovered = Target::from_compact(compact);

    assert_eq!(target.0[0], recovered.0[0]);
    assert_eq!(target.0[1], recovered.0[1]);
    assert_eq!(target.0[2], recovered.0[2]);
}

#[test]
fn shift_by_nothing_and_by_a_lot() {
    let target = Target([0xAB; 32]);
    assert_eq!(target.shift_left(0).0, target.0);
    assert_eq!(target.shift_left(256).0, [0u8; 32]);
    assert_eq!(target.shift_left(usize::MAX).0, [0u8; 32]);
    let near = target.shift_left(16);
    assert_eq!(&near.0[3..5], &[0, 0]);
    assert_eq!(near.0[5], 0xAB);
}

#[test]
fn genesis_share_and_prefilter_targets() {
    let genesis = Target::genesis();
    assert_eq!(&genesis.0[0..5], &[0, 0, 0, 0, 0xFF]);
    let share = genesis.share_target();
    assert_eq!(&share.0[0..4], &[0, 0, 0, 0xFF]);
    assert_eq!(share.0[31], 0x00);
    assert_eq!(share.0[30], 0xFF);
    let prefilter = genesis.prefilter_target();
    assert_eq!(&prefilter.0[0..2], &[0, 0xFF]);
    assert_eq!(&prefilter.0[29..32], &[0, 0, 0]);
    assert_eq!(Target([0xFF; 32]).share_target().0, [0xFF; 32]);
}

#[test]
fn what_meets_a_target_meets_its_share_target() {
    let target = Target([0x01; 32]);
    let hash = [0x01; 32];
    assert!(target.is_met_by(&hash));
    assert!(target.share_target().is_met_by(&hash));
    assert!(target.prefilter_target().is_met_by(&hash));
}

#[test]
fn scaling_by_a_fraction() {
    let mut bytes = [0u8; 32];
    bytes[30] = 0x01;
    bytes[31] = 0xF4;
    let target = Target(bytes);
    assert_eq!(&target.scaled_integer(1, 7).0[30..32], &[0, 71]);
    assert_eq!(&target.scaled_integer(3, 2).0[30..32], &[0x02, 0xEE]);
    assert_eq!(target.scaled_integer(5, 5).0, target.0);
    assert_eq!(target.scaled_integer(5, 0).0, [0u8; 32]);
    assert_eq!(target.scaled_integer(0, 5).0, [0u8; 32]);
    let genesis = Target::genesis().scaled_integer(7200, 9600);
    assert_eq!(&genesis.0[0..8], &[0, 0, 0, 0, 0xBF, 0xFF, 0xFF, 0xFF]);
    assert_eq!(genesis.0[31], 0xFF);
    assert_eq!(Target([0xFF; 32]).scaled_integer(5, 4).0, [0xFF; 32]);
    assert_eq!(Target([0x80; 32]).scaled_integer(u64::MAX, 1).0, [0xFF; 32]);
    assert_eq!(Target([0x80; 32]).scaled_integer(u64::MAX, u64::MAX - 1).0[0], 0x80);
}

#[test]
fn scaling_by_millionths() {
    let mut bytes = [0u8; 32];
    bytes[31] = 200;
    bytes[30] = 100;
    let half = Target(bytes).adjust_millionths(500_000);
    assert_eq!(half.0[31], 100);
    assert_eq!(half.0[30], 50);
    assert_eq!(half.0[29], 0);
}

#[test]
fn low_bytes_as_a_number() {
    let mut bytes = [0u8; 32];
    bytes[0] = 9;
    bytes[30] = 1;
    bytes[31] = 2;
    assert_eq!(Target(bytes).low_u128(), 258);
    assert_eq!(Target([0xFF; 32]).low_u128(), u128::MAX);
}

#[test]
fn compact_forms() {
    assert_eq!(Target([0u8; 32]).compact(), 0);
    assert_eq!(Target::genesis().compact(), 0x1CFFFFFF);
    let back = Target::from_compact(0x1C123456);
    assert_eq!(&back.0[0..8], &[0, 0, 0, 0, 0x12, 0x34, 0x56, 0]);
    assert_eq!(back.compact(), 0x1C123456);
    assert_eq!(Target::from_compact(0x00ABCDEF).0, [0u8; 32]);
    assert_eq!(Target::from_compact(0x01ABCDEF).0[31], 0xAB);
    assert_eq!(&Target::from_compact(0x02ABCDEF).0[30..], &[0xAB, 0xCD]);
}

#[test]
fn the_clock_is_past_the_first_block() {
    assert!(accum::types::current_timestamp() > accum::constants::GENESIS_TIMESTAMP);
}
