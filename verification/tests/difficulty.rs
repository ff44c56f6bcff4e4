use accum::difficulty::{
    adjust_difficulty, adjust_for_span, calculate_time_span, compact_from_target,
    hash_meets_target, target_from_compact,
};
use accum::types::Target;

#[test]
fn test_difficulty_adjustment() {
    let mut timestamps = vec![0u64; 121];
    for (i, t) in timestamps.iter_mut().enumerate() {
        *t = i as u64 * 60;
    }
    let target = Target::genesis();
    let adjusted = adjust_difficulty(&timestamps, &target);
    assert_eq!(adjusted.0, target.0);
}

#[test]
fn test_compact_conversion() {
    let target = Target([
        0x00, 0x00, 0x00, 0x00, 0x00, 0x00, 0x00, 0x00, 0x00, 0x00, 0x00, 0x00, 0x00, 0x00, 0x00,
        0x00, 0x00, 0x00, 0x00, 0x00, 0x00, 0x00, 0x00, 0x00, 0x00, 0x00, 0x00, 0x00, 0x00, 0xFF,
        0xFF, 0xFF,
    ]);

    let compact = compact_from_target(&target);
    let recovered = target_from_compact(compact);

    assert_eq!(target.0[29], recovered.0[29]);
    assert_eq!(target.0[30], recovered.0[30]);
    assert_eq!(target.0[31], recovered.0[31]);
}

#[test]
fn short_histories_and_still_clocks_change_nothing() {
    let target = Target([0x01; 32]);
    assert_eq!(adjust_difficulty(&[1, 2, 3], &target).0, target.0);
    assert_eq!(adjust_difficulty(&vec![7u64; 121], &target).0, target.0);
}

#[test]
fn adjustments_stay_within_bounds() {
    let easiest = Target::genesis();
    let hardest = easiest.scaled_integer(1, 1000);
    let above = adjust_for_span(7200, &Target([0xFF; 32]));
    assert_eq!(above.0, easiest.0);
    let below = adjust_for_span(7200, &Target([0u8; 32]));
    assert_eq!(below.0, hardest.0);
    assert_eq!(&hardest.0[0..7], &[0, 0, 0, 0, 0, 65, 137]);
    let slow = adjust_for_span(1_000_000, &easiest);
    assert_eq!(slow.0, adjust_for_span(9600, &easiest).0);
    assert_eq!(&slow.0[4..6], &[0xBF, 0xFF]);
}

#[test]
fn a_target_moves_with_the_time_that_blocks_took() {
    let every = |seconds: u64| (0..121).map(|i| i * seconds).collect::<Vec<u64>>();
    let mut bytes = [0u8; 32];
    bytes[4] = 0x01;
    let mut expected = [0u8; 32];
    expected[5] = 0xC0;
    assert_eq!(adjust_difficulty(&every(80), &Target(bytes)).0, expected);
    assert_eq!(adjust_difficulty(&every(1_000), &Target(bytes)).0, expected);
    bytes[4] = 0x80;
    expected = [0u8; 32];
    expected[4] = 0xA0;
    assert_eq!(adjust_difficulty(&every(48), &Target(bytes)).0, expected);
    assert_eq!(adjust_difficulty(&every(1), &Target(bytes)).0, expected);
}

#[test]
fn spans_of_blocks() {
    assert_eq!(calculate_time_span(&[10, 20, 50], 2), Some(40));
    assert_eq!(calculate_time_span(&[10, 20, 50], 1), Some(30));
    assert_eq!(calculate_time_span(&[10, 20, 50], 3), None);
}

#[test]
fn hashes_and_targets() {
    assert!(hash_meets_target(&[1; 32], &Target([1; 32])));
    assert!(!hash_meets_target(&[2; 32], &Target([1; 32])));
}
