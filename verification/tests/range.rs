use arithmetic_coding::range::Range;

#[test]
fn new_range_is_the_whole_at_its_precision() {
    let range = Range::new(32);
    assert_eq!(range.low, 0);
    assert_eq!(range.high, 1u64 << 32);
    assert_eq!(range.precision, 32);
    assert_eq!(range.half, 1u64 << 31);
    assert_eq!(range.quarter, 1u64 << 30);
    assert_eq!(range.three_quarters, 3u64 << 30);
}

#[test]
fn new_range_at_the_smallest_and_largest_precision() {
    let small = Range::new(8);
    assert_eq!((small.low, small.high), (0, 256));
    assert_eq!((small.quarter, small.half, small.three_quarters), (64, 128, 192));
    let large = Range::new(62);
    assert_eq!(large.high, 1u64 << 62);
    assert_eq!(large.quarter, 1u64 << 60);
    assert_eq!(large.three_quarters, 3u64 << 60);
}

#[test]
fn new_range_is_quiescent() {
    let range = Range::new(16);
    assert!(!range.is_bottom_half());
    assert!(!range.is_above_half());
    assert!(!range.is_middle_half());
    assert!(!range.is_above_quarter());
}

#[test]
fn calculate_range_truncates_and_leaves_the_range() {
    let range = Range::new(32);
    assert_eq!(range.calculate_range(2, 5, 9), (954437176, 2386092942));
    assert_eq!(range.calculate_range(0, 9, 9), (0, 1u64 << 32));
    assert_eq!((range.low, range.high), (0, 1u64 << 32));
}

#[test]
fn update_range_uses_the_old_low_for_both_bounds() {
    let mut range = Range::new(8);
    range.low = 10;
    range.high = 110;
    range.update_range(1, 3, 4);
    assert_eq!((range.low, range.high), (35, 85));
    range.update_range(1, 2, 3);
    assert_eq!((range.low, range.high), (35 + 16, 35 + 33));
}

#[test]
fn narrowing_at_the_largest_precision_does_not_overflow() {
    let mut range = Range::new(62);
    let quarter = range.quarter;
    range.update_range(quarter - 1, quarter, quarter);
    assert_eq!(range.high, 1u64 << 62);
    assert_eq!(range.low, (1u64 << 62) - 4);
}

#[test]
fn predicates_follow_the_marks() {
    let mut range = Range::new(8);
    range.low = 0;
    range.high = 127;
    assert!(range.is_bottom_half());
    range.high = 128;
    assert!(!range.is_bottom_half());
    range.low = 128;
    range.high = 200;
    assert!(range.is_above_half());
    range.low = 127;
    assert!(!range.is_above_half());
    range.low = 64;
    range.high = 191;
    assert!(range.is_middle_half());
    assert!(!range.is_above_quarter());
    range.low = 65;
    assert!(range.is_above_quarter());
    range.high = 192;
    assert!(!range.is_middle_half());
    range.low = 63;
    range.high = 191;
    assert!(!range.is_middle_half());
}

#[test]
fn scale_bottom_half_doubles() {
    let mut range = Range::new(8);
    range.low = 3;
    range.high = 100;
    range.scale_bottom_half();
    assert_eq!((range.low, range.high), (6, 200));
}

#[test]
fn scale_above_half_doubles_from_the_half_mark() {
    let mut range = Range::new(8);
    range.low = 130;
    range.high = 256;
    range.scale_above_half();
    assert_eq!((range.low, range.high), (4, 256));
}

#[test]
fn scale_middle_half_doubles_from_the_quarter_mark() {
    let mut range = Range::new(8);
    range.low = 100;
    range.high = 150;
    range.scale_middle_half();
    assert_eq!((range.low, range.high), (72, 172));
    assert_eq!((range.quarter, range.half, range.three_quarters), (64, 128, 192));
    assert_eq!(range.precision, 8);
}

fn assert_within(range: &Range) {
    assert!(range.low < range.high);
    assert!(range.high <= 4 * range.quarter);
    assert_eq!(range.half, 2 * range.quarter);
    assert_eq!(range.three_quarters, 3 * range.quarter);
}

#[test]
fn range_stays_within_the_whole_through_every_operation() {
    let intervals: [(u64, u64); 9] =
        [(0, 2), (0, 2), (2, 5), (2, 5), (2, 5), (5, 7), (5, 7), (7, 8), (8, 9)];
    for precision in [8u8, 16, 32, 62] {
        let mut range = Range::new(precision);
        assert_within(&range);
        let mut scalings = 0;
        for (low, high) in intervals {
            range.update_range(low, high, 9);
            assert_within(&range);
            let mut steps = 0;
            loop {
                if range.is_bottom_half() {
                    range.scale_bottom_half();
                } else if range.is_above_half() {
                    range.scale_above_half();
                } else if range.is_middle_half() {
                    range.scale_middle_half();
                } else {
                    break;
                }
                assert_within(&range);
                steps += 1;
            }
            assert!(steps <= precision);
            assert!(range.high - range.low > range.quarter);
            scalings += steps as u32;
        }
        assert_eq!(scalings, 19);
    }
}
