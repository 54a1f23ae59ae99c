use weir::budget::double::share;

/// The same formula on the machine's own doubles.
fn native(count: u64, part: u64, whole: u64) -> u64 {
    (count as f64 * (part as f64 / whole as f64)).round() as u64
}

/// A sequence of numbers that look random.
fn next(seed: &mut u64) -> u64 {
    *seed = seed.wrapping_mul(6364136223846793005).wrapping_add(1442695040888963407);
    *seed ^ (*seed >> 33)
}

#[test]
fn shares_of_round_numbers() {
    assert_eq!(share(100, 500, 1_000), 50);
    assert_eq!(share(100, 1_000, 1_000), 100);
    assert_eq!(share(100, 0, 1_000), 0);
    assert_eq!(share(0, 500, 1_000), 0);
    assert_eq!(share(3, 1, 2), 2);
    assert_eq!(share(5, 1, 2), 3);
}

#[test]
fn shares_round_as_doubles_do() {
    // The exact shares are 472.5, 218.5 and 248.5.
    assert_eq!(share(675, 700, 1_000), 472);
    assert_eq!(share(380, 575, 1_000), 218);
    assert_eq!(share(375, 39_760, 60_000), native(375, 39_760, 60_000));
}

#[test]
fn shares_agree_with_native_doubles() {
    let mut seed: u64 = 42;
    for _ in 0..200_000 {
        let count = next(&mut seed) >> (next(&mut seed) % 64);
        let whole = (next(&mut seed) >> (next(&mut seed) % 63)).max(1);
        let part = next(&mut seed) % whole;
        assert_eq!(share(count, part, whole), native(count, part, whole));
    }
}

#[test]
fn shares_of_small_windows_agree_with_native_doubles() {
    for whole in 1..60 {
        for part in 0..=whole {
            for count in 0..60 {
                assert_eq!(share(count, part, whole), native(count, part, whole));
            }
        }
    }
}

#[test]
fn shares_of_extremes_agree_with_native_doubles() {
    let extremes = [
        1,
        2,
        3,
        (1 << 52) - 1,
        1 << 52,
        (1 << 53) - 1,
        1 << 53,
        (1 << 53) + 1,
        (1 << 53) + 2,
        (1 << 62) + 1,
        i64::MAX as u64,
        u64::MAX - 1,
        u64::MAX,
    ];
    for count in extremes {
        for part in extremes {
            for whole in extremes {
                assert_eq!(share(count, part, whole), native(count, part, whole));
            }
        }
    }
}

#[test]
fn the_whole_share_is_the_count() {
    for count in [0, 1, 675, (1 << 53) - 1, 1 << 53] {
        for whole in [1, 7, 60_000, u64::MAX] {
            assert_eq!(share(count, whole, whole), count);
        }
    }
    // Past that a count may round up.
    assert_eq!(share((1 << 53) + 3, 7, 7), (1 << 53) + 4);
}

#[test]
fn a_larger_part_has_no_smaller_share() {
    let mut before = 0;
    for part in 0..=60_000 {
        let now = share(987_654_321, part, 60_000);
        assert!(now >= before);
        before = now;
    }
    assert_eq!(before, 987_654_321);
}

#[test]
fn shares_are_less_than_one_away_from_the_proportion() {
    let mut seed: u64 = 7;
    for _ in 0..20_000 {
        let count = next(&mut seed) >> 15;
        let whole = (next(&mut seed) >> (1 + next(&mut seed) % 62)).max(1);
        let part = next(&mut seed) % (whole + 1);
        let found = share(count, part, whole) as u128 * whole as u128;
        let exact = count as u128 * part as u128;
        assert!(found < exact + whole as u128 && exact < found + whole as u128);
    }
}
