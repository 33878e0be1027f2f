use tidefi_stake::percent::PERCENT_ACCURACY;
use tidefi_stake::Percent;

#[test]
fn from_parts_keeps_parts_up_to_a_hundred() {
    assert_eq!(Percent::from_parts(0).deconstruct(), 0);
    assert_eq!(Percent::from_parts(1).deconstruct(), 1);
    assert_eq!(Percent::from_parts(99).deconstruct(), 99);
    assert_eq!(Percent::from_parts(100).deconstruct(), 100);
    assert_eq!(PERCENT_ACCURACY, 100);
}

#[test]
fn from_parts_caps_at_the_whole() {
    assert_eq!(Percent::from_parts(101).deconstruct(), 100);
    assert_eq!(Percent::from_parts(255).deconstruct(), 100);
    assert_eq!(Percent::from_parts(200), Percent::from_parts(100));
    assert_eq!(Percent::from_parts(200).share_of(12_345), 12_345);
}

#[test]
fn share_of_is_exact_where_the_amount_divides() {
    assert_eq!(Percent::from_parts(1).share_of(1_000_000_000_000), 10_000_000_000);
    assert_eq!(Percent::from_parts(2).share_of(100_000_000_000_000), 2_000_000_000_000);
    assert_eq!(Percent::from_parts(5).share_of(200), 10);
    assert_eq!(Percent::from_parts(100).share_of(77), 77);
    assert_eq!(Percent::from_parts(0).share_of(77), 0);
    assert_eq!(Percent::from_parts(50).share_of(0), 0);
}

#[test]
fn share_of_rounds_to_the_nearest_unit() {
    // 3.4 goes down, 3.6 goes up
    assert_eq!(Percent::from_parts(34).share_of(10), 3);
    assert_eq!(Percent::from_parts(36).share_of(10), 4);
    // 0.49 goes down, 0.51 goes up
    assert_eq!(Percent::from_parts(49).share_of(1), 0);
    assert_eq!(Percent::from_parts(51).share_of(1), 1);
    // 1% of 149 is 1.49, of 151 is 1.51
    assert_eq!(Percent::from_parts(1).share_of(149), 1);
    assert_eq!(Percent::from_parts(1).share_of(151), 2);
}

#[test]
fn share_of_sends_a_tie_downwards() {
    // 0.5, 1.5 and 2.5
    assert_eq!(Percent::from_parts(50).share_of(1), 0);
    assert_eq!(Percent::from_parts(50).share_of(3), 1);
    assert_eq!(Percent::from_parts(50).share_of(5), 2);
    // 1% of 150 is 1.5
    assert_eq!(Percent::from_parts(1).share_of(150), 1);
}

#[test]
fn share_of_does_not_hand_the_amount_back() {
    let amount: u128 = 1_000_000_000_000;
    assert_ne!(Percent::from_parts(1).share_of(amount), amount);
    assert_eq!(Percent::from_parts(1).share_of(amount), amount / 100);
}

#[test]
fn share_of_works_at_the_top_of_the_range() {
    assert_eq!(Percent::from_parts(100).share_of(u128::MAX), u128::MAX);
    // u128::MAX = 100 * q + 55
    let q = u128::MAX / 100;
    assert_eq!(u128::MAX % 100, 55);
    // 1% is q + 0.55, which goes up
    assert_eq!(Percent::from_parts(1).share_of(u128::MAX), q + 1);
    // 50% is 50 * q + 27.5, which goes down
    assert_eq!(Percent::from_parts(50).share_of(u128::MAX), 50 * q + 27);
}

#[test]
fn share_of_is_never_more_than_the_amount() {
    for parts in 0..=255u8 {
        for amount in [0u128, 1, 2, 49, 50, 51, 99, 100, 101, 12_345, u128::MAX - 1, u128::MAX] {
            let share = Percent::from_parts(parts).share_of(amount);
            assert!(share <= amount);
            if amount < u128::MAX / 200 {
                let p = if parts > 100 { 100 } else { parts as u128 };
                assert_eq!(share, (amount * p + 49) / 100);
            }
        }
    }
}
