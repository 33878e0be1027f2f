use tidefi_stake::weights::{
    add_market_maker, confirm_swap, im_alive, phragmen, phragmms, remove_market_maker, set_account_id, set_status,
};

const READ: u64 = 25_000_000;
const WRITE: u64 = 100_000_000;

#[test]
fn a_call_weighs_its_base_and_six_reads_and_five_writes() {
    assert_eq!(set_status(READ, WRITE), 711_000_300);
    assert_eq!(add_market_maker(READ, WRITE), 711_000_300);
    assert_eq!(remove_market_maker(READ, WRITE), 711_000_300);
    assert_eq!(set_account_id(READ, WRITE), 712_000_300);
    assert_eq!(confirm_swap(READ, WRITE), 713_000_400);
    assert_eq!(im_alive(READ, WRITE), 714_000_400);
}

#[test]
fn a_call_on_free_storage_weighs_its_base() {
    assert_eq!(set_status(0, 0), 61_000_300);
    assert_eq!(add_market_maker(0, 0), 61_000_300);
    assert_eq!(remove_market_maker(0, 0), 61_000_300);
    assert_eq!(set_account_id(0, 0), 62_000_300);
    assert_eq!(confirm_swap(0, 0), 63_000_400);
    assert_eq!(im_alive(0, 0), 64_000_400);
    assert_eq!(set_status(1, 0), 61_000_306);
    assert_eq!(set_status(0, 1), 61_000_305);
    assert_eq!(set_status(1, 1), 61_000_311);
}

#[test]
fn a_call_weight_is_held_at_the_largest_weight() {
    for weigh in [set_status, add_market_maker, remove_market_maker, set_account_id, confirm_swap, im_alive] {
        assert_eq!(weigh(u64::MAX, 0), u64::MAX);
        assert_eq!(weigh(0, u64::MAX), u64::MAX);
        assert_eq!(weigh(u64::MAX, u64::MAX), u64::MAX);
        assert_eq!(weigh(u64::MAX / 6 + 1, 0), u64::MAX);
        assert_eq!(weigh(0, u64::MAX / 5 + 1), u64::MAX);
    }
    // the product fits, the sum does not
    assert_eq!(set_status(u64::MAX / 6, 0), u64::MAX);
    assert_eq!(set_status((u64::MAX - 61_000_300) / 6, 0), 61_000_300 + (u64::MAX - 61_000_300) / 6 * 6);
    assert_eq!(set_status(u64::MAX / 12, u64::MAX / 10), u64::MAX);
}

#[test]
fn an_election_weighs_by_its_voters_and_votes() {
    assert_eq!(phragmen(0, 0, 0), 0);
    assert_eq!(phragmms(0, 0, 0), 0);
    assert_eq!(phragmen(1, 0, 0), 18_247_000);
    assert_eq!(phragmen(0, 0, 1), 2_979_831_000);
    assert_eq!(phragmms(1, 0, 0), 16_045_000);
    assert_eq!(phragmms(0, 0, 1), 2_712_807_000);
    assert_eq!(phragmen(1_000, 7, 16), 18_247_000_000 + 47_677_296_000);
    assert_eq!(phragmms(1_000, 7, 16), 16_045_000_000 + 43_404_912_000);
}

#[test]
fn the_targets_of_an_election_do_not_count() {
    for t in [0, 1, 1_000, u32::MAX] {
        assert_eq!(phragmen(10, t, 3), phragmen(10, 0, 3));
        assert_eq!(phragmms(10, t, 3), phragmms(10, 0, 3));
    }
}

#[test]
fn the_largest_election_stays_in_range() {
    let max = u32::MAX as u64;
    assert_eq!(phragmen(u32::MAX, u32::MAX, u32::MAX), 18_247_000 * max + 2_979_831_000 * max);
    assert_eq!(phragmms(u32::MAX, u32::MAX, u32::MAX), 16_045_000 * max + 2_712_807_000 * max);
    assert!(phragmms(u32::MAX, 0, u32::MAX) <= phragmen(u32::MAX, 0, u32::MAX));
}

#[test]
fn an_election_weighs_more_with_more_voters_or_votes() {
    let sizes = [0u32, 1, 2, 1_000, 65_536, u32::MAX];
    for (i, small) in sizes.iter().enumerate() {
        for large in &sizes[i..] {
            assert!(phragmen(*small, 0, 5) <= phragmen(*large, 0, 5));
            assert!(phragmen(5, 0, *small) <= phragmen(5, 0, *large));
            assert!(phragmms(*small, 0, 5) <= phragmms(*large, 0, 5));
            assert!(phragmms(5, 0, *small) <= phragmms(5, 0, *large));
            assert!(phragmms(*small, 0, *large) <= phragmen(*small, 0, *large));
        }
    }
}
