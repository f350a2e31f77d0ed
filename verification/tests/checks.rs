use strength_tables::cards::hole_pairs;
use strength_tables::histograms::check_readable;
use strength_tables::ranks::Hand;
use strength_tables::river::check_clustered;
use strength_tables::strengths::check_fits;

fn plain(index: usize, a: u8, b: u8) -> Hand {
    Hand { value: 0, index, hole: 0, a, b }
}

#[test]
fn hands_from_the_enumeration_fit() {
    let hands: Vec<Hand> =
        hole_pairs(0b11111).iter().enumerate().map(|(i, &(a, b))| plain(i, a, b)).collect();
    assert!(check_fits(&hands, 1081));
    assert!(!check_fits(&hands, 1080));
    assert!(check_fits(&Vec::new(), 0));
}

#[test]
fn a_hole_pair_given_twice_does_not_fit() {
    assert!(check_fits(&vec![plain(0, 3, 9), plain(1, 3, 10), plain(2, 9, 10)], 3));
    assert!(!check_fits(&vec![plain(0, 3, 9), plain(1, 4, 10), plain(2, 3, 9)], 3));
}

#[test]
fn a_hand_must_hold_two_cards_of_the_deck_in_order() {
    assert!(!check_fits(&vec![plain(0, 9, 3)], 1));
    assert!(!check_fits(&vec![plain(0, 7, 7)], 1));
    assert!(!check_fits(&vec![plain(0, 7, 52)], 1));
    assert!(check_fits(&vec![plain(0, 50, 51)], 1));
}

#[test]
fn a_slot_beyond_the_table_does_not_fit() {
    assert!(check_fits(&vec![plain(4, 0, 1)], 5));
    assert!(!check_fits(&vec![plain(5, 0, 1)], 5));
}

#[test]
fn readable_slots_hold_ranks() {
    let strength: Vec<u16> = vec![0, 2161, 2162, 40];
    assert!(check_readable(&strength, &vec![0, 1, 3, 3]));
    assert!(!check_readable(&strength, &vec![0, 2]));
    assert!(!check_readable(&strength, &vec![4]));
    assert!(check_readable(&strength, &Vec::new()));
}

#[test]
fn clustered_hands_have_an_assigned_hole_slot() {
    let ochs = vec![0, 2, 1];
    let at = |hole: usize| Hand { value: 0, index: 0, hole, a: 0, b: 1 };
    assert!(check_clustered(&vec![at(0), at(1), at(2)], &ochs, 3));
    assert!(!check_clustered(&vec![at(0), at(1)], &ochs, 2));
    assert!(!check_clustered(&vec![at(3)], &ochs, 3));
    assert!(check_clustered(&Vec::new(), &Vec::new(), 0));
}

#[test]
fn pairs_are_the_ways_to_choose_two_free_cards() {
    for blocked in [0u64, 0b1, 0b11111, 0xffff, (1u64 << 52) - 1, u64::MAX, 1u64 << 60] {
        let free = (0..52).filter(|&c| (blocked >> c) & 1 == 0).count();
        assert_eq!(hole_pairs(blocked).len() * 2, free * free.saturating_sub(1));
    }
}
