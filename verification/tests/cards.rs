use strength_tables::cards::free_cards;
use strength_tables::cards::has_card;
use strength_tables::cards::hole_mask;
use strength_tables::cards::hole_pairs;
use strength_tables::cards::DECK;

#[test]
fn deck_has_fifty_two_cards() {
    assert_eq!(DECK, 52);
}

#[test]
fn has_card_reads_single_bits() {
    let mask: u64 = (1 << 0) | (1 << 13) | (1 << 51);
    assert!(has_card(mask, 0));
    assert!(has_card(mask, 13));
    assert!(has_card(mask, 51));
    assert!(!has_card(mask, 1));
    assert!(!has_card(mask, 50));
    assert!(!has_card(0, 7));
}

#[test]
fn hole_mask_sets_exactly_two_bits() {
    assert_eq!(hole_mask(0, 1), 0b11);
    assert_eq!(hole_mask(3, 51), (1u64 << 3) | (1u64 << 51));
    assert_eq!(hole_mask(5, 5), 1u64 << 5);
}

#[test]
fn empty_board_leaves_all_hole_pairs() {
    let pairs = hole_pairs(0);
    assert_eq!(pairs.len(), 1326);
    assert_eq!(pairs[0], (0, 1));
    assert_eq!(pairs[1], (0, 2));
    assert_eq!(pairs[51], (1, 2));
    assert_eq!(pairs[1325], (50, 51));
}

#[test]
fn hole_pairs_come_in_ascending_order() {
    let pairs = hole_pairs(0b1010_1010);
    for w in pairs.windows(2) {
        assert!(w[0] < w[1]);
    }
    for &(a, b) in pairs.iter() {
        assert!(a < b && b < 52);
    }
}

#[test]
fn five_card_board_leaves_1081_hole_pairs() {
    let board: u64 = (1 << 2) | (1 << 17) | (1 << 30) | (1 << 44) | (1 << 51);
    let pairs = hole_pairs(board);
    assert_eq!(pairs.len(), 1081);
    for &(a, b) in pairs.iter() {
        assert_eq!(hole_mask(a, b) & board, 0);
    }
    assert!(pairs.contains(&(0, 1)));
    assert!(!pairs.contains(&(2, 3)));
    assert!(!pairs.contains(&(50, 51)));
    assert!(pairs.contains(&(49, 50)));
}

#[test]
fn cards_beyond_the_deck_are_never_dealt() {
    let pairs = hole_pairs(0);
    assert!(pairs.iter().all(|&(_, b)| b < 52));
    let cards = free_cards(0);
    assert_eq!(cards.len(), 52);
    assert_eq!(cards[51], 51);
}

#[test]
fn full_deck_leaves_nothing() {
    let all: u64 = (1u64 << 52) - 1;
    assert!(hole_pairs(all).is_empty());
    assert!(free_cards(all).is_empty());
}

#[test]
fn one_free_card_makes_no_pair() {
    let all_but_one: u64 = ((1u64 << 52) - 1) & !(1u64 << 20);
    assert!(hole_pairs(all_but_one).is_empty());
    assert_eq!(free_cards(all_but_one), vec![20]);
}

#[test]
fn turn_leaves_forty_six_river_cards() {
    let known: u64 = 0b11 | (1 << 10) | (1 << 20) | (1 << 30) | (1 << 40);
    let cards = free_cards(known);
    assert_eq!(cards.len(), 46);
    for w in cards.windows(2) {
        assert!(w[0] < w[1]);
    }
    assert!(!cards.contains(&0));
    assert!(!cards.contains(&40));
    assert!(cards.contains(&2));
}

#[test]
fn flop_leaves_1081_pairs_of_cards_to_come() {
    let known: u64 = 0b11 | (1 << 10) | (1 << 20) | (1 << 30);
    assert_eq!(hole_pairs(known).len(), 1081);
}

#[test]
fn a_pair_is_free_when_its_mask_misses_the_blocked_cards() {
    let blocked: u64 = 0b1011 | (1 << 33);
    for &(a, b) in hole_pairs(0).iter() {
        let free = !has_card(blocked, a) && !has_card(blocked, b);
        assert_eq!(free, hole_mask(a, b) & blocked == 0);
    }
}
