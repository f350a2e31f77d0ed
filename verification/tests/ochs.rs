use strength_tables::ochs::build_ochs_histograms;
use strength_tables::ochs::Combination;
use strength_tables::ochs::Histogram;
use strength_tables::suits::suit_multiplicity;

fn cards_of(suits: [u64; 4]) -> u64 {
    suits[0] | (suits[1] << 13) | (suits[2] << 26) | (suits[3] << 39)
}

fn weights(h: &Histogram) -> Vec<u64> {
    (0..h.size()).map(|k| h.weight(k)).collect()
}

#[test]
fn four_distinct_suit_patterns_have_24_arrangements() {
    let cards = cards_of([0b1, 0b10, 0, 0]);
    let board = cards_of([0, 0, 0b111, 0b11000]);
    assert_eq!(suit_multiplicity(cards, board), 24);
}

#[test]
fn one_pair_of_equal_patterns_has_12_arrangements() {
    let cards = cards_of([0b11, 0, 0, 0]);
    let board = cards_of([0, 0b1, 0b1110, 0b1110]);
    assert_eq!(suit_multiplicity(cards, board), 12);
    let cards = cards_of([0, 0, 0, 0b10]);
    let board = cards_of([0b11011, 0, 0, 0]);
    assert_eq!(suit_multiplicity(cards, board), 24 / 2);
}

#[test]
fn two_pairs_of_equal_patterns_have_6_arrangements() {
    let cards = cards_of([0b1, 0, 0b1, 0]);
    let board = cards_of([0b100, 0b10, 0b100, 0b10]);
    assert_eq!(suit_multiplicity(cards, board), 6);
}

#[test]
fn three_equal_patterns_have_4_arrangements() {
    let cards = cards_of([0, 0, 0b11, 0]);
    let board = cards_of([0, 0, 0b11100, 0]);
    assert_eq!(suit_multiplicity(cards, board), 4);
    let cards = cards_of([0b1000, 0b100, 0b100, 0b100]);
    assert_eq!(suit_multiplicity(cards, 0), 4);
}

#[test]
fn four_equal_patterns_have_one_arrangement() {
    assert_eq!(suit_multiplicity(0, 0), 1);
    let same = cards_of([0b1, 0b1, 0b1, 0b1]);
    assert_eq!(suit_multiplicity(same, 0), 1);
    assert_eq!(suit_multiplicity(0, same), 1);
}

#[test]
fn patterns_tell_hole_cards_from_board_cards() {
    // The same ranks in two suits, once as hole cards and once on the board.
    let cards = cards_of([0b1, 0, 0, 0]);
    let board = cards_of([0, 0b1, 0, 0]);
    assert_eq!(suit_multiplicity(cards, board), 12);
    assert_eq!(suit_multiplicity(cards | board, 0), 6);
}

#[test]
fn multiplicity_does_not_depend_on_the_order_of_the_suits() {
    let ranks = [0b1u64, 0b110, 0b1, 0b1000000000000];
    let boards = [0b10u64, 0, 0b10, 0b1];
    let orders = [[0, 1, 2, 3], [3, 2, 1, 0], [1, 0, 3, 2], [2, 3, 0, 1], [0, 2, 1, 3]];
    for order in orders.iter() {
        let cards = cards_of([ranks[order[0]], ranks[order[1]], ranks[order[2]], ranks[order[3]]]);
        let board =
            cards_of([boards[order[0]], boards[order[1]], boards[order[2]], boards[order[3]]]);
        assert_eq!(suit_multiplicity(cards, board), 12);
    }
}

#[test]
fn histogram_starts_empty() {
    let h = Histogram::new(47);
    assert_eq!(h.size(), 47);
    assert_eq!(weights(&h), vec![0u64; 47]);
    assert_eq!(h.total(), 0);
    assert_eq!(Histogram::new(0).size(), 0);
    assert_eq!(Histogram::new(0).total(), 0);
}

#[test]
fn histogram_put_adds_weight() {
    let mut h = Histogram::new(4);
    h.put(1, 24);
    h.put(3, 6);
    h.put(1, 12);
    assert_eq!(weights(&h), vec![0, 36, 0, 6]);
    assert_eq!(h.total(), 42);
    h.put(0, 0);
    assert_eq!(weights(&h), vec![0, 36, 0, 6]);
}

#[test]
fn histogram_total_does_not_overflow() {
    let mut h = Histogram::new(3);
    h.put(0, u64::MAX);
    h.put(1, u64::MAX);
    h.put(2, 1);
    assert_eq!(h.total(), 2 * (u64::MAX as u128) + 1);
}

#[test]
fn ochs_histograms_weigh_combinations_by_multiplicity() {
    let strength: Vec<u16> = vec![0, 46, 46, 2161, 990];
    let combos = vec![
        Combination { cards: cards_of([0b11, 0, 0, 0]), board: cards_of([0, 0b1, 0b10, 0b100]), hole: 0 },
        Combination { cards: cards_of([0b1, 0b1, 0, 0]), board: cards_of([0b100, 0b100, 0, 0]), hole: 1 },
        Combination { cards: cards_of([0b1, 0b10, 0, 0]), board: 0, hole: 1 },
        Combination { cards: 0, board: 0, hole: 0 },
        Combination { cards: cards_of([0b1, 0b1, 0b1, 0]), board: 0, hole: 1 },
    ];
    let table = build_ochs_histograms(&strength, &combos, 3);
    assert_eq!(table.len(), 3);
    let mut first = vec![0u64; 47];
    first[0] = 24;
    first[46] = 1;
    assert_eq!(weights(&table[0]), first);
    let mut second = vec![0u64; 47];
    second[1] = 6 + 12;
    second[21] = 4;
    assert_eq!(weights(&table[1]), second);
    assert_eq!(weights(&table[2]), vec![0u64; 47]);
    assert_eq!(table[0].total(), 25);
    assert_eq!(table[1].total(), 22);
    assert_eq!(table[2].total(), 0);
}

#[test]
fn ochs_histograms_read_only_the_ranks_of_the_combinations() {
    let strength: Vec<u16> = vec![100, 60000];
    let combos = vec![Combination { cards: 0b11, board: 0b11100, hole: 0 }];
    let table = build_ochs_histograms(&strength, &combos, 1);
    assert_eq!(table[0].weight(2), 4);
    assert_eq!(table[0].total(), 4);
}

#[test]
fn ochs_histograms_without_combinations_are_empty() {
    let table = build_ochs_histograms(&Vec::new(), &Vec::new(), 2);
    assert_eq!(table.len(), 2);
    assert_eq!(table[0].size(), 47);
    assert_eq!(table[1].total(), 0);
    assert!(build_ochs_histograms(&Vec::new(), &Vec::new(), 0).is_empty());
}
