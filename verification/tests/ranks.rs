use strength_tables::cards::hole_pairs;
use strength_tables::ranks::processing_key;
use strength_tables::ranks::rank_hands;
use strength_tables::ranks::Hand;

fn hand(value: u64, index: usize, a: u8, b: u8) -> Hand {
    Hand { value, index, hole: 0, a, b }
}

fn apart(x: &Hand, y: &Hand) -> bool {
    x.a != y.a && x.a != y.b && x.b != y.a && x.b != y.b
}

fn beaten(hands: &[Hand], h: &Hand) -> usize {
    hands.iter().filter(|o| o.value < h.value && apart(o, h)).count()
}

fn tied(hands: &[Hand], h: &Hand) -> usize {
    hands.iter().filter(|o| o.value == h.value && apart(o, h)).count()
}

fn beating(hands: &[Hand], h: &Hand) -> usize {
    hands.iter().filter(|o| o.value > h.value && apart(o, h)).count()
}

fn blocked(hands: &[Hand], h: &Hand) -> usize {
    2 * hands.iter().filter(|o| o.value < h.value && !apart(o, h)).count()
        + hands.iter().filter(|o| o.value == h.value && !apart(o, h)).count()
}

fn toy_value(a: u8, b: u8) -> u64 {
    ((a as u64) * 31 + (b as u64) * 17 + (a as u64) * (b as u64)) % 11
}

fn board_hands(board: u64, value: fn(u8, u8) -> u64) -> Vec<Hand> {
    hole_pairs(board)
        .iter()
        .enumerate()
        .map(|(i, &(a, b))| hand(value(a, b), i, a, b))
        .collect()
}

fn rank_in(sorted: &[Hand], ranks: &[u16], a: u8, b: u8) -> u16 {
    let at = sorted.iter().position(|h| h.a == a && h.b == b).unwrap();
    ranks[at]
}

const BOARD: u64 = (1 << 3) | (1 << 16) | (1 << 29) | (1 << 42) | (1 << 50);

#[test]
fn ranks_of_a_small_board() {
    let given = vec![
        hand(5, 0, 0, 1),
        hand(5, 1, 2, 3),
        hand(3, 2, 0, 2),
        hand(7, 3, 4, 5),
        hand(3, 4, 1, 3),
        hand(3, 5, 6, 7),
    ];
    let mut hands = given.clone();
    let ranks = rank_hands(&mut hands);
    assert_eq!(ranks.len(), 6);
    assert_eq!(rank_in(&hands, &ranks, 0, 1), 3);
    assert_eq!(rank_in(&hands, &ranks, 2, 3), 3);
    assert_eq!(rank_in(&hands, &ranks, 0, 2), 2);
    assert_eq!(rank_in(&hands, &ranks, 1, 3), 2);
    assert_eq!(rank_in(&hands, &ranks, 6, 7), 2);
    assert_eq!(rank_in(&hands, &ranks, 4, 5), 10);
}

#[test]
fn hands_come_back_in_processing_order() {
    let mut hands = vec![
        hand(9, 4, 10, 11),
        hand(2, 7, 0, 5),
        hand(9, 1, 20, 21),
        hand(2, 7, 0, 3),
        hand(5, 0, 30, 31),
    ];
    let ranks = rank_hands(&mut hands);
    let order: Vec<(u64, usize, u8, u8)> =
        hands.iter().map(|h| (h.value, h.index, h.a, h.b)).collect();
    assert_eq!(
        order,
        vec![(2, 7, 0, 3), (2, 7, 0, 5), (5, 0, 30, 31), (9, 1, 20, 21), (9, 4, 10, 11)]
    );
    assert_eq!(ranks, vec![0, 0, 4, 7, 7]);
}

#[test]
fn cluster_slot_orders_hands_before_their_cards() {
    let mut hands = vec![
        Hand { value: 1, index: 0, hole: 9, a: 0, b: 1 },
        Hand { value: 1, index: 0, hole: 2, a: 4, b: 5 },
    ];
    rank_hands(&mut hands);
    assert_eq!((hands[0].a, hands[0].b), (4, 5));
    assert_eq!((hands[1].a, hands[1].b), (0, 1));
}

#[test]
fn no_hands_no_ranks() {
    let mut hands: Vec<Hand> = Vec::new();
    assert!(rank_hands(&mut hands).is_empty());
    assert!(hands.is_empty());
}

#[test]
fn a_single_hand_has_rank_zero() {
    let mut hands = vec![hand(77, 0, 12, 40)];
    assert_eq!(rank_hands(&mut hands), vec![0]);
}

#[test]
fn a_hand_earns_nothing_from_hands_that_share_its_cards() {
    let mut hands = vec![hand(9, 0, 0, 1), hand(1, 1, 0, 2), hand(1, 2, 1, 3), hand(9, 3, 1, 2)];
    let ranks = rank_hands(&mut hands);
    assert_eq!(rank_in(&hands, &ranks, 0, 1), 0);
    assert_eq!(rank_in(&hands, &ranks, 1, 2), 0);
    assert_eq!(rank_in(&hands, &ranks, 0, 2), 1);
    assert_eq!(rank_in(&hands, &ranks, 1, 3), 1);
}

#[test]
fn ranks_match_the_count_of_beaten_and_tied_opponents() {
    let given = board_hands(BOARD, toy_value);
    assert_eq!(given.len(), 1081);
    let mut hands = given.clone();
    let ranks = rank_hands(&mut hands);
    for (h, &rank) in hands.iter().zip(ranks.iter()) {
        assert_eq!(rank as usize, 2 * beaten(&given, h) + tied(&given, h));
    }
}

#[test]
fn ranking_keeps_every_hand() {
    let given = board_hands(BOARD, toy_value);
    let mut hands = given.clone();
    rank_hands(&mut hands);
    let mut before: Vec<(u8, u8, u64, usize)> =
        given.iter().map(|h| (h.a, h.b, h.value, h.index)).collect();
    let mut after: Vec<(u8, u8, u64, usize)> =
        hands.iter().map(|h| (h.a, h.b, h.value, h.index)).collect();
    before.sort();
    after.sort();
    assert_eq!(before, after);
    for w in hands.windows(2) {
        assert!((w[0].value, w[0].index) <= (w[1].value, w[1].index));
    }
}

#[test]
fn outcomes_split_the_opposing_hands() {
    let given = board_hands(BOARD, toy_value);
    for h in given.iter() {
        assert_eq!(beaten(&given, h) + tied(&given, h) + beating(&given, h), 990);
    }
}

#[test]
fn all_hands_tied_share_rank_990() {
    let mut hands = board_hands(BOARD, |_, _| 4);
    let ranks = rank_hands(&mut hands);
    assert_eq!(ranks.len(), 1081);
    assert!(ranks.iter().all(|&r| r == 990));
}

#[test]
fn all_hands_distinct_best_hand_beats_every_opponent() {
    let mut hands = board_hands(BOARD, |a, b| (a as u64) * 52 + b as u64);
    let ranks = rank_hands(&mut hands);
    assert_eq!(*ranks.last().unwrap(), 2 * 990);
    assert_eq!(ranks[0], 0);
    assert!(ranks.iter().all(|&r| r < 2162));
}

#[test]
fn rank_and_blocked_credit_make_up_the_score() {
    let given = board_hands(BOARD, toy_value);
    let mut hands = given.clone();
    let ranks = rank_hands(&mut hands);
    for (h, &rank) in hands.iter().zip(ranks.iter()) {
        let below = given.iter().filter(|o| o.value < h.value).count();
        let level = given.iter().filter(|o| o.value == h.value).count();
        assert_eq!(rank as usize + blocked(&given, h), 2 * below + level);
    }
}

#[test]
fn tied_hands_with_equal_blocked_credit_share_their_rank() {
    let given = board_hands(BOARD, toy_value);
    let mut hands = given.clone();
    let ranks = rank_hands(&mut hands);
    let mut seen = 0;
    for i in 0..hands.len() {
        for j in (i + 1)..hands.len().min(i + 40) {
            if hands[i].value == hands[j].value {
                let same_block = blocked(&given, &hands[i]) == blocked(&given, &hands[j]);
                assert_eq!(ranks[i] == ranks[j], same_block);
                seen += 1;
            }
        }
    }
    assert!(seen > 0);
}

#[test]
fn tied_hands_that_block_differently_differ_in_rank() {
    let mut hands = vec![hand(5, 0, 0, 1), hand(5, 1, 2, 3), hand(1, 2, 0, 4), hand(1, 3, 1, 5)];
    let ranks = rank_hands(&mut hands);
    assert_eq!(rank_in(&hands, &ranks, 0, 1), 1);
    assert_eq!(rank_in(&hands, &ranks, 2, 3), 5);
}

#[test]
fn better_hand_that_blocks_no_more_ranks_higher() {
    let given = board_hands(BOARD, toy_value);
    let mut hands = given.clone();
    let ranks = rank_hands(&mut hands);
    let mut seen = 0;
    for i in 0..hands.len() {
        for j in (i + 1)..hands.len() {
            if hands[j].value > hands[i].value
                && blocked(&given, &hands[j]) <= blocked(&given, &hands[i])
            {
                assert!(ranks[j] > ranks[i]);
                seen += 1;
            }
        }
        if seen > 20000 {
            break;
        }
    }
    assert!(seen > 0);
}

#[test]
fn better_hand_that_blocks_the_weak_hands_can_rank_lower() {
    let mut hands = vec![hand(2, 0, 2, 3), hand(1, 1, 0, 1)];
    for b in 4..48u8 {
        hands.push(hand(0, hands.len(), 2, b));
        hands.push(hand(0, hands.len(), 3, b));
    }
    let ranks = rank_hands(&mut hands);
    assert_eq!(rank_in(&hands, &ranks, 2, 3), 2);
    assert_eq!(rank_in(&hands, &ranks, 0, 1), 176);
}

#[test]
fn processing_key_lists_outcome_slots_and_cards() {
    let h = Hand { value: 9, index: 8, hole: 7, a: 5, b: 6 };
    assert_eq!(processing_key(&h), (9, 8, 7, 5, 6));
}
