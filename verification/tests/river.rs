use strength_tables::cards::hole_pairs;
use strength_tables::clusters::cluster_count;
use strength_tables::clusters::cluster_sizes;
use strength_tables::ranks::Hand;
use strength_tables::river::generate_river_histograms;
use strength_tables::river::record_river_board;
use strength_tables::river::Fraction;

fn disjoint(x: &Hand, y: &Hand) -> bool {
    x.a != y.a && x.a != y.b && x.b != y.a && x.b != y.b
}

fn holds(o: &Hand, c: u8) -> bool {
    o.a == c || o.b == c
}

fn expected_shares(hands: &[Hand], ochs: &[usize], sizes: &[u32], h: &Hand) -> Vec<Fraction> {
    (0..sizes.len())
        .map(|k| {
            let members: Vec<&Hand> = hands.iter().filter(|o| ochs[o.hole] == k).collect();
            let won = members.iter().filter(|o| o.value < h.value && disjoint(o, h)).count();
            let split = members.iter().filter(|o| o.value == h.value && disjoint(o, h)).count();
            let own = if ochs[h.hole] == k { 1 } else { 0 };
            let with_a = members.iter().filter(|o| holds(o, h.a)).count() as i64;
            let with_b = members.iter().filter(|o| holds(o, h.b)).count() as i64;
            Fraction {
                numerator: (2 * won + split) as u32,
                denominator: sizes[k] as i64 + own - 2 * with_a - 2 * with_b,
            }
        })
        .collect()
}

fn deck_holes() -> Vec<usize> {
    (0..1326).collect()
}

fn toy_clusters() -> Vec<usize> {
    hole_pairs(0).iter().map(|&(a, b)| (a as usize + 2 * b as usize) % 3).collect()
}

fn hole_slot(a: u8, b: u8) -> usize {
    hole_pairs(0).iter().position(|&p| p == (a, b)).unwrap()
}

fn toy_river_board(board: u64, first_slot: usize) -> Vec<Hand> {
    hole_pairs(board)
        .iter()
        .enumerate()
        .map(|(i, &(a, b))| Hand {
            value: ((a as u64) * 5 + (b as u64) * 3) % 9,
            index: first_slot + i,
            hole: hole_slot(a, b),
            a,
            b,
        })
        .collect()
}

#[test]
fn cluster_count_is_one_more_than_the_greatest_cluster() {
    assert_eq!(cluster_count(&vec![0, 3, 1, 3, 2]), 4);
    assert_eq!(cluster_count(&vec![0]), 1);
    assert_eq!(cluster_count(&vec![7, 0]), 8);
    assert_eq!(cluster_count(&Vec::new()), 0);
}

#[test]
fn cluster_sizes_count_the_hole_slots_of_each_cluster() {
    let ochs = vec![0, 2, 2, 1, 2];
    assert_eq!(cluster_sizes(&ochs, &vec![0, 1, 2, 3, 4]), vec![1, 1, 3]);
    assert_eq!(cluster_sizes(&ochs, &vec![1, 1, 1, 0]), vec![1, 0, 3]);
    assert_eq!(cluster_sizes(&ochs, &Vec::new()), vec![0, 0, 0]);
}

#[test]
fn cluster_sizes_over_the_deck_add_up_to_1326() {
    let sizes = cluster_sizes(&toy_clusters(), &deck_holes());
    assert_eq!(sizes.len(), 3);
    assert_eq!(sizes.iter().sum::<u32>(), 1326);
}

#[test]
fn river_shares_of_a_small_board() {
    // Hole slots 0..5 in clusters 0, 1, 0, 1, 1; cluster sizes 10 and 20.
    let ochs = vec![0, 1, 0, 1, 1];
    let sizes = vec![10u32, 20];
    let hands = vec![
        Hand { value: 5, index: 0, hole: 0, a: 0, b: 1 },
        Hand { value: 5, index: 1, hole: 1, a: 2, b: 3 },
        Hand { value: 3, index: 2, hole: 2, a: 0, b: 2 },
        Hand { value: 7, index: 3, hole: 3, a: 4, b: 5 },
        Hand { value: 3, index: 4, hole: 4, a: 6, b: 7 },
    ];
    let mut table = vec![Vec::new(); 5];
    record_river_board(&mut table, hands, &ochs, &sizes);
    // (0,1): no cluster-0 hand apart from it and below or level; in cluster
    // 1 it beats (6,7) and ties with (2,3).
    assert_eq!(
        table[0],
        vec![
            Fraction { numerator: 0, denominator: 10 + 1 - 2 * 2 - 2 * 1 },
            Fraction { numerator: 3, denominator: 20 },
        ]
    );
    // (4,5) beats both hands of cluster 0 and the two others of cluster 1.
    assert_eq!(
        table[3],
        vec![
            Fraction { numerator: 4, denominator: 10 },
            Fraction { numerator: 4, denominator: 20 + 1 - 2 - 2 },
        ]
    );
    // (0,2) shares a card with (0,1) and with (2,3); it ties with (6,7).
    assert_eq!(
        table[2],
        vec![
            Fraction { numerator: 0, denominator: 10 + 1 - 2 * 2 - 2 * 1 },
            Fraction { numerator: 1, denominator: 20 - 2 },
        ]
    );
}

#[test]
fn river_shares_match_the_counts_on_a_full_board() {
    let ochs = toy_clusters();
    let sizes = cluster_sizes(&ochs, &deck_holes());
    let board: u64 = (1 << 1) | (1 << 14) | (1 << 27) | (1 << 40) | (1 << 51);
    let hands = toy_river_board(board, 0);
    let mut table = vec![Vec::new(); hands.len()];
    record_river_board(&mut table, hands.clone(), &ochs, &sizes);
    for h in hands.iter() {
        assert_eq!(table[h.index], expected_shares(&hands, &ochs, &sizes, h));
    }
}

#[test]
fn river_credits_over_all_clusters_add_up_to_the_rank() {
    let ochs = toy_clusters();
    let sizes = cluster_sizes(&ochs, &deck_holes());
    let board: u64 = 0b11111 << 20;
    let hands = toy_river_board(board, 0);
    let mut table = vec![Vec::new(); hands.len()];
    record_river_board(&mut table, hands.clone(), &ochs, &sizes);
    let mut sorted = hands.clone();
    let ranks = strength_tables::ranks::rank_hands(&mut sorted);
    for (h, &rank) in sorted.iter().zip(ranks.iter()) {
        let credit: u32 = table[h.index].iter().map(|f| f.numerator).sum();
        assert_eq!(credit, rank as u32);
    }
}

#[test]
fn river_board_without_hands_changes_nothing() {
    let mut table = vec![vec![Fraction { numerator: 1, denominator: 2 }]; 2];
    let before = table.clone();
    record_river_board(&mut table, Vec::new(), &vec![0], &vec![5]);
    assert_eq!(table, before);
}

#[test]
fn river_population_can_be_zero_or_less() {
    // A cluster of one hole pair, which is the hand itself.
    let ochs = vec![0, 1];
    let sizes = vec![1u32, 1];
    let hands = vec![
        Hand { value: 1, index: 0, hole: 0, a: 0, b: 1 },
        Hand { value: 2, index: 1, hole: 1, a: 2, b: 3 },
    ];
    let mut table = vec![Vec::new(); 2];
    record_river_board(&mut table, hands, &ochs, &sizes);
    assert_eq!(table[0][0], Fraction { numerator: 0, denominator: -2 });
    assert_eq!(table[0][1], Fraction { numerator: 0, denominator: 1 });
    assert_eq!(table[1][0], Fraction { numerator: 2, denominator: 1 });
    assert_eq!(table[1][1], Fraction { numerator: 0, denominator: -2 });
}

#[test]
fn the_best_hand_can_earn_more_than_the_population_of_a_cluster() {
    // One cluster of all 1326 hole pairs; every hand has an outcome of its own.
    let ochs = vec![0usize; 1326];
    let sizes = cluster_sizes(&ochs, &deck_holes());
    assert_eq!(sizes, vec![1326]);
    let board: u64 = 0b11111;
    let hands: Vec<Hand> = hole_pairs(board)
        .iter()
        .enumerate()
        .map(|(i, &(a, b))| Hand { value: i as u64, index: i, hole: hole_slot(a, b), a, b })
        .collect();
    let mut table = vec![Vec::new(); 1081];
    record_river_board(&mut table, hands, &ochs, &sizes);
    assert_eq!(table[1080], vec![Fraction { numerator: 1980, denominator: 1143 }]);
    assert_eq!(table[0], vec![Fraction { numerator: 0, denominator: 1143 }]);
}

#[test]
fn generate_river_histograms_fills_untouched_slots_with_no_share() {
    let ochs = vec![1, 0];
    let holes = vec![0, 1, 1];
    let table = generate_river_histograms(3, &Vec::new(), &ochs, &holes);
    let blank = vec![Fraction { numerator: 0, denominator: 1 }; 2];
    assert_eq!(table, vec![blank.clone(), blank.clone(), blank]);
}

#[test]
fn generate_river_histograms_files_boards_in_order() {
    let ochs = toy_clusters();
    let holes = deck_holes();
    let sizes = cluster_sizes(&ochs, &holes);
    let first = toy_river_board(0b11111, 0);
    let second = toy_river_board(0b11111 << 30, 600);
    let size = 600 + 1081;
    let table = generate_river_histograms(size, &vec![first.clone(), second.clone()], &ochs, &holes);
    assert_eq!(table.len(), size);
    let mut by_hand = vec![vec![Fraction { numerator: 0, denominator: 1 }; 3]; size];
    record_river_board(&mut by_hand, first.clone(), &ochs, &sizes);
    record_river_board(&mut by_hand, second.clone(), &ochs, &sizes);
    assert_eq!(table, by_hand);
    for h in second.iter() {
        assert_eq!(table[h.index], expected_shares(&second, &ochs, &sizes, h));
    }
    for h in first.iter().filter(|h| h.index < 600) {
        assert_eq!(table[h.index], expected_shares(&first, &ochs, &sizes, h));
    }
}

#[test]
fn river_table_is_the_same_when_built_twice() {
    let ochs = toy_clusters();
    let holes = deck_holes();
    let boards = vec![toy_river_board(0b11111, 0)];
    let once = generate_river_histograms(1081, &boards, &ochs, &holes);
    let twice = generate_river_histograms(1081, &boards, &ochs, &holes);
    assert_eq!(once, twice);
}
