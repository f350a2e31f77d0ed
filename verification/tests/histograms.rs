use strength_tables::buckets::bucket_of;
use strength_tables::buckets::BOARD_HANDS;
use strength_tables::buckets::BUCKETS;
use strength_tables::buckets::MAX_RANK;
use strength_tables::cards::free_cards;
use strength_tables::cards::hole_pairs;
use strength_tables::histograms::flop_histogram;
use strength_tables::histograms::generate_flop_histograms;
use strength_tables::histograms::generate_turn_histograms;
use strength_tables::histograms::turn_histogram;
use strength_tables::ranks::Hand;
use strength_tables::strengths::build_strengths;

#[test]
fn bucket_constants() {
    assert_eq!(BUCKETS, 47);
    assert_eq!(MAX_RANK, 2162);
    assert_eq!(BOARD_HANDS, 1081);
}

#[test]
fn bucket_of_scales_and_rounds_down() {
    assert_eq!(bucket_of(0), 0);
    assert_eq!(bucket_of(45), 0);
    assert_eq!(bucket_of(46), 1);
    assert_eq!(bucket_of(91), 1);
    assert_eq!(bucket_of(92), 2);
    assert_eq!(bucket_of(990), 21);
    assert_eq!(bucket_of(1472), 32);
    assert_eq!(bucket_of(1980), 43);
    assert_eq!(bucket_of(2115), 45);
    assert_eq!(bucket_of(2116), 46);
    assert_eq!(bucket_of(2161), 46);
}

#[test]
fn every_rank_has_a_bucket() {
    for rank in 0..MAX_RANK {
        let b = bucket_of(rank);
        assert!(b < BUCKETS);
        assert_eq!(b, rank as usize * 47 / 2162);
    }
}

#[test]
fn bucket_of_is_defined_beyond_the_ranks() {
    assert_eq!(bucket_of(2162), 47);
    assert_eq!(bucket_of(u16::MAX), 65535 * 47 / 2162);
}

#[test]
fn flop_histogram_counts_completions_by_bucket() {
    let strength: Vec<u16> = vec![0, 45, 46, 100, 2161, 990, 991];
    let slots: Vec<usize> = vec![0, 1, 2, 3, 4, 5, 6, 2, 2, 4];
    let hist = flop_histogram(&strength, &slots);
    assert_eq!(hist.len(), 47);
    let mut expected = vec![0u16; 47];
    expected[0] = 2;
    expected[1] = 3;
    expected[2] = 1;
    expected[21] = 2;
    expected[46] = 2;
    assert_eq!(hist, expected);
    assert_eq!(hist.iter().map(|&c| c as usize).sum::<usize>(), slots.len());
}

#[test]
fn turn_histogram_counts_completions_by_bucket() {
    let strength: Vec<u16> = vec![2000, 10, 500];
    let slots: Vec<usize> = vec![2, 2, 0, 1, 2];
    let hist = turn_histogram(&strength, &slots);
    assert_eq!(hist.len(), 47);
    let mut expected = vec![0u8; 47];
    expected[0] = 1;
    expected[10] = 3;
    expected[43] = 1;
    assert_eq!(hist, expected);
}

#[test]
fn histogram_of_no_completions_is_empty() {
    let strength: Vec<u16> = vec![1, 2, 3];
    assert_eq!(flop_histogram(&strength, &Vec::new()), vec![0u16; 47]);
    assert_eq!(turn_histogram(&strength, &Vec::new()), vec![0u8; 47]);
}

#[test]
fn turn_histogram_holds_up_to_255_completions() {
    let strength: Vec<u16> = vec![300];
    let slots: Vec<usize> = vec![0; 255];
    let hist = turn_histogram(&strength, &slots);
    assert_eq!(hist[6], 255);
    assert_eq!(hist.iter().map(|&c| c as usize).sum::<usize>(), 255);
}

#[test]
fn flop_histogram_mass_is_the_number_of_completions() {
    let strength: Vec<u16> = (0..2162).collect();
    let known: u64 = 0b11 | (1 << 10) | (1 << 20) | (1 << 30);
    let slots: Vec<usize> =
        hole_pairs(known).iter().map(|&(a, b)| (a as usize * 41 + b as usize * 3) % 2162).collect();
    let hist = flop_histogram(&strength, &slots);
    assert_eq!(hist.iter().map(|&c| c as usize).sum::<usize>(), 1081);
}

#[test]
fn turn_histogram_mass_is_the_number_of_river_cards() {
    let strength: Vec<u16> = (0..2162).collect();
    let known: u64 = 0b11 | (1 << 10) | (1 << 20) | (1 << 30) | (1 << 40);
    let slots: Vec<usize> = free_cards(known).iter().map(|&c| c as usize * 40).collect();
    let hist = turn_histogram(&strength, &slots);
    assert_eq!(hist.iter().map(|&c| c as usize).sum::<usize>(), 46);
}

#[test]
fn generate_flop_histograms_makes_one_histogram_per_combination() {
    let strength: Vec<u16> = vec![0, 46, 92, 2161];
    let completions = vec![vec![0, 1, 2, 3], vec![], vec![3, 3, 3]];
    let table = generate_flop_histograms(&strength, &completions);
    assert_eq!(table.len(), 3);
    assert_eq!(table[0], flop_histogram(&strength, &completions[0]));
    assert_eq!(table[1], vec![0u16; 47]);
    assert_eq!(table[2][46], 3);
    assert_eq!(table[0][0] + table[0][1] + table[0][2] + table[0][46], 4);
}

#[test]
fn generate_turn_histograms_makes_one_histogram_per_combination() {
    let strength: Vec<u16> = vec![0, 46, 92, 2161];
    let completions = vec![vec![1, 1], vec![0, 2, 3]];
    let table = generate_turn_histograms(&strength, &completions);
    assert_eq!(table.len(), 2);
    assert_eq!(table[0][1], 2);
    assert_eq!(table[1], turn_histogram(&strength, &completions[1]));
    assert!(generate_turn_histograms(&strength, &Vec::new()).is_empty());
}

#[test]
fn all_hands_tied_put_the_whole_flop_mass_in_one_bucket() {
    // A flop: two hole cards and three board cards. Every completion leads to
    // a board on which all hands tie, so every hand there has rank 990.
    let hole: u64 = 0b11;
    let flop: u64 = (1 << 10) | (1 << 20) | (1 << 30);
    let completions = hole_pairs(hole | flop);
    let mut boards: Vec<Vec<Hand>> = Vec::new();
    let mut slots: Vec<usize> = Vec::new();
    let mut next_slot = 0;
    for &(c, d) in completions.iter().take(12) {
        let board = flop | (1u64 << c) | (1u64 << d);
        let mut hands = Vec::new();
        for &(a, b) in hole_pairs(board).iter() {
            if (a, b) == (0, 1) {
                slots.push(next_slot);
            }
            hands.push(Hand { value: 7, index: next_slot, hole: 0, a, b });
            next_slot += 1;
        }
        boards.push(hands);
    }
    let strength = build_strengths(next_slot, &boards);
    let hist = flop_histogram(&strength, &slots);
    assert_eq!(slots.len(), 12);
    for (k, &count) in hist.iter().enumerate() {
        if k == bucket_of(990) {
            assert_eq!(count, 12);
        } else {
            assert_eq!(count, 0);
        }
    }
    assert_eq!(completions.len(), 1081);
}
