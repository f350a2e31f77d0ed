//! The multiplicity of a hole and board combination under suit relabelling:
//! the number of distinct ways to lay its four suit patterns over the four
//! suits.

use vstd::prelude::*;

verus! {

/// The ranks that `cards` holds in `suit`, as a 13-bit mask.
pub open spec fn suit_ranks(cards: u64, suit: u64) -> u64 {
    (cards >> (13 * suit) as u64) & 0x1fff
}

/// The pattern of a suit: the ranks the hole cards hold in it, and the
/// ranks the board holds in it.
pub open spec fn suit_patterns(cards: u64, board: u64) -> Seq<(u64, u64)> {
    seq![
        (suit_ranks(cards, 0), suit_ranks(board, 0)),
        (suit_ranks(cards, 1), suit_ranks(board, 1)),
        (suit_ranks(cards, 2), suit_ranks(board, 2)),
        (suit_ranks(cards, 3), suit_ranks(board, 3)),
    ]
}

/// One where the two patterns are the same, zero where they differ.
pub open spec fn agree(x: (u64, u64), y: (u64, u64)) -> int {
    if x == y {
        1
    } else {
        0
    }
}

/// The number of pairs of suits that have the same pattern.
pub open spec fn agreeing(p: Seq<(u64, u64)>) -> int {
    agree(p[0], p[1]) + agree(p[0], p[2]) + agree(p[0], p[3]) + agree(p[1], p[2]) + agree(
        p[1],
        p[3],
    ) + agree(p[2], p[3])
}

/// The number of distinct ways to lay four patterns over the four suits,
/// given how many pairs of them agree: all 24 orders where no two agree, 12
/// where one pair does, 6 for two pairs, 4 where three suits agree, and 1
/// where all four do.
pub open spec fn arrangements(agreeing: int) -> int {
    if agreeing == 0 {
        24
    } else if agreeing == 1 {
        12
    } else if agreeing == 2 {
        6
    } else if agreeing == 3 {
        4
    } else {
        1
    }
}

/// The multiplicity of the combination of hole cards `cards` and `board`.
pub open spec fn multiplicity(cards: u64, board: u64) -> int {
    arrangements(agreeing(suit_patterns(cards, board)))
}

/// The order that suit patterns are sorted by: by the ranks of the hole
/// cards, then by the ranks of the board.
spec fn pattern_le(x: (u64, u64), y: (u64, u64)) -> bool {
    x.0 < y.0 || (x.0 == y.0 && x.1 <= y.1)
}

/// Whether four patterns are in ascending order.
spec fn patterns_sorted(p: Seq<(u64, u64)>) -> bool {
    p.len() == 4 && pattern_le(p[0], p[1]) && pattern_le(p[1], p[2]) && pattern_le(p[2], p[3])
}

/// How many patterns just before position `t` are the same as the one at
/// `t`.
spec fn run_before(p: Seq<(u64, u64)>, t: int) -> int
    decreases t,
{
    if 0 < t < p.len() && p[t - 1] == p[t] {
        run_before(p, t - 1) + 1
    } else {
        0
    }
}

/// `w` divided by `d`, for the divisors from one to four.
spec fn split_among(w: int, d: int) -> int {
    if d <= 1 {
        w
    } else if d == 2 {
        w / 2
    } else if d == 3 {
        w / 3
    } else {
        w / 4
    }
}

/// The number of ways to lay out the first `t` patterns of a sorted list:
/// each pattern takes one of the suits that are left, and a pattern that
/// repeats the ones just before it is not told apart from them.
spec fn ways_upto(p: Seq<(u64, u64)>, t: int) -> int
    decreases t,
{
    if t <= 0 {
        1
    } else {
        split_among(ways_upto(p, t - 1) * (5 - t), run_before(p, t - 1) + 1)
    }
}

/// The ways to lay out the patterns of a sorted list, position by position.
proof fn lemma_ways(p: Seq<(u64, u64)>)
    requires
        patterns_sorted(p),
    ensures
        ways_upto(p, 4) == arrangements(agreeing(p)),
        forall|t: int| 0 <= t <= 4 ==> 1 <= #[trigger] ways_upto(p, t) <= 24,
{
    reveal_with_fuel(run_before, 5);
    reveal_with_fuel(ways_upto, 5);
    let e1 = p[0] == p[1];
    let e2 = p[1] == p[2];
    let e3 = p[2] == p[3];
    assert(ways_upto(p, 0) == 1);
    assert(ways_upto(p, 1) == 4);
    assert(ways_upto(p, 2) == if e1 {
        6int
    } else {
        12int
    });
    assert(ways_upto(p, 3) == if e1 && e2 {
        4int
    } else if e1 || e2 {
        12int
    } else {
        24int
    });
    assert(ways_upto(p, 4) == if e1 && e2 && e3 {
        1int
    } else if (e1 && e2) || (e2 && e3) {
        4int
    } else if e1 && e3 {
        6int
    } else if e1 || e2 || e3 {
        12int
    } else {
        24int
    });
    assert forall|t: int| 0 <= t <= 4 implies 1 <= #[trigger] ways_upto(p, t) <= 24 by {
        if t == 0 {
        } else if t == 1 {
        } else if t == 2 {
        } else if t == 3 {
        } else {
        }
    }
}

/// The pattern of `suit` in the combination.
fn pattern_of(cards: u64, board: u64, suit: u64) -> (p: (u64, u64))
    requires
        suit < 4,
    ensures
        p == (suit_ranks(cards, suit), suit_ranks(board, suit)),
{
    ((cards >> (13 * suit)) & 0x1fff, (board >> (13 * suit)) & 0x1fff)
}

/// Puts the patterns at `i` and `j` in ascending order.
fn order_pair(list: &mut Vec<(u64, u64)>, i: usize, j: usize)
    requires
        old(list).len() == 4,
        i < j < 4,
    ensures
        final(list).len() == 4,
        pattern_le(old(list)[i as int], old(list)[j as int]) ==> final(list)@ == old(list)@,
        !pattern_le(old(list)[i as int], old(list)[j as int]) ==> final(list)@ == old(list)@.update(
            i as int,
            old(list)[j as int],
        ).update(j as int, old(list)[i as int]),
{
    let x = list[i];
    let y = list[j];
    if y.0 < x.0 || (y.0 == x.0 && y.1 < x.1) {
        list.set(i, y);
        list.set(j, x);
    }
}

/// The multiplicity of the combination of hole cards `cards` and `board`:
/// its suit patterns are sorted, and each run of equal patterns takes its
/// suits out of those that are left.
pub fn suit_multiplicity(cards: u64, board: u64) -> (ways: u64)
    ensures
        ways == multiplicity(cards, board),
        1 <= ways <= 24,
{
    let mut list: Vec<(u64, u64)> = Vec::new();
    let mut suit: u64 = 0;
    while suit < 4
        invariant
            suit <= 4,
            list.len() == suit,
            forall|s: int|
                0 <= s < suit ==> #[trigger] list[s] == (
                    suit_ranks(cards, s as u64),
                    suit_ranks(board, s as u64),
                ),
        decreases 4 - suit,
    {
        list.push(pattern_of(cards, board, suit));
        suit = suit + 1;
    }
    let ghost given = list@;
    proof {
        assert(given =~= suit_patterns(cards, board));
    }
    order_pair(&mut list, 0, 1);
    order_pair(&mut list, 2, 3);
    order_pair(&mut list, 0, 2);
    order_pair(&mut list, 1, 3);
    order_pair(&mut list, 1, 2);
    proof {
        assert(patterns_sorted(list@));
        assert(agreeing(list@) == agreeing(given));
        lemma_ways(list@);
    }
    let mut left: u64 = 4;
    let mut ways: u64 = 1;
    let mut start: usize = 0;
    while start < 4
        invariant
            start <= 4,
            left == 4 - start,
            list.len() == 4,
            ways == ways_upto(list@, start as int),
            0 < start < 4 ==> list[start - 1] != list[start as int],
            forall|t: int| 0 <= t <= 4 ==> 1 <= #[trigger] ways_upto(list@, t) <= 24,
        decreases 4 - start,
    {
        let mut end: usize = start + 1;
        while end < 4 && list[end].0 == list[start].0 && list[end].1 == list[start].1
            invariant
                list.len() == 4,
                start < end <= 4,
                forall|i: int| start <= i < end ==> list[i] == list[start as int],
            decreases 4 - end,
        {
            end = end + 1;
        }
        let size: u64 = (end - start) as u64;
        let mut k: u64 = 0;
        while k < size
            invariant
                k <= size,
                size == end - start,
                start < end <= 4,
                left == 4 - start,
                list.len() == 4,
                forall|i: int| start <= i < end ==> list[i] == list[start as int],
                0 < start ==> list[start - 1] != list[start as int],
                ways == ways_upto(list@, start + k),
                forall|t: int| 0 <= t <= 4 ==> 1 <= #[trigger] ways_upto(list@, t) <= 24,
            decreases size - k,
        {
            proof {
                reveal_with_fuel(run_before, 5);
                assert(run_before(list@, start + k) == k);
                assert(1 <= ways_upto(list@, start + k) <= 24);
                assert(1 <= ways_upto(list@, start + k + 1) <= 24);
                assert(ways * (left - k) <= 96) by (nonlinear_arith)
                    requires
                        ways <= 24,
                        0 <= left - k <= 4,
                ;
                let scaled = ways * (left - k);
                assert(scaled / (k + 1) as int == split_among(scaled, k + 1)) by (nonlinear_arith)
                    requires
                        0 <= k <= 3,
                ;
            }
            ways = ways * (left - k);
            ways = ways / (k + 1);
            k = k + 1;
        }
        left = left - size;
        start = end;
    }
    ways
}

} // verus!
