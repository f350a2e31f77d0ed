//! The strength table: one rank for every slot, filed board by board.

use vstd::prelude::*;
use vstd::seq_lib::to_multiset_contains;
use vstd::seq_lib::to_multiset_len;
use crate::buckets::is_rank_table;
use crate::buckets::BOARD_HANDS;
use crate::buckets::MAX_RANK;
use crate::cards::DECK;
use crate::ranks::ascending;
use crate::ranks::key_le;
use crate::ranks::lemma_valid_permuted;
use crate::ranks::rank_hands;
use crate::ranks::rank_of;
use crate::ranks::same_pair;
use crate::ranks::valid_hands;
use crate::ranks::well_formed;
use crate::ranks::Hand;
use crate::rank_laws::lemma_rank_bound;
use crate::vectors::copied;
use crate::vectors::filled;

verus! {

/// The hands of one board that can be filed in a table of `size` slots.
pub open spec fn fits(hands: Seq<Hand>, size: int) -> bool {
    &&& valid_hands(hands)
    &&& forall|i: int| 0 <= i < hands.len() ==> (#[trigger] hands[i]).index < size
}

/// The place of the hole pair `(a, b)` in a table of all ordered pairs.
spec fn pair_code(a: int, b: int) -> int {
    a * 52 + b
}

/// Whether the hands of one board can be filed in a table of `size` slots.
pub fn check_fits(hands: &Vec<Hand>, size: usize) -> (ok: bool)
    ensures
        ok == fits(hands@, size as int),
{
    let mut seen: Vec<bool> = filled(2704, false);
    let mut i: usize = 0;
    while i < hands.len()
        invariant
            i <= hands.len(),
            seen.len() == 2704,
            fits(hands@.subrange(0, i as int), size as int),
            forall|a: int, b: int|
                0 <= a < 52 && 0 <= b < 52 ==> (#[trigger] seen[pair_code(a, b)] <==> exists|j: int|
                    0 <= j < i && (#[trigger] hands[j]).a == a && hands[j].b == b),
        decreases hands.len() - i,
    {
        let h = hands[i];
        if !(h.a < h.b && h.b < DECK && h.index < size) {
            proof {
                assert(!(well_formed(hands[i as int]) && hands[i as int].index < size));
            }
            return false;
        }
        let at = h.a as usize * 52 + h.b as usize;
        let ghost done = hands@.subrange(0, i as int);
        let ghost next = hands@.subrange(0, i + 1);
        proof {
            assert(at == pair_code(h.a as int, h.b as int));
        }
        if seen[at] {
            proof {
                let j = choose|j: int|
                    0 <= j < i && (#[trigger] hands[j]).a == h.a && hands[j].b == h.b;
                assert(same_pair(hands[j], hands[i as int]));
            }
            return false;
        }
        let ghost before = seen@;
        seen.set(at, true);
        proof {
            assert forall|x: int, y: int| 0 <= x < y < next.len() implies !same_pair(
                #[trigger] next[x],
                #[trigger] next[y],
            ) by {
                if y < i {
                    assert(!same_pair(done[x], done[y]));
                } else if same_pair(hands[x], h) {
                    assert(before[pair_code(h.a as int, h.b as int)]);
                }
            }
            assert forall|x: int| 0 <= x < next.len() implies well_formed(#[trigger] next[x])
                && next[x].index < size by {
                if x < i {
                    assert(well_formed(done[x]) && done[x].index < size);
                }
            }
            assert forall|a: int, b: int| 0 <= a < 52 && 0 <= b < 52 implies (#[trigger] seen[pair_code(
                a,
                b,
            )] <==> exists|j: int|
                0 <= j < i + 1 && (#[trigger] hands[j]).a == a && hands[j].b == b) by {
                if a == h.a && b == h.b {
                    assert(hands[i as int].a == a && hands[i as int].b == b);
                } else {
                    assert(seen[pair_code(a, b)] == before[pair_code(a, b)]);
                    if before[pair_code(a, b)] {
                        let j = choose|j: int|
                            0 <= j < i && (#[trigger] hands[j]).a == a && hands[j].b == b;
                        assert(0 <= j < i + 1 && hands[j].a == a && hands[j].b == b);
                    }
                }
            }
        }
        i = i + 1;
    }
    proof {
        assert(hands@.subrange(0, hands.len() as int) =~= hands@);
    }
    true
}

/// Whether some hand of `hands` is filed under slot `x`.
pub open spec fn touches(hands: Seq<Hand>, x: int) -> bool {
    exists|i: int| 0 <= i < hands.len() && (#[trigger] hands[i]).index == x
}

/// Whether `h` is the hand of `hands` that slot `x` keeps: hands are filed in
/// processing order, so of the hands under one slot the last one stays.
pub open spec fn files_last(hands: Seq<Hand>, x: int, h: Hand) -> bool {
    &&& hands.contains(h)
    &&& h.index == x
    &&& forall|i: int| 0 <= i < hands.len() && (#[trigger] hands[i]).index == x ==> key_le(hands[i], h)
}

/// Every slot that the hands touch keeps one of them: the hand returned is
/// the last that is filed under slot `x`.
pub proof fn lemma_kept_hand(hands: Seq<Hand>, x: int) -> (h: Hand)
    requires
        touches(hands, x),
    ensures
        files_last(hands, x, h),
    decreases hands.len(),
{
    let n = hands.len() as int;
    let witness = choose|i: int| 0 <= i < hands.len() && (#[trigger] hands[i]).index == x;
    let last = hands[n - 1];
    let rest = hands.drop_last();
    assert(hands.contains(last));
    if exists|i: int| 0 <= i < rest.len() && (#[trigger] rest[i]).index == x {
        let r = lemma_kept_hand(rest, x);
        let at = choose|i: int| 0 <= i < rest.len() && rest[i] == r;
        assert(hands[at] == r);
        if last.index == x && !key_le(last, r) {
            assert forall|i: int| 0 <= i < hands.len() && (#[trigger] hands[i]).index
                == x implies key_le(hands[i], last) by {
                if i < n - 1 {
                    assert(rest[i] == hands[i]);
                    assert(key_le(rest[i], r));
                }
            }
            last
        } else {
            assert forall|i: int| 0 <= i < hands.len() && (#[trigger] hands[i]).index
                == x implies key_le(hands[i], r) by {
                if i < n - 1 {
                    assert(rest[i] == hands[i]);
                }
            }
            r
        }
    } else {
        if witness < n - 1 {
            assert(rest[witness].index == x);
        }
        assert forall|i: int| 0 <= i < hands.len() && (#[trigger] hands[i]).index
            == x implies key_le(hands[i], last) by {
            if i < n - 1 {
                assert(rest[i].index == x);
            }
        }
        last
    }
}

/// In an ascending sequence of valid hands, equal hands stand at one position.
proof fn lemma_key_order_strict(s: Seq<Hand>, i: int, j: int)
    requires
        valid_hands(s),
        0 <= i < s.len(),
        0 <= j < s.len(),
        key_le(s[i], s[j]),
        key_le(s[j], s[i]),
    ensures
        i == j,
{
    if i < j {
        assert(!same_pair(s[i], s[j]));
    } else if j < i {
        assert(!same_pair(s[j], s[i]));
    }
}

/// Where the hands are filed in processing order, the hand that a slot keeps
/// is the last one filed under it: the position of `h` in `sorted` is
/// returned, and no later position names slot `x`.
pub proof fn lemma_last_in_order(given: Seq<Hand>, sorted: Seq<Hand>, x: int, h: Hand) -> (j: int)
    requires
        valid_hands(given),
        given.to_multiset() == sorted.to_multiset(),
        ascending(sorted),
        files_last(given, x, h),
    ensures
        0 <= j < sorted.len(),
        sorted[j] == h,
        forall|l: int| j < l < sorted.len() ==> (#[trigger] sorted[l]).index != x,
{
    lemma_valid_permuted(given, sorted);
    to_multiset_contains(given, h);
    to_multiset_contains(sorted, h);
    let j = choose|j: int| 0 <= j < sorted.len() && sorted[j] == h;
    assert forall|l: int| j < l < sorted.len() implies (#[trigger] sorted[l]).index != x by {
        if sorted[l].index == x {
            assert(sorted.contains(sorted[l]));
            to_multiset_contains(sorted, sorted[l]);
            to_multiset_contains(given, sorted[l]);
            let g = choose|g: int| 0 <= g < given.len() && given[g] == sorted[l];
            assert(key_le(given[g], h));
            assert(key_le(sorted[j], sorted[l]));
            lemma_key_order_strict(sorted, j, l);
        }
    }
    j
}

/// A slot that none of the hands names is named in no order of them.
pub proof fn lemma_untouched_in_order(given: Seq<Hand>, sorted: Seq<Hand>, x: int)
    requires
        given.to_multiset() == sorted.to_multiset(),
        !touches(given, x),
    ensures
        forall|l: int| 0 <= l < sorted.len() ==> (#[trigger] sorted[l]).index != x,
{
    assert forall|l: int| 0 <= l < sorted.len() implies (#[trigger] sorted[l]).index != x by {
        assert(sorted.contains(sorted[l]));
        to_multiset_contains(sorted, sorted[l]);
        to_multiset_contains(given, sorted[l]);
        let g = choose|g: int| 0 <= g < given.len() && given[g] == sorted[l];
        assert(given[g].index != x);
    }
}

/// A slot that one of the hands names is named in every order of them.
pub proof fn lemma_touched_in_order(given: Seq<Hand>, sorted: Seq<Hand>, x: int) -> (j: int)
    requires
        given.to_multiset() == sorted.to_multiset(),
        touches(given, x),
    ensures
        0 <= j < sorted.len(),
        sorted[j].index == x,
{
    let g = choose|g: int| 0 <= g < given.len() && (#[trigger] given[g]).index == x;
    assert(given.contains(given[g]));
    to_multiset_contains(given, given[g]);
    to_multiset_contains(sorted, given[g]);
    choose|j: int| 0 <= j < sorted.len() && sorted[j] == given[g]
}

/// The hands of a board fit the table in every order.
pub proof fn lemma_fits_in_order(given: Seq<Hand>, sorted: Seq<Hand>, size: int)
    requires
        fits(given, size),
        given.to_multiset() == sorted.to_multiset(),
    ensures
        fits(sorted, size),
        sorted.len() == given.len(),
        forall|i: int| 0 <= i < sorted.len() ==> given.contains(#[trigger] sorted[i]),
{
    lemma_valid_permuted(given, sorted);
    to_multiset_len(given);
    to_multiset_len(sorted);
    assert forall|i: int| 0 <= i < sorted.len() implies (#[trigger] sorted[i]).index < size
        && given.contains(sorted[i]) by {
        assert(sorted.contains(sorted[i]));
        to_multiset_contains(sorted, sorted[i]);
        to_multiset_contains(given, sorted[i]);
        let g = choose|g: int| 0 <= g < given.len() && given[g] == sorted[i];
        assert(given[g].index < size);
    }
}

/// Ranks the hands of one board and files each rank under the slot of its
/// hand. Slots that no hand names keep their entry.
pub fn record_board(strength: &mut Vec<u16>, hands: Vec<Hand>)
    requires
        fits(hands@, old(strength).len() as int),
    ensures
        final(strength).len() == old(strength).len(),
        forall|x: int, h: Hand|
            0 <= x < final(strength).len() && #[trigger] files_last(hands@, x, h)
                ==> final(strength)[x] == rank_of(hands@, h),
        forall|x: int|
            0 <= x < final(strength).len() && !touches(hands@, x)
                ==> final(strength)[x] == old(strength)[x],
        forall|x: int|
            0 <= x < final(strength).len() && touches(hands@, x)
                ==> final(strength)[x] <= 2 * (hands.len() - 1),
{
    let ghost given = hands@;
    let mut hands = hands;
    let ranks = rank_hands(&mut hands);
    let n = hands.len();
    proof {
        lemma_fits_in_order(given, hands@, strength.len() as int);
    }
    let mut i: usize = 0;
    while i < n
        invariant
            i <= n,
            n == hands.len(),
            n == given.len(),
            ranks.len() == n,
            strength.len() == old(strength).len(),
            fits(hands@, strength.len() as int),
            forall|j: int| 0 <= j < n ==> given.contains(#[trigger] hands[j]),
            forall|j: int| 0 <= j < n ==> #[trigger] ranks[j] == rank_of(given, hands[j]),
            forall|x: int, j: int|
                0 <= j < i && (#[trigger] hands[j]).index == x && (forall|l: int|
                    j < l < i ==> (#[trigger] hands[l]).index != x) ==> #[trigger] strength[x]
                    == ranks[j],
            forall|x: int|
                0 <= x < strength.len() && (forall|l: int|
                    0 <= l < i ==> (#[trigger] hands[l]).index != x) ==> #[trigger] strength[x]
                    == old(strength)[x],
            forall|x: int, l: int|
                0 <= l < i && (#[trigger] hands[l]).index == x ==> #[trigger] strength[x] <= 2 * (n
                    - 1),
        decreases n - i,
    {
        let h = hands[i];
        proof {
            assert(given.contains(hands[i as int]));
            lemma_rank_bound(given, h);
        }
        strength.set(h.index, ranks[i]);
        i = i + 1;
    }
    proof {
        assert forall|x: int, h: Hand|
            0 <= x < strength.len() && #[trigger] files_last(given, x, h) implies strength[x]
            == rank_of(given, h) by {
            let j = lemma_last_in_order(given, hands@, x, h);
            assert(hands[j].index == x);
        }
        assert forall|x: int| 0 <= x < strength.len() && !touches(given, x) implies strength[x]
            == old(strength)[x] by {
            lemma_untouched_in_order(given, hands@, x);
        }
        assert forall|x: int| 0 <= x < strength.len() && touches(given, x) implies strength[x]
            <= 2 * (n - 1) by {
            let j = lemma_touched_in_order(given, hands@, x);
            assert(hands[j].index == x);
        }
    }
}

/// Whether no board after board `b` files a hand under slot `x`.
pub open spec fn settled_after(boards: Seq<Vec<Hand>>, b: int, x: int) -> bool {
    forall|l: int| b < l < boards.len() ==> !touches(#[trigger] boards[l]@, x)
}

/// The strength table of `size` slots for the given boards, filed in order.
///
/// A slot holds the rank of the hand that the last board to touch it filed
/// last, and zero where no board touches it. Where no board has more hands
/// than a five-card board leaves, the result is a table of ranks.
pub fn build_strengths(size: usize, boards: &Vec<Vec<Hand>>) -> (table: Vec<u16>)
    requires
        forall|b: int| 0 <= b < boards.len() ==> fits(#[trigger] boards[b]@, size as int),
    ensures
        table.len() == size,
        forall|x: int, b: int, h: Hand|
            0 <= x < size && 0 <= b < boards.len() && #[trigger] files_last(boards[b]@, x, h)
                && settled_after(boards@, b, x) ==> table[x] == rank_of(boards[b]@, h),
        forall|x: int| 0 <= x < size && settled_after(boards@, -1, x) ==> table[x] == 0,
        (forall|b: int| 0 <= b < boards.len() ==> (#[trigger] boards[b]).len() <= BOARD_HANDS)
            ==> is_rank_table(table@),
{
    let mut table: Vec<u16> = filled(size, 0);
    let mut i: usize = 0;
    while i < boards.len()
        invariant
            i <= boards.len(),
            table.len() == size,
            forall|b: int| 0 <= b < boards.len() ==> fits(#[trigger] boards[b]@, size as int),
            forall|x: int, b: int, h: Hand|
                0 <= x < size && 0 <= b < i && #[trigger] files_last(boards[b]@, x, h)
                    && settled_after(boards@.subrange(0, i as int), b, x) ==> table[x]
                    == rank_of(boards[b]@, h),
            forall|x: int|
                0 <= x < size && settled_after(boards@.subrange(0, i as int), -1, x)
                    ==> table[x] == 0,
            (forall|b: int| 0 <= b < boards.len() ==> (#[trigger] boards[b]).len() <= BOARD_HANDS)
                ==> is_rank_table(table@),
        decreases boards.len() - i,
    {
        let hands = copied(&boards[i]);
        let ghost before = table@;
        let ghost done = boards@.subrange(0, i as int);
        let ghost next = boards@.subrange(0, i + 1);
        record_board(&mut table, hands);
        proof {
            if forall|b: int| 0 <= b < boards.len() ==> (#[trigger] boards[b]).len() <= BOARD_HANDS {
                assert(boards[i as int].len() <= BOARD_HANDS);
                assert forall|x: int| 0 <= x < table.len() implies #[trigger] table[x]
                    < MAX_RANK by {
                    if !touches(boards[i as int]@, x) {
                        assert(table[x] == before[x]);
                    }
                }
            }
            assert(next[i as int] == boards[i as int]);
            assert forall|x: int, b: int, h: Hand|
                0 <= x < size && 0 <= b < i + 1 && #[trigger] files_last(boards[b]@, x, h)
                    && settled_after(next, b, x) implies table[x] == rank_of(boards[b]@, h) by {
                if b < i {
                    assert(!touches(next[i as int]@, x));
                    assert forall|l: int| b < l < done.len() implies !touches(
                        #[trigger] done[l]@,
                        x,
                    ) by {
                        assert(next[l] == done[l]);
                    }
                }
            }
            assert forall|x: int| 0 <= x < size && settled_after(next, -1, x) implies table[x]
                == 0 by {
                assert(!touches(next[i as int]@, x));
                assert forall|l: int| -1 < l < done.len() implies !touches(
                    #[trigger] done[l]@,
                    x,
                ) by {
                    assert(next[l] == done[l]);
                }
            }
        }
        i = i + 1;
    }
    proof {
        assert(boards@.subrange(0, boards.len() as int) =~= boards@);
    }
    table
}

} // verus!
