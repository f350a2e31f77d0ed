//! Tie-aware strength ranks of the hole pairs dealt on one board.
//!
//! A hand's rank is twice the number of opposing hands it beats plus the
//! number it ties with, an opposing hand being one that shares no card with
//! it.

use vstd::prelude::*;
use vstd::seq_lib::to_multiset_contains;
use vstd::seq_lib::to_multiset_len;
use vstd::set_lib::lemma_int_range;
use vstd::set_lib::set_int_range;
use vstd::set_lib::lemma_len_subset;
use crate::cards::DECK;
use crate::counting::count;
use crate::counting::lemma_count_agree;
use crate::counting::lemma_count_bound;
use crate::counting::lemma_count_all;
use crate::counting::lemma_count_cut;
use crate::counting::lemma_count_none;
use crate::counting::lemma_count_overlap;
use crate::counting::lemma_count_permuted;
use crate::counting::lemma_count_remove;
use crate::counting::lemma_count_single;
use crate::counting::lemma_count_split;
use crate::counting::lemma_count_step;
use crate::vectors::filled;

verus! {

/// One hole pair on a board: the evaluator's outcome for the full hand
/// (larger is better, equal is a split), the slot of the combination in the
/// table being built, the slot of the hole pair in the opponent cluster
/// assignment (read only where clusters are), and the two hole cards, lower
/// card first.
#[derive(Clone, Copy, Debug, PartialEq, Eq, Structural)]
pub struct Hand {
    pub value: u64,
    pub index: usize,
    pub hole: usize,
    pub a: u8,
    pub b: u8,
}

/// A hand holds two cards of the deck, the lower one first.
pub open spec fn well_formed(h: Hand) -> bool {
    h.a < h.b < DECK
}

/// Whether two hands are the same hole pair.
pub open spec fn same_pair(h: Hand, o: Hand) -> bool {
    o.a == h.a && o.b == h.b
}

/// Whether two hands have a card in common.
pub open spec fn shares_card(h: Hand, o: Hand) -> bool {
    o.a == h.a || o.a == h.b || o.b == h.a || o.b == h.b
}

/// The hands of one board: well formed, and no hole pair twice.
pub open spec fn valid_hands(hands: Seq<Hand>) -> bool {
    &&& forall|i: int| 0 <= i < hands.len() ==> well_formed(#[trigger] hands[i])
    &&& forall|i: int, j: int|
        0 <= i < j < hands.len() ==> !same_pair(#[trigger] hands[i], #[trigger] hands[j])
}

/// The hands that hold card `c`.
pub open spec fn holding(c: int) -> spec_fn(Hand) -> bool {
    |o: Hand| o.a == c || o.b == c
}

/// The hands with the hole pair of `h`.
pub open spec fn paired_with(h: Hand) -> spec_fn(Hand) -> bool {
    |o: Hand| same_pair(h, o)
}

/// The hands that have a card in common with `h`.
pub open spec fn sharing_with(h: Hand) -> spec_fn(Hand) -> bool {
    |o: Hand| shares_card(h, o)
}

/// The hands an opponent of `h` can hold.
pub open spec fn apart_from(h: Hand) -> spec_fn(Hand) -> bool {
    |o: Hand| !shares_card(h, o)
}

/// The opposing hands that `h` beats.
pub open spec fn beaten_by(h: Hand) -> spec_fn(Hand) -> bool {
    |o: Hand| o.value < h.value && !shares_card(h, o)
}

/// The opposing hands that `h` splits with.
pub open spec fn tying_with(h: Hand) -> spec_fn(Hand) -> bool {
    |o: Hand| o.value == h.value && !shares_card(h, o)
}

/// The opposing hands that beat `h`.
pub open spec fn beating(h: Hand) -> spec_fn(Hand) -> bool {
    |o: Hand| o.value > h.value && !shares_card(h, o)
}

/// The membership that every hand has.
pub open spec fn everyone() -> spec_fn(Hand) -> bool {
    |o: Hand| true
}

/// The members of `m` that hold card `c`.
pub open spec fn holding_among(m: spec_fn(Hand) -> bool, c: int) -> spec_fn(Hand) -> bool {
    |o: Hand| m(o) && (o.a == c || o.b == c)
}

/// The members of `m` with the hole pair of `h`.
pub open spec fn paired_among(m: spec_fn(Hand) -> bool, h: Hand) -> spec_fn(Hand) -> bool {
    |o: Hand| m(o) && same_pair(h, o)
}

/// The members of `m` that have a card in common with `h`.
pub open spec fn sharing_among(m: spec_fn(Hand) -> bool, h: Hand) -> spec_fn(Hand) -> bool {
    |o: Hand| m(o) && shares_card(h, o)
}

/// The members of `m` that an opponent of `h` can hold.
pub open spec fn apart_among(m: spec_fn(Hand) -> bool, h: Hand) -> spec_fn(Hand) -> bool {
    |o: Hand| m(o) && !shares_card(h, o)
}

/// The opposing members of `m` that `h` beats.
pub open spec fn beaten_among(m: spec_fn(Hand) -> bool, h: Hand) -> spec_fn(Hand) -> bool {
    |o: Hand| m(o) && o.value < h.value && !shares_card(h, o)
}

/// The opposing members of `m` that `h` splits with.
pub open spec fn tying_among(m: spec_fn(Hand) -> bool, h: Hand) -> spec_fn(Hand) -> bool {
    |o: Hand| m(o) && o.value == h.value && !shares_card(h, o)
}

/// The credit of `h` against the members of `m`: two for every opposing
/// member it beats, one for every opposing member it ties with.
pub open spec fn credit_among(hands: Seq<Hand>, m: spec_fn(Hand) -> bool, h: Hand) -> nat {
    2 * count(hands, beaten_among(m, h)) + count(hands, tying_among(m, h))
}

/// The strength rank of `h` among `hands`: two for every opposing hand it
/// beats, one for every opposing hand it ties with.
pub open spec fn rank_of(hands: Seq<Hand>, h: Hand) -> nat {
    2 * count(hands, beaten_by(h)) + count(hands, tying_with(h))
}

/// The order in which the hands of a board are processed: by outcome, then
/// by table slot, then by cluster slot, then by the two cards.
pub open spec fn key_le(x: Hand, y: Hand) -> bool {
    x.value < y.value || (x.value == y.value && (x.index < y.index || (x.index == y.index && (
    x.hole < y.hole || (x.hole == y.hole && (x.a < y.a || (x.a == y.a && x.b <= y.b)))))))
}

/// Whether `hands` is in processing order.
pub open spec fn ascending(hands: Seq<Hand>) -> bool {
    forall|i: int, j: int| 0 <= i <= j < hands.len() ==> key_le(hands[i], hands[j])
}

/// The key that hands are sorted by: outcome, table slot, cluster slot, and
/// the two cards.
pub fn processing_key(h: &Hand) -> (key: (u64, usize, usize, u8, u8))
    ensures
        key == (h.value, h.index, h.hole, h.a, h.b),
{
    (h.value, h.index, h.hole, h.a, h.b)
}

/// `slice::sort_by_key` of the standard library, keyed by `processing_key`.
/// Trusted: the call leaves the same hands in the vector, in ascending order
/// of their keys, tuples being compared field by field from the left, as the
/// standard library documents of its sort and of its tuples.
#[verifier::external_body]
pub(crate) fn sort_hands(hands: &mut Vec<Hand>)
    ensures
        final(hands)@.to_multiset() == old(hands)@.to_multiset(),
        ascending(final(hands)@),
{
    hands.sort_by_key(|h| processing_key(h));
}

/// Validity in the form the proofs use: it survives a reordering.
spec fn each_pair_once(s: Seq<Hand>) -> bool {
    forall|i: int|
        0 <= i < s.len() ==> well_formed(#[trigger] s[i]) && count(s, paired_with(s[i])) == 1
}

proof fn lemma_pairs_once(hands: Seq<Hand>)
    requires
        valid_hands(hands),
    ensures
        each_pair_once(hands),
{
    assert forall|i: int| 0 <= i < hands.len() implies count(
        hands,
        paired_with(#[trigger] hands[i]),
    ) == 1 by {
        lemma_count_single(hands, paired_with(hands[i]), i);
    }
}

proof fn lemma_pairs_once_permuted(s: Seq<Hand>, t: Seq<Hand>)
    requires
        each_pair_once(s),
        s.to_multiset() == t.to_multiset(),
    ensures
        each_pair_once(t),
{
    assert forall|i: int| 0 <= i < t.len() implies well_formed(#[trigger] t[i]) && count(
        t,
        paired_with(t[i]),
    ) == 1 by {
        let h = t[i];
        assert(t.contains(h));
        to_multiset_contains(t, h);
        to_multiset_contains(s, h);
        let j = choose|j: int| 0 <= j < s.len() && s[j] == h;
        assert(well_formed(s[j]));
        lemma_count_permuted(s, t, paired_with(h));
    }
}

/// Hands that are valid in one order are valid in every order.
pub proof fn lemma_valid_permuted(s: Seq<Hand>, t: Seq<Hand>)
    requires
        valid_hands(s),
        s.to_multiset() == t.to_multiset(),
    ensures
        valid_hands(t),
{
    lemma_pairs_once(s);
    lemma_pairs_once_permuted(s, t);
    assert forall|i: int, j: int| 0 <= i < j < t.len() implies !same_pair(
        #[trigger] t[i],
        #[trigger] t[j],
    ) by {
        if same_pair(t[i], t[j]) {
            let p = paired_with(t[i]);
            lemma_count_remove(t, j, p);
            assert(t.remove(j)[i] == t[i]);
            lemma_count_remove(t.remove(j), i, p);
        }
    }
}

/// Valid hands are at most as many as there are ordered pairs of cards.
pub proof fn lemma_hands_len(hands: Seq<Hand>)
    requires
        valid_hands(hands),
    ensures
        hands.len() <= 2704,
{
    let codes = Seq::new(hands.len(), |i: int| hands[i].a * 52 + hands[i].b);
    assert forall|i: int, j: int| 0 <= i < codes.len() && 0 <= j < codes.len() && i != j implies codes[i]
        != codes[j] by {
        assert(well_formed(hands[i]) && well_formed(hands[j]));
        if i < j {
            assert(!same_pair(hands[i], hands[j]));
        } else {
            assert(!same_pair(hands[j], hands[i]));
        }
    }
    codes.unique_seq_to_set();
    lemma_int_range(0, 2704);
    assert forall|x: int| codes.to_set().contains(x) implies set_int_range(0, 2704).contains(
        x,
    ) by {
        let i = choose|i: int| 0 <= i < codes.len() && codes[i] == x;
        assert(well_formed(hands[i]));
    }
    lemma_len_subset(codes.to_set(), set_int_range(0, 2704));
}

/// Among well-formed hands, the members apart from `h` are all members but
/// the ones that hold its first card or its second, a member with the pair of
/// `h` itself counted back.
proof fn lemma_apart(x: Seq<Hand>, m: spec_fn(Hand) -> bool, h: Hand)
    requires
        well_formed(h),
        forall|i: int| 0 <= i < x.len() ==> well_formed(#[trigger] x[i]),
    ensures
        count(x, apart_among(m, h)) + count(x, holding_among(m, h.a as int)) + count(
            x,
            holding_among(m, h.b as int),
        ) == count(x, m) + count(x, paired_among(m, h)),
{
    lemma_count_overlap(
        x,
        holding_among(m, h.a as int),
        holding_among(m, h.b as int),
        sharing_among(m, h),
        paired_among(m, h),
    );
    lemma_count_split(x, m, apart_among(m, h), sharing_among(m, h));
}

/// Whether the hands of `s` at `lo..hi` are those with the outcome of the
/// hand at `k`, the hands before them having a lower outcome and the hands
/// after them a higher one.
pub open spec fn tie_group(s: Seq<Hand>, lo: int, hi: int, k: int) -> bool {
    &&& 0 <= lo <= k < hi <= s.len()
    &&& forall|i: int| 0 <= i < lo ==> s[i].value < s[k].value
    &&& forall|i: int| lo <= i < hi ==> s[i].value == s[k].value
    &&& forall|i: int| hi <= i < s.len() ==> s[i].value > s[k].value
}

/// The credit of a hand of a tie group against the members of `m`, in terms
/// of the tallies that the builders keep: the members before the group count
/// twice, those of the group once, and so do the members that hold a card of
/// the hand, which are taken off again.
pub proof fn lemma_group_credit(s: Seq<Hand>, m: spec_fn(Hand) -> bool, lo: int, hi: int, k: int)
    requires
        valid_hands(s),
        tie_group(s, lo, hi, k),
    ensures
        credit_among(s, m, s[k]) == 2 * count(s.subrange(0, lo), m) + count(
            s.subrange(lo, hi),
            m,
        ) + (if m(s[k]) {
            1int
        } else {
            0int
        }) - 2 * count(s.subrange(0, lo), holding_among(m, s[k].a as int)) - count(
            s.subrange(lo, hi),
            holding_among(m, s[k].a as int),
        ) - 2 * count(s.subrange(0, lo), holding_among(m, s[k].b as int)) - count(
            s.subrange(lo, hi),
            holding_among(m, s[k].b as int),
        ),
{
    let h = s[k];
    let n = s.len() as int;
    let p = s.subrange(0, lo);
    let g = s.subrange(lo, hi);
    let r = s.subrange(hi, n);
    assert(s.subrange(0, n) =~= s);
    assert(g[k - lo] == h);
    assert(well_formed(s[k]));

    lemma_count_none(p, paired_among(m, h));
    if m(h) {
        lemma_count_single(g, paired_among(m, h), k - lo);
    } else {
        lemma_count_none(g, paired_among(m, h));
    }

    lemma_count_cut(s, 0, lo, n, beaten_among(m, h));
    lemma_count_cut(s, lo, hi, n, beaten_among(m, h));
    lemma_count_none(g, beaten_among(m, h));
    lemma_count_none(r, beaten_among(m, h));
    lemma_count_agree(p, beaten_among(m, h), apart_among(m, h));

    lemma_count_cut(s, 0, lo, n, tying_among(m, h));
    lemma_count_cut(s, lo, hi, n, tying_among(m, h));
    lemma_count_none(p, tying_among(m, h));
    lemma_count_none(r, tying_among(m, h));
    lemma_count_agree(g, tying_among(m, h), apart_among(m, h));

    lemma_apart(p, m, h);
    lemma_apart(g, m, h);
}

/// The rank of a hand of a tie group, in terms of the tallies that the ranker
/// keeps.
proof fn lemma_group_rank(s: Seq<Hand>, lo: int, hi: int, k: int)
    requires
        valid_hands(s),
        tie_group(s, lo, hi, k),
    ensures
        rank_of(s, s[k]) == 2 * lo + (hi - lo) + 1 - 2 * count(
            s.subrange(0, lo),
            holding(s[k].a as int),
        ) - count(s.subrange(lo, hi), holding(s[k].a as int)) - 2 * count(
            s.subrange(0, lo),
            holding(s[k].b as int),
        ) - count(s.subrange(lo, hi), holding(s[k].b as int)),
{
    let h = s[k];
    let m = everyone();
    let p = s.subrange(0, lo);
    let g = s.subrange(lo, hi);
    lemma_group_credit(s, m, lo, hi, k);
    lemma_count_agree(s, beaten_by(h), beaten_among(m, h));
    lemma_count_agree(s, tying_with(h), tying_among(m, h));
    lemma_count_agree(p, holding(h.a as int), holding_among(m, h.a as int));
    lemma_count_agree(g, holding(h.a as int), holding_among(m, h.a as int));
    lemma_count_agree(p, holding(h.b as int), holding_among(m, h.b as int));
    lemma_count_agree(g, holding(h.b as int), holding_among(m, h.b as int));
    lemma_count_all(p, m);
    lemma_count_all(g, m);
}

/// Adds the hands at `lo..hi` to the tallies: one to `sum` for each hand, one
/// to `used[c]` for each hand that holds card `c`.
fn tally(used: &mut Vec<u32>, sum: &mut u32, hands: &Vec<Hand>, lo: usize, hi: usize)
    requires
        old(used).len() == DECK,
        lo <= hi <= hands.len(),
        forall|i: int| lo <= i < hi ==> well_formed(#[trigger] hands[i]),
        forall|c: int| 0 <= c < DECK ==> old(used)[c] + (hi - lo) <= u32::MAX,
        *old(sum) + (hi - lo) <= u32::MAX,
    ensures
        final(used).len() == DECK,
        forall|c: int|
            0 <= c < DECK ==> final(used)[c] == old(used)[c] + count(
                hands@.subrange(lo as int, hi as int),
                holding(c),
            ),
        *final(sum) == *old(sum) + (hi - lo),
{
    let mut k: usize = lo;
    while k < hi
        invariant
            used.len() == DECK,
            lo <= k <= hi <= hands.len(),
            forall|i: int| lo <= i < hi ==> well_formed(#[trigger] hands[i]),
            forall|c: int| 0 <= c < DECK ==> old(used)[c] + (hi - lo) <= u32::MAX,
            *old(sum) + (hi - lo) <= u32::MAX,
            forall|c: int|
                0 <= c < DECK ==> used[c] == old(used)[c] + count(
                    hands@.subrange(lo as int, k as int),
                    holding(c),
                ),
            *sum == *old(sum) + (k - lo),
        decreases hi - k,
    {
        let h = hands[k];
        let a = h.a as usize;
        let b = h.b as usize;
        proof {
            assert(well_formed(hands[k as int]));
            assert forall|c: int| 0 <= c < DECK implies count(
                hands@.subrange(lo as int, k + 1),
                holding(c),
            ) == count(hands@.subrange(lo as int, k as int), holding(c)) + if holding(c)(h) {
                1nat
            } else {
                0nat
            } && count(hands@.subrange(lo as int, k as int), holding(c)) <= k - lo by {
                lemma_count_step(hands@, lo as int, k as int, holding(c));
                lemma_count_bound(hands@.subrange(lo as int, k as int), holding(c));
            }
        }
        let ua = used[a];
        used.set(a, ua + 1);
        let ub = used[b];
        used.set(b, ub + 1);
        *sum = *sum + 1;
        k = k + 1;
    }
}

/// Ranks hands that are already in processing order.
fn rank_sorted(hands: &Vec<Hand>) -> (ranks: Vec<u16>)
    requires
        valid_hands(hands@),
        ascending(hands@),
        hands.len() <= 2704,
    ensures
        ranks.len() == hands.len(),
        forall|i: int| 0 <= i < ranks.len() ==> ranks[i] == rank_of(hands@, hands[i]),
{
    let n = hands.len();
    let mut used: Vec<u32> = filled(DECK as usize, 0);
    let mut sum: u32 = 0;
    let mut ranks: Vec<u16> = Vec::new();
    let mut lo: usize = 0;
    proof {
        assert forall|c: int| 0 <= c < DECK implies count(hands@.subrange(0, 0), holding(c))
            == 0 by {
            lemma_count_none(hands@.subrange(0, 0), holding(c));
        }
    }
    while lo < n
        invariant
            n == hands.len(),
            n <= 2704,
            lo <= n,
            valid_hands(hands@),
            ascending(hands@),
            used.len() == DECK,
            sum == 2 * lo,
            forall|c: int|
                0 <= c < DECK ==> used[c] == 2 * count(hands@.subrange(0, lo as int), holding(c)),
            0 < lo < n ==> hands[lo - 1].value < hands[lo as int].value,
            ranks.len() == lo,
            forall|i: int| 0 <= i < lo ==> ranks[i] == rank_of(hands@, hands[i]),
        decreases n - lo,
    {
        let mut hi: usize = lo + 1;
        while hi < n && hands[hi].value == hands[lo].value
            invariant
                n == hands.len(),
                lo < hi <= n,
                forall|i: int| lo <= i < hi ==> hands[i].value == hands[lo as int].value,
            decreases n - hi,
        {
            hi = hi + 1;
        }
        proof {
            assert forall|i: int| 0 <= i < lo implies hands[i].value < hands[lo as int].value by {
                assert(key_le(hands[i], hands[lo - 1]));
            }
            assert forall|i: int| hi <= i < n implies hands[i].value > hands[lo as int].value by {
                assert(key_le(hands[lo as int], hands[hi as int]));
                assert(key_le(hands[hi as int], hands[i]));
            }
            assert forall|c: int| 0 <= c < DECK implies used[c] + (hi - lo) <= u32::MAX by {
                lemma_count_bound(hands@.subrange(0, lo as int), holding(c));
            }
        }
        tally(&mut used, &mut sum, hands, lo, hi);
        let mut k: usize = lo;
        while k < hi
            invariant
                n == hands.len(),
                n <= 2704,
                lo <= k <= hi <= n,
                valid_hands(hands@),
                used.len() == DECK,
                sum == 2 * lo + (hi - lo),
                forall|c: int|
                    0 <= c < DECK ==> used[c] == 2 * count(
                        hands@.subrange(0, lo as int),
                        holding(c),
                    ) + count(hands@.subrange(lo as int, hi as int), holding(c)),
                forall|i: int| 0 <= i < lo ==> hands[i].value < hands[lo as int].value,
                forall|i: int| lo <= i < hi ==> hands[i].value == hands[lo as int].value,
                forall|i: int| hi <= i < n ==> hands[i].value > hands[lo as int].value,
                ranks.len() == k,
                forall|i: int| 0 <= i < k ==> ranks[i] == rank_of(hands@, hands[i]),
            decreases hi - k,
        {
            let h = hands[k];
            proof {
                assert(well_formed(hands[k as int]));
                assert(tie_group(hands@, lo as int, hi as int, k as int));
                lemma_group_rank(hands@, lo as int, hi as int, k as int);
                lemma_count_bound(hands@, beaten_by(h));
                lemma_count_bound(hands@, tying_with(h));
            }
            let rank: u32 = sum + 1 - used[h.a as usize] - used[h.b as usize];
            ranks.push(rank as u16);
            k = k + 1;
        }
        proof {
            assert forall|c: int| 0 <= c < DECK implies used[c] + (hi - lo) <= u32::MAX by {
                lemma_count_bound(hands@.subrange(0, lo as int), holding(c));
                lemma_count_bound(hands@.subrange(lo as int, hi as int), holding(c));
            }
        }
        tally(&mut used, &mut sum, hands, lo, hi);
        proof {
            assert forall|c: int| 0 <= c < DECK implies used[c] == 2 * count(
                hands@.subrange(0, hi as int),
                holding(c),
            ) by {
                lemma_count_cut(hands@, 0, lo as int, hi as int, holding(c));
            }
            if hi < n {
                assert(key_le(hands[hi - 1], hands[hi as int]));
            }
        }
        lo = hi;
    }
    ranks
}

/// Puts the hands of one board in processing order and ranks each of them:
/// `ranks[i]` is the rank of the hand that ends at position `i`.
pub fn rank_hands(hands: &mut Vec<Hand>) -> (ranks: Vec<u16>)
    requires
        valid_hands(old(hands)@),
    ensures
        final(hands)@.to_multiset() == old(hands)@.to_multiset(),
        ascending(final(hands)@),
        valid_hands(final(hands)@),
        ranks.len() == final(hands)@.len(),
        forall|i: int|
            0 <= i < ranks.len() ==> ranks[i] == rank_of(old(hands)@, final(hands)@[i]),
{
    sort_hands(hands);
    proof {
        lemma_hands_len(old(hands)@);
        to_multiset_len(old(hands)@);
        to_multiset_len(hands@);
        lemma_valid_permuted(old(hands)@, hands@);
    }
    let ranks = rank_sorted(hands);
    proof {
        assert forall|i: int| 0 <= i < ranks.len() implies ranks[i] == rank_of(
            old(hands)@,
            hands@[i],
        ) by {
            lemma_count_permuted(hands@, old(hands)@, beaten_by(hands@[i]));
            lemma_count_permuted(hands@, old(hands)@, tying_with(hands@[i]));
        }
    }
    ranks
}

} // verus!
