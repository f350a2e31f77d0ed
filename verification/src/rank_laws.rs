//! What holds of the strength ranks of every board.

use vstd::prelude::*;
use crate::counting::count;
use crate::counting::lemma_count_agree;
use crate::counting::lemma_count_complement;
use crate::counting::lemma_count_implies;
use crate::counting::lemma_count_none;
use crate::counting::lemma_count_permuted;
use crate::counting::lemma_count_remove;
use crate::counting::lemma_count_split;
use crate::ranks::apart_from;
use crate::ranks::beaten_by;
use crate::ranks::beating;
use crate::ranks::rank_of;
use crate::ranks::shares_card;
use crate::ranks::sharing_with;
use crate::ranks::tying_with;
use crate::ranks::Hand;

verus! {

/// The hands with an outcome below `v`.
pub open spec fn below(v: u64) -> spec_fn(Hand) -> bool {
    |o: Hand| o.value < v
}

/// The hands with the outcome `v`.
pub open spec fn level_with(v: u64) -> spec_fn(Hand) -> bool {
    |o: Hand| o.value == v
}

/// The hands with an outcome of at most `v`.
pub open spec fn up_to(v: u64) -> spec_fn(Hand) -> bool {
    |o: Hand| o.value <= v
}

/// The hands below `h` that an opponent cannot hold beside it.
pub open spec fn blocked_below(h: Hand) -> spec_fn(Hand) -> bool {
    |o: Hand| o.value < h.value && shares_card(h, o)
}

/// The hands level with `h` that an opponent cannot hold beside it, `h`
/// itself among them.
pub open spec fn blocked_level(h: Hand) -> spec_fn(Hand) -> bool {
    |o: Hand| o.value == h.value && shares_card(h, o)
}

/// The rank that the outcome `v` would earn against every hand of the board,
/// blocked or not: two for each hand below it, one for each hand level with
/// it.
pub open spec fn score(hands: Seq<Hand>, v: u64) -> nat {
    2 * count(hands, below(v)) + count(hands, level_with(v))
}

/// The part of the score that `h` cannot earn, because the hands concerned
/// hold one of its cards.
pub open spec fn blocked(hands: Seq<Hand>, h: Hand) -> nat {
    2 * count(hands, blocked_below(h)) + count(hands, blocked_level(h))
}

/// The opposing hands of `h` are those it beats, those it ties with and those
/// that beat it: the three counts add up to the number of hands that share no
/// card with `h`.
pub proof fn lemma_outcomes_partition(hands: Seq<Hand>, h: Hand)
    ensures
        count(hands, beaten_by(h)) + count(hands, tying_with(h)) + count(hands, beating(h))
            == count(hands, apart_from(h)),
{
    let not_beating = |o: Hand| o.value <= h.value && !shares_card(h, o);
    lemma_count_split(hands, apart_from(h), not_beating, beating(h));
    lemma_count_split(hands, not_beating, beaten_by(h), tying_with(h));
}

/// Where every hand has the outcome of `h`, the rank of `h` is the number of
/// hands that share no card with it.
pub proof fn lemma_all_tied(hands: Seq<Hand>, h: Hand)
    requires
        forall|i: int| 0 <= i < hands.len() ==> (#[trigger] hands[i]).value == h.value,
    ensures
        rank_of(hands, h) == count(hands, apart_from(h)),
{
    lemma_count_none(hands, beaten_by(h));
    lemma_count_agree(hands, tying_with(h), apart_from(h));
}

/// The rank of a hand does not depend on the order in which the hands of
/// the board are given.
pub proof fn lemma_rank_permuted(given: Seq<Hand>, other: Seq<Hand>, h: Hand)
    requires
        given.to_multiset() == other.to_multiset(),
    ensures
        rank_of(given, h) == rank_of(other, h),
{
    lemma_count_permuted(given, other, beaten_by(h));
    lemma_count_permuted(given, other, tying_with(h));
}

/// A hand of the board has at most all the other hands against it, so its
/// rank is at most twice their number.
pub proof fn lemma_rank_bound(hands: Seq<Hand>, h: Hand)
    requires
        hands.contains(h),
    ensures
        count(hands, apart_from(h)) <= hands.len() - 1,
        rank_of(hands, h) <= 2 * (hands.len() - 1),
{
    lemma_outcomes_partition(hands, h);
    lemma_count_complement(hands, apart_from(h), sharing_with(h));
    let i = choose|i: int| 0 <= i < hands.len() && hands[i] == h;
    lemma_count_remove(hands, i, sharing_with(h));
}

/// Rank and blocked credit make up the score of the outcome: what a hand
/// does not earn is exactly what its own cards block.
pub proof fn lemma_rank_plus_blocked(hands: Seq<Hand>, h: Hand)
    ensures
        rank_of(hands, h) + blocked(hands, h) == score(hands, h.value),
{
    lemma_count_split(hands, below(h.value), beaten_by(h), blocked_below(h));
    lemma_count_split(hands, level_with(h.value), tying_with(h), blocked_level(h));
}

/// A better outcome has the higher score, by at least the number of hands
/// level with either outcome.
pub proof fn lemma_score_increases(hands: Seq<Hand>, low: u64, high: u64)
    requires
        low < high,
    ensures
        score(hands, high) >= score(hands, low) + count(hands, level_with(low)) + count(
            hands,
            level_with(high),
        ),
{
    lemma_count_split(hands, up_to(low), below(low), level_with(low));
    lemma_count_implies(hands, up_to(low), below(high));
}

/// Two hands with the same outcome have the same rank exactly when their
/// cards block the same credit.
pub proof fn lemma_tied_ranks(hands: Seq<Hand>, h1: Hand, h2: Hand)
    requires
        h1.value == h2.value,
    ensures
        rank_of(hands, h1) == rank_of(hands, h2) <==> blocked(hands, h1) == blocked(hands, h2),
{
    lemma_rank_plus_blocked(hands, h1);
    lemma_rank_plus_blocked(hands, h2);
}

/// Tied hands whose cards block the same credit receive the same rank.
pub proof fn lemma_tied_hands_share_rank(hands: Seq<Hand>, h1: Hand, h2: Hand)
    requires
        h1.value == h2.value,
        blocked(hands, h1) == blocked(hands, h2),
    ensures
        rank_of(hands, h1) == rank_of(hands, h2),
{
    lemma_tied_ranks(hands, h1, h2);
}

/// A hand with the better outcome has the higher rank exactly when the
/// credit its cards block beyond that of the other hand is less than the
/// difference of the two scores.
pub proof fn lemma_better_ranks(hands: Seq<Hand>, better: Hand, worse: Hand)
    requires
        better.value > worse.value,
    ensures
        rank_of(hands, better) > rank_of(hands, worse) <==> blocked(hands, better) - blocked(
            hands,
            worse,
        ) < score(hands, better.value) - score(hands, worse.value),
{
    lemma_rank_plus_blocked(hands, better);
    lemma_rank_plus_blocked(hands, worse);
}

/// Rank is monotonic in the outcome: the hand with the better outcome has
/// the strictly higher rank, unless its cards block more credit than those
/// of the other hand by the difference of the two scores or more.
pub proof fn lemma_rank_monotonic(hands: Seq<Hand>, better: Hand, worse: Hand)
    requires
        better.value > worse.value,
        blocked(hands, better) - blocked(hands, worse) < score(hands, better.value) - score(
            hands,
            worse.value,
        ),
    ensures
        rank_of(hands, better) > rank_of(hands, worse),
{
    lemma_better_ranks(hands, better, worse);
}

/// Rank follows outcome wherever the better hand blocks no more credit than
/// the worse one: of two hands, one of them on the board, the one with the
/// better outcome then has the strictly higher rank.
pub proof fn lemma_rank_follows_outcome(hands: Seq<Hand>, better: Hand, worse: Hand)
    requires
        hands.contains(better) || hands.contains(worse),
        better.value > worse.value,
        blocked(hands, better) <= blocked(hands, worse),
    ensures
        rank_of(hands, better) > rank_of(hands, worse),
{
    lemma_score_increases(hands, worse.value, better.value);
    if hands.contains(better) {
        let i = choose|i: int| 0 <= i < hands.len() && hands[i] == better;
        lemma_count_remove(hands, i, level_with(better.value));
    } else {
        let i = choose|i: int| 0 <= i < hands.len() && hands[i] == worse;
        lemma_count_remove(hands, i, level_with(worse.value));
    }
    lemma_rank_monotonic(hands, better, worse);
}

/// The hands beaten by, tied with and beating the first `n` hands of the
/// board, added up.
pub open spec fn outcomes_upto(hands: Seq<Hand>, n: nat) -> nat
    decreases n,
{
    if n == 0 {
        0
    } else {
        let h = hands[n - 1];
        outcomes_upto(hands, (n - 1) as nat) + count(hands, beaten_by(h)) + count(
            hands,
            tying_with(h),
        ) + count(hands, beating(h))
    }
}

/// The opposing hands of the first `n` hands of the board, added up.
pub open spec fn opposing_upto(hands: Seq<Hand>, n: nat) -> nat
    decreases n,
{
    if n == 0 {
        0
    } else {
        opposing_upto(hands, (n - 1) as nat) + count(hands, apart_from(hands[n - 1]))
    }
}

/// Over all the hands of a board, the hands beaten, tied with and beating
/// add up to the number of pairs of a hand and an opposing hand.
pub proof fn lemma_outcome_totals(hands: Seq<Hand>, n: nat)
    requires
        n <= hands.len(),
    ensures
        outcomes_upto(hands, n) == opposing_upto(hands, n),
    decreases n,
{
    if n > 0 {
        lemma_outcome_totals(hands, (n - 1) as nat);
        lemma_outcomes_partition(hands, hands[n - 1]);
    }
}

} // verus!
