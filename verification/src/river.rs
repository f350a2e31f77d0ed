//! River shares: for every hand of a board and every opponent cluster, the
//! credit the hand earns against the cluster over the population of the
//! cluster that the board and the hand leave.

use vstd::prelude::*;
use crate::clusters::cluster_sizes;
use crate::clusters::cluster_span;
use crate::clusters::in_cluster;
use crate::clusters::lemma_cluster_span;
use crate::clusters::sizes_of;
use crate::counting::count;
use crate::counting::lemma_count_agree;
use crate::counting::lemma_count_bound;
use crate::counting::lemma_count_cut;
use crate::counting::lemma_count_implies;
use crate::counting::lemma_count_none;
use crate::counting::lemma_count_permuted;
use crate::counting::lemma_count_split;
use crate::counting::lemma_count_step;
use crate::ranks::apart_among;
use crate::ranks::ascending;
use crate::ranks::credit_among;
use crate::ranks::beaten_among;
use crate::ranks::beaten_by;
use crate::ranks::holding_among;
use crate::ranks::key_le;
use crate::ranks::lemma_group_credit;
use crate::ranks::lemma_hands_len;
use crate::ranks::rank_of;
use crate::ranks::shares_card;
use crate::ranks::sort_hands;
use crate::ranks::tie_group;
use crate::ranks::tying_among;
use crate::ranks::tying_with;
use crate::ranks::valid_hands;
use crate::ranks::well_formed;
use crate::ranks::Hand;
use crate::strengths::files_last;
use crate::strengths::fits;
use crate::strengths::lemma_fits_in_order;
use crate::strengths::lemma_last_in_order;
use crate::strengths::lemma_untouched_in_order;
use crate::strengths::settled_after;
use crate::strengths::touches;
use crate::vectors::copied;
use crate::vectors::filled;

verus! {

/// An exact share: `numerator` over `denominator`.
#[derive(Clone, Copy, Debug, PartialEq, Eq, Structural)]
pub struct Fraction {
    pub numerator: u32,
    pub denominator: i64,
}

/// Every hand has an assigned hole slot, in a cluster below `clusters`.
pub open spec fn clustered(hands: Seq<Hand>, ochs: Seq<usize>, clusters: int) -> bool {
    forall|i: int|
        0 <= i < hands.len() ==> (#[trigger] hands[i]).hole < ochs.len() && ochs[hands[i].hole as int]
            < clusters
}

/// Whether every hand has an assigned hole slot, in a cluster below
/// `clusters`.
pub fn check_clustered(hands: &Vec<Hand>, ochs: &Vec<usize>, clusters: usize) -> (ok: bool)
    ensures
        ok == clustered(hands@, ochs@, clusters as int),
{
    let mut i: usize = 0;
    while i < hands.len()
        invariant
            i <= hands.len(),
            forall|j: int|
                0 <= j < i ==> (#[trigger] hands[j]).hole < ochs.len() && ochs[hands[j].hole as int]
                    < clusters,
        decreases hands.len() - i,
    {
        if hands[i].hole >= ochs.len() || ochs[hands[i].hole] >= clusters {
            proof {
                assert(!((#[trigger] hands[i as int]).hole < ochs.len() && ochs[hands[i as int].hole as int]
                    < clusters));
            }
            return false;
        }
        i = i + 1;
    }
    true
}

/// A hand earns at most two from every member of the cluster that an
/// opponent can hold beside it.
pub proof fn lemma_credit_bound(hands: Seq<Hand>, ochs: Seq<usize>, k: int, h: Hand)
    ensures
        credit(hands, ochs, k, h) <= 2 * count(hands, apart_among(in_cluster(ochs, k), h)),
{
    let m = in_cluster(ochs, k);
    let level_or_below = |o: Hand| m(o) && o.value <= h.value && !shares_card(h, o);
    lemma_count_split(hands, level_or_below, beaten_among(m, h), tying_among(m, h));
    lemma_count_implies(hands, level_or_below, apart_among(m, h));
}

/// The credit of `h` against the clusters below `n`, added up.
pub open spec fn credit_below(hands: Seq<Hand>, ochs: Seq<usize>, n: nat, h: Hand) -> nat
    decreases n,
{
    if n == 0 {
        0
    } else {
        credit_below(hands, ochs, (n - 1) as nat, h) + credit(hands, ochs, n - 1, h)
    }
}

/// The hands whose hole slot the assignment puts in a cluster below `n`.
spec fn in_clusters_below(ochs: Seq<usize>, n: int) -> spec_fn(Hand) -> bool {
    |o: Hand| ochs[o.hole as int] < n
}

/// The credit against the clusters below `n` is the credit against their
/// members taken together.
proof fn lemma_credit_below(hands: Seq<Hand>, ochs: Seq<usize>, n: nat, h: Hand)
    ensures
        credit_below(hands, ochs, n, h) == credit_among(
            hands,
            in_clusters_below(ochs, n as int),
            h,
        ),
    decreases n,
{
    let all = in_clusters_below(ochs, n as int);
    if n == 0 {
        lemma_count_none(hands, beaten_among(all, h));
        lemma_count_none(hands, tying_among(all, h));
    } else {
        let rest = in_clusters_below(ochs, n - 1);
        let last = in_cluster(ochs, n - 1);
        lemma_credit_below(hands, ochs, (n - 1) as nat, h);
        lemma_count_split(hands, beaten_among(all, h), beaten_among(rest, h), beaten_among(last, h));
        lemma_count_split(hands, tying_among(all, h), tying_among(rest, h), tying_among(last, h));
    }
}

/// The credits of a hand against all the clusters add up to its strength
/// rank.
pub proof fn lemma_credits_make_rank(hands: Seq<Hand>, ochs: Seq<usize>, clusters: nat, h: Hand)
    requires
        clustered(hands, ochs, clusters as int),
    ensures
        credit_below(hands, ochs, clusters, h) == rank_of(hands, h),
{
    let all = in_clusters_below(ochs, clusters as int);
    lemma_credit_below(hands, ochs, clusters, h);
    lemma_count_agree(hands, beaten_among(all, h), beaten_by(h));
    lemma_count_agree(hands, tying_among(all, h), tying_with(h));
}

/// One where `h` itself belongs to cluster `k`, zero where it does not.
pub open spec fn own(ochs: Seq<usize>, k: int, h: Hand) -> int {
    if ochs[h.hole as int] == k {
        1
    } else {
        0
    }
}

/// The credit of `h` against cluster `k`: two for every opposing hand of the
/// cluster that it beats, one for every opposing hand of the cluster that it
/// ties with.
pub open spec fn credit(hands: Seq<Hand>, ochs: Seq<usize>, k: int, h: Hand) -> nat {
    credit_among(hands, in_cluster(ochs, k), h)
}

/// The population that the credit of `h` against cluster `k` is taken over:
/// the size of the cluster, `h` itself counted in where it belongs to it,
/// less two for every hand of the cluster on the board that holds the first
/// card of `h` and two for every such hand that holds the second.
pub open spec fn population(
    hands: Seq<Hand>,
    ochs: Seq<usize>,
    sizes: Seq<u32>,
    k: int,
    h: Hand,
) -> int {
    sizes[k] + own(ochs, k, h) - 2 * count(hands, holding_among(in_cluster(ochs, k), h.a as int))
        - 2 * count(hands, holding_among(in_cluster(ochs, k), h.b as int))
}

/// The shares of `h`, one for every cluster.
pub open spec fn shares_of(hands: Seq<Hand>, ochs: Seq<usize>, sizes: Seq<u32>, h: Hand) -> Seq<
    Fraction,
> {
    Seq::new(
        sizes.len(),
        |k: int|
            Fraction {
                numerator: credit(hands, ochs, k, h) as u32,
                denominator: population(hands, ochs, sizes, k, h) as i64,
            },
    )
}

/// The place of card `c` of cluster `k` in the card tallies.
spec fn cell(k: int, c: int) -> int {
    k * 52 + c
}

/// What the tallies say of the credit of `h` against cluster `k`.
spec fn tallied(used: Seq<u32>, sum: Seq<u32>, ochs: Seq<usize>, k: int, h: Hand) -> int {
    sum[k] + own(ochs, k, h) - used[cell(k, h.a as int)] - used[cell(k, h.b as int)]
}

/// Adds the hands at `lo..hi` to the tallies of their clusters: one to the
/// sum of the cluster for each hand, one to the card tally of the cluster for
/// each of its two cards.
fn tally_clusters(
    used: &mut Vec<u32>,
    sum: &mut Vec<u32>,
    hands: &Vec<Hand>,
    ochs: &Vec<usize>,
    lo: usize,
    hi: usize,
)
    requires
        old(used).len() == old(sum).len() * 52,
        lo <= hi <= hands.len(),
        forall|i: int| lo <= i < hi ==> well_formed(#[trigger] hands[i]),
        clustered(hands@, ochs@, old(sum).len() as int),
        forall|j: int| 0 <= j < old(used).len() ==> #[trigger] old(used)[j] + (hi - lo) <= u32::MAX,
        forall|k: int| 0 <= k < old(sum).len() ==> #[trigger] old(sum)[k] + (hi - lo) <= u32::MAX,
    ensures
        final(used).len() == old(used).len(),
        final(sum).len() == old(sum).len(),
        forall|k: int, c: int|
            0 <= k < old(sum).len() && 0 <= c < 52 ==> #[trigger] final(used)[cell(k, c)] == old(
                used,
            )[cell(k, c)] + count(
                hands@.subrange(lo as int, hi as int),
                holding_among(in_cluster(ochs@, k), c),
            ),
        forall|k: int|
            0 <= k < old(sum).len() ==> #[trigger] final(sum)[k] == old(sum)[k] + count(
                hands@.subrange(lo as int, hi as int),
                in_cluster(ochs@, k),
            ),
{
    let clusters = sum.len();
    let mut i: usize = lo;
    proof {
        assert forall|k: int, c: int| 0 <= k < clusters && 0 <= c < 52 implies count(
            hands@.subrange(lo as int, lo as int),
            #[trigger] holding_among(in_cluster(ochs@, k), c),
        ) == 0 by {
            lemma_count_none(
                hands@.subrange(lo as int, lo as int),
                holding_among(in_cluster(ochs@, k), c),
            );
        }
        assert forall|k: int| 0 <= k < clusters implies count(
            hands@.subrange(lo as int, lo as int),
            #[trigger] in_cluster(ochs@, k),
        ) == 0 by {
            lemma_count_none(hands@.subrange(lo as int, lo as int), in_cluster(ochs@, k));
        }
    }
    while i < hi
        invariant
            used.len() == clusters * 52,
            sum.len() == clusters,
            old(sum).len() == clusters,
            old(used).len() == clusters * 52,
            lo <= i <= hi <= hands.len(),
            forall|j: int| lo <= j < hi ==> well_formed(#[trigger] hands[j]),
            clustered(hands@, ochs@, clusters as int),
            forall|j: int|
                0 <= j < old(used).len() ==> #[trigger] old(used)[j] + (hi - lo) <= u32::MAX,
            forall|k: int| 0 <= k < clusters ==> #[trigger] old(sum)[k] + (hi - lo) <= u32::MAX,
            forall|k: int, c: int|
                0 <= k < clusters && 0 <= c < 52 ==> #[trigger] used[cell(k, c)] == old(used)[cell(
                    k,
                    c,
                )] + count(
                    hands@.subrange(lo as int, i as int),
                    holding_among(in_cluster(ochs@, k), c),
                ),
            forall|k: int|
                0 <= k < clusters ==> #[trigger] sum[k] == old(sum)[k] + count(
                    hands@.subrange(lo as int, i as int),
                    in_cluster(ochs@, k),
                ),
        decreases hi - i,
    {
        let h = hands[i];
        let k = ochs[h.hole];
        let at_a = k * 52 + h.a as usize;
        let at_b = k * 52 + h.b as usize;
        proof {
            assert(well_formed(hands[i as int]));
            assert(at_a == cell(k as int, h.a as int));
            assert(at_b == cell(k as int, h.b as int));
            assert forall|q: int, c: int| 0 <= q < clusters && 0 <= c < 52 implies count(
                hands@.subrange(lo as int, i + 1),
                #[trigger] holding_among(in_cluster(ochs@, q), c),
            ) == count(
                hands@.subrange(lo as int, i as int),
                holding_among(in_cluster(ochs@, q), c),
            ) + if q == k && (c == h.a || c == h.b) {
                1nat
            } else {
                0nat
            } && count(
                hands@.subrange(lo as int, i as int),
                holding_among(in_cluster(ochs@, q), c),
            ) <= i - lo by {
                lemma_count_step(
                    hands@,
                    lo as int,
                    i as int,
                    holding_among(in_cluster(ochs@, q), c),
                );
                lemma_count_bound(
                    hands@.subrange(lo as int, i as int),
                    holding_among(in_cluster(ochs@, q), c),
                );
            }
            assert forall|q: int| 0 <= q < clusters implies count(
                hands@.subrange(lo as int, i + 1),
                #[trigger] in_cluster(ochs@, q),
            ) == count(hands@.subrange(lo as int, i as int), in_cluster(ochs@, q)) + if q == k {
                1nat
            } else {
                0nat
            } && count(hands@.subrange(lo as int, i as int), in_cluster(ochs@, q)) <= i - lo by {
                lemma_count_step(hands@, lo as int, i as int, in_cluster(ochs@, q));
                lemma_count_bound(hands@.subrange(lo as int, i as int), in_cluster(ochs@, q));
            }
        }
        let ua = used[at_a];
        used.set(at_a, ua + 1);
        let ub = used[at_b];
        used.set(at_b, ub + 1);
        let s = sum[k];
        sum.set(k, s + 1);
        i = i + 1;
    }
}

/// The credit of `h` against every cluster, read off the tallies.
fn credit_row(used: &Vec<u32>, sum: &Vec<u32>, ochs: &Vec<usize>, h: Hand) -> (row: Vec<u32>)
    requires
        used.len() == sum.len() * 52,
        well_formed(h),
        h.hole < ochs.len(),
        forall|k: int|
            0 <= k < sum.len() ==> 0 <= #[trigger] tallied(used@, sum@, ochs@, k, h) <= u32::MAX,
    ensures
        row.len() == sum.len(),
        forall|k: int| 0 <= k < sum.len() ==> #[trigger] row[k] == tallied(used@, sum@, ochs@, k, h),
{
    let cluster = ochs[h.hole];
    let mut row: Vec<u32> = Vec::new();
    let mut k: usize = 0;
    while k < sum.len()
        invariant
            k <= sum.len(),
            used.len() == sum.len() * 52,
            well_formed(h),
            h.hole < ochs.len(),
            cluster == ochs[h.hole as int],
            forall|q: int|
                0 <= q < sum.len() ==> 0 <= #[trigger] tallied(used@, sum@, ochs@, q, h)
                    <= u32::MAX,
            row.len() == k,
            forall|q: int| 0 <= q < k ==> #[trigger] row[q] == tallied(used@, sum@, ochs@, q, h),
        decreases sum.len() - k,
    {
        let mine: u64 = if cluster == k {
            1
        } else {
            0
        };
        let held_a = used[k * 52 + h.a as usize] as u64;
        let held_b = used[k * 52 + h.b as usize] as u64;
        proof {
            assert(tallied(used@, sum@, ochs@, k as int, h) == sum[k as int] + mine - held_a
                - held_b);
        }
        let earned: u64 = sum[k] as u64 + mine - held_a - held_b;
        row.push(earned as u32);
        k = k + 1;
    }
    row
}

/// The shares of `h`, one for every cluster: the credit given, over the
/// population that the full tallies of the board leave.
fn share_row(
    used: &Vec<u32>,
    sizes: &Vec<u32>,
    ochs: &Vec<usize>,
    h: Hand,
    credits: &Vec<u32>,
) -> (row: Vec<Fraction>)
    requires
        used.len() == sizes.len() * 52,
        credits.len() == sizes.len(),
        well_formed(h),
        h.hole < ochs.len(),
    ensures
        row.len() == sizes.len(),
        forall|k: int|
            0 <= k < sizes.len() ==> #[trigger] row[k] == (Fraction {
                numerator: credits[k],
                denominator: (sizes[k] + own(ochs@, k, h) - used[cell(k, h.a as int)] - used[cell(
                    k,
                    h.b as int,
                )]) as i64,
            }),
{
    let cluster = ochs[h.hole];
    let mut row: Vec<Fraction> = Vec::new();
    let mut k: usize = 0;
    while k < sizes.len()
        invariant
            k <= sizes.len(),
            used.len() == sizes.len() * 52,
            credits.len() == sizes.len(),
            well_formed(h),
            h.hole < ochs.len(),
            cluster == ochs[h.hole as int],
            row.len() == k,
            forall|q: int|
                0 <= q < k ==> #[trigger] row[q] == (Fraction {
                    numerator: credits[q],
                    denominator: (sizes[q] + own(ochs@, q, h) - used[cell(q, h.a as int)]
                        - used[cell(q, h.b as int)]) as i64,
                }),
        decreases sizes.len() - k,
    {
        let mine: i64 = if cluster == k {
            1
        } else {
            0
        };
        let held_a = used[k * 52 + h.a as usize] as i64;
        let held_b = used[k * 52 + h.b as usize] as i64;
        let left: i64 = sizes[k] as i64 + mine - held_a - held_b;
        row.push(Fraction { numerator: credits[k], denominator: left });
        k = k + 1;
    }
    row
}

/// The credits of hands in processing order, and the full card tallies of
/// the board: twice, for every cluster and card, the hands of the cluster
/// that hold the card.
fn river_credits(hands: &Vec<Hand>, ochs: &Vec<usize>, clusters: usize) -> (out: (
    Vec<Vec<u32>>,
    Vec<u32>,
))
    requires
        valid_hands(hands@),
        ascending(hands@),
        hands.len() <= 2704,
        clustered(hands@, ochs@, clusters as int),
        clusters * 52 <= usize::MAX,
    ensures
        out.0.len() == hands.len(),
        forall|i: int| 0 <= i < hands.len() ==> (#[trigger] out.0[i]).len() == clusters,
        forall|i: int, k: int|
            0 <= i < hands.len() && 0 <= k < clusters ==> #[trigger] out.0[i][k] == credit(
                hands@,
                ochs@,
                k,
                hands[i],
            ),
        out.1.len() == clusters * 52,
        forall|k: int, c: int|
            0 <= k < clusters && 0 <= c < 52 ==> #[trigger] out.1[cell(k, c)] == 2 * count(
                hands@,
                holding_among(in_cluster(ochs@, k), c),
            ),
{
    let n = hands.len();
    let mut used: Vec<u32> = filled(clusters * 52, 0);
    let mut sum: Vec<u32> = filled(clusters, 0);
    let mut credits: Vec<Vec<u32>> = Vec::new();
    let mut lo: usize = 0;
    proof {
        assert forall|k: int, c: int| 0 <= k < clusters && 0 <= c < 52 implies count(
            hands@.subrange(0, 0),
            #[trigger] holding_among(in_cluster(ochs@, k), c),
        ) == 0 by {
            lemma_count_none(hands@.subrange(0, 0), holding_among(in_cluster(ochs@, k), c));
        }
        assert forall|k: int| 0 <= k < clusters implies count(
            hands@.subrange(0, 0),
            #[trigger] in_cluster(ochs@, k),
        ) == 0 by {
            lemma_count_none(hands@.subrange(0, 0), in_cluster(ochs@, k));
        }
    }
    while lo < n
        invariant
            n == hands.len(),
            n <= 2704,
            lo <= n,
            valid_hands(hands@),
            ascending(hands@),
            clustered(hands@, ochs@, clusters as int),
            used.len() == clusters * 52,
            sum.len() == clusters,
            forall|k: int, c: int|
                0 <= k < clusters && 0 <= c < 52 ==> #[trigger] used[cell(k, c)] == 2 * count(
                    hands@.subrange(0, lo as int),
                    holding_among(in_cluster(ochs@, k), c),
                ),
            forall|k: int|
                0 <= k < clusters ==> #[trigger] sum[k] == 2 * count(
                    hands@.subrange(0, lo as int),
                    in_cluster(ochs@, k),
                ),
            0 < lo < n ==> hands[lo - 1].value < hands[lo as int].value,
            credits.len() == lo,
            forall|i: int| 0 <= i < lo ==> (#[trigger] credits[i]).len() == clusters,
            forall|i: int, k: int|
                0 <= i < lo && 0 <= k < clusters ==> #[trigger] credits[i][k] == credit(
                    hands@,
                    ochs@,
                    k,
                    hands[i],
                ),
        decreases n - lo,
    {
        let mut hi: usize = lo + 1;
        while hi < n && hands[hi].value == hands[lo].value
            invariant
                n == hands.len(),
                lo < hi <= n,
                forall|i: int| lo <= i < hi ==> hands[i].value == hands[lo as int].value,
            decreases n - hi,
        {
            hi = hi + 1;
        }
        proof {
            assert forall|i: int| 0 <= i < lo implies hands[i].value < hands[lo as int].value by {
                assert(key_le(hands[i], hands[lo - 1]));
            }
            assert forall|i: int| hi <= i < n implies hands[i].value > hands[lo as int].value by {
                assert(key_le(hands[lo as int], hands[hi as int]));
                assert(key_le(hands[hi as int], hands[i]));
            }
            lemma_tally_room(hands@, ochs@, clusters as int, used@, sum@, lo as int, lo as int);
        }
        tally_clusters(&mut used, &mut sum, hands, ochs, lo, hi);
        let mut j: usize = lo;
        while j < hi
            invariant
                n == hands.len(),
                n <= 2704,
                lo <= j <= hi <= n,
                valid_hands(hands@),
                clustered(hands@, ochs@, clusters as int),
                used.len() == clusters * 52,
                sum.len() == clusters,
                forall|k: int, c: int|
                    0 <= k < clusters && 0 <= c < 52 ==> #[trigger] used[cell(k, c)] == 2 * count(
                        hands@.subrange(0, lo as int),
                        holding_among(in_cluster(ochs@, k), c),
                    ) + count(
                        hands@.subrange(lo as int, hi as int),
                        holding_among(in_cluster(ochs@, k), c),
                    ),
                forall|k: int|
                    0 <= k < clusters ==> #[trigger] sum[k] == 2 * count(
                        hands@.subrange(0, lo as int),
                        in_cluster(ochs@, k),
                    ) + count(hands@.subrange(lo as int, hi as int), in_cluster(ochs@, k)),
                forall|i: int| 0 <= i < lo ==> hands[i].value < hands[lo as int].value,
                forall|i: int| lo <= i < hi ==> hands[i].value == hands[lo as int].value,
                forall|i: int| hi <= i < n ==> hands[i].value > hands[lo as int].value,
                credits.len() == j,
                forall|i: int| 0 <= i < j ==> (#[trigger] credits[i]).len() == clusters,
                forall|i: int, k: int|
                    0 <= i < j && 0 <= k < clusters ==> #[trigger] credits[i][k] == credit(
                        hands@,
                        ochs@,
                        k,
                        hands[i],
                    ),
            decreases hi - j,
        {
            let h = hands[j];
            proof {
                assert(well_formed(hands[j as int]));
                assert(tie_group(hands@, lo as int, hi as int, j as int));
                assert forall|k: int| 0 <= k < clusters implies #[trigger] tallied(
                    used@,
                    sum@,
                    ochs@,
                    k,
                    h,
                ) == credit(hands@, ochs@, k, h) && credit(hands@, ochs@, k, h) <= 3 * n by {
                    let m = in_cluster(ochs@, k);
                    lemma_group_credit(hands@, m, lo as int, hi as int, j as int);
                    assert(used[cell(k, h.a as int)] == 2 * count(
                        hands@.subrange(0, lo as int),
                        holding_among(m, h.a as int),
                    ) + count(hands@.subrange(lo as int, hi as int), holding_among(m, h.a as int)));
                    assert(used[cell(k, h.b as int)] == 2 * count(
                        hands@.subrange(0, lo as int),
                        holding_among(m, h.b as int),
                    ) + count(hands@.subrange(lo as int, hi as int), holding_among(m, h.b as int)));
                    lemma_count_bound(hands@, beaten_among(m, h));
                    lemma_count_bound(hands@, tying_among(m, h));
                }
            }
            let row = credit_row(&used, &sum, ochs, h);
            credits.push(row);
            j = j + 1;
        }
        proof {
            lemma_tally_room(hands@, ochs@, clusters as int, used@, sum@, lo as int, hi as int);
        }
        tally_clusters(&mut used, &mut sum, hands, ochs, lo, hi);
        proof {
            assert forall|k: int, c: int| 0 <= k < clusters && 0 <= c < 52 implies #[trigger] used[cell(
                k,
                c,
            )] == 2 * count(
                hands@.subrange(0, hi as int),
                holding_among(in_cluster(ochs@, k), c),
            ) by {
                lemma_count_cut(
                    hands@,
                    0,
                    lo as int,
                    hi as int,
                    holding_among(in_cluster(ochs@, k), c),
                );
            }
            assert forall|k: int| 0 <= k < clusters implies #[trigger] sum[k] == 2 * count(
                hands@.subrange(0, hi as int),
                in_cluster(ochs@, k),
            ) by {
                lemma_count_cut(hands@, 0, lo as int, hi as int, in_cluster(ochs@, k));
            }
            if hi < n {
                assert(key_le(hands[hi - 1], hands[hi as int]));
            }
        }
        lo = hi;
    }
    proof {
        assert(hands@.subrange(0, n as int) =~= hands@);
    }
    (credits, used)
}

/// Tallies that count the hands before `lo` twice and the hands at `lo..mid`
/// once leave room for the hands of a group.
proof fn lemma_tally_room(
    hands: Seq<Hand>,
    ochs: Seq<usize>,
    clusters: int,
    used: Seq<u32>,
    sum: Seq<u32>,
    lo: int,
    mid: int,
)
    requires
        0 <= lo <= mid <= hands.len() <= 2704,
        0 <= clusters,
        used.len() == clusters * 52,
        sum.len() == clusters,
        forall|k: int, c: int|
            0 <= k < clusters && 0 <= c < 52 ==> #[trigger] used[cell(k, c)] == 2 * count(
                hands.subrange(0, lo),
                holding_among(in_cluster(ochs, k), c),
            ) + count(hands.subrange(lo, mid), holding_among(in_cluster(ochs, k), c)),
        forall|k: int|
            0 <= k < clusters ==> #[trigger] sum[k] == 2 * count(
                hands.subrange(0, lo),
                in_cluster(ochs, k),
            ) + count(hands.subrange(lo, mid), in_cluster(ochs, k)),
    ensures
        forall|j: int| 0 <= j < used.len() ==> #[trigger] used[j] <= 3 * 2704,
        forall|k: int| 0 <= k < sum.len() ==> #[trigger] sum[k] <= 3 * 2704,
{
    assert forall|j: int| 0 <= j < used.len() implies #[trigger] used[j] <= 3 * 2704 by {
        let k = j / 52;
        let c = j % 52;
        assert(j == cell(k, c));
        lemma_count_bound(hands.subrange(0, lo), holding_among(in_cluster(ochs, k), c));
        lemma_count_bound(hands.subrange(lo, mid), holding_among(in_cluster(ochs, k), c));
    }
    assert forall|k: int| 0 <= k < sum.len() implies #[trigger] sum[k] <= 3 * 2704 by {
        lemma_count_bound(hands.subrange(0, lo), in_cluster(ochs, k));
        lemma_count_bound(hands.subrange(lo, mid), in_cluster(ochs, k));
    }
}

/// The shares of a hand do not depend on the order of the hands.
pub proof fn lemma_shares_permuted(
    s: Seq<Hand>,
    t: Seq<Hand>,
    ochs: Seq<usize>,
    sizes: Seq<u32>,
    h: Hand,
)
    requires
        s.to_multiset() == t.to_multiset(),
    ensures
        shares_of(s, ochs, sizes, h) == shares_of(t, ochs, sizes, h),
{
    assert forall|k: int| 0 <= k < sizes.len() implies credit(s, ochs, k, h) == credit(
        t,
        ochs,
        k,
        h,
    ) && population(s, ochs, sizes, k, h) == population(t, ochs, sizes, k, h) by {
        let m = in_cluster(ochs, k);
        lemma_count_permuted(s, t, beaten_among(m, h));
        lemma_count_permuted(s, t, tying_among(m, h));
        lemma_count_permuted(s, t, holding_among(m, h.a as int));
        lemma_count_permuted(s, t, holding_among(m, h.b as int));
    }
    assert(shares_of(s, ochs, sizes, h) =~= shares_of(t, ochs, sizes, h));
}

/// Works out the shares of the hands of one board and files the shares of
/// each hand under its slot. Slots that no hand names keep their entry.
pub fn record_river_board(
    table: &mut Vec<Vec<Fraction>>,
    hands: Vec<Hand>,
    ochs: &Vec<usize>,
    sizes: &Vec<u32>,
)
    requires
        fits(hands@, old(table).len() as int),
        clustered(hands@, ochs@, sizes.len() as int),
        sizes.len() * 52 <= usize::MAX,
    ensures
        final(table).len() == old(table).len(),
        forall|x: int, h: Hand|
            0 <= x < final(table).len() && #[trigger] files_last(hands@, x, h)
                ==> final(table)[x]@ == shares_of(hands@, ochs@, sizes@, h),
        forall|x: int|
            0 <= x < final(table).len() && !touches(hands@, x)
                ==> final(table)[x] == old(table)[x],
{
    let ghost given = hands@;
    let mut hands = hands;
    sort_hands(&mut hands);
    let n = hands.len();
    proof {
        lemma_fits_in_order(given, hands@, table.len() as int);
        lemma_hands_len(given);
        assert forall|i: int| 0 <= i < n implies (#[trigger] hands[i]).hole < ochs.len()
            && ochs[hands[i].hole as int] < sizes.len() by {
            let g = choose|g: int| 0 <= g < given.len() && given[g] == hands[i];
            assert(given[g].hole < ochs.len());
        }
    }
    let (credits, used) = river_credits(&hands, ochs, sizes.len());
    let mut i: usize = 0;
    while i < n
        invariant
            i <= n,
            n == hands.len(),
            table.len() == old(table).len(),
            fits(hands@, table.len() as int),
            clustered(hands@, ochs@, sizes.len() as int),
            given.to_multiset() == hands@.to_multiset(),
            credits.len() == n,
            forall|j: int| 0 <= j < n ==> (#[trigger] credits[j]).len() == sizes.len(),
            forall|j: int, k: int|
                0 <= j < n && 0 <= k < sizes.len() ==> #[trigger] credits[j][k] == credit(
                    hands@,
                    ochs@,
                    k,
                    hands[j],
                ),
            used.len() == sizes.len() * 52,
            forall|k: int, c: int|
                0 <= k < sizes.len() && 0 <= c < 52 ==> #[trigger] used[cell(k, c)] == 2 * count(
                    hands@,
                    holding_among(in_cluster(ochs@, k), c),
                ),
            forall|x: int, j: int|
                0 <= j < i && (#[trigger] hands[j]).index == x && (forall|l: int|
                    j < l < i ==> (#[trigger] hands[l]).index != x) ==> (#[trigger] table[x])@
                    == shares_of(given, ochs@, sizes@, hands[j]),
            forall|x: int|
                0 <= x < table.len() && (forall|l: int|
                    0 <= l < i ==> (#[trigger] hands[l]).index != x) ==> #[trigger] table[x]
                    == old(table)[x],
        decreases n - i,
    {
        let h = hands[i];
        proof {
            assert(well_formed(hands[i as int]));
        }
        let row = share_row(&used, sizes, ochs, h, &credits[i]);
        proof {
            assert(row@ =~= shares_of(hands@, ochs@, sizes@, h)) by {
                assert forall|k: int| 0 <= k < sizes.len() implies #[trigger] row[k]
                    == shares_of(hands@, ochs@, sizes@, h)[k] by {
                    assert(credits[i as int][k] == credit(hands@, ochs@, k, hands[i as int]));
                    lemma_count_bound(hands@, holding_among(in_cluster(ochs@, k), h.a as int));
                    lemma_count_bound(hands@, holding_among(in_cluster(ochs@, k), h.b as int));
                }
            }
            lemma_shares_permuted(hands@, given, ochs@, sizes@, h);
        }
        table.set(h.index, row);
        i = i + 1;
    }
    proof {
        assert forall|x: int, h: Hand|
            0 <= x < table.len() && #[trigger] files_last(given, x, h) implies table[x]@
            == shares_of(given, ochs@, sizes@, h) by {
            let j = lemma_last_in_order(given, hands@, x, h);
            assert(hands[j].index == x);
        }
        assert forall|x: int| 0 <= x < table.len() && !touches(given, x) implies table[x]
            == old(table)[x] by {
            lemma_untouched_in_order(given, hands@, x);
        }
    }
}

/// The share of a slot that no board touches: nothing, over one.
pub open spec fn no_share() -> Fraction {
    Fraction { numerator: 0, denominator: 1 }
}

/// The river table of `size` slots for the given boards, filed in order,
/// with the cluster sizes counted over `holes`, the hole slots of all the
/// hole pairs of the deck.
///
/// A slot holds the shares of the hand that the last board to touch it filed
/// last, and no share for any cluster where no board touches it.
pub fn generate_river_histograms(
    size: usize,
    boards: &Vec<Vec<Hand>>,
    ochs: &Vec<usize>,
    holes: &Vec<usize>,
) -> (table: Vec<Vec<Fraction>>)
    requires
        cluster_span(ochs@) * 52 <= usize::MAX,
        holes.len() <= u32::MAX,
        forall|j: int| 0 <= j < holes.len() ==> #[trigger] holes[j] < ochs.len(),
        forall|b: int| 0 <= b < boards.len() ==> fits(#[trigger] boards[b]@, size as int),
        forall|b: int, i: int|
            0 <= b < boards.len() && 0 <= i < boards[b].len() ==> (#[trigger] boards[b][i]).hole
                < ochs.len(),
    ensures
        table.len() == size,
        forall|x: int, b: int, h: Hand|
            0 <= x < size && 0 <= b < boards.len() && #[trigger] files_last(boards[b]@, x, h)
                && settled_after(boards@, b, x) ==> table[x]@ == shares_of(
                boards[b]@,
                ochs@,
                sizes_of(ochs@, holes@),
                h,
            ),
        forall|x: int|
            0 <= x < size && settled_after(boards@, -1, x) ==> table[x]@ == Seq::new(
                cluster_span(ochs@),
                |k: int| no_share(),
            ),
{
    proof {
        lemma_cluster_span(ochs@);
    }
    let sizes = cluster_sizes(ochs, holes);
    let blank: Vec<Fraction> = filled(sizes.len(), Fraction { numerator: 0, denominator: 1 });
    proof {
        assert(blank@ =~= Seq::new(cluster_span(ochs@), |k: int| no_share()));
    }
    let mut table: Vec<Vec<Fraction>> = Vec::new();
    while table.len() < size
        invariant
            table.len() <= size,
            forall|x: int| 0 <= x < table.len() ==> (#[trigger] table[x])@ == blank@,
        decreases size - table.len(),
    {
        table.push(copied(&blank));
    }
    let mut i: usize = 0;
    while i < boards.len()
        invariant
            i <= boards.len(),
            table.len() == size,
            sizes@ == sizes_of(ochs@, holes@),
            sizes.len() * 52 <= usize::MAX,
            blank@ == Seq::new(cluster_span(ochs@), |k: int| no_share()),
            forall|j: int| 0 <= j < ochs.len() ==> #[trigger] ochs[j] < sizes.len(),
            forall|b: int| 0 <= b < boards.len() ==> fits(#[trigger] boards[b]@, size as int),
            forall|b: int, j: int|
                0 <= b < boards.len() && 0 <= j < boards[b].len() ==> (#[trigger] boards[b][j]).hole
                    < ochs.len(),
            forall|x: int, b: int, h: Hand|
                0 <= x < size && 0 <= b < i && #[trigger] files_last(boards[b]@, x, h)
                    && settled_after(boards@.subrange(0, i as int), b, x) ==> table[x]@
                    == shares_of(boards[b]@, ochs@, sizes@, h),
            forall|x: int|
                0 <= x < size && settled_after(boards@.subrange(0, i as int), -1, x)
                    ==> table[x]@ == blank@,
        decreases boards.len() - i,
    {
        let hands = copied(&boards[i]);
        let ghost done = boards@.subrange(0, i as int);
        let ghost next = boards@.subrange(0, i + 1);
        proof {
            assert forall|j: int| 0 <= j < hands.len() implies (#[trigger] hands[j]).hole
                < ochs.len() && ochs[hands[j].hole as int] < sizes.len() by {
                assert(boards[i as int][j].hole < ochs.len());
            }
        }
        record_river_board(&mut table, hands, ochs, &sizes);
        proof {
            assert(next[i as int] == boards[i as int]);
            assert forall|x: int, b: int, h: Hand|
                0 <= x < size && 0 <= b < i + 1 && #[trigger] files_last(boards[b]@, x, h)
                    && settled_after(next, b, x) implies table[x]@ == shares_of(
                boards[b]@,
                ochs@,
                sizes@,
                h,
            ) by {
                if b < i {
                    assert(!touches(next[i as int]@, x));
                    assert forall|l: int| b < l < done.len() implies !touches(
                        #[trigger] done[l]@,
                        x,
                    ) by {
                        assert(next[l] == done[l]);
                    }
                }
            }
            assert forall|x: int| 0 <= x < size && settled_after(next, -1, x) implies table[x]@
                == blank@ by {
                assert(!touches(next[i as int]@, x));
                assert forall|l: int| -1 < l < done.len() implies !touches(
                    #[trigger] done[l]@,
                    x,
                ) by {
                    assert(next[l] == done[l]);
                }
            }
        }
        i = i + 1;
    }
    proof {
        assert(boards@.subrange(0, boards.len() as int) =~= boards@);
    }
    table
}

} // verus!
