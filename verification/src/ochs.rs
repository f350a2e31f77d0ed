//! Opponent cluster histograms: for every hole slot, the weight of the
//! combinations that fall into each equity bucket, each combination weighted
//! by its multiplicity under suit relabelling.

use vstd::prelude::*;
use crate::buckets::bucket;
use crate::buckets::bucket_of;
use crate::buckets::BUCKETS;
use crate::buckets::MAX_RANK;
use crate::histograms::mass;
use crate::suits::multiplicity;
use crate::suits::suit_multiplicity;
use crate::vectors::filled;

verus! {

/// A histogram of weights over a fixed number of buckets. Weight is only
/// ever added to it.
#[derive(Debug)]
pub struct Histogram {
    weights: Vec<u64>,
}

impl View for Histogram {
    type V = Seq<u64>;

    closed spec fn view(&self) -> Seq<u64> {
        self.weights@
    }
}

impl Histogram {
    /// The weights as numbers.
    pub open spec fn counts(&self) -> Seq<nat> {
        Seq::new(self@.len(), |k: int| self@[k] as nat)
    }

    /// A histogram of `size` empty buckets.
    pub fn new(size: usize) -> (h: Histogram)
        ensures
            h@.len() == size,
            forall|k: int| 0 <= k < size ==> h@[k] == 0,
    {
        Histogram { weights: filled(size, 0) }
    }

    /// The number of buckets.
    pub fn size(&self) -> (n: usize)
        ensures
            n == self@.len(),
    {
        self.weights.len()
    }

    /// The weight in `bucket`.
    pub fn weight(&self, bucket: usize) -> (w: u64)
        requires
            bucket < self@.len(),
        ensures
            w == self@[bucket as int],
    {
        self.weights[bucket]
    }

    /// Adds `weight` to `bucket`.
    pub fn put(&mut self, bucket: usize, weight: u64)
        requires
            bucket < old(self)@.len(),
            old(self)@[bucket as int] + weight <= u64::MAX,
        ensures
            final(self)@ == old(self)@.update(
                bucket as int,
                (old(self)@[bucket as int] + weight) as u64,
            ),
    {
        let held = self.weights[bucket];
        self.weights.set(bucket, held + weight);
    }

    /// The sum of all weights: what each weight is taken over when the
    /// histogram is normalised.
    pub fn total(&self) -> (sum: u128)
        ensures
            sum == mass(self.counts()),
    {
        let mut sum: u128 = 0;
        let mut k: usize = 0;
        proof {
            assert(self.counts().subrange(0, 0) =~= Seq::<nat>::empty());
        }
        while k < self.weights.len()
            invariant
                k <= self.weights.len(),
                self.weights@ == self@,
                sum == mass(self.counts().subrange(0, k as int)),
                sum <= k * u64::MAX,
            decreases self.weights.len() - k,
        {
            proof {
                assert(self.counts().subrange(0, k + 1).drop_last() =~= self.counts().subrange(
                    0,
                    k as int,
                ));
            }
            sum = sum + self.weights[k] as u128;
            k = k + 1;
        }
        proof {
            assert(self.counts().subrange(0, self@.len() as int) =~= self.counts());
        }
        sum
    }
}

/// One canonical combination of hole cards and board: the two card sets, and
/// the slot of the hole cards among the hole histograms.
#[derive(Clone, Copy, Debug, PartialEq, Eq, Structural)]
pub struct Combination {
    pub cards: u64,
    pub board: u64,
    pub hole: usize,
}

/// The weight that the first `n` combinations put into bucket `k` of the
/// histogram of hole slot `hole`: the multiplicity of each combination of
/// that slot whose rank falls into the bucket. The rank of combination `i`
/// is entry `i` of the strength table.
pub open spec fn weight_in(
    strength: Seq<u16>,
    combos: Seq<Combination>,
    n: int,
    hole: int,
    k: int,
) -> nat
    decreases n,
{
    if n <= 0 {
        0
    } else {
        weight_in(strength, combos, n - 1, hole, k) + if combos[n - 1].hole == hole && bucket(
            strength[n - 1],
        ) == k {
            multiplicity(combos[n - 1].cards, combos[n - 1].board) as nat
        } else {
            0
        }
    }
}

/// The weighted histograms of all hole slots, before normalisation.
pub fn build_ochs_histograms(strength: &Vec<u16>, combos: &Vec<Combination>, holes: usize) -> (table:
    Vec<Histogram>)
    requires
        combos.len() <= strength.len(),
        combos.len() * 24 <= u64::MAX,
        forall|i: int| 0 <= i < combos.len() ==> #[trigger] strength[i] < MAX_RANK,
        forall|i: int| 0 <= i < combos.len() ==> (#[trigger] combos[i]).hole < holes,
    ensures
        table.len() == holes,
        forall|p: int| 0 <= p < holes ==> (#[trigger] table[p])@.len() == BUCKETS,
        forall|p: int, k: int|
            0 <= p < holes && 0 <= k < BUCKETS ==> #[trigger] table[p]@[k] == weight_in(
                strength@,
                combos@,
                combos.len() as int,
                p,
                k,
            ),
{
    let mut table: Vec<Histogram> = Vec::new();
    while table.len() < holes
        invariant
            table.len() <= holes,
            forall|p: int| 0 <= p < table.len() ==> (#[trigger] table[p])@.len() == BUCKETS,
            forall|p: int, k: int|
                0 <= p < table.len() && 0 <= k < BUCKETS ==> #[trigger] table[p]@[k] == 0,
        decreases holes - table.len(),
    {
        table.push(Histogram::new(BUCKETS));
    }
    let mut i: usize = 0;
    while i < combos.len()
        invariant
            i <= combos.len(),
            combos.len() <= strength.len(),
            combos.len() * 24 <= u64::MAX,
            forall|j: int| 0 <= j < combos.len() ==> #[trigger] strength[j] < MAX_RANK,
            forall|j: int| 0 <= j < combos.len() ==> (#[trigger] combos[j]).hole < holes,
            table.len() == holes,
            forall|p: int| 0 <= p < holes ==> (#[trigger] table[p])@.len() == BUCKETS,
            forall|p: int, k: int|
                0 <= p < holes && 0 <= k < BUCKETS ==> #[trigger] table[p]@[k] == weight_in(
                    strength@,
                    combos@,
                    i as int,
                    p,
                    k,
                ) && table[p]@[k] <= 24 * i,
        decreases combos.len() - i,
    {
        let combo = combos[i];
        let ways = suit_multiplicity(combo.cards, combo.board);
        let b = bucket_of(strength[i]);
        let ghost before = table@;
        proof {
            assert(before[combo.hole as int]@[b as int] <= 24 * i);
        }
        table[combo.hole].put(b, ways);
        proof {
            assert forall|p: int, k: int| 0 <= p < holes && 0 <= k < BUCKETS implies #[trigger] table[p]@[k]
                == weight_in(strength@, combos@, i + 1, p, k) && table[p]@[k] <= 24 * (i + 1) by {
                assert(before[p]@[k] == weight_in(strength@, combos@, i as int, p, k));
                if p != combo.hole {
                    assert(table[p] == before[p]);
                }
            }
        }
        i = i + 1;
    }
    table
}

} // verus!
