//! Flop and turn histograms: how many of the completions of a combination
//! fall into each equity bucket.

use vstd::prelude::*;
use crate::buckets::bucket;
use crate::buckets::bucket_of;
use crate::buckets::BUCKETS;
use crate::buckets::MAX_RANK;
use crate::counting::count;
use crate::counting::lemma_count_bound;
use crate::counting::lemma_count_none;
use crate::counting::lemma_count_step;
use crate::vectors::filled;

verus! {

/// The table slots whose rank falls into bucket `k`.
pub open spec fn lands_in(strength: Seq<u16>, k: int) -> spec_fn(usize) -> bool {
    |slot: usize| bucket(strength[slot as int]) == k
}

/// Every slot is a slot of the table, and holds a rank.
pub open spec fn readable(strength: Seq<u16>, slots: Seq<usize>) -> bool {
    forall|i: int|
        0 <= i < slots.len() ==> (#[trigger] slots[i]) < strength.len() && strength[slots[i] as int]
            < MAX_RANK
}

/// Whether every slot is a slot of the table, and holds a rank.
pub fn check_readable(strength: &Vec<u16>, slots: &Vec<usize>) -> (ok: bool)
    ensures
        ok == readable(strength@, slots@),
{
    let mut i: usize = 0;
    while i < slots.len()
        invariant
            i <= slots.len(),
            forall|j: int|
                0 <= j < i ==> (#[trigger] slots[j]) < strength.len() && strength[slots[j] as int]
                    < MAX_RANK,
        decreases slots.len() - i,
    {
        if slots[i] >= strength.len() || strength[slots[i]] >= MAX_RANK {
            proof {
                assert(!((#[trigger] slots[i as int]) < strength.len() && strength[slots[i as int] as int]
                    < MAX_RANK));
            }
            return false;
        }
        i = i + 1;
    }
    true
}

/// The histogram of the ranks found under `slots`: for every bucket, the
/// number of slots whose rank falls into it.
pub open spec fn bucket_counts(strength: Seq<u16>, slots: Seq<usize>) -> Seq<nat> {
    Seq::new(BUCKETS as nat, |k: int| count(slots, lands_in(strength, k)))
}

/// The sum of the entries of a histogram.
pub open spec fn mass(h: Seq<nat>) -> nat
    decreases h.len(),
{
    if h.len() == 0 {
        0
    } else {
        mass(h.drop_last()) + h.last()
    }
}

/// The entries of a flop histogram as numbers.
pub open spec fn flop_counts(hist: Seq<u16>) -> Seq<nat> {
    Seq::new(hist.len(), |k: int| hist[k] as nat)
}

/// The entries of a turn histogram as numbers.
pub open spec fn turn_counts(hist: Seq<u8>) -> Seq<nat> {
    Seq::new(hist.len(), |k: int| hist[k] as nat)
}

/// Raising one entry by one raises the mass by one.
proof fn lemma_mass_raised(h: Seq<nat>, g: Seq<nat>, k: int)
    requires
        0 <= k < h.len(),
        g.len() == h.len(),
        forall|j: int| 0 <= j < h.len() ==> g[j] == h[j] + if j == k {
            1nat
        } else {
            0nat
        },
    ensures
        mass(g) == mass(h) + 1,
    decreases h.len(),
{
    if k < h.len() - 1 {
        lemma_mass_raised(h.drop_last(), g.drop_last(), k);
    } else {
        assert(g.drop_last() =~= h.drop_last());
    }
}

/// A histogram of zeros has no mass.
proof fn lemma_mass_zero(h: Seq<nat>)
    requires
        forall|j: int| 0 <= j < h.len() ==> h[j] == 0,
    ensures
        mass(h) == 0,
    decreases h.len(),
{
    if h.len() > 0 {
        lemma_mass_zero(h.drop_last());
    }
}

/// A histogram without mass is empty in every bucket.
pub proof fn lemma_massless(h: Seq<nat>)
    requires
        mass(h) == 0,
    ensures
        forall|k: int| 0 <= k < h.len() ==> #[trigger] h[k] == 0,
    decreases h.len(),
{
    if h.len() > 0 {
        lemma_massless(h.drop_last());
        assert forall|k: int| 0 <= k < h.len() implies #[trigger] h[k] == 0 by {
            if k < h.len() - 1 {
                assert(h.drop_last()[k] == h[k]);
            }
        }
    }
}

/// No entry of a histogram exceeds its mass.
pub proof fn lemma_mass_bounds(h: Seq<nat>, k: int)
    requires
        0 <= k < h.len(),
    ensures
        h[k] <= mass(h),
    decreases h.len(),
{
    if k < h.len() - 1 {
        lemma_mass_bounds(h.drop_last(), k);
    }
}

/// The buckets split the slots among them: the mass of a histogram is the
/// number of slots it was counted over.
pub proof fn lemma_histogram_mass(strength: Seq<u16>, slots: Seq<usize>)
    requires
        readable(strength, slots),
    ensures
        mass(bucket_counts(strength, slots)) == slots.len(),
    decreases slots.len(),
{
    if slots.len() == 0 {
        assert forall|k: int| 0 <= k < BUCKETS implies bucket_counts(strength, slots)[k] == 0 by {
            lemma_count_none(slots, lands_in(strength, k));
        }
        lemma_mass_zero(bucket_counts(strength, slots));
    } else {
        let rest = slots.drop_last();
        assert forall|i: int| 0 <= i < rest.len() implies (#[trigger] rest[i]) < strength.len()
            && strength[rest[i] as int] < MAX_RANK by {
            assert(rest[i] == slots[i]);
        }
        lemma_histogram_mass(strength, rest);
        let last = slots.last();
        assert(last == slots[slots.len() - 1]);
        let b = bucket(strength[last as int]);
        assert(0 <= b < BUCKETS);
        lemma_mass_raised(bucket_counts(strength, rest), bucket_counts(strength, slots), b);
    }
}

/// For every bucket, the number of slots whose rank falls into it.
fn count_buckets(strength: &Vec<u16>, slots: &Vec<usize>) -> (counts: Vec<usize>)
    requires
        readable(strength@, slots@),
    ensures
        counts.len() == BUCKETS,
        forall|k: int| 0 <= k < BUCKETS ==> #[trigger] counts[k] == count(slots@, lands_in(strength@, k)),
{
    let mut counts: Vec<usize> = filled(BUCKETS, 0);
    let mut i: usize = 0;
    proof {
        assert forall|k: int| 0 <= k < BUCKETS implies count(
            slots@.subrange(0, 0),
            lands_in(strength@, k),
        ) == 0 by {
            lemma_count_none(slots@.subrange(0, 0), lands_in(strength@, k));
        }
    }
    while i < slots.len()
        invariant
            i <= slots.len(),
            readable(strength@, slots@),
            counts.len() == BUCKETS,
            forall|k: int|
                0 <= k < BUCKETS ==> #[trigger] counts[k] == count(
                    slots@.subrange(0, i as int),
                    lands_in(strength@, k),
                ),
        decreases slots.len() - i,
    {
        let slot = slots[i];
        let b = bucket_of(strength[slot]);
        proof {
            assert forall|k: int| 0 <= k < BUCKETS implies count(
                slots@.subrange(0, i + 1),
                lands_in(strength@, k),
            ) == count(slots@.subrange(0, i as int), lands_in(strength@, k)) + if k == b {
                1nat
            } else {
                0nat
            } && count(slots@.subrange(0, i as int), lands_in(strength@, k)) <= i by {
                lemma_count_step(slots@, 0, i as int, lands_in(strength@, k));
                lemma_count_bound(slots@.subrange(0, i as int), lands_in(strength@, k));
            }
        }
        let seen = counts[b];
        counts.set(b, seen + 1);
        i = i + 1;
    }
    proof {
        assert(slots@.subrange(0, slots.len() as int) =~= slots@);
    }
    counts
}

/// The flop histogram of one combination: `slots` are the table slots of the
/// hands that its completions lead to.
pub fn flop_histogram(strength: &Vec<u16>, slots: &Vec<usize>) -> (hist: Vec<u16>)
    requires
        readable(strength@, slots@),
        slots.len() <= u16::MAX,
    ensures
        flop_counts(hist@) == bucket_counts(strength@, slots@),
        mass(flop_counts(hist@)) == slots.len(),
{
    let counts = count_buckets(strength, slots);
    let mut hist: Vec<u16> = Vec::new();
    let mut k: usize = 0;
    while k < BUCKETS
        invariant
            k <= BUCKETS,
            counts.len() == BUCKETS,
            slots.len() <= u16::MAX,
            forall|j: int|
                0 <= j < BUCKETS ==> #[trigger] counts[j] == count(slots@, lands_in(strength@, j)),
            hist.len() == k,
            forall|j: int| 0 <= j < k ==> #[trigger] hist[j] == counts[j],
        decreases BUCKETS - k,
    {
        proof {
            lemma_count_bound(slots@, lands_in(strength@, k as int));
        }
        hist.push(counts[k] as u16);
        k = k + 1;
    }
    proof {
        assert(flop_counts(hist@) =~= bucket_counts(strength@, slots@));
        lemma_histogram_mass(strength@, slots@);
    }
    hist
}

/// The turn histogram of one combination: `slots` are the table slots of the
/// hands that its completions lead to.
pub fn turn_histogram(strength: &Vec<u16>, slots: &Vec<usize>) -> (hist: Vec<u8>)
    requires
        readable(strength@, slots@),
        slots.len() <= u8::MAX,
    ensures
        turn_counts(hist@) == bucket_counts(strength@, slots@),
        mass(turn_counts(hist@)) == slots.len(),
{
    let counts = count_buckets(strength, slots);
    let mut hist: Vec<u8> = Vec::new();
    let mut k: usize = 0;
    while k < BUCKETS
        invariant
            k <= BUCKETS,
            counts.len() == BUCKETS,
            slots.len() <= u8::MAX,
            forall|j: int|
                0 <= j < BUCKETS ==> #[trigger] counts[j] == count(slots@, lands_in(strength@, j)),
            hist.len() == k,
            forall|j: int| 0 <= j < k ==> #[trigger] hist[j] == counts[j],
        decreases BUCKETS - k,
    {
        proof {
            lemma_count_bound(slots@, lands_in(strength@, k as int));
        }
        hist.push(counts[k] as u8);
        k = k + 1;
    }
    proof {
        assert(turn_counts(hist@) =~= bucket_counts(strength@, slots@));
        lemma_histogram_mass(strength@, slots@);
    }
    hist
}

/// The flop histograms of all combinations: `completions[i]` holds the table
/// slots of the hands that the completions of combination `i` lead to.
pub fn generate_flop_histograms(strength: &Vec<u16>, completions: &Vec<Vec<usize>>) -> (table: Vec<
    Vec<u16>,
>)
    requires
        forall|i: int|
            0 <= i < completions.len() ==> readable(strength@, (#[trigger] completions[i])@)
                && completions[i].len() <= u16::MAX,
    ensures
        table.len() == completions.len(),
        forall|i: int|
            0 <= i < table.len() ==> flop_counts((#[trigger] table[i])@) == bucket_counts(
                strength@,
                completions[i]@,
            ) && mass(flop_counts(table[i]@)) == completions[i].len(),
{
    let mut table: Vec<Vec<u16>> = Vec::new();
    let mut i: usize = 0;
    while i < completions.len()
        invariant
            i <= completions.len(),
            table.len() == i,
            forall|j: int|
                0 <= j < completions.len() ==> readable(strength@, (#[trigger] completions[j])@)
                    && completions[j].len() <= u16::MAX,
            forall|j: int|
                0 <= j < i ==> flop_counts((#[trigger] table[j])@) == bucket_counts(
                    strength@,
                    completions[j]@,
                ) && mass(flop_counts(table[j]@)) == completions[j].len(),
        decreases completions.len() - i,
    {
        let hist = flop_histogram(strength, &completions[i]);
        table.push(hist);
        i = i + 1;
    }
    table
}

/// The turn histograms of all combinations: `completions[i]` holds the table
/// slots of the hands that the completions of combination `i` lead to.
pub fn generate_turn_histograms(strength: &Vec<u16>, completions: &Vec<Vec<usize>>) -> (table: Vec<
    Vec<u8>,
>)
    requires
        forall|i: int|
            0 <= i < completions.len() ==> readable(strength@, (#[trigger] completions[i])@)
                && completions[i].len() <= u8::MAX,
    ensures
        table.len() == completions.len(),
        forall|i: int|
            0 <= i < table.len() ==> turn_counts((#[trigger] table[i])@) == bucket_counts(
                strength@,
                completions[i]@,
            ) && mass(turn_counts(table[i]@)) == completions[i].len(),
{
    let mut table: Vec<Vec<u8>> = Vec::new();
    let mut i: usize = 0;
    while i < completions.len()
        invariant
            i <= completions.len(),
            table.len() == i,
            forall|j: int|
                0 <= j < completions.len() ==> readable(strength@, (#[trigger] completions[j])@)
                    && completions[j].len() <= u8::MAX,
            forall|j: int|
                0 <= j < i ==> turn_counts((#[trigger] table[j])@) == bucket_counts(
                    strength@,
                    completions[j]@,
                ) && mass(turn_counts(table[j]@)) == completions[j].len(),
        decreases completions.len() - i,
    {
        let hist = turn_histogram(strength, &completions[i]);
        table.push(hist);
        i = i + 1;
    }
    table
}

} // verus!
