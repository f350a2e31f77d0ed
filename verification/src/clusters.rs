//! The opponent cluster assignment: which cluster a hole pair belongs to, how
//! many clusters there are and how many hole pairs each one holds.

use vstd::prelude::*;
use crate::counting::count;
use crate::counting::lemma_count_bound;
use crate::counting::lemma_count_none;
use crate::counting::lemma_count_step;
use crate::ranks::Hand;
use crate::vectors::filled;

verus! {

/// The number of clusters that an assignment spans: one more than the
/// greatest cluster it names, and none where it names none.
pub open spec fn cluster_span(ochs: Seq<usize>) -> nat
    decreases ochs.len(),
{
    if ochs.len() == 0 {
        0
    } else {
        let rest = cluster_span(ochs.drop_last());
        if ochs.last() < rest {
            rest
        } else {
            (ochs.last() + 1) as nat
        }
    }
}

/// Every cluster that the assignment names is below its span, and the span
/// of an assignment that names a cluster is one more than one that it names.
pub proof fn lemma_cluster_span(ochs: Seq<usize>)
    ensures
        forall|i: int| 0 <= i < ochs.len() ==> #[trigger] ochs[i] < cluster_span(ochs),
        ochs.len() > 0 ==> exists|i: int| 0 <= i < ochs.len() && #[trigger] ochs[i] + 1 == cluster_span(ochs),
    decreases ochs.len(),
{
    if ochs.len() > 0 {
        let rest = ochs.drop_last();
        lemma_cluster_span(rest);
        assert forall|i: int| 0 <= i < ochs.len() implies #[trigger] ochs[i] < cluster_span(
            ochs,
        ) by {
            if i < rest.len() {
                assert(rest[i] == ochs[i]);
            }
        }
        if ochs.last() < cluster_span(rest) {
            let i = choose|i: int| 0 <= i < rest.len() && #[trigger] rest[i] + 1 == cluster_span(rest);
            assert(ochs[i] + 1 == cluster_span(ochs));
        } else {
            assert(ochs[ochs.len() - 1] + 1 == cluster_span(ochs));
        }
    }
}

/// The hole slots that the assignment puts in cluster `k`.
pub open spec fn assigned_to(ochs: Seq<usize>, k: int) -> spec_fn(usize) -> bool {
    |hole: usize| ochs[hole as int] == k
}

/// The hands whose hole slot the assignment puts in cluster `k`.
pub open spec fn in_cluster(ochs: Seq<usize>, k: int) -> spec_fn(Hand) -> bool {
    |o: Hand| ochs[o.hole as int] == k
}

/// The size of every cluster: how many of the given hole slots the
/// assignment puts in it.
pub open spec fn sizes_of(ochs: Seq<usize>, holes: Seq<usize>) -> Seq<u32> {
    Seq::new(cluster_span(ochs), |k: int| count(holes, assigned_to(ochs, k)) as u32)
}

/// The number of clusters that the assignment spans.
pub fn cluster_count(ochs: &Vec<usize>) -> (clusters: usize)
    requires
        forall|i: int| 0 <= i < ochs.len() ==> #[trigger] ochs[i] < usize::MAX,
    ensures
        clusters == cluster_span(ochs@),
{
    let mut clusters: usize = 0;
    let mut i: usize = 0;
    proof {
        assert(ochs@.subrange(0, 0) =~= Seq::<usize>::empty());
    }
    while i < ochs.len()
        invariant
            i <= ochs.len(),
            forall|j: int| 0 <= j < ochs.len() ==> #[trigger] ochs[j] < usize::MAX,
            clusters == cluster_span(ochs@.subrange(0, i as int)),
        decreases ochs.len() - i,
    {
        proof {
            assert(ochs@.subrange(0, i + 1).drop_last() =~= ochs@.subrange(0, i as int));
        }
        if ochs[i] >= clusters {
            clusters = ochs[i] + 1;
        }
        i = i + 1;
    }
    proof {
        assert(ochs@.subrange(0, ochs.len() as int) =~= ochs@);
    }
    clusters
}

/// The size of every cluster, counted over the hole slots of all the hole
/// pairs of the deck.
pub fn cluster_sizes(ochs: &Vec<usize>, holes: &Vec<usize>) -> (sizes: Vec<u32>)
    requires
        forall|i: int| 0 <= i < ochs.len() ==> #[trigger] ochs[i] < usize::MAX,
        forall|j: int| 0 <= j < holes.len() ==> #[trigger] holes[j] < ochs.len(),
        holes.len() <= u32::MAX,
    ensures
        sizes@ == sizes_of(ochs@, holes@),
{
    let clusters = cluster_count(ochs);
    let mut sizes: Vec<u32> = filled(clusters, 0);
    let mut j: usize = 0;
    proof {
        lemma_cluster_span(ochs@);
        assert forall|k: int| 0 <= k < clusters implies count(
            holes@.subrange(0, 0),
            assigned_to(ochs@, k),
        ) == 0 by {
            lemma_count_none(holes@.subrange(0, 0), assigned_to(ochs@, k));
        }
    }
    while j < holes.len()
        invariant
            j <= holes.len(),
            holes.len() <= u32::MAX,
            sizes.len() == clusters,
            forall|i: int| 0 <= i < ochs.len() ==> #[trigger] ochs[i] < clusters,
            forall|l: int| 0 <= l < holes.len() ==> #[trigger] holes[l] < ochs.len(),
            forall|k: int|
                0 <= k < clusters ==> #[trigger] sizes[k] == count(
                    holes@.subrange(0, j as int),
                    assigned_to(ochs@, k),
                ),
        decreases holes.len() - j,
    {
        let k = ochs[holes[j]];
        proof {
            assert forall|c: int| 0 <= c < clusters implies count(
                holes@.subrange(0, j + 1),
                assigned_to(ochs@, c),
            ) == count(holes@.subrange(0, j as int), assigned_to(ochs@, c)) + if c == k {
                1nat
            } else {
                0nat
            } && count(holes@.subrange(0, j as int), assigned_to(ochs@, c)) <= j by {
                lemma_count_step(holes@, 0, j as int, assigned_to(ochs@, c));
                lemma_count_bound(holes@.subrange(0, j as int), assigned_to(ochs@, c));
            }
        }
        let size = sizes[k];
        sizes.set(k, size + 1);
        j = j + 1;
    }
    proof {
        assert(holes@.subrange(0, holes.len() as int) =~= holes@);
        assert(sizes@ =~= sizes_of(ochs@, holes@));
    }
    sizes
}

} // verus!
