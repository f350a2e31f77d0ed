//! Counting the items of a sequence that satisfy a predicate, with the
//! arithmetic of such counts that the ranking proofs rest on.

use vstd::prelude::*;
use vstd::seq_lib::*;

verus! {

/// Number of items of `s` that satisfy `p`.
pub open spec fn count<T>(s: Seq<T>, p: spec_fn(T) -> bool) -> nat
    decreases s.len(),
{
    if s.len() == 0 {
        0
    } else {
        count(s.drop_last(), p) + if p(s.last()) {
            1nat
        } else {
            0nat
        }
    }
}

/// A count never exceeds the length of the sequence.
pub proof fn lemma_count_bound<T>(s: Seq<T>, p: spec_fn(T) -> bool)
    ensures
        count(s, p) <= s.len(),
    decreases s.len(),
{
    if s.len() > 0 {
        lemma_count_bound(s.drop_last(), p);
    }
}

/// The count of a concatenation is the sum of the counts of its parts.
pub proof fn lemma_count_concat<T>(s: Seq<T>, t: Seq<T>, p: spec_fn(T) -> bool)
    ensures
        count(s + t, p) == count(s, p) + count(t, p),
    decreases t.len(),
{
    if t.len() == 0 {
        assert(s + t =~= s);
    } else {
        lemma_count_concat(s, t.drop_last(), p);
        assert((s + t).drop_last() =~= s + t.drop_last());
    }
}

/// Extending a prefix by the next item of the sequence.
pub proof fn lemma_count_step<T>(s: Seq<T>, from: int, to: int, p: spec_fn(T) -> bool)
    requires
        0 <= from <= to < s.len(),
    ensures
        count(s.subrange(from, to + 1), p) == count(s.subrange(from, to), p) + if p(s[to]) {
            1nat
        } else {
            0nat
        },
{
    assert(s.subrange(from, to + 1).drop_last() =~= s.subrange(from, to));
}

/// Cutting a range of the sequence in two.
pub proof fn lemma_count_cut<T>(s: Seq<T>, from: int, mid: int, to: int, p: spec_fn(T) -> bool)
    requires
        0 <= from <= mid <= to <= s.len(),
    ensures
        count(s.subrange(from, to), p) == count(s.subrange(from, mid), p) + count(
            s.subrange(mid, to),
            p,
        ),
{
    lemma_count_concat(s.subrange(from, mid), s.subrange(mid, to), p);
    assert(s.subrange(from, mid) + s.subrange(mid, to) =~= s.subrange(from, to));
}

/// A predicate that no item satisfies counts nothing.
pub proof fn lemma_count_none<T>(s: Seq<T>, p: spec_fn(T) -> bool)
    requires
        forall|i: int| 0 <= i < s.len() ==> !p(#[trigger] s[i]),
    ensures
        count(s, p) == 0,
    decreases s.len(),
{
    if s.len() > 0 {
        lemma_count_none(s.drop_last(), p);
    }
}

/// A predicate that every item satisfies counts them all.
pub proof fn lemma_count_all<T>(s: Seq<T>, p: spec_fn(T) -> bool)
    requires
        forall|i: int| 0 <= i < s.len() ==> p(#[trigger] s[i]),
    ensures
        count(s, p) == s.len(),
    decreases s.len(),
{
    if s.len() > 0 {
        lemma_count_all(s.drop_last(), p);
    }
}

/// A predicate that a single position satisfies counts one.
pub proof fn lemma_count_single<T>(s: Seq<T>, p: spec_fn(T) -> bool, k: int)
    requires
        0 <= k < s.len(),
        forall|i: int| 0 <= i < s.len() ==> (p(#[trigger] s[i]) <==> i == k),
    ensures
        count(s, p) == 1,
    decreases s.len(),
{
    if k == s.len() - 1 {
        lemma_count_none(s.drop_last(), p);
    } else {
        lemma_count_single(s.drop_last(), p, k);
    }
}

/// Where every item satisfies `p` exactly when it satisfies `q` or `r`, and
/// none satisfies both of these, the count of `p` is the sum of the other two.
pub proof fn lemma_count_split<T>(
    s: Seq<T>,
    p: spec_fn(T) -> bool,
    q: spec_fn(T) -> bool,
    r: spec_fn(T) -> bool,
)
    requires
        forall|i: int|
            0 <= i < s.len() ==> (p(#[trigger] s[i]) <==> q(s[i]) || r(s[i])) && !(q(s[i]) && r(
                s[i],
            )),
    ensures
        count(s, p) == count(s, q) + count(s, r),
    decreases s.len(),
{
    if s.len() > 0 {
        lemma_count_split(s.drop_last(), p, q, r);
    }
}

/// Where `q` holds of exactly the items that `p` does not hold of, the two
/// counts add up to the length.
pub proof fn lemma_count_complement<T>(s: Seq<T>, p: spec_fn(T) -> bool, q: spec_fn(T) -> bool)
    requires
        forall|i: int| 0 <= i < s.len() ==> (p(#[trigger] s[i]) <==> !q(s[i])),
    ensures
        count(s, p) + count(s, q) == s.len(),
    decreases s.len(),
{
    if s.len() > 0 {
        lemma_count_complement(s.drop_last(), p, q);
    }
}

/// A predicate that implies another on every item counts no more than it.
pub proof fn lemma_count_implies<T>(s: Seq<T>, p: spec_fn(T) -> bool, q: spec_fn(T) -> bool)
    requires
        forall|i: int| 0 <= i < s.len() ==> (p(#[trigger] s[i]) ==> q(s[i])),
    ensures
        count(s, p) <= count(s, q),
    decreases s.len(),
{
    if s.len() > 0 {
        lemma_count_implies(s.drop_last(), p, q);
    }
}

/// Two predicates that agree on every item have the same count.
pub proof fn lemma_count_agree<T>(s: Seq<T>, p: spec_fn(T) -> bool, q: spec_fn(T) -> bool)
    requires
        forall|i: int| 0 <= i < s.len() ==> (p(#[trigger] s[i]) <==> q(s[i])),
    ensures
        count(s, p) == count(s, q),
    decreases s.len(),
{
    if s.len() > 0 {
        lemma_count_agree(s.drop_last(), p, q);
    }
}

/// Inclusion and exclusion: where `either` holds of the items that satisfy
/// `p` or `q`, and `both` of those that satisfy the two.
pub proof fn lemma_count_overlap<T>(
    s: Seq<T>,
    p: spec_fn(T) -> bool,
    q: spec_fn(T) -> bool,
    either: spec_fn(T) -> bool,
    both: spec_fn(T) -> bool,
)
    requires
        forall|i: int|
            0 <= i < s.len() ==> (either(#[trigger] s[i]) <==> p(s[i]) || q(s[i])) && (both(s[i])
                <==> p(s[i]) && q(s[i])),
    ensures
        count(s, either) + count(s, both) == count(s, p) + count(s, q),
    decreases s.len(),
{
    if s.len() > 0 {
        lemma_count_overlap(s.drop_last(), p, q, either, both);
    }
}

/// Taking one item out lowers the count by one exactly when the item
/// satisfies the predicate.
pub proof fn lemma_count_remove<T>(s: Seq<T>, i: int, p: spec_fn(T) -> bool)
    requires
        0 <= i < s.len(),
    ensures
        count(s, p) == count(s.remove(i), p) + if p(s[i]) {
            1nat
        } else {
            0nat
        },
    decreases s.len(),
{
    if i == s.len() - 1 {
        assert(s.remove(i) =~= s.drop_last());
    } else {
        lemma_count_remove(s.drop_last(), i, p);
        assert(s.remove(i).drop_last() =~= s.drop_last().remove(i));
        assert(s.remove(i).last() == s.last());
    }
}

/// A count does not depend on the order of the items.
pub proof fn lemma_count_permuted<T>(s: Seq<T>, t: Seq<T>, p: spec_fn(T) -> bool)
    requires
        s.to_multiset() == t.to_multiset(),
    ensures
        count(s, p) == count(t, p),
    decreases s.len(),
{
    to_multiset_len(s);
    to_multiset_len(t);
    if s.len() > 0 {
        let x = s.last();
        let k = s.len() - 1;
        assert(s.contains(x)) by {
            assert(s[k] == x);
        }
        to_multiset_contains(s, x);
        to_multiset_contains(t, x);
        let i = choose|i: int| 0 <= i < t.len() && t[i] == x;
        to_multiset_remove(s, k);
        to_multiset_remove(t, i);
        assert(s.remove(k) =~= s.drop_last());
        lemma_count_remove(t, i, p);
        lemma_count_permuted(s.drop_last(), t.remove(i), p);
    }
}

} // verus!
