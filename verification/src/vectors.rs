//! Small vector helpers shared by the table builders.

use vstd::prelude::*;

verus! {

/// A vector of `len` copies of `x`.
pub fn filled<T: Copy>(len: usize, x: T) -> (v: Vec<T>)
    ensures
        v.len() == len,
        forall|i: int| 0 <= i < len ==> v[i] == x,
{
    let mut v: Vec<T> = Vec::new();
    while v.len() < len
        invariant
            v.len() <= len,
            forall|i: int| 0 <= i < v.len() ==> v[i] == x,
        decreases len - v.len(),
    {
        v.push(x);
    }
    v
}

/// A copy of `source`.
pub fn copied<T: Copy>(source: &Vec<T>) -> (v: Vec<T>)
    ensures
        v@ == source@,
{
    let mut v: Vec<T> = Vec::new();
    let mut i: usize = 0;
    while i < source.len()
        invariant
            i <= source.len(),
            v@ == source@.subrange(0, i as int),
        decreases source.len() - i,
    {
        v.push(source[i]);
        proof {
            assert(v@ =~= source@.subrange(0, i + 1));
        }
        i = i + 1;
    }
    proof {
        assert(source@.subrange(0, source.len() as int) =~= source@);
    }
    v
}

} // verus!
