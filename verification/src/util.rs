//! Small shared executable helpers.

use vstd::prelude::*;

verus! {

/// A vector holding `n` copies of `val`.
pub fn repeat<T: Copy>(n: usize, val: T) -> (r: Vec<T>)
    ensures
        r.len() == n,
        forall|i: int| 0 <= i < n ==> r@[i] == val,
{
    let mut r: Vec<T> = Vec::new();
    let mut k: usize = 0;
    while k < n
        invariant
            k <= n,
            r.len() == k,
            forall|i: int| 0 <= i < k ==> r@[i] == val,
        decreases n - k,
    {
        r.push(val);
        k = k + 1;
    }
    r
}

/// An element-for-element copy of a vector of `Copy` values.
pub fn copy_vec<T: Copy>(v: &Vec<T>) -> (r: Vec<T>)
    ensures
        r@ == v@,
{
    let mut r: Vec<T> = Vec::new();
    let mut k: usize = 0;
    while k < v.len()
        invariant
            k <= v.len(),
            r.len() == k,
            forall|i: int| 0 <= i < k ==> r@[i] == v@[i],
        decreases v.len() - k,
    {
        r.push(v[k]);
        k = k + 1;
    }
    proof {
        assert(r@ =~= v@);
    }
    r
}

} // verus!
