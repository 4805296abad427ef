//! Small helpers on vectors.

use vstd::prelude::*;

verus! {

/// The elements of `v`, last first.
pub fn reversed<T>(v: Vec<T>) -> (r: Vec<T>)
    ensures
        r@ == v@.reverse(),
{
    let mut v = v;
    let ghost all = v@;
    let mut r: Vec<T> = Vec::new();
    while v.len() > 0
        invariant
            all.len() == v@.len() + r@.len(),
            v@ == all.subrange(0, v@.len() as int),
            forall|i: int| 0 <= i < r@.len() ==> #[trigger] r@[i] == all[all.len() - 1 - i],
        decreases v@.len(),
    {
        let x = v.pop().unwrap();
        r.push(x);
    }
    assert(r@ =~= all.reverse());
    r
}

/// A copy of `v`.
pub fn copied<T: Copy>(v: &Vec<T>) -> (r: Vec<T>)
    ensures
        r@ == v@,
{
    let mut r: Vec<T> = Vec::new();
    let mut i: usize = 0;
    while i < v.len()
        invariant
            i <= v@.len(),
            r@ == v@.take(i as int),
        decreases v@.len() - i,
    {
        r.push(v[i]);
        i = i + 1;
        assert(r@ =~= v@.take(i as int));
    }
    assert(v@.take(i as int) =~= v@);
    r
}

} // verus!
