//! The conjunction engine's vector algebra.
//!
//! A bitset index hands its contents out as a strictly ascending vector of
//! slot positions; combining the requested kinds' indices is a left fold of
//! [`intersect_ascending`] over those vectors, which is the logical AND of
//! the underlying bit vectors.

use vstd::prelude::*;

verus! {

broadcast use vstd::seq_lib::lemma_seq_contains_after_push;

/// A sequence of positions in strictly ascending order, as the bitset
/// iteration and the intersection both produce.
pub open spec fn strictly_ascending(s: Seq<u32>) -> bool {
    forall|i: int, j: int| 0 <= i < j < s.len() ==> s[i] < s[j]
}

/// Linear membership test.
fn vec_contains(v: &Vec<u32>, x: u32) -> (r: bool)
    ensures
        r == v@.contains(x),
{
    let mut i: usize = 0;
    while i < v.len()
        invariant
            i <= v@.len(),
            forall|m: int| 0 <= m < i ==> v@[m] != x,
        decreases v@.len() - i,
    {
        if v[i] == x {
            return true;
        }
        i += 1;
    }
    false
}

/// The positions present in both vectors, in the order of `a`: the logical
/// AND of two indices.
pub fn intersect_ascending(a: &Vec<u32>, b: &Vec<u32>) -> (r: Vec<u32>)
    requires
        strictly_ascending(a@),
    ensures
        strictly_ascending(r@),
        forall|x: u32| r@.contains(x) <==> a@.contains(x) && b@.contains(x),
{
    let mut r: Vec<u32> = Vec::new();
    let mut i: usize = 0;
    while i < a.len()
        invariant
            strictly_ascending(a@),
            i <= a@.len(),
            strictly_ascending(r@),
            forall|x: u32| r@.contains(x) <==> a@.take(i as int).contains(x) && b@.contains(x),
        decreases a@.len() - i,
    {
        let x = a[i];
        if vec_contains(b, x) {
            proof {
                assert forall|m: int| 0 <= m < r@.len() implies r@[m] < x by {
                    assert(r@.contains(r@[m]));
                    let p = a@.take(i as int);
                    assert(p.contains(r@[m]));
                    let n = choose|n: int| 0 <= n < p.len() && p[n] == r@[m];
                    assert(a@[n] == r@[m]);
                    assert(a@[n] < a@[i as int]);
                }
            }
            r.push(x);
        }
        proof {
            assert(a@.take(i + 1) =~= a@.take(i as int).push(a@[i as int]));
        }
        i += 1;
    }
    proof {
        assert(a@.take(a@.len() as int) =~= a@);
    }
    r
}

} // verus!
