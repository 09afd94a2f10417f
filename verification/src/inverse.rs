//! Executable computation of the inverse permutation.

use vstd::prelude::*;

use crate::model::appears;
use crate::model::inverse_of;
use crate::model::is_permutation;
use crate::model::lemma_inverse_is_permutation;
use crate::model::lemma_inverse_points_back;

verus! {

/// Generates the inverse permutation: the returned sequence holds, for each
/// value, the position of that value in `perm`.  Has O(n) time complexity.
///
/// The input must be a valid rearrangement of `0..perm.len()`; the result on
/// any other input is left out of contract, so this function asks its caller
/// for a permutation.
pub fn inverse_perm(perm: &Vec<usize>) -> (r: Vec<usize>)
    requires
        is_permutation(perm@),
    ensures
        r@ == inverse_of(perm@),
        is_permutation(r@),
{
    let n = perm.len();
    let mut rev: Vec<usize> = Vec::new();
    let mut i: usize = 0;
    while i < n
        invariant
            i <= n,
            rev@.len() == i,
        decreases n - i,
    {
        rev.push(0);
        i = i + 1;
    }
    let mut k: usize = 0;
    while k < n
        invariant
            k <= n,
            n == perm@.len(),
            rev@.len() == n,
            is_permutation(perm@),
            forall|j: int| 0 <= j < k ==> rev@[perm@[j] as int] == j,
        decreases n - k,
    {
        let v = perm[k];
        assert(v < n);
        rev.set(v, k);
        assert forall|j: int| 0 <= j < k + 1 implies rev@[perm@[j] as int] == j by {
            if j < k {
                assert(perm@[j] != perm@[k as int]);
            }
        }
        k = k + 1;
    }
    proof {
        lemma_inverse_points_back(perm@);
        assert forall|v: int| 0 <= v < n implies rev@[v] == inverse_of(perm@)[v] by {
            assert(appears(perm@, v));
            let w = choose|i: int| 0 <= i < perm@.len() && perm@[i] == v;
            assert(rev@[perm@[w] as int] == w);
            assert(inverse_of(perm@)[perm@[w] as int] == w);
        }
        assert(rev@ =~= inverse_of(perm@));
        lemma_inverse_is_permutation(perm@);
    }
    rev
}

} // verus!
