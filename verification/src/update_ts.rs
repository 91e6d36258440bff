//! The pairwise-max merge of two vector clocks.

use vstd::prelude::*;

verus! {

/// The slotwise maximum of two equal-length clocks.
pub open spec fn vc_merge(a: Seq<i32>, b: Seq<i32>) -> Seq<i32> {
    Seq::new(a.len(), |i: int| if a[i] >= b[i] { a[i] } else { b[i] })
}

/// Merges `vec_j` into `vec_i`, slot by slot, keeping the larger entry.
/// Never bumps any slot beyond what the two inputs already hold.
pub fn update_ts(vec_i: &mut Vec<i32>, vec_j: &Vec<i32>)
    requires
        old(vec_i)@.len() == vec_j@.len(),
    ensures
        final(vec_i)@ == vc_merge(old(vec_i)@, vec_j@),
{
    let n = vec_i.len();
    for k in 0..n
        invariant
            n == vec_i@.len(),
            n == vec_j@.len(),
            n == old(vec_i)@.len(),
            forall|i: int| 0 <= i < k ==> #[trigger] vec_i@[i] == vc_merge(old(vec_i)@, vec_j@)[i],
            forall|i: int| k <= i < n ==> #[trigger] vec_i@[i] == old(vec_i)@[i],
    {
        if vec_i[k] < vec_j[k] {
            let v = vec_j[k];
            vec_i[k] = v;
        }
    }
    proof {
        assert(vec_i@ =~= vc_merge(old(vec_i)@, vec_j@));
    }
}

} // verus!
