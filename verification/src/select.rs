//! Integer side of unit selection: the ordering of the ids a box selects.

use vstd::prelude::*;

verus! {

/// `s` is in ascending order.
pub open spec fn ascending(s: Seq<u32>) -> bool {
    forall|j: int, k: int| 0 <= j < k < s.len() ==> s[j] <= s[k]
}

/// The selected ids in ascending order: the same ids, each as many times as
/// it was given, so the answer does not depend on the order items came in.
pub fn sort_ids(ids: Vec<u32>) -> (r: Vec<u32>)
    ensures
        ascending(r@),
        r@.to_multiset() == ids@.to_multiset(),
{
    broadcast use {vstd::seq_lib::group_to_multiset_ensures, vstd::multiset::group_multiset_axioms};

    let ghost orig = ids@;
    let mut v = ids;
    let mut i: usize = 0;
    while i < v.len()
        invariant
            i <= v@.len(),
            v@.to_multiset() == orig.to_multiset(),
            forall|j: int, k: int| 0 <= j < k < i ==> v@[j] <= v@[k],
        decreases v@.len() - i,
    {
        let x = v[i];
        // Insert `x` after every element of the sorted prefix not above it.
        let mut pos: usize = 0;
        while pos < i && v[pos] <= x
            invariant
                pos <= i,
                i < v@.len(),
                x == v@[i as int],
                forall|j: int| 0 <= j < pos ==> v@[j] <= x,
            decreases i - pos,
        {
            pos = pos + 1;
        }
        let ghost pre = v@;
        let e = v.remove(i);
        v.insert(pos, e);
        proof {
            assert(v@ == pre.remove(i as int).insert(pos as int, x));
            vstd::seq_lib::to_multiset_remove(pre, i as int);
            vstd::seq_lib::to_multiset_insert(pre.remove(i as int), pos as int, x);
            vstd::seq_lib::to_multiset_contains(pre, x);
            assert(pre.contains(x));
            assert(pre.to_multiset().remove(x).insert(x) =~= pre.to_multiset());
            assert forall|j: int, k: int| 0 <= j < k < i + 1 implies v@[j] <= v@[k] by {
                let pj = if j < pos { j } else if j == pos { i as int } else { j - 1 };
                let pk = if k < pos { k } else if k == pos { i as int } else { k - 1 };
                assert(v@[j] == pre[pj]);
                assert(v@[k] == pre[pk]);
                if j == pos {
                    // Everything from `pos` on in the sorted prefix is above `x`.
                    assert(x < pre[pos as int]);
                    assert(pre[pos as int] <= pre[pk]);
                }
            }
        }
        i = i + 1;
    }
    v
}

} // verus!
