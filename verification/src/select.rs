use vstd::prelude::*;

verus! {

use std::cmp::Ordering;

/// Descending comparison of score pairs: a pair with a larger score compares
/// `Less`, so ascending selection moves the largest scores to the front.
pub fn pair_cmp_desc(a: &(usize, u64), b: &(usize, u64)) -> (r: Ordering)
    ensures
        r == (if b.1 < a.1 {
            Ordering::Less
        } else if b.1 > a.1 {
            Ordering::Greater
        } else {
            Ordering::Equal
        }),
{
    if b.1 < a.1 {
        Ordering::Less
    } else if b.1 > a.1 {
        Ordering::Greater
    } else {
        Ordering::Equal
    }
}

/// Relies on `order_stat::kth_by` (Floyd–Rivest selection): it permutes the
/// slice in place, puts the element of rank `k` under the comparator at index
/// `k`, and partitions the rest so that elements before `k` compare no
/// greater and elements after no less. Under the descending comparator this
/// puts the `k + 1` largest scores first.
#[verifier::external_body]
pub fn select_kth_desc(v: &mut Vec<(usize, u64)>, k: usize)
    requires
        k < old(v)@.len(),
    ensures
        final(v)@.len() == old(v)@.len(),
        final(v)@.to_multiset() == old(v)@.to_multiset(),
        forall|i: int| 0 <= i < k ==> final(v)@[i].1 >= final(v)@[k as int].1,
        forall|j: int| k < j < final(v)@.len() ==> final(v)@[j].1 <= final(v)@[k as int].1,
{
    order_stat::kth_by(v.as_mut_slice(), k, |a, b| pair_cmp_desc(a, b));
}

} // verus!
