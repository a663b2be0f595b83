//! Facts about sorting by insertion.

use vstd::prelude::*;
use vstd::relations::{sorted_by, total_ordering};

verus! {

/// Inserting an item adds it to the items.
pub proof fn lemma_insert_multiset<A>(s: Seq<A>, k: int, x: A)
    requires
        0 <= k <= s.len(),
    ensures
        s.insert(k, x).to_multiset() == s.to_multiset().insert(x),
{
    broadcast use vstd::seq_lib::group_to_multiset_ensures;

    let t = s.insert(k, x);
    assert(t.remove(k) =~= s);
    assert(t[k] == x);
    assert(t.contains(x));
    assert(t.to_multiset().remove(x).insert(x) =~= t.to_multiset());
}

/// Inserting an item between those that it follows and those that follow it
/// keeps the order.
pub proof fn lemma_insert_sorted<A>(s: Seq<A>, k: int, x: A, leq: spec_fn(A, A) -> bool)
    requires
        total_ordering(leq),
        sorted_by(s, leq),
        0 <= k <= s.len(),
        k > 0 ==> leq(s[k - 1], x),
        forall|j: int| k <= j < s.len() ==> leq(x, #[trigger] s[j]),
    ensures
        sorted_by(s.insert(k, x), leq),
{
    let t = s.insert(k, x);
    assert forall|a: int, b: int| 0 <= a < b < t.len() implies #[trigger] leq(t[a], t[b]) by {
        let a0 = if a < k {
            a
        } else {
            a - 1
        };
        let b0 = if b < k {
            b
        } else {
            b - 1
        };
        if a != k && b != k {
            assert(leq(s[a0], s[b0]));
        } else if b == k {
            if a < k - 1 {
                assert(leq(s[a], s[k - 1]));
                assert(leq(s[k - 1], x));
            }
        } else {
            assert(leq(x, s[b0]));
        }
    }
}

} // verus!
