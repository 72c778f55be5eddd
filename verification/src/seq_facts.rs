//! Small facts about sequences that several proofs here lean on.

use vstd::prelude::*;

verus! {

/// No element of `s` occurs twice.
pub open spec fn distinct_seq<A>(s: Seq<A>) -> bool {
    forall|i: int, j: int| 0 <= i < j < s.len() ==> s[i] != s[j]
}

/// A concatenation of two distinct, disjoint sequences is distinct.
pub proof fn lemma_add_distinct<A>(a: Seq<A>, b: Seq<A>)
    requires
        distinct_seq(a),
        distinct_seq(b),
        forall|x: A| #[trigger] a.contains(x) ==> !b.contains(x),
    ensures
        distinct_seq(a + b),
{
    assert forall|i: int, j: int| 0 <= i < j < (a + b).len() implies (a + b)[i] != (a + b)[j] by {
        if i < a.len() && j >= a.len() {
            if a[i] == b[j - a.len()] {
                assert(a.contains(a[i]));
                assert(b.contains(b[j - a.len()]));
            }
        }
    }
}

/// Membership in a concatenation is membership in either part.
pub proof fn lemma_add_contains<A>(a: Seq<A>, b: Seq<A>, x: A)
    ensures
        (a + b).contains(x) <==> a.contains(x) || b.contains(x),
{
    if (a + b).contains(x) {
        let i = choose|i: int| 0 <= i < (a + b).len() && (a + b)[i] == x;
        if i < a.len() {
            assert(a[i] == x);
        } else {
            assert(b[i - a.len()] == x);
        }
    }
    if a.contains(x) {
        let i = choose|i: int| 0 <= i < a.len() && a[i] == x;
        assert((a + b)[i] == x);
    }
    if b.contains(x) {
        let i = choose|i: int| 0 <= i < b.len() && b[i] == x;
        assert((a + b)[a.len() + i] == x);
    }
}

} // verus!
