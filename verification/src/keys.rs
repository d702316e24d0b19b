//! Ordering facts for the integer keys of the library's ordered maps.

use vstd::prelude::*;
use vstd::std_specs::cmp::OrdSpec;

verus! {

/// `i32` keys are totally ordered, so `BTreeMap<i32, _>` and `BTreeSet<i32>`
/// behave as their specifications describe.
pub open spec fn i32_keys_ordered() -> bool {
    &&& vstd::laws_cmp::obeys_cmp::<i32>()
    &&& vstd::std_specs::btree::key_obeys_cmp_spec::<i32>()
}

pub proof fn lemma_i32_keys_ordered()
    ensures
        i32_keys_ordered(),
{
    broadcast use vstd::laws_cmp::group_laws_cmp;
    broadcast use vstd::std_specs::btree::group_btree_axioms;

    assert(vstd::laws_cmp::obeys_cmp::<i32>());
}


/// An `increasing_seq` of `i32` keys is strictly increasing.
pub proof fn lemma_increasing_i32(s: Seq<i32>)
    requires
        vstd::std_specs::btree::increasing_seq(s),
    ensures
        forall|i: int, j: int| 0 <= i < j < s.len() ==> #[trigger] s[i] < #[trigger] s[j],
{
    broadcast use vstd::laws_cmp::group_laws_cmp;
    broadcast use vstd::std_specs::btree::group_btree_axioms;

    lemma_i32_keys_ordered();
    assert forall|i: int, j: int| 0 <= i < j < s.len() implies #[trigger] s[i] < #[trigger] s[j] by {
        assert(s[i].cmp_spec(&s[j]) is Less);
    }
}

/// Two listings of the same entries, each in strictly increasing key order,
/// are the same listing.
pub proof fn lemma_key_listing_unique<V>(a: Seq<(i32, V)>, b: Seq<(i32, V)>)
    requires
        forall|i: int, j: int| 0 <= i < j < a.len() ==> #[trigger] a[i].0 < #[trigger] a[j].0,
        forall|i: int, j: int| 0 <= i < j < b.len() ==> #[trigger] b[i].0 < #[trigger] b[j].0,
        forall|x: (i32, V)| a.contains(x) <==> b.contains(x),
    ensures
        a == b,
    decreases a.len(),
{
    if a.len() == 0 {
        if b.len() > 0 {
            assert(b.contains(b[0]));
        }
        assert(a =~= b);
    } else {
        assert(a.contains(a[0]));
        assert(b.len() > 0);
        assert(b.contains(b[0]));
        if a[0] != b[0] {
            let p = choose|p: int| 0 <= p < b.len() && b[p] == a[0];
            let q = choose|q: int| 0 <= q < a.len() && a[q] == b[0];
            assert(p > 0 && q > 0);
            assert(a[0].0 < a[q].0);
            assert(b[0].0 < b[p].0);
        }
        let a2 = a.drop_first();
        let b2 = b.drop_first();
        assert forall|x: (i32, V)| a2.contains(x) <==> b2.contains(x) by {
            if a2.contains(x) {
                let i = choose|i: int| 0 <= i < a2.len() && a2[i] == x;
                assert(a[i + 1] == x);
                assert(a[0].0 < a[i + 1].0);
                assert(a.contains(x));
                let j = choose|j: int| 0 <= j < b.len() && b[j] == x;
                assert(j != 0);
                assert(b2[j - 1] == x);
            }
            if b2.contains(x) {
                let i = choose|i: int| 0 <= i < b2.len() && b2[i] == x;
                assert(b[i + 1] == x);
                assert(b[0].0 < b[i + 1].0);
                assert(b.contains(x));
                let j = choose|j: int| 0 <= j < a.len() && a[j] == x;
                assert(j != 0);
                assert(a2[j - 1] == x);
            }
        }
        assert forall|i: int, j: int| 0 <= i < j < a2.len() implies #[trigger] a2[i].0 < #[trigger] a2[j].0 by {
            assert(a2[i] == a[i + 1] && a2[j] == a[j + 1]);
        }
        assert forall|i: int, j: int| 0 <= i < j < b2.len() implies #[trigger] b2[i].0 < #[trigger] b2[j].0 by {
            assert(b2[i] == b[i + 1] && b2[j] == b[j + 1]);
        }
        lemma_key_listing_unique(a2, b2);
        assert(a =~= b) by {
            assert forall|t: int| 0 <= t < a.len() implies a[t] == b[t] by {
                if t > 0 {
                    assert(a[t] == a2[t - 1] && b[t] == b2[t - 1]);
                }
            }
        }
    }
}

} // verus!
