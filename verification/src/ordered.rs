use vstd::prelude::*;
use vstd::std_specs::iter::IteratorSpec;
use vstd::std_specs::cmp::OrdSpec;

verus! {

/// Two entries of an increasing sequence compare as `Less`, in order.
proof fn lemma_increasing_pair<K: Ord>(s: Seq<K>, a: int, b: int)
    requires
        vstd::laws_cmp::obeys_cmp::<K>(),
        vstd::std_specs::btree::increasing_seq(s),
        0 <= a < b < s.len(),
    ensures
        s[a].cmp_spec(&s[b]) is Less,
{
    vstd::std_specs::btree::axiom_increasing_seq_meaning(s);
}

/// The keys of a `BTreeSet` of numbers come out of its iterator in increasing order, each key
/// once.
pub proof fn lemma_btree_keys_sorted(m: &std::collections::BTreeSet<usize>)
    ensures
        ({
            let total = vstd::std_specs::btree::spec_btree_keys_iter(m).remaining().unref();
            &&& forall|a: int, b: int| 0 <= a < b < total.len() ==> #[trigger] total[a] < #[trigger] total[b]
            &&& forall|y: usize| m@.contains(y) <==> exists|i: int| 0 <= i < total.len() && total[i] == y
        }),
{
    let rem = vstd::std_specs::btree::spec_btree_keys_iter(m).remaining();
    let total = rem.unref();
    vstd::std_specs::btree::axiom_spec_btree_keys_iter(m);
    assert(vstd::std_specs::btree::increasing_seq(rem));
    assert(vstd::laws_cmp::obeys_cmp::<&usize>());
    assert forall|a: int, b: int| 0 <= a < b < total.len() implies #[trigger] total[a] < #[trigger] total[b] by {
        lemma_increasing_pair(rem, a, b);
    }
    assert forall|y: usize| m@.contains(y) implies exists|i: int| 0 <= i < total.len() && total[i] == y by {
        assert(total.to_set().contains(y));
    }
    assert forall|i: int| 0 <= i < total.len() implies m@.contains(#[trigger] total[i]) by {
        assert(total.to_set().contains(total[i]));
    }
}

} // verus!
