//! Facts about `u32` keys in a `BTreeMap`, kept apart from the code that
//! uses them.
use vstd::prelude::*;
use vstd::std_specs::cmp::OrdSpec;

verus! {

/// `u32` keys are totally ordered, so vstd's `BTreeMap` specifications apply.
pub proof fn lemma_u32_keys_ordered()
    ensures
        vstd::std_specs::btree::key_obeys_cmp_spec::<u32>(),
        vstd::laws_cmp::obeys_cmp::<u32>(),
{
    broadcast use vstd::laws_cmp::group_laws_cmp;
    broadcast use vstd::std_specs::btree::axiom_key_obeys_cmp_spec_meaning;

}

/// A sequence of `u32` that vstd calls increasing is strictly increasing.
pub proof fn lemma_increasing_u32(s: Seq<u32>)
    requires
        vstd::std_specs::btree::increasing_seq(s),
    ensures
        forall|i: int, j: int| 0 <= i < j < s.len() ==> s[i] < s[j],
{
    broadcast use vstd::laws_cmp::group_laws_cmp;
    broadcast use vstd::std_specs::btree::axiom_increasing_seq_meaning;

    assert forall|i: int, j: int| 0 <= i < j < s.len() implies s[i] < s[j] by {
        assert(s[i].cmp_spec(&s[j]) is Less);
    }
}

} // verus!
