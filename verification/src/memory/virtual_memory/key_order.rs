use vstd::prelude::*;
use vstd::laws_cmp::obeys_cmp;
use vstd::std_specs::cmp::OrdSpec;
use vstd::std_specs::btree::{increasing_seq, key_obeys_cmp_spec};

verus! {

/// The key types of the address-space trees are totally ordered as std documents
/// for integers and lexicographically ordered tuples of integers.
pub open spec fn keys_ordered() -> bool {
    &&& obeys_cmp::<u64>()
    &&& obeys_cmp::<(u64, u64)>()
    &&& key_obeys_cmp_spec::<u64>()
    &&& key_obeys_cmp_spec::<(u64, u64)>()
}

pub proof fn lemma_keys_ordered()
    ensures
        keys_ordered(),
{
    broadcast use vstd::laws_cmp::group_laws_cmp;
    broadcast use vstd::std_specs::btree::group_btree_axioms;
    assert(obeys_cmp::<u64>());
    assert(obeys_cmp::<(u64, u64)>());
}

/// An increasing sequence of addresses, as the tree hands its keys out, is strictly sorted.
pub proof fn lemma_increasing_addresses(s: Seq<u64>)
    requires
        keys_ordered(),
        increasing_seq(s),
    ensures
        forall|i: int, j: int| 0 <= i < j < s.len() ==> s[i] < s[j],
{
    broadcast use vstd::std_specs::btree::axiom_increasing_seq_meaning;
    broadcast use vstd::laws_cmp::group_laws_cmp;
    assert forall|i: int, j: int| 0 <= i < j < s.len() implies s[i] < s[j] by {
        assert(s[i].cmp_spec(&s[j]) is Less);
    }
}

/// An increasing sequence of (size, address) keys is strictly sorted by size, then address.
pub proof fn lemma_increasing_size_keys(s: Seq<(u64, u64)>)
    requires
        keys_ordered(),
        increasing_seq(s),
    ensures
        forall|i: int, j: int|
            0 <= i < j < s.len() ==> s[i].0 < s[j].0 || (s[i].0 == s[j].0 && s[i].1 < s[j].1),
{
    broadcast use vstd::std_specs::btree::axiom_increasing_seq_meaning;
    broadcast use vstd::laws_cmp::group_laws_cmp;
    assert forall|i: int, j: int| 0 <= i < j < s.len() implies s[i].0 < s[j].0 || (s[i].0 == s[j].0 && s[i].1 < s[j].1) by {
        assert(s[i].cmp_spec(&s[j]) is Less);
    }
}

} // verus!
