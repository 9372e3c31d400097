//! What the store asks of an item identity.
//!
//! Identities are compared, hashed and cloned. The contracts of the store speak
//! of sets of identities, so those three operations have to agree with equality.

use std::collections::HashSet;
use std::hash::Hash;
use vstd::prelude::*;

verus! {

/// A clone of a value is the value itself.
pub open spec fn exact_clone<T: Clone>() -> bool {
    forall|a: T, b: T| #[trigger] cloned(a, b) ==> a == b
}

/// `Id` can be a member of a hash set: hashing and `==` agree with equality.
pub open spec fn hashable_id<Id: Eq + Hash>() -> bool {
    vstd::std_specs::hash::obeys_key_model::<Id>()
}

/// `Id` behaves as an identity: hashing, `==` and `clone` agree with equality.
pub open spec fn lawful_id<Id: Clone + Eq + Hash>() -> bool {
    &&& hashable_id::<Id>()
    &&& vstd::laws_eq::obeys_concrete_eq::<Id>()
    &&& exact_clone::<Id>()
}

/// `u32` is a lawful identity.
pub broadcast proof fn u32_is_a_lawful_id()
    ensures
        #[trigger] lawful_id::<u32>(),
{
    broadcast use vstd::laws_eq::group_laws_eq;

}

/// `u64` is a lawful identity.
pub broadcast proof fn u64_is_a_lawful_id()
    ensures
        #[trigger] lawful_id::<u64>(),
{
    broadcast use vstd::laws_eq::group_laws_eq;

}

/// Whether two identities are the same.
pub(crate) fn same_id<Id: Clone + Eq + Hash>(a: &Id, b: &Id) -> (same: bool)
    requires
        lawful_id::<Id>(),
    ensures
        same == (*a == *b),
{
    proof {
        reveal(vstd::laws_eq::obeys_concrete_eq);
    }
    *a == *b
}

/// A second set with the same members.
pub(crate) fn copy_ids<Id: Clone + Eq + Hash>(ids: &HashSet<Id>) -> (copy: HashSet<Id>)
    requires
        lawful_id::<Id>(),
    ensures
        copy@ == ids@,
{
    let mut copy: HashSet<Id> = HashSet::new();
    for id in it: ids.iter()
        invariant
            lawful_id::<Id>(),
            it.seq().unref().to_set() == ids@,
            copy@ == it.seq().unref().take(it.index()).to_set(),
            it.index() == it.seq().len() ==> copy@ == ids@,
    {
        proof {
            let all = it.seq().unref();
            let i = it.index();
            assert(all.take(i + 1) =~= all.take(i) + seq![all[i]]);
            Seq::lemma_to_set_insert_commutes(all.take(i), all[i]);
            assert(i + 1 == all.len() ==> all.take(i + 1) =~= all);
        }
        let same = id.clone();
        assert(cloned(*id, same));
        copy.insert(same);
    }
    copy
}

/// The set of the identities in a list.
pub(crate) fn collect_ids<Id: Eq + Hash>(ids: Vec<Id>) -> (collected: HashSet<Id>)
    requires
        hashable_id::<Id>(),
    ensures
        collected@ == ids@.to_set(),
{
    let ghost all = ids@;
    let mut collected: HashSet<Id> = HashSet::new();
    assert(collected@ =~= all.take(0).to_set());
    for id in it: ids
        invariant
            hashable_id::<Id>(),
            it.seq() == all,
            collected@ == all.take(it.index()).to_set(),
            it.index() == it.seq().len() ==> collected@ == all.to_set(),
    {
        proof {
            let i = it.index();
            assert(all.take(i + 1) =~= all.take(i) + seq![all[i]]);
            Seq::lemma_to_set_insert_commutes(all.take(i), all[i]);
            assert(i + 1 == all.len() ==> all.take(i + 1) =~= all);
        }
        collected.insert(id);
    }
    collected
}

} // verus!
