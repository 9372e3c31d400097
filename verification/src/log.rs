//! Logged operations.

use crate::ids::same_id;
use std::collections::HashSet;
use std::hash::Hash;
use vstd::prelude::*;

verus! {

/// One write-ahead-log operation.
#[derive(Debug, Clone)]
pub enum Op<Id, Item> {
    /// Add (or re-add) an item.
    Add(Id, Item),
    /// Tombstone an item.
    Delete(Id),
}

/// The buffer after an operation: an add goes to the end, a delete takes out every
/// buffered add of its identity.
pub open spec fn buffer_after<Id, Item>(buffer: Seq<(Id, Item)>, op: Op<Id, Item>) -> Seq<
    (Id, Item),
> {
    match op {
        Op::Add(id, item) => buffer.push((id, item)),
        Op::Delete(id) => buffer.filter(|e: (Id, Item)| e.0 != id),
    }
}

/// The tombstones after an operation: an add revives its identity, a delete buries it.
pub open spec fn tombstones_after<Id, Item>(tombstones: Set<Id>, op: Op<Id, Item>) -> Set<Id> {
    match op {
        Op::Add(id, _) => tombstones.remove(id),
        Op::Delete(id) => tombstones.insert(id),
    }
}

/// Takes every entry of an identity out of the buffer, keeping the order of the rest.
fn forget<Id: Clone + Eq + Hash, Item>(buffer: &mut Vec<(Id, Item)>, id: &Id)
    requires
        crate::ids::lawful_id::<Id>(),
    ensures
        final(buffer)@ == old(buffer)@.filter(|e: (Id, Item)| e.0 != *id),
{
    let ghost other = |e: (Id, Item)| e.0 != *id;
    let ghost all = buffer@;
    let mut rest: Vec<(Id, Item)> = Vec::new();
    std::mem::swap(buffer, &mut rest);
    proof {
        reveal(Seq::filter);
        assert(all.take(0).filter(other) =~= buffer@);
    }
    for entry in it: rest
        invariant
            crate::ids::lawful_id::<Id>(),
            other == (|e: (Id, Item)| e.0 != *id),
            it.seq() == all,
            buffer@ == all.take(it.index()).filter(other),
            it.index() == it.seq().len() ==> buffer@ == all.filter(other),
    {
        proof {
            let i = it.index();
            assert(all.take(i + 1) =~= all.take(i).push(all[i]));
            all.take(i).lemma_filter_push(all[i], other);
            assert(i + 1 == all.len() ==> all.take(i + 1) =~= all);
        }
        if !same_id(&entry.0, id) {
            buffer.push(entry);
        }
    }
}

/// Apply one operation to the in-memory buffer and tombstone set. Shared by live
/// writes and log replay so the two paths cannot diverge.
pub fn apply<Id: Clone + Eq + Hash, Item>(
    buffer: &mut Vec<(Id, Item)>,
    tombstones: &mut HashSet<Id>,
    op: Op<Id, Item>,
)
    requires
        crate::ids::lawful_id::<Id>(),
    ensures
        final(buffer)@ == buffer_after(old(buffer)@, op),
        final(tombstones)@ == tombstones_after(old(tombstones)@, op),
        match op {
            Op::Add(id, item) => {
                &&& final(buffer)@.len() == old(buffer)@.len() + 1
                &&& final(buffer)@.last() == (id, item)
                &&& final(buffer)@.drop_last() == old(buffer)@
                &&& final(tombstones)@ == old(tombstones)@.remove(id)
            },
            Op::Delete(id) => {
                &&& forall|i: int|
                    0 <= i < final(buffer)@.len() ==> (#[trigger] final(buffer)@[i]).0 != id
                &&& forall|e: (Id, Item)|
                    #[trigger] old(buffer)@.contains(e) && e.0 != id ==> final(buffer)@.contains(e)
                &&& final(tombstones)@ == old(tombstones)@.insert(id)
            },
        },
{
    match op {
        Op::Add(id, item) => {
            tombstones.remove(&id);
            buffer.push((id, item));
            assert(buffer@.drop_last() =~= old(buffer)@);
        },
        Op::Delete(id) => {
            forget(buffer, &id);
            proof {
                let other = |e: (Id, Item)| e.0 != id;
                let all = old(buffer)@;
                assert forall|i: int| 0 <= i < buffer@.len() implies (#[trigger] buffer@[i]).0
                    != id by {
                    all.lemma_filter_pred(other, i);
                }
                assert forall|e: (Id, Item)| #[trigger]
                    all.contains(e) && e.0 != id implies buffer@.contains(e) by {
                    let i = choose|i: int| 0 <= i < all.len() && all[i] == e;
                    all.lemma_filter_contains(other, i);
                }
            }
            tombstones.insert(id);
        },
    }
}

} // verus!
