//! The consumer-defined payload model, and the plain list-backed one.

use std::hash::Hash;
use std::marker::PhantomData;
use vstd::prelude::*;

verus! {

/// `live` can be asked of any identity.
pub open spec fn askable<Id, F: Fn(&Id) -> bool>(live: F) -> bool {
    forall|id: &Id| #[trigger] live.requires((id,))
}

/// `live` says yes to exactly the identities outside `dead`, and can be asked of any.
pub open spec fn decides<Id, F: Fn(&Id) -> bool>(live: F, dead: Set<Id>) -> bool {
    &&& askable::<Id, F>(live)
    &&& forall|id: &Id, yes: bool| #[trigger]
        live.ensures((id,), yes) ==> yes == !dead.contains(*id)
}

/// How items batch into a segment and how segments merge during compaction.
///
/// The store never inspects a segment's contents; it only stores, snapshots, and
/// hands segments back to these methods, so the representation is entirely the
/// consumer's (posting lists, a graph delta, a vector block, ...). What a consumer
/// promises of its methods is said by the four spec functions.
pub trait Store {
    /// Stable identity of an item, used for tombstones and log replay.
    type Id: Clone + Eq + Hash;

    /// The per-item payload carried in the log until it is flushed to a segment.
    type Item: Clone;

    /// An immutable batch of items. Opaque to the store.
    type Segment;

    /// Whether `segment` is what a batch becomes. Any segment, unless said otherwise.
    open spec fn builds(
        &self,
        batch: Seq<(Self::Id, Self::Item)>,
        segment: Self::Segment,
    ) -> bool {
        true
    }

    /// Whether `merged` is what merging `segments` without the `dead` identities gives.
    /// Any segment, unless said otherwise.
    open spec fn merges(
        &self,
        segments: Seq<Self::Segment>,
        dead: Set<Self::Id>,
        merged: Self::Segment,
    ) -> bool {
        true
    }

    /// How many items a segment holds.
    open spec fn len_of(&self, segment: Self::Segment) -> usize {
        arbitrary()
    }

    /// How many items of a segment are not `dead`, if the consumer counts them.
    open spec fn live_of(&self, segment: Self::Segment, dead: Set<Self::Id>) -> Option<usize> {
        None
    }

    /// Build one immutable segment from a batch of live `(id, item)` pairs.
    fn build_segment(&self, batch: &[(Self::Id, Self::Item)]) -> (segment: Self::Segment)
        ensures
            self.builds(batch@, segment),
    ;

    /// Merge `segments` into one during compaction, keeping only ids for which
    /// `live(id)` is true (i.e. dropping tombstoned ids).
    fn merge_segments<F: Fn(&Self::Id) -> bool>(
        &self,
        segments: &[&Self::Segment],
        live: &F,
    ) -> (merged: Self::Segment)
        requires
            askable::<Self::Id, F>(*live),
        ensures
            forall|dead: Set<Self::Id>| #[trigger]
                decides(*live, dead) ==> self.merges(
                    segments@.map_values(|s: &Self::Segment| *s),
                    dead,
                    merged,
                ),
    ;

    /// The number of items in `segment`: the size that size-tiered compaction groups
    /// segments by.
    fn segment_len(&self, segment: &Self::Segment) -> (n: usize)
        ensures
            n == self.len_of(*segment),
    ;

    /// The number of items in `segment` for which `live` is true, if the consumer can
    /// compute it cheaply. `None` disables space-amplification reporting and
    /// tombstone-reclaiming compaction; the size-tiered path does not need it.
    fn live_len<F: Fn(&Self::Id) -> bool>(&self, segment: &Self::Segment, live: &F) -> (n: Option<
        usize,
    >)
        requires
            askable::<Self::Id, F>(*live),
        ensures
            forall|dead: Set<Self::Id>| #[trigger]
                decides(*live, dead) ==> n == self.live_of(*segment, dead),
    ;
}

/// Default list-backed segment model for append-only source batches.
///
/// Each immutable segment is just a list of `(Id, Item)` pairs, `build_segment`
/// copies the sealed buffer, and compaction concatenates live entries from the
/// merged segments. It deliberately does not implement last-write-wins or
/// deduplication. Consumers that need sorted segments, replacement semantics, or
/// custom merge logic keep their own [`Store`] implementation.
#[derive(Debug)]
pub struct DefaultStore<Id, Item> {
    marker: PhantomData<(Id, Item)>,
}

impl<Id, Item> Clone for DefaultStore<Id, Item> {
    fn clone(&self) -> (store: Self)
        ensures
            store == *self,
    {
        DefaultStore { marker: self.marker }
    }
}

impl<Id, Item> Copy for DefaultStore<Id, Item> {

}

/// `to` holds a clone of each entry of `from`, in the same order.
pub open spec fn copied<Id: Clone, Item: Clone>(
    from: Seq<(Id, Item)>,
    to: Seq<(Id, Item)>,
) -> bool {
    &&& to.len() == from.len()
    &&& forall|i: int|
        0 <= i < from.len() ==> cloned(from[i].0, (#[trigger] to[i]).0) && cloned(from[i].1, to[i].1)
}

/// The entries of `entries` whose identity is not in `dead`, in order.
pub open spec fn survivors<Id, Item>(entries: Seq<(Id, Item)>, dead: Set<Id>) -> Seq<(Id, Item)> {
    entries.filter(|e: (Id, Item)| !dead.contains(e.0))
}

/// The live entries of all `segments`, one segment after the other.
pub open spec fn live_entries<Id, Item>(segments: Seq<Vec<(Id, Item)>>, dead: Set<Id>) -> Seq<
    (Id, Item),
>
    decreases segments.len(),
{
    if segments.len() == 0 {
        Seq::empty()
    } else {
        live_entries(segments.drop_last(), dead) + survivors(segments.last()@, dead)
    }
}

/// Looking at one more entry adds it to the survivors if it is live.
proof fn survivors_step<Id, Item>(entries: Seq<(Id, Item)>, dead: Set<Id>, i: int)
    requires
        0 <= i < entries.len(),
    ensures
        survivors(entries.take(i + 1), dead) == if dead.contains(entries[i].0) {
            survivors(entries.take(i), dead)
        } else {
            survivors(entries.take(i), dead).push(entries[i])
        },
{
    assert(entries.take(i + 1) =~= entries.take(i).push(entries[i]));
    entries.take(i).lemma_filter_push(entries[i], |e: (Id, Item)| !dead.contains(e.0));
}

impl<Id, Item> DefaultStore<Id, Item> {
    /// Create a default list-backed store model.
    pub fn new() -> (store: Self)
        ensures
            store == DefaultStore::<Id, Item>::spec_new(),
    {
        DefaultStore { marker: PhantomData }
    }

    /// The list-backed store model; it holds nothing.
    pub closed spec fn spec_new() -> Self {
        DefaultStore { marker: PhantomData }
    }
}

impl<Id, Item> Default for DefaultStore<Id, Item> {
    fn default() -> (store: Self)
        ensures
            store == DefaultStore::<Id, Item>::spec_new(),
    {
        DefaultStore::new()
    }
}

impl<Id: Clone + Eq + Hash, Item: Clone> Store for DefaultStore<Id, Item> {
    type Id = Id;

    type Item = Item;

    type Segment = Vec<(Id, Item)>;

    open spec fn builds(&self, batch: Seq<(Id, Item)>, segment: Vec<(Id, Item)>) -> bool {
        copied(batch, segment@)
    }

    open spec fn merges(
        &self,
        segments: Seq<Vec<(Id, Item)>>,
        dead: Set<Id>,
        merged: Vec<(Id, Item)>,
    ) -> bool {
        copied(live_entries(segments, dead), merged@)
    }

    open spec fn len_of(&self, segment: Vec<(Id, Item)>) -> usize {
        segment.len()
    }

    open spec fn live_of(&self, segment: Vec<(Id, Item)>, dead: Set<Id>) -> Option<usize> {
        Some(survivors(segment@, dead).len() as usize)
    }

    fn build_segment(&self, batch: &[(Id, Item)]) -> (segment: Vec<(Id, Item)>) {
        let mut segment: Vec<(Id, Item)> = Vec::new();
        let mut i: usize = 0;
        while i < batch.len()
            invariant
                i <= batch@.len(),
                copied(batch@.take(i as int), segment@),
            decreases batch@.len() - i,
        {
            segment.push((batch[i].0.clone(), batch[i].1.clone()));
            i += 1;
        }
        assert(batch@.take(i as int) =~= batch@);
        segment
    }

    fn merge_segments<F: Fn(&Id) -> bool>(
        &self,
        segments: &[&Vec<(Id, Item)>],
        live: &F,
    ) -> (merged: Vec<(Id, Item)>) {
        let ghost all = segments@.map_values(|s: &Vec<(Id, Item)>| *s);
        let mut merged: Vec<(Id, Item)> = Vec::new();
        let mut s: usize = 0;
        while s < segments.len()
            invariant
                s <= segments@.len(),
                all == segments@.map_values(|s: &Vec<(Id, Item)>| *s),
                askable::<Id, F>(*live),
                forall|dead: Set<Id>| #[trigger]
                    decides(*live, dead) ==> copied(
                        live_entries(all.take(s as int), dead),
                        merged@,
                    ),
            decreases segments@.len() - s,
        {
            let segment: &Vec<(Id, Item)> = segments[s];
            let mut i: usize = 0;
            proof {
                assert forall|dead: Set<Id>| #[trigger] decides(*live, dead) implies copied(
                    live_entries(all.take(s as int), dead) + survivors(segment@.take(0), dead),
                    merged@,
                ) by {
                    reveal(Seq::filter);
                    assert(survivors(segment@.take(0), dead) =~= Seq::empty());
                }
            }
            while i < segment.len()
                invariant
                    i <= segment@.len(),
                    askable::<Id, F>(*live),
                    forall|dead: Set<Id>| #[trigger]
                        decides(*live, dead) ==> copied(
                            live_entries(all.take(s as int), dead) + survivors(
                                segment@.take(i as int),
                                dead,
                            ),
                            merged@,
                        ),
                decreases segment@.len() - i,
            {
                let ghost before = merged@;
                let keep = live(&segment[i].0);
                if keep {
                    merged.push((segment[i].0.clone(), segment[i].1.clone()));
                }
                proof {
                    assert forall|dead: Set<Id>| #[trigger] decides(*live, dead) implies copied(
                        live_entries(all.take(s as int), dead) + survivors(
                            segment@.take(i + 1),
                            dead,
                        ),
                        merged@,
                    ) by {
                        survivors_step(segment@, dead, i as int);
                        assert(keep == !dead.contains(segment@[i as int].0));
                    }
                }
                i += 1;
            }
            proof {
                assert(segment@.take(i as int) =~= segment@);
                assert(all.take(s + 1).drop_last() =~= all.take(s as int));
                assert(all.take(s + 1).last() == *segment);
            }
            s += 1;
        }
        assert(all.take(s as int) =~= all);
        merged
    }

    fn segment_len(&self, segment: &Vec<(Id, Item)>) -> (n: usize) {
        segment.len()
    }

    fn live_len<F: Fn(&Id) -> bool>(&self, segment: &Vec<(Id, Item)>, live: &F) -> (n: Option<
        usize,
    >) {
        let mut n: usize = 0;
        let mut i: usize = 0;
        proof {
            assert forall|dead: Set<Id>| #[trigger] decides(*live, dead) implies survivors(
                segment@.take(0),
                dead,
            ).len() == 0 by {
                reveal(Seq::filter);
            }
        }
        while i < segment.len()
            invariant
                i <= segment@.len(),
                n <= i,
                askable::<Id, F>(*live),
                forall|dead: Set<Id>| #[trigger]
                    decides(*live, dead) ==> n == survivors(segment@.take(i as int), dead).len(),
            decreases segment@.len() - i,
        {
            let keep = live(&segment[i].0);
            proof {
                assert forall|dead: Set<Id>| #[trigger] decides(*live, dead) implies survivors(
                    segment@.take(i + 1),
                    dead,
                ).len() == n + (if keep { 1int } else { 0int }) by {
                    survivors_step(segment@, dead, i as int);
                    assert(keep == !dead.contains(segment@[i as int].0));
                }
            }
            if keep {
                n += 1;
            }
            i += 1;
        }
        assert(segment@.take(i as int) =~= segment@);
        Some(n)
    }
}

} // verus!
