//! Tables: stores of items addressed by handles, with the indices and the
//! relation freelists that they keep up to date.
use crate::handle::Handle;
use crate::index::{faithful_at, lists_in_order, IndexSlot, Indexer, KeyOrder};
use crate::query::Query;
use std::collections::HashMap;
use std::collections::HashSet;
use vstd::prelude::*;

verus! {

broadcast use {vstd::std_specs::hash::group_hash_axioms, crate::handle::group_handle};

/// A store of items of type `A`. Each stored item gets a fresh handle; the
/// table keeps each of its sorted indices up to date as items come, change
/// and go, and tells each relation that uses it which handles were freed.
#[verifier::reject_recursive_types(A)]
pub struct Table<A> {
    pub(crate) indices: Vec<IndexSlot<A>>,
    pub(crate) views: Ghost<Seq<Map<u64, A>>>,
    pub(crate) next_handle: u64,
    pub(crate) unordered: HashMap<u64, A>,
    pub(crate) relation_freelists: Vec<HashSet<u64>>,
}

impl<A> View for Table<A> {
    type V = Map<u64, A>;

    /// The stored items, by slot number.
    closed spec fn view(&self) -> Map<u64, A> {
        self.unordered@
    }
}

/// Whether each index in `ixers` describes the items of its view in
/// `views` and has only seen slot numbers below `next`.
pub open spec fn indices_ok<A>(ixers: Seq<IndexSlot<A>>, views: Seq<Map<u64, A>>, next: u64) -> bool {
    &&& views.len() == ixers.len()
    &&& forall|i: int| 0 <= i < ixers.len() ==> #[trigger] faithful_at(ixers, i, views[i])
    &&& forall|i: int, k: u64|
        0 <= i < ixers.len() && #[trigger] ixers[i].ixer.seen().contains(k) ==> k < next
}

/// A finite set of numbers below `n` has at most `n` elements.
pub(crate) proof fn lemma_bounded_len(s: Set<u64>, n: u64)
    requires
        s.finite(),
        forall|x: u64| s.contains(x) ==> x < n,
    ensures
        s.len() <= n,
    decreases n,
{
    if n == 0 {
        if s.len() > 0 {
            let x = s.choose();
            assert(s.contains(x));
        }
    } else {
        let m = (n - 1) as u64;
        lemma_bounded_len(s.remove(m), m);
    }
}

impl<A> Table<A> {
    /// The slot number that the next stored item will get.
    pub closed spec fn next_index(&self) -> u64 {
        self.next_handle
    }

    /// The number of sorted indices the table keeps.
    pub closed spec fn index_count(&self) -> nat {
        self.indices@.len()
    }

    /// The rule that index `i` orders (slot, item) pairs by.
    pub closed spec fn order(&self, i: int) -> KeyOrder<A> {
        self.indices@[i].ixer.order()
    }

    /// The insertion position that index `i` gave slot `h`.
    pub closed spec fn position(&self, i: int, h: u64) -> u64 {
        self.indices@[i].ixer.position(h)
    }

    /// Whether `order` lists every stored item's slot once, in the order of
    /// index `i`: by its key, ties broken by insertion position.
    pub open spec fn lists_index(&self, i: int, order: Seq<u64>) -> bool {
        lists_in_order(self.order(i).less, |h: u64| self.position(i, h), self.indexed(i), order)
    }

    /// The items as index `i` last saw them: it sees an item's value as it
    /// was stored, last set, or left by a `mutate` or relation callback,
    /// save where the callback asked `mutate` to stop.
    pub closed spec fn indexed(&self, i: int) -> Map<u64, A> {
        self.views@[i]
    }

    /// Whether each index of `new` sees the items in `refreshed`, and those
    /// that `old` did not hold, as `new` holds them, and every other item as
    /// the same index of `old` saw it.
    pub open spec fn refreshed(&self, old: &Table<A>, refreshed: Set<u64>) -> bool {
        forall|i: int, k: u64|
            0 <= i < self.index_count() && #[trigger] self.indexed(i).contains_key(k) ==> self.indexed(i)[k] == if old@.contains_key(
                k,
            ) && !refreshed.contains(k) {
                old.indexed(i)[k]
            } else {
                self@[k]
            }
    }

    /// Where a table has refreshed the items in `r`, each of its indices sees
    /// every stored item in `r`, and every item that `old` did not hold, as
    /// the table now holds it, and every other stored item as the same index
    /// of `old` saw it.
    pub proof fn lemma_refreshed_sees(&self, old: &Table<A>, r: Set<u64>, i: int, k: u64)
        requires
            self.wf(),
            self.refreshed(old, r),
            0 <= i < self.index_count(),
            self@.contains_key(k),
        ensures
            self.indexed(i).contains_key(k),
            (r.contains(k) || !old@.contains_key(k)) ==> self.indexed(i)[k] == self@[k],
            (old@.contains_key(k) && !r.contains(k)) ==> self.indexed(i)[k] == old.indexed(i)[k],
    {
        assert(self.views@[i].dom() == self.unordered@.dom());
    }

    /// A consistent table sees its own items as itself.
    pub(crate) proof fn lemma_refreshed_none(&self)
        requires
            self.wf(),
        ensures
            self.refreshed(self, Set::empty()),
    {
        assert forall|i: int, k: u64|
            0 <= i < self.index_count() && #[trigger] self.indexed(i).contains_key(k) implies self@.contains_key(k) by {
            assert(self.views@[i].dom() == self.unordered@.dom());
        }
    }

    /// Two steps compose: where `mid` sees the items in `r` afresh and
    /// `self` sees none afresh, `self` sees the items in `r` afresh, as long
    /// as no item of `old` that `mid` dropped comes back.
    pub(crate) proof fn lemma_refreshed_then(&self, mid: &Table<A>, old: &Table<A>, r: Set<u64>)
        requires
            mid.wf(),
            self.wf(),
            self.index_count() == mid.index_count(),
            mid.index_count() == old.index_count(),
            mid.refreshed(old, r),
            self.refreshed(mid, Set::empty()),
            forall|k: u64| self@.contains_key(k) && mid@.contains_key(k) ==> #[trigger] self@[k] == mid@[k],
            forall|k: u64| #[trigger] old@.contains_key(k) && self@.contains_key(k) ==> mid@.contains_key(k),
        ensures
            self.refreshed(old, r),
    {
        assert forall|i: int, k: u64|
            0 <= i < self.index_count() && #[trigger] self.indexed(i).contains_key(k) implies self.indexed(i)[k]
            == if old@.contains_key(k) && !r.contains(k) {
            old.indexed(i)[k]
        } else {
            self@[k]
        } by {
            assert(self.views@[i].dom() == self.unordered@.dom());
            assert(mid.views@[i].dom() == mid.unordered@.dom());
            if mid@.contains_key(k) {
                assert(mid.indexed(i).contains_key(k));
            }
        }
    }

    /// Whether `order` lists the slots in the order that `q` asks for.
    pub open spec fn answers(&self, q: Query<A>, order: Seq<u64>) -> bool {
        if q.is_descending() {
            self.lists_index(q.index_number() as int, order.reverse())
        } else {
            self.lists_index(q.index_number() as int, order)
        }
    }

    /// The number of relations that draw freed handles from this table.
    pub closed spec fn relation_count(&self) -> nat {
        self.relation_freelists@.len()
    }

    /// The handles freed since relation slot `i` last collected them.
    pub closed spec fn freelist(&self, i: int) -> Set<u64> {
        self.relation_freelists@[i]@
    }

    /// The table's consistency: stored slots are below the next slot number,
    /// and every index describes exactly the stored items.
    pub closed spec fn wf(&self) -> bool {
        &&& forall|k: u64| #[trigger] self.unordered@.contains_key(k) ==> k < self.next_handle
        &&& indices_ok(self.indices@, self.views@, self.next_handle)
        &&& forall|i: int| 0 <= i < self.views@.len() ==> (#[trigger] self.views@[i]).dom() == self.unordered@.dom()
        &&& self.freed_only(self.unordered@)
    }

    /// Whether every handle in a relation freelist was handed out and names
    /// none of `items`.
    pub(crate) closed spec fn freed_only(&self, items: Map<u64, A>) -> bool {
        forall|i: int, x: u64|
            0 <= i < self.relation_freelists@.len() && #[trigger] self.relation_freelists@[i]@.contains(x)
                ==> x < self.next_handle && !items.contains_key(x)
    }

    /// In a consistent table, no relation freelist holds a stored item's
    /// handle, nor one not yet handed out.
    pub proof fn lemma_freelists_hold_freed(&self)
        requires
            self.wf(),
        ensures
            forall|i: int, x: u64|
                0 <= i < self.relation_count() && #[trigger] self.freelist(i).contains(x) ==> x < self.next_index()
                    && !self@.contains_key(x),
    {
    }

    /// Whether `self` agrees with `other` in all but its relation freelists:
    /// the same consistency, items, next slot number and indices.
    pub open spec fn same_but_freelists(&self, other: &Table<A>) -> bool {
        &&& self@ == other@
        &&& forall|i: int| #[trigger] self.indexed(i) == other.indexed(i)
        &&& self.next_index() == other.next_index()
        &&& self.index_count() == other.index_count()
        &&& forall|i: int| #[trigger] self.order(i) == other.order(i)
        &&& forall|i: int, k: u64| #[trigger] self.position(i, k) == other.position(i, k)
    }

    /// Whether `self` has the same indices (by their order and insertion
    /// positions of `old`'s items) and relation freelists as `old`.
    pub open spec fn keeps_indices_and_relations(&self, old: &Table<A>) -> bool {
        &&& self.index_count() == old.index_count()
        &&& forall|i: int| 0 <= i < self.index_count() ==> #[trigger] self.order(i) == old.order(i)
        &&& forall|i: int, k: u64|
            0 <= i < self.index_count() && old@.contains_key(k) ==> #[trigger] self.position(i, k)
                == old.position(i, k)
        &&& self.relation_count() == old.relation_count()
    }

    /// Every stored item sits under a slot number below the next one.
    pub proof fn lemma_stored_below_next(&self)
        requires
            self.wf(),
        ensures
            forall|h: u64| #[trigger] self@.contains_key(h) ==> h < self.next_index(),
    {
    }

    /// Every index of a consistent table sees each stored item, and orders it
    /// by a key that a call of its key function on the item as it sees it
    /// gave.
    pub proof fn lemma_keys_called(&self, i: int)
        requires
            self.wf(),
            0 <= i < self.index_count(),
        ensures
            self.indexed(i).dom() == self@.dom(),
            forall|h: u64| #[trigger] self@.contains_key(h) ==> (self.order(i).called)(h, self.indexed(i)[h]),
    {
        assert(faithful_at(self.indices@, i, self.views@[i]));
    }

    /// Each index gives the stored items insertion positions of their own.
    pub proof fn lemma_positions_distinct(&self, i: int)
        requires
            self.wf(),
            0 <= i < self.index_count(),
        ensures
            forall|h1: u64, h2: u64|
                #![trigger self.position(i, h1), self.position(i, h2)]
                self@.contains_key(h1) && self@.contains_key(h2) && h1 != h2 ==> self.position(i, h1)
                    != self.position(i, h2),
    {
        assert(faithful_at(self.indices@, i, self.views@[i]));
        assert forall|h1: u64, h2: u64|
            self@.contains_key(h1) && self@.contains_key(h2) && h1 != h2 implies self.position(i, h1)
                != self.position(i, h2) by {
            assert(self.indices@[i].ixer.seen().contains(h1));
            assert(self.indices@[i].ixer.seen().contains(h2));
        }
    }

    /// An empty table with no indices and no relations.
    pub fn new() -> (t: Table<A>)
        ensures
            t.wf(),
            t@ == Map::<u64, A>::empty(),
            t.next_index() == 0,
            t.index_count() == 0,
            t.relation_count() == 0,
    {
        Table {
            indices: Vec::new(),
            views: Ghost(Seq::empty()),
            next_handle: 0,
            unordered: HashMap::new(),
            relation_freelists: Vec::new(),
        }
    }

    /// Brings every index up to date with the item now stored in slot `h`;
    /// `before` holds the items before that item changed or came.
    pub(crate) fn handle_update(&mut self, h: u64)
        requires
            old(self).unordered@.contains_key(h),
            h < old(self).next_handle,
            forall|k: u64| #[trigger] old(self).unordered@.contains_key(k) ==> k < old(self).next_handle,
            indices_ok(old(self).indices@, old(self).views@, old(self).next_handle),
            forall|i: int|
                0 <= i < old(self).views@.len() ==> (#[trigger] old(self).views@[i]).dom().insert(h)
                    == old(self).unordered@.dom(),
            old(self).freed_only(old(self).unordered@),
        ensures
            final(self).wf(),
            final(self).unordered == old(self).unordered,
            final(self).next_handle == old(self).next_handle,
            final(self).relation_freelists == old(self).relation_freelists,
            final(self).indices@.len() == old(self).indices@.len(),
            final(self).views@.len() == old(self).views@.len(),
            forall|i: int|
                0 <= i < old(self).views@.len() ==> #[trigger] final(self).views@[i] == old(self).views@[i].insert(
                    h,
                    old(self).unordered@[h],
                ),
            forall|i: int| 0 <= i < old(self).indices@.len() ==> {
                &&& (#[trigger] final(self).indices@[i]).ixer.order() == old(self).indices@[i].ixer.order()
                &&& final(self).indices@[i].ixer.seen() == old(self).indices@[i].ixer.seen().insert(h)
                &&& forall|k: u64| #[trigger]
                    old(self).indices@[i].ixer.seen().contains(k) ==> final(self).indices@[i].ixer.position(k)
                        == old(self).indices@[i].ixer.position(k)
                &&& !old(self).indices@[i].ixer.seen().contains(h) ==> forall|k: u64| #[trigger]
                    old(self).indices@[i].ixer.seen().contains(k) ==> old(self).indices@[i].ixer.position(k)
                        < final(self).indices@[i].ixer.position(h)
            },
    {
        let ghost old_ixers = self.indices@;
        let ghost old_views = self.views@;
        let ghost old_table = *self;
        let value = self.unordered.get(&h);
        if value.is_none() {
            return;
        }
        let value2 = value.unwrap();
        let n = self.indices.len();
        let mut pending: Vec<IndexSlot<A>> = Vec::new();
        std::mem::swap(&mut pending, &mut self.indices);
        while pending.len() > 0
            invariant
                n == old_ixers.len(),
                self.indices@.len() + pending@.len() == n,
                pending@ == old_ixers.subrange(self.indices@.len() as int, n as int),
                self.unordered == old_table.unordered,
                self.next_handle == old_table.next_handle,
                self.relation_freelists == old_table.relation_freelists,
                self.views == old_table.views,
                old_views == old_table.views@,
                *value2 == old_table.unordered@[h],
                h < self.next_handle,
                indices_ok(old_ixers, old_views, self.next_handle),
                forall|j: int| 0 <= j < self.indices@.len() ==> {
                    &&& #[trigger] faithful_at(self.indices@, j, old_views[j].insert(h, *value2))
                    &&& self.indices@[j].ixer.order() == old_ixers[j].ixer.order()
                    &&& self.indices@[j].ixer.seen() == old_ixers[j].ixer.seen().insert(h)
                    &&& forall|k: u64| #[trigger]
                        old_ixers[j].ixer.seen().contains(k) ==> self.indices@[j].ixer.position(k)
                            == old_ixers[j].ixer.position(k)
                    &&& !old_ixers[j].ixer.seen().contains(h) ==> forall|k: u64| #[trigger]
                        old_ixers[j].ixer.seen().contains(k) ==> old_ixers[j].ixer.position(k)
                            < self.indices@[j].ixer.position(h)
                },
            decreases pending@.len(),
        {
            let ghost i = self.indices@.len() as int;
            proof {
                assert(pending@[0] == old_ixers[i]);
                assert(faithful_at(old_ixers, i, old_views[i]));
                let seen = old_ixers[i].ixer.seen();
                if !seen.contains(h) {
                    lemma_bounded_len(seen.insert(h), self.next_handle);
                }
            }
            let mut slot = pending.remove(0);
            let ghost old_slot = slot;
            slot.ixer.handle_update(h, value2, Ghost(old_views[i]));
            let ghost pre = self.indices@;
            self.indices.push(slot);
            proof {
                assert(self.indices@ == pre.push(slot));
                assert(self.indices@.len() == i + 1);
                assert(self.indices@[i] == slot);
                assert(old_slot == old_ixers[i]);
                assert(self.indices@[i].ixer.indexes(old_views[i].insert(h, *value2)));
                assert(self.indices@[i].ixer.seen().finite());
                assert(faithful_at(self.indices@, i, old_views[i].insert(h, *value2)));
                assert(self.indices@[i].ixer.order() == old_ixers[i].ixer.order());
                assert(self.indices@[i].ixer.seen() == old_ixers[i].ixer.seen().insert(h));
                assert forall|j: int| 0 <= j < self.indices@.len() implies {
                    &&& #[trigger] faithful_at(self.indices@, j, old_views[j].insert(h, *value2))
                    &&& self.indices@[j].ixer.order() == old_ixers[j].ixer.order()
                    &&& self.indices@[j].ixer.seen() == old_ixers[j].ixer.seen().insert(h)
                    &&& forall|k: u64| #[trigger]
                        old_ixers[j].ixer.seen().contains(k) ==> self.indices@[j].ixer.position(k)
                            == old_ixers[j].ixer.position(k)
                    &&& !old_ixers[j].ixer.seen().contains(h) ==> forall|k: u64| #[trigger]
                        old_ixers[j].ixer.seen().contains(k) ==> old_ixers[j].ixer.position(k)
                            < self.indices@[j].ixer.position(h)
                } by {
                    if j < i {
                        assert(self.indices@[j] == pre[j]);
                        assert(faithful_at(pre, j, old_views[j].insert(h, *value2)));
                    }
                }
                assert(faithful_at(self.indices@, i, old_views[i].insert(h, *value2)));
                assert(pending@ =~= old_ixers.subrange(self.indices@.len() as int, n as int));
            }
        }
        self.views = Ghost(Seq::new(n as nat, |j: int| old_views[j].insert(h, *value2)));
        proof {
            assert forall|j: int| 0 <= j < self.views@.len() implies (#[trigger] self.views@[j]).dom()
                == self.unordered@.dom() by {
                assert(old_views[j].dom().insert(h) == self.unordered@.dom());
            }
            assert forall|j: int, k: u64|
                0 <= j < self.indices@.len() && #[trigger] self.indices@[j].ixer.seen().contains(k) implies k
                < self.next_handle by {
                assert(faithful_at(self.indices@, j, old_views[j].insert(h, *value2)));
                assert(faithful_at(old_ixers, j, old_views[j]));
            }
            assert forall|j: int| 0 <= j < old_ixers.len() implies {
                &&& (#[trigger] self.indices@[j]).ixer.order() == old_ixers[j].ixer.order()
                &&& self.indices@[j].ixer.seen() == old_ixers[j].ixer.seen().insert(h)
                &&& forall|k: u64| #[trigger]
                    old_ixers[j].ixer.seen().contains(k) ==> self.indices@[j].ixer.position(k)
                        == old_ixers[j].ixer.position(k)
                &&& !old_ixers[j].ixer.seen().contains(h) ==> forall|k: u64| #[trigger]
                    old_ixers[j].ixer.seen().contains(k) ==> old_ixers[j].ixer.position(k)
                        < self.indices@[j].ixer.position(h)
            } by {
                assert(faithful_at(self.indices@, j, old_views[j].insert(h, *value2)));
            }
        }
    }

    /// Stores `item` under a fresh handle and returns the handle.
    pub fn store(&mut self, item: A) -> (h: Handle<A>)
        requires
            old(self).wf(),
            old(self).next_index() < u64::MAX,
        ensures
            final(self).wf(),
            h.index() == old(self).next_index(),
            final(self)@ == old(self)@.insert(h.index(), item),
            final(self).next_index() == old(self).next_index() + 1,
            final(self).keeps_indices_and_relations(old(self)),
            final(self).keeps_freelists(old(self)),
            final(self).refreshed(old(self), Set::empty()),
            forall|i: int, k: u64|
                0 <= i < old(self).index_count() && #[trigger] old(self)@.contains_key(k)
                    ==> old(self).position(i, k) < #[trigger] final(self).position(i, h.index()),
    {
        let ix = self.next_handle;
        let handle = Handle::at(ix);
        let ghost before = self.unordered@;
        proof {
            assert forall|i: int| 0 <= i < self.indices@.len() implies !(
            #[trigger] self.indices@[i]).ixer.seen().contains(ix) by {
                if self.indices@[i].ixer.seen().contains(ix) {
                    assert(ix < self.next_handle);
                }
            }
        }
        self.next_handle = self.next_handle + 1;
        self.unordered.insert(ix, item);
        let ghost mid = *self;
        proof {
            assert forall|i: int| 0 <= i < self.views@.len() implies (#[trigger] self.views@[i]).dom().insert(ix)
                == self.unordered@.dom() by {
                assert(old(self).views@[i].dom() == before.dom());
            }
            assert forall|i: int, x: u64|
                0 <= i < self.relation_freelists@.len() && #[trigger] self.relation_freelists@[i]@.contains(x)
                    implies x < self.next_handle && !self.unordered@.contains_key(x) by {
                assert(old(self).relation_freelists@[i]@.contains(x));
            }
        }
        self.handle_update(ix);
        proof {
            assert(mid.indices == old(self).indices);
            assert forall|i: int, k: u64|
                0 <= i < self.index_count() && #[trigger] self.indexed(i).contains_key(k) implies self.indexed(i)[k]
                == if old(self)@.contains_key(k) && !Set::<u64>::empty().contains(k) {
                old(self).indexed(i)[k]
            } else {
                self@[k]
            } by {
                assert(self.views@[i] == old(self).views@[i].insert(ix, item));
            }
            assert forall|i: int, k: u64|
                0 <= i < self.indices@.len() && #[trigger] before.contains_key(k) implies old(
                self,
            ).position(i, k) < #[trigger] self.position(i, ix) by {
                assert(faithful_at(old(self).indices@, i, old(self).views@[i]));
                assert(!old(self).indices@[i].ixer.seen().contains(ix));
                assert(old(self).indices@[i].ixer.seen().contains(k));
                assert(self.indices@[i].ixer.position(ix) == self.position(i, ix));
            }
            assert forall|i: int, k: u64|
                0 <= i < self.index_count() && before.contains_key(k) implies #[trigger] self.position(
                i,
                k,
            ) == old(self).position(i, k) by {
                assert(faithful_at(old(self).indices@, i, old(self).views@[i]));
                assert(old(self).indices@[i].ixer.seen().contains(k));
                assert(self.indices@[i].ixer.position(k) == self.position(i, k));
            }
        }
        handle
    }

    /// Whether `self` has the same relation freelists as `old`.
    pub open spec fn keeps_freelists(&self, old: &Table<A>) -> bool {
        &&& self.relation_count() == old.relation_count()
        &&& forall|i: int| 0 <= i < self.relation_count() ==> #[trigger] self.freelist(i) == old.freelist(i)
    }

    /// Takes the item under `handle` out of the table and returns it, or
    /// returns `None` where there is none. A freed handle is recorded in the
    /// freelist of every relation that draws on the table.
    pub fn free(&mut self, handle: Handle<A>) -> (r: Option<A>)
        requires
            old(self).wf(),
        ensures
            final(self).wf(),
            r == (if old(self)@.contains_key(handle.index()) {
                Some(old(self)@[handle.index()])
            } else {
                None::<A>
            }),
            final(self)@ == old(self)@.remove(handle.index()),
            final(self).next_index() == old(self).next_index(),
            final(self).keeps_indices_and_relations(old(self)),
            final(self).refreshed(old(self), Set::empty()),
            forall|i: int|
                0 <= i < final(self).relation_count() ==> #[trigger] final(self).freelist(i) == if r is Some {
                    old(self).freelist(i).insert(handle.index())
                } else {
                    old(self).freelist(i)
                },
    {
        let h = handle.ix();
        let ghost before = self.unordered@;
        let ghost old_ixers = self.indices@;
        let ghost old_views = self.views@;
        let val = self.unordered.remove(&h);
        match val {
            None => {
                assert(self.unordered@ =~= before);
                None
            },
            Some(x) => {
                let ghost after = self.unordered@;
                let ghost old_table = *self;
                let n = self.indices.len();
                let mut pending: Vec<IndexSlot<A>> = Vec::new();
                std::mem::swap(&mut pending, &mut self.indices);
                while pending.len() > 0
                    invariant
                        n == old_ixers.len(),
                        self.indices@.len() + pending@.len() == n,
                        pending@ == old_ixers.subrange(self.indices@.len() as int, n as int),
                        self.unordered == old_table.unordered,
                        self.unordered@ == after,
                        self.next_handle == old_table.next_handle,
                        self.relation_freelists == old_table.relation_freelists,
                        self.views == old_table.views,
                        old_views == old_table.views@,
                        before.contains_key(h),
                        after == before.remove(h),
                        forall|j: int| 0 <= j < old_views.len() ==> (#[trigger] old_views[j]).dom() == before.dom(),
                        indices_ok(old_ixers, old_views, self.next_handle),
                        forall|j: int| 0 <= j < self.indices@.len() ==> {
                            &&& #[trigger] faithful_at(self.indices@, j, old_views[j].remove(h))
                            &&& self.indices@[j].ixer.order() == old_ixers[j].ixer.order()
                            &&& self.indices@[j].ixer.seen() == old_ixers[j].ixer.seen()
                            &&& forall|k: u64| #[trigger]
                                old_ixers[j].ixer.seen().contains(k) ==> self.indices@[j].ixer.position(k)
                                    == old_ixers[j].ixer.position(k)
                        },
                    decreases pending@.len(),
                {
                    let ghost i = self.indices@.len() as int;
                    proof {
                        assert(pending@[0] == old_ixers[i]);
                        assert(faithful_at(old_ixers, i, old_views[i]));
                        assert(old_views[i].contains_key(h));
                    }
                    let mut slot = pending.remove(0);
                    let ghost old_slot = slot;
                    slot.ixer.handle_free(h, &x, Ghost(old_views[i]));
                    let ghost pre = self.indices@;
                    self.indices.push(slot);
                    proof {
                        assert(self.indices@ == pre.push(slot));
                        assert(self.indices@.len() == i + 1);
                        assert(self.indices@[i] == slot);
                        assert(old_slot == old_ixers[i]);
                        assert(faithful_at(self.indices@, i, old_views[i].remove(h)));
                        assert forall|j: int| 0 <= j < self.indices@.len() implies {
                            &&& #[trigger] faithful_at(self.indices@, j, old_views[j].remove(h))
                            &&& self.indices@[j].ixer.order() == old_ixers[j].ixer.order()
                            &&& self.indices@[j].ixer.seen() == old_ixers[j].ixer.seen()
                            &&& forall|k: u64| #[trigger]
                                old_ixers[j].ixer.seen().contains(k) ==> self.indices@[j].ixer.position(k)
                                    == old_ixers[j].ixer.position(k)
                        } by {
                            if j < i {
                                assert(self.indices@[j] == pre[j]);
                                assert(faithful_at(pre, j, old_views[j].remove(h)));
                            }
                        }
                        assert(pending@ =~= old_ixers.subrange(self.indices@.len() as int, n as int));
                    }
                }
                proof {
                    assert forall|j: int, k: u64|
                        0 <= j < self.indices@.len() && #[trigger] self.indices@[j].ixer.seen().contains(k)
                        implies k < self.next_handle by {
                        assert(faithful_at(self.indices@, j, old_views[j].remove(h)));
                        assert(faithful_at(old_ixers, j, old_views[j]));
                    }
                    assert forall|j: int| 0 <= j < old_ixers.len() implies {
                        &&& (#[trigger] self.indices@[j]).ixer.order() == old_ixers[j].ixer.order()
                        &&& forall|k: u64| #[trigger]
                            old_ixers[j].ixer.seen().contains(k) ==> self.indices@[j].ixer.position(k)
                                == old_ixers[j].ixer.position(k)
                    } by {
                        assert(faithful_at(self.indices@, j, old_views[j].remove(h)));
                    }
                }
                self.views = Ghost(Seq::new(n as nat, |j: int| old_views[j].remove(h)));
                proof {
                    assert forall|j: int| 0 <= j < n implies #[trigger] faithful_at(self.indices@, j, self.views@[j]) by {
                        assert(faithful_at(self.indices@, j, old_views[j].remove(h)));
                    }
                    assert forall|j: int| 0 <= j < self.views@.len() implies (#[trigger] self.views@[j]).dom()
                        == after.dom() by {
                        assert(old_views[j].dom() == before.dom());
                    }
                }
                let m = self.relation_freelists.len();
                let ghost old_lists = self.relation_freelists@;
                let mut i: usize = 0;
                while i < m
                    invariant
                        m == self.relation_freelists@.len(),
                        m == old_lists.len(),
                        i <= m,
                        self.unordered == old_table.unordered,
                        self.next_handle == old_table.next_handle,
                        indices_ok(self.indices@, self.views@, self.next_handle),
                        self.views@ == Seq::new(n as nat, |j: int| old_views[j].remove(h)),
                        forall|j: int| 0 <= j < self.views@.len() ==> (#[trigger] self.views@[j]).dom() == after.dom(),
                        self.indices@.len() == old_ixers.len(),
                        forall|j: int| 0 <= j < old_ixers.len() ==> {
                            &&& (#[trigger] self.indices@[j]).ixer.order() == old_ixers[j].ixer.order()
                            &&& forall|k: u64| #[trigger]
                                old_ixers[j].ixer.seen().contains(k) ==> self.indices@[j].ixer.position(k)
                                    == old_ixers[j].ixer.position(k)
                        },
                        forall|j: int| 0 <= j < i ==> #[trigger] self.relation_freelists@[j]@ == old_lists[j]@.insert(h),
                        forall|j: int| i <= j < m ==> #[trigger] self.relation_freelists@[j] == old_lists[j],
                    decreases m - i,
                {
                    self.relation_freelists[i].insert(h);
                    i = i + 1;
                }
                proof {
                    assert(self.unordered@ == after);
                    assert forall|j: int, k: u64|
                        0 <= j < self.index_count() && #[trigger] self.indexed(j).contains_key(k) implies self.indexed(j)[k]
                        == if old(self)@.contains_key(k) && !Set::<u64>::empty().contains(k) {
                        old(self).indexed(j)[k]
                    } else {
                        self@[k]
                    } by {
                        assert(self.views@[j] == old_views[j].remove(h));
                    }
                    assert forall|k: u64| #[trigger] self.unordered@.contains_key(k) implies k
                        < self.next_handle by {
                        assert(before.contains_key(k));
                    }
                    assert forall|j: int| 0 <= j < self.index_count() implies #[trigger] self.order(j)
                        == old(self).order(j) by {
                        assert(self.indices@[j].ixer.order() == old_ixers[j].ixer.order());
                    }
                    assert forall|j: int, k: u64|
                        0 <= j < self.index_count() && old(self)@.contains_key(k) implies #[trigger] self.position(
                        j,
                        k,
                    ) == old(self).position(j, k) by {
                        assert(faithful_at(old_ixers, j, old_views[j]));
                        assert(old_views[j].contains_key(k));
                        assert(old_ixers[j].ixer.seen().contains(k));
                        assert(self.indices@[j].ixer.order() == old_ixers[j].ixer.order());
                    }
                }
                Some(x)
            },
        }
    }

    /// The item under `handle`, if there is one.
    pub fn seek(&self, handle: Handle<A>) -> (r: Option<&A>)
        requires
            self.wf(),
        ensures
            match r {
                Some(v) => self@.contains_key(handle.index()) && *v == self@[handle.index()],
                None => !self@.contains_key(handle.index()),
            },
    {
        self.unordered.get(&handle.ix())
    }

    pub(crate) fn next_index_exec(&self) -> (r: u64)
        ensures
            r == self.next_index(),
    {
        self.next_handle
    }

    /// Opens a fresh, empty relation freelist; returns its number.
    pub(crate) fn add_freelist(&mut self) -> (ix: usize)
        ensures
            ix == old(self).relation_count(),
            final(self).relation_count() == old(self).relation_count() + 1,
            final(self).freelist(ix as int) == Set::<u64>::empty(),
            forall|i: int| 0 <= i < old(self).relation_count() ==> #[trigger] final(self).freelist(i) == old(self).freelist(i),
            final(self).same_but_freelists(old(self)),
            final(self).wf() == old(self).wf(),
    {
        let ix = self.relation_freelists.len();
        let ghost pre = self.relation_freelists@;
        self.relation_freelists.push(HashSet::new());
        proof {
            assert forall|i: int, x: u64|
                0 <= i < pre.len() implies #[trigger] self.relation_freelists@[i]@.contains(x)
                    == pre[i]@.contains(x) by {
                assert(self.relation_freelists@[i] == pre[i]);
            }
            assert(self.relation_freelists@[ix as int]@ =~= Set::<u64>::empty());
            if old(self).freed_only(self.unordered@) {
                assert forall|i: int, x: u64|
                    0 <= i < self.relation_freelists@.len() && #[trigger] self.relation_freelists@[i]@.contains(x)
                    implies x < self.next_handle && !self.unordered@.contains_key(x) by {
                    if i < pre.len() {
                        assert(pre[i]@.contains(x));
                    }
                }
            }
            if self.freed_only(self.unordered@) {
                assert forall|i: int, x: u64|
                    0 <= i < pre.len() && #[trigger] pre[i]@.contains(x)
                    implies x < self.next_handle && !self.unordered@.contains_key(x) by {
                    assert(self.relation_freelists@[i]@.contains(x));
                }
            }
        }
        ix
    }

    /// Read access to relation freelist `ix`.
    pub(crate) fn freelist_ref(&self, ix: usize) -> (r: &HashSet<u64>)
        requires
            ix < self.relation_count(),
        ensures
            r@ == self.freelist(ix as int),
    {
        &self.relation_freelists[ix]
    }

    /// Read access to the stored items.
    pub(crate) fn store_ref(&self) -> (r: &HashMap<u64, A>)
        ensures
            r@ == self@,
    {
        &self.unordered
    }

    /// Write access to relation freelist `ix` together with read access to
    /// the stored items.
    pub(crate) fn relation_parts(&mut self, ix: usize) -> (r: (&mut HashSet<u64>, &HashMap<u64, A>))
        requires
            ix < old(self).relation_count(),
        ensures
            r.0@ == old(self).freelist(ix as int),
            r.1@ == old(self)@,
            final(self).same_but_freelists(old(self)),
            final(self).relation_count() == old(self).relation_count(),
            final(self).freelist(ix as int) == final(r.0)@,
            forall|i: int|
                0 <= i < old(self).relation_count() && i != ix ==> #[trigger] final(self).freelist(i)
                    == old(self).freelist(i),
            old(self).wf() && final(r.0)@.subset_of(old(self).freelist(ix as int)) ==> final(self).wf(),
    {
        (&mut self.relation_freelists[ix], &self.unordered)
    }

    /// Whether the table is consistent but for the item under `h`, which it
    /// held in `before` and which is out for a change.
    pub(crate) closed spec fn suspended(&self, before: Map<u64, A>, h: u64) -> bool {
        &&& before.contains_key(h)
        &&& h < self.next_handle
        &&& forall|k: u64| #[trigger] before.contains_key(k) ==> k < self.next_handle
        &&& indices_ok(self.indices@, self.views@, self.next_handle)
        &&& forall|i: int| 0 <= i < self.views@.len() ==> (#[trigger] self.views@[i]).dom() == before.dom()
        &&& self.unordered@ == before.remove(h)
        &&& self.freed_only(before)
    }

    /// Takes the item under `h` out for a change; `put_back` returns it.
    pub(crate) fn take_item(&mut self, h: u64) -> (v: A)
        requires
            old(self).wf(),
            old(self)@.contains_key(h),
        ensures
            final(self).suspended(old(self)@, h),
            v == old(self)@[h],
            final(self).next_index() == old(self).next_index(),
            final(self).index_count() == old(self).index_count(),
            forall|i: int| #[trigger] final(self).order(i) == old(self).order(i),
            forall|i: int, k: u64| #[trigger] final(self).position(i, k) == old(self).position(i, k),
            forall|i: int| #[trigger] final(self).indexed(i) == old(self).indexed(i),
            final(self).keeps_freelists(old(self)),
    {
        self.unordered.remove(&h).unwrap()
    }

    /// Stores `v` under `h` again after a change, and brings the indices up
    /// to date with it.
    pub(crate) fn put_back(&mut self, h: u64, v: A, before: Ghost<Map<u64, A>>)
        requires
            old(self).suspended(before@, h),
        ensures
            final(self).wf(),
            final(self)@ == before@.insert(h, v),
            final(self).next_index() == old(self).next_index(),
            final(self).index_count() == old(self).index_count(),
            forall|i: int|
                0 <= i < final(self).index_count() ==> #[trigger] final(self).order(i) == old(self).order(i),
            forall|i: int, k: u64|
                0 <= i < final(self).index_count() && before@.contains_key(k) ==> #[trigger] final(self).position(i, k)
                    == old(self).position(i, k),
            forall|i: int|
                0 <= i < final(self).index_count() ==> #[trigger] final(self).indexed(i) == old(self).indexed(i).insert(h, v),
            final(self).keeps_freelists(old(self)),
    {
        let ghost old_table = *self;
        self.unordered.insert(h, v);
        proof {
            assert(self.unordered@ == before@.insert(h, v));
            assert forall|k: u64| #[trigger] self.unordered@.contains_key(k) implies k < self.next_handle by {
                if k != h {
                    assert(before@.contains_key(k));
                }
            }
            assert forall|i: int| 0 <= i < self.views@.len() implies (#[trigger] self.views@[i]).dom().insert(h)
                == self.unordered@.dom() by {
                assert(self.views@[i].dom() == before@.dom());
            }
            assert forall|i: int, x: u64|
                0 <= i < self.relation_freelists@.len() && #[trigger] self.relation_freelists@[i]@.contains(x)
                    implies x < self.next_handle && !self.unordered@.contains_key(x) by {
            }
        }
        self.handle_update(h);
        proof {
            assert forall|i: int, k: u64|
                0 <= i < self.index_count() && before@.contains_key(k) implies #[trigger] self.position(i, k)
                == old_table.position(i, k) by {
                assert(faithful_at(old_table.indices@, i, old_table.views@[i]));
                assert(old_table.views@[i].contains_key(k));
                assert(old_table.indices@[i].ixer.seen().contains(k));
                assert(self.indices@[i].ixer.position(k) == self.position(i, k));
            }
            assert forall|i: int| 0 <= i < self.index_count() implies #[trigger] self.order(i)
                == old_table.order(i) by {
                assert(self.indices@[i].ixer.order() == self.order(i));
            }
        }
    }

    /// Stores `v` under `h` again after a change, leaving every index seeing
    /// the item as it was before the change.
    pub(crate) fn put_back_stale(&mut self, h: u64, v: A, before: Ghost<Map<u64, A>>)
        requires
            old(self).suspended(before@, h),
        ensures
            final(self).wf(),
            final(self)@ == before@.insert(h, v),
            final(self).next_index() == old(self).next_index(),
            final(self).index_count() == old(self).index_count(),
            forall|i: int| #[trigger] final(self).order(i) == old(self).order(i),
            forall|i: int, k: u64| #[trigger] final(self).position(i, k) == old(self).position(i, k),
            forall|i: int| #[trigger] final(self).indexed(i) == old(self).indexed(i),
            final(self).keeps_freelists(old(self)),
    {
        self.unordered.insert(h, v);
        proof {
            assert(self.unordered@ == before@.insert(h, v));
            assert(before@.insert(h, v).dom() =~= before@.dom());
            assert forall|k: u64| #[trigger] self.unordered@.contains_key(k) implies k < self.next_handle by {
                assert(before@.contains_key(k));
            }
            assert forall|i: int, x: u64|
                0 <= i < self.relation_freelists@.len() && #[trigger] self.relation_freelists@[i]@.contains(x)
                    implies x < self.next_handle && !self.unordered@.contains_key(x) by {
            }
        }
    }

    /// The slot numbers of the stored items, in the order that `base` asks
    /// for.
    pub(crate) fn query_order(&self, base: &Query<A>) -> (r: Vec<u64>)
        requires
            self.wf(),
            base.index_number() < self.index_count(),
        ensures
            self.answers(*base, r@),
            forall|j: int| 0 <= j < r@.len() ==> self@.contains_key(#[trigger] r@[j]),
            r@.no_duplicates(),
    {
        proof {
            assert(faithful_at(self.indices@, base.index_number() as int, self.views@[base.index_number() as int]));
        }
        let hs = base.run(&self.indices, Ghost(self.views@[base.index_number() as int]));
        proof {
            assert(self.views@[base.index_number() as int].dom() == self.unordered@.dom());
            assert forall|j: int| 0 <= j < hs@.len() implies self@.contains_key(#[trigger] hs@[j]) by {
                if base.is_descending() {
                    let rv = hs@.reverse();
                    assert(rv[hs@.len() - 1 - j] == hs@[j]);
                    assert(rv.contains(hs@[j]));
                } else {
                    assert(hs@.contains(hs@[j]));
                }
            }
            if base.is_descending() {
                let rv = hs@.reverse();
                assert forall|i: int, j: int| 0 <= i < hs@.len() && 0 <= j < hs@.len() && i != j implies hs@[i] != hs@[j] by {
                    assert(rv[hs@.len() - 1 - i] == hs@[i]);
                    assert(rv[hs@.len() - 1 - j] == hs@[j]);
                }
            }
        }
        hs
    }

    /// Every stored item with its handle, in the order that `base` asks for.
    pub fn resolve<'a>(&'a self, base: Query<A>) -> (r: Vec<(Handle<A>, &'a A)>)
        requires
            self.wf(),
            base.index_number() < self.index_count(),
        ensures
            self.answers(base, r@.map_values(|p: (Handle<A>, &A)| p.0.index())),
            forall|i: int|
                0 <= i < r@.len() ==> self@.contains_key((#[trigger] r@[i]).0.index()) && *r@[i].1
                    == self@[r@[i].0.index()],
    {
        proof {
            assert(faithful_at(self.indices@, base.index_number() as int, self.views@[base.index_number() as int]));
        }
        let hs = base.run(&self.indices, Ghost(self.views@[base.index_number() as int]));
        proof {
            assert(self.views@[base.index_number() as int].dom() == self.unordered@.dom());
            assert forall|j: int| 0 <= j < hs@.len() implies self@.contains_key(#[trigger] hs@[j]) by {
                if base.is_descending() {
                    let rv = hs@.reverse();
                    assert(rv[hs@.len() - 1 - j] == hs@[j]);
                    assert(rv.contains(hs@[j]));
                } else {
                    assert(hs@.contains(hs@[j]));
                }
            }
        }
        let mut out: Vec<(Handle<A>, &'a A)> = Vec::new();
        let mut i: usize = 0;
        while i < hs.len()
            invariant
                i <= hs@.len(),
                out@.len() == i,
                self.wf(),
                forall|j: int| 0 <= j < hs@.len() ==> self@.contains_key(#[trigger] hs@[j]),
                forall|j: int| 0 <= j < i ==> (#[trigger] out@[j]).0.index() == hs@[j],
                forall|j: int|
                    0 <= j < i ==> self@.contains_key((#[trigger] out@[j]).0.index()) && *out@[j].1
                        == self@[out@[j].0.index()],
            decreases hs@.len() - i,
        {
            let h = hs[i];
            let v = self.unordered.get(&h).unwrap();
            out.push((Handle::at(h), v));
            i = i + 1;
        }
        proof {
            assert(out@.map_values(|p: (Handle<A>, &A)| p.0.index()) =~= hs@);
        }
        out
    }

    /// Adds an index that already describes the stored items; returns its
    /// number.
    pub(crate) fn add_index(&mut self, slot: IndexSlot<A>) -> (ix: usize)
        requires
            old(self).wf(),
            indices_ok(seq![slot], seq![old(self)@], old(self).next_index()),
        ensures
            final(self).wf(),
            ix == old(self).index_count(),
            final(self).indexed(ix as int) == old(self)@,
            forall|i: int| 0 <= i < old(self).index_count() ==> #[trigger] final(self).indexed(i) == old(self).indexed(i),
            final(self)@ == old(self)@,
            final(self).next_index() == old(self).next_index(),
            final(self).index_count() == old(self).index_count() + 1,
            final(self).order(ix as int) == slot.ixer.order(),
            forall|k: u64| #[trigger] final(self).position(ix as int, k) == slot.ixer.position(k),
            forall|i: int, k: u64| 0 <= i < old(self).index_count() ==> #[trigger] final(self).position(i, k) == old(self).position(i, k),
            forall|i: int| 0 <= i < old(self).index_count() ==> #[trigger] final(self).order(i) == old(self).order(i),
            final(self).keeps_freelists(old(self)),
    {
        let ix = self.indices.len();
        let ghost pre = self.indices@;
        let ghost pre_views = self.views@;
        self.indices.push(slot);
        self.views = Ghost(pre_views.push(self.unordered@));
        proof {
            assert(self.indices@ == pre.push(slot));
            assert(self.indices@.len() == ix + 1);
            assert(self.indices@[ix as int] == slot);
            assert(faithful_at(seq![slot], 0, seq![old(self)@][0]));
            assert(seq![old(self)@][0] == self.unordered@);
            assert forall|i: int| 0 <= i < self.indices@.len() implies #[trigger] faithful_at(self.indices@, i, self.views@[i]) by {
                if i < ix {
                    assert(self.indices@[i] == pre[i]);
                    assert(faithful_at(pre, i, pre_views[i]));
                }
            }
            assert forall|i: int| 0 <= i < self.views@.len() implies (#[trigger] self.views@[i]).dom() == self.unordered@.dom() by {
                if i < ix {
                    assert(self.views@[i] == pre_views[i]);
                }
            }
            assert forall|i: int, k: u64|
                0 <= i < self.indices@.len() && #[trigger] self.indices@[i].ixer.seen().contains(k) implies k < self.next_handle by {
                if i < ix {
                    assert(self.indices@[i] == pre[i]);
                } else {
                    assert(seq![slot][0] == slot);
                }
            }
            assert forall|i: int, k: u64| 0 <= i < pre.len() implies #[trigger] self.position(i, k) == old(self).position(i, k) by {
                assert(self.indices@[i] == pre[i]);
            }
            assert forall|i: int| 0 <= i < pre.len() implies #[trigger] self.order(i) == old(self).order(i) by {
                assert(self.indices@[i] == pre[i]);
            }
        }
        ix
    }

    /// Write access to the item under `handle`, if there is one. Every
    /// change made through the returned guard is carried into the indices.
    pub fn seek_mut<'a>(&'a mut self, handle: Handle<A>) -> (r: Option<TableMutRef<'a, A>>)
        requires
            old(self).wf(),
        ensures
            match r {
                Some(m) => {
                    &&& old(self)@.contains_key(handle.index())
                    &&& m.handle == handle
                    &&& *m.table == *old(self)
                    &&& *final(self) == *final(m.table)
                },
                None => {
                    &&& !old(self)@.contains_key(handle.index())
                    &&& *final(self) == *old(self)
                },
            },
    {
        if !self.unordered.contains_key(&handle.ix()) {
            return None;
        }
        Some(TableMutRef { table: self, handle })
    }
}

/// Write access to one stored item; see `Table::seek_mut`.
#[verifier::reject_recursive_types(A)]
pub struct TableMutRef<'a, A> {
    pub table: &'a mut Table<A>,
    pub handle: Handle<A>,
}

impl<'a, A> TableMutRef<'a, A> {
    /// Whether the guard's table is consistent and holds the guarded item.
    pub open spec fn wf(&self) -> bool {
        &&& self.table.wf()
        &&& self.table@.contains_key(self.handle.index())
    }

    /// The guarded item's current value.
    pub open spec fn item(&self) -> A {
        self.table@[self.handle.index()]
    }

    /// The guarded item.
    pub fn deref(&self) -> (r: &A)
        requires
            self.wf(),
        ensures
            *r == self.item(),
    {
        self.table.unordered.get(&self.handle.ix()).unwrap()
    }

    /// Replaces the guarded item with `value` and brings the indices up to
    /// date with it.
    pub fn set(&mut self, value: A)
        requires
            old(self).wf(),
        ensures
            final(self).wf(),
            final(self).handle == old(self).handle,
            final(self).table@ == old(self).table@.insert(old(self).handle.index(), value),
            final(self).table.next_index() == old(self).table.next_index(),
            final(self).table.keeps_indices_and_relations(&*old(self).table),
            final(self).table.keeps_freelists(&*old(self).table),
            forall|i: int|
                0 <= i < final(self).table.index_count() ==> #[trigger] final(self).table.indexed(i)
                    == old(self).table.indexed(i).insert(old(self).handle.index(), value),
            *final(final(self).table) == *final(old(self).table),
    {
        let h = self.handle.ix();
        let ghost before = self.table.unordered@;
        let ghost old_table = *self.table;
        self.table.unordered.insert(h, value);
        proof {
            assert forall|k: u64| #[trigger] self.table.unordered@.contains_key(k) implies k < self.table.next_handle by {
                if k != h {
                    assert(before.contains_key(k));
                }
            }
            assert forall|i: int| 0 <= i < self.table.views@.len() implies (#[trigger] self.table.views@[i]).dom().insert(h)
                == self.table.unordered@.dom() by {
                assert(old_table.views@[i].dom() == before.dom());
            }
            assert forall|i: int, x: u64|
                0 <= i < self.table.relation_freelists@.len() && #[trigger] self.table.relation_freelists@[i]@.contains(x)
                    implies x < self.table.next_handle && !self.table.unordered@.contains_key(x) by {
                assert(old_table.relation_freelists@[i]@.contains(x));
            }
        }
        self.table.handle_update(h);
        proof {
            assert forall|i: int, k: u64|
                0 <= i < self.table.index_count() && old_table@.contains_key(k) implies #[trigger] self.table.position(
                i,
                k,
            ) == old_table.position(i, k) by {
                assert(faithful_at(old_table.indices@, i, old_table.views@[i]));
                assert(old_table.indices@[i].ixer.seen().contains(k));
                assert(self.table.indices@[i].ixer.position(k) == self.table.position(i, k));
            }
            assert forall|i: int| 0 <= i < self.table.index_count() implies #[trigger] self.table.order(i)
                == old_table.order(i) by {
                assert(self.table.indices@[i].ixer.order() == self.table.order(i));
            }
        }
    }
}


/// A stored item can be read back under its handle: after `h = t.store(item)`,
/// `t.seek(h)` gives `item`, and every other item reads as before.
pub proof fn lemma_store_then_seek<A>(before: Table<A>, after: Table<A>, h: Handle<A>, item: A)
    requires
        before.wf(),
        h.index() == before.next_index(),
        after@ == before@.insert(h.index(), item),
    ensures
        !before@.contains_key(h.index()),
        after@.contains_key(h.index()),
        after@[h.index()] == item,
        forall|k: u64| #[trigger] before@.contains_key(k) ==> after@.contains_key(k) && after@[k] == before@[k] && k != h.index(),
{
    before.lemma_stored_below_next();
}

/// A freed item is gone: after `t.free(h)`, `t.seek(h)` gives `None`, and
/// every other item reads as before.
pub proof fn lemma_free_then_seek<A>(before: Table<A>, after: Table<A>, h: Handle<A>)
    requires
        after@ == before@.remove(h.index()),
    ensures
        !after@.contains_key(h.index()),
        forall|k: u64| k != h.index() ==> (#[trigger] after@.contains_key(k) == before@.contains_key(k)),
        forall|k: u64| k != h.index() && #[trigger] after@.contains_key(k) ==> after@[k] == before@[k],
{
}

/// Freeing what was just stored gives back the stored item and leaves the
/// items as they were before the store.
pub proof fn lemma_store_then_free<A>(before: Table<A>, h: Handle<A>, item: A)
    requires
        before.wf(),
        h.index() == before.next_index(),
    ensures
        before@.insert(h.index(), item).remove(h.index()) == before@,
        before@.insert(h.index(), item)[h.index()] == item,
{
    before.lemma_stored_below_next();
    assert(before@.insert(h.index(), item).remove(h.index()) =~= before@);
}

/// Handles are never handed out twice: a handle that `store` gives is not
/// that of any item stored or freed before, since each one's slot number is
/// below the next.
pub proof fn lemma_handles_fresh<A>(before: Table<A>, after: Table<A>, h: Handle<A>, earlier: Handle<A>)
    requires
        before.wf(),
        h.index() == before.next_index(),
        after.next_index() == before.next_index() + 1,
        earlier.index() < before.next_index(),
    ensures
        h != earlier,
        h.index() < after.next_index(),
{
}

} // verus!
